use vstd::prelude::*;

verus! {

/// Unanswered sends after which every further resend is reported as a
/// failure (the sender still keeps trying).
pub const REPORT_AFTER: i32 = 5;

/// What the sender does once it has waited for the relay's answer.
pub enum ReplyStep {
    /// The relay answered: the message arrived.
    Delivered,
    /// No answer: send the message again, and report the failure when
    /// `report_failure` is set.
    Resend { report_failure: bool },
}

/// State of a send that insists until the relay acknowledges it.
pub struct SendRetry {
    /// Number of times the wait for an answer has failed so far.
    pub attempts: i32,
}

/// Whether a resend after `attempts` failed waits is reported.
pub open spec fn reports_failure(attempts: int) -> bool {
    attempts >= REPORT_AFTER
}

impl SendRetry {
    /// A send that has not waited yet.
    pub fn new() -> (retry: Self)
        ensures
            retry.attempts == 0,
    {
        SendRetry { attempts: 0 }
    }

    /// Decides what follows a wait for the relay's answer: an answer ends
    /// the send; a missing answer counts one more failed attempt and asks
    /// for a resend, reported once `REPORT_AFTER` attempts have failed.
    pub fn on_reply(&mut self, answered: bool) -> (step: ReplyStep)
        requires
            !answered ==> old(self).attempts < i32::MAX,
        ensures
            answered ==> step == ReplyStep::Delivered && final(self).attempts == old(
                self,
            ).attempts,
            !answered ==> final(self).attempts == old(self).attempts + 1 && step
                == (ReplyStep::Resend {
                report_failure: reports_failure(final(self).attempts as int),
            }),
    {
        if answered {
            ReplyStep::Delivered
        } else {
            self.attempts = self.attempts + 1;
            ReplyStep::Resend { report_failure: self.attempts >= REPORT_AFTER }
        }
    }
}

/// Once a failed send is reported, every later resend of the same message is
/// reported too.
pub proof fn lemma_report_is_sticky(attempts: int, later: int)
    requires
        reports_failure(attempts),
        attempts <= later,
    ensures
        reports_failure(later),
{
}

/// Starting from a fresh send, the first four resends are quiet and every
/// resend from the fifth on is reported.
pub proof fn lemma_first_report(resends: int)
    requires
        1 <= resends,
    ensures
        reports_failure(resends) <==> resends >= 5,
        !reports_failure(4),
        reports_failure(5),
{
}

} // verus!
