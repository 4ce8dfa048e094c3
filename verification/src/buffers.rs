use std::collections::HashMap;
use vstd::prelude::*;

use crate::chunks::{
    full_chunk_count, full_chunks, lemma_chunks_reassemble, nested_view, take_full_chunks,
};

verus! {

broadcast use vstd::std_specs::hash::group_hash_axioms;

/// Number of interleaved channels in a decoded frame.
pub const DECODED_CHANNELS: usize = 2;

/// Capacity that a freshly opened stream reserves.
pub const STREAM_CAPACITY: usize = 1000;

/// One sample queue per peer, keyed by the peer's one-byte id.
pub struct StreamBuffers<T> {
    queues: HashMap<u8, Vec<T>>,
}

impl<T> View for StreamBuffers<T> {
    type V = Map<u8, Seq<T>>;

    /// The queued samples of every open stream.
    closed spec fn view(&self) -> Map<u8, Seq<T>> {
        Map::new(|k: u8| self.queues@.contains_key(k), |k: u8| self.queues@[k]@)
    }
}

/// Samples that `drain_for_output` takes from a queue for a block of
/// `out_len` output samples: as many as the block holds, or all there are.
pub open spec fn block_share<T>(q: Seq<T>, out_len: nat) -> Seq<T> {
    if q.len() <= out_len {
        q
    } else {
        q.take(out_len as int)
    }
}

/// What stays queued after `block_share` was taken.
pub open spec fn after_block<T>(q: Seq<T>, out_len: nat) -> Seq<T> {
    if q.len() <= out_len {
        Seq::empty()
    } else {
        q.skip(out_len as int)
    }
}

/// The open stream ids below `bound`, in ascending order.
pub open spec fn open_ids_below<T>(m: Map<u8, Seq<T>>, bound: nat) -> Seq<u8>
    decreases bound,
{
    if bound == 0 {
        Seq::empty()
    } else {
        let prev = open_ids_below(m, (bound - 1) as nat);
        if m.contains_key((bound - 1) as u8) {
            prev.push((bound - 1) as u8)
        } else {
            prev
        }
    }
}

/// Every open stream id, in ascending order.
pub open spec fn open_ids<T>(m: Map<u8, Seq<T>>) -> Seq<u8> {
    open_ids_below(m, 256)
}

/// The views of a list of (stream id, samples) pairs.
pub open spec fn pairs_view<T>(v: Seq<(u8, Vec<T>)>) -> Seq<(u8, Seq<T>)> {
    v.map_values(|p: (u8, Vec<T>)| (p.0, p.1@))
}

/// What `drain_for_output` hands out: for every open stream, in ascending id
/// order, its id and its share of the block.
pub open spec fn block_shares<T>(m: Map<u8, Seq<T>>, out_len: nat) -> Seq<(u8, Seq<T>)> {
    open_ids(m).map_values(|id: u8| (id, block_share(m[id], out_len)))
}

/// The streams after `drain_for_output`: the same ids, each without its share.
pub open spec fn after_blocks<T>(m: Map<u8, Seq<T>>, out_len: nat) -> Map<u8, Seq<T>> {
    Map::new(|k: u8| m.contains_key(k), |k: u8| after_block(m[k], out_len))
}

/// One change that `StreamBuffers` makes to its queues.
pub enum QueueOp<T> {
    /// `open_stream(id)`.
    Open(u8),
    /// `push_decoded` or `append` of these samples to the queue of `id`.
    Push(u8, Seq<T>),
    /// `take_chunks(id, chunk_len)`.
    TakeChunks(u8, nat),
    /// `drain_for_output(out_len)`.
    Drain(nat),
}

/// The queues after one change.
pub open spec fn apply_op<T>(m: Map<u8, Seq<T>>, op: QueueOp<T>) -> Map<u8, Seq<T>> {
    match op {
        QueueOp::Open(id) => m.insert(id, Seq::empty()),
        QueueOp::Push(id, s) => if m.contains_key(id) {
            m.insert(id, m[id] + s)
        } else {
            m
        },
        QueueOp::TakeChunks(id, c) => if m.contains_key(id) {
            m.insert(id, m[id].skip((full_chunk_count(m[id].len(), c) * c) as int))
        } else {
            m
        },
        QueueOp::Drain(out_len) => after_blocks(m, out_len),
    }
}

/// The queues after a series of changes, applied in order.
pub open spec fn apply_ops<T>(m: Map<u8, Seq<T>>, ops: Seq<QueueOp<T>>) -> Map<u8, Seq<T>>
    decreases ops.len(),
{
    if ops.len() == 0 {
        m
    } else {
        apply_op(apply_ops(m, ops.drop_last()), ops.last())
    }
}

/// A stream, once open, stays open through any series of changes.
pub proof fn lemma_open_stays_open<T>(m: Map<u8, Seq<T>>, ops: Seq<QueueOp<T>>, id: u8)
    requires
        m.contains_key(id),
    ensures
        apply_ops(m, ops).contains_key(id),
    decreases ops.len(),
{
    if ops.len() > 0 {
        lemma_open_stays_open(m, ops.drop_last(), id);
    }
}

/// Once the stream of `id` is opened, whatever changes follow, samples
/// pushed for `id` are queued at the end of its queue: before it is opened
/// they are dropped, after it they are kept.
pub proof fn lemma_pushes_after_open_are_queued<T>(
    m: Map<u8, Seq<T>>,
    ops: Seq<QueueOp<T>>,
    id: u8,
    samples: Seq<T>,
)
    ensures
        ({
            let before = apply_ops(m, seq![QueueOp::Open(id)] + ops);
            let after = apply_ops(m, seq![QueueOp::Open(id)] + ops + seq![QueueOp::Push(id, samples)]);
            &&& before.contains_key(id)
            &&& after == before.insert(id, before[id] + samples)
        }),
        !m.contains_key(id) ==> apply_op(m, QueueOp::Push(id, samples)) == m,
{
    let opened = seq![QueueOp::Open(id)];
    assert(apply_ops(m, opened) == apply_op(apply_ops(m, opened.drop_last()), QueueOp::Open(id)));
    assert(opened.drop_last() =~= Seq::<QueueOp<T>>::empty());
    lemma_apply_ops_concat(m, opened, ops);
    lemma_open_stays_open(apply_ops(m, opened), ops, id);
    let all = opened + ops + seq![QueueOp::Push(id, samples)];
    assert(all.drop_last() =~= opened + ops);
}

/// Applying two series of changes one after the other is applying their
/// concatenation.
proof fn lemma_apply_ops_concat<T>(m: Map<u8, Seq<T>>, a: Seq<QueueOp<T>>, b: Seq<QueueOp<T>>)
    ensures
        apply_ops(m, a + b) == apply_ops(apply_ops(m, a), b),
    decreases b.len(),
{
    if b.len() == 0 {
        assert(a + b =~= a);
    } else {
        lemma_apply_ops_concat(m, a, b.drop_last());
        assert((a + b).drop_last() =~= a + b.drop_last());
        assert((a + b).last() == b.last());
    }
}

/// One step of the resampling worker of a stream: the whole chunks leave
/// the input queue in order and the shorter tail of `len % chunk_len`
/// samples stays; the chunks laid end to end followed by that tail give back
/// the queue; and the outputs made of the chunks, one per chunk, are added in
/// order at the end of the output queue. Both queues stay open.
pub proof fn lemma_resample_step<T>(
    inbox: Map<u8, Seq<T>>,
    outbox: Map<u8, Seq<T>>,
    id: u8,
    chunk_len: nat,
    outputs: Seq<Seq<T>>,
)
    requires
        inbox.contains_key(id),
        outbox.contains_key(id),
        chunk_len > 0,
        outputs.len() == full_chunks(inbox[id], chunk_len).len(),
    ensures
        ({
            let q = inbox[id];
            let after_in = apply_op(inbox, QueueOp::TakeChunks(id, chunk_len));
            let after_out = apply_op(outbox, QueueOp::Push(id, outputs.flatten()));
            &&& full_chunks(q, chunk_len).flatten() + after_in[id] == q
            &&& after_in[id].len() == q.len() % chunk_len
            &&& after_out[id] == outbox[id] + outputs.flatten()
            &&& after_in.dom() == inbox.dom()
            &&& after_out.dom() == outbox.dom()
        }),
{
    let q = inbox[id];
    lemma_chunks_reassemble(q, chunk_len);
    let after_in = apply_op(inbox, QueueOp::TakeChunks(id, chunk_len));
    assert(after_in.dom() =~= inbox.dom());
    assert(apply_op(outbox, QueueOp::Push(id, outputs.flatten())).dom() =~= outbox.dom());
}

impl<T: Copy> StreamBuffers<T> {
    /// No stream is open.
    pub fn new() -> (buffers: Self)
        ensures
            buffers@ == Map::<u8, Seq<T>>::empty(),
    {
        let buffers = StreamBuffers { queues: HashMap::new() };
        assert(buffers@ =~= Map::<u8, Seq<T>>::empty());
        buffers
    }

    /// Opens the stream of peer `id` with an empty queue; a stream already
    /// open under that id loses what it had queued.
    pub fn open_stream(&mut self, id: u8)
        ensures
            final(self)@ == old(self)@.insert(id, Seq::empty()),
            final(self)@ == apply_op(old(self)@, QueueOp::Open(id)),
            final(self)@.dom() == old(self)@.dom().insert(id),
    {
        self.queues.insert(id, Vec::with_capacity(STREAM_CAPACITY));
        assert(self@ =~= old(self)@.insert(id, Seq::empty()));
    }

    /// Whether the stream of peer `id` is open.
    pub fn is_open(&self, id: u8) -> (open: bool)
        ensures
            open == self@.contains_key(id),
    {
        self.queues.contains_key(&id)
    }

    /// Number of samples queued for peer `id`, if its stream is open.
    pub fn queued(&self, id: u8) -> (n: Option<usize>)
        ensures
            n == (if self@.contains_key(id) {
                Some(self@[id].len() as usize)
            } else {
                None::<usize>
            }),
    {
        match self.queues.get(&id) {
            Some(q) => Some(q.len()),
            None => None,
        }
    }

    /// Takes the queue of an open stream out of the map, leaving the other
    /// streams as they were.
    fn take_queue(&mut self, id: u8) -> (q: Vec<T>)
        requires
            old(self)@.contains_key(id),
        ensures
            q@ == old(self)@[id],
            final(self).queues@ == old(self).queues@.remove(id),
    {
        match self.queues.remove(&id) {
            Some(q) => q,
            None => Vec::new(),
        }
    }

    /// Puts a queue back under `id`.
    fn put_queue(&mut self, id: u8, q: Vec<T>)
        ensures
            final(self).queues@ == old(self).queues@.insert(id, q),
    {
        self.queues.insert(id, q);
    }

    /// Queues a decoded frame for peer `id`: the first `frames` samples of
    /// each of the two interleaved channels, that is the first
    /// `2 * frames` values of `decoded`. A frame for a peer whose stream is
    /// not open is dropped. Returns whether it was queued.
    pub fn push_decoded(&mut self, id: u8, decoded: &[T], frames: usize) -> (queued: bool)
        requires
            old(self)@.contains_key(id) ==> DECODED_CHANNELS * frames <= decoded@.len(),
        ensures
            queued == old(self)@.contains_key(id),
            queued ==> final(self)@ == old(self)@.insert(
                id,
                old(self)@[id] + decoded@.take(DECODED_CHANNELS * frames),
            ),
            !queued ==> final(self)@ == old(self)@,
            final(self)@ == apply_op(
                old(self)@,
                QueueOp::Push(id, decoded@.take(DECODED_CHANNELS * frames)),
            ),
            final(self)@.dom() == old(self)@.dom(),
    {
        if !self.queues.contains_key(&id) {
            return false;
        }
        let len = decoded.len();
        let n = DECODED_CHANNELS * frames;
        let mut q = self.take_queue(id);
        let ghost q0 = q@;
        let mut i: usize = 0;
        while i < n
            invariant
                i <= n <= decoded@.len(),
                q@ == q0 + decoded@.take(i as int),
            decreases n - i,
        {
            q.push(decoded[i]);
            i = i + 1;
            assert(q@ =~= q0 + decoded@.take(i as int));
        }
        self.put_queue(id, q);
        assert(self@ =~= old(self)@.insert(id, old(self)@[id] + decoded@.take(n as int)));
        true
    }

    /// Moves `samples` to the end of the queue of peer `id` if its stream is
    /// open; otherwise they are dropped. Returns whether they were queued.
    pub fn append(&mut self, id: u8, samples: Vec<T>) -> (queued: bool)
        ensures
            queued == old(self)@.contains_key(id),
            queued ==> final(self)@ == old(self)@.insert(id, old(self)@[id] + samples@),
            !queued ==> final(self)@ == old(self)@,
            final(self)@ == apply_op(old(self)@, QueueOp::Push(id, samples@)),
            final(self)@.dom() == old(self)@.dom(),
    {
        if !self.queues.contains_key(&id) {
            return false;
        }
        let ghost added = samples@;
        let mut q = self.take_queue(id);
        let mut samples = samples;
        q.append(&mut samples);
        self.put_queue(id, q);
        assert(self@ =~= old(self)@.insert(id, old(self)@[id] + added));
        true
    }

    /// Removes every whole chunk of `chunk_len` samples from the front of the
    /// queue of peer `id`, in order; the shorter tail stays queued. `None`
    /// when the stream is not open, and then nothing changes.
    pub fn take_chunks(&mut self, id: u8, chunk_len: usize) -> (chunks: Option<Vec<Vec<T>>>)
        requires
            chunk_len > 0,
        ensures
            chunks is Some == old(self)@.contains_key(id),
            chunks matches Some(c) ==> {
                &&& nested_view(c@) == full_chunks(old(self)@[id], chunk_len as nat)
                &&& final(self)@ == old(self)@.insert(
                    id,
                    old(self)@[id].skip(
                        (full_chunk_count(old(self)@[id].len(), chunk_len as nat)
                            * chunk_len) as int,
                    ),
                )
            },
            chunks is None ==> final(self)@ == old(self)@,
            chunks is Some ==> final(self)@[id].len() == old(self)@[id].len() % (
            chunk_len as nat),
            final(self)@ == apply_op(old(self)@, QueueOp::TakeChunks(id, chunk_len as nat)),
            final(self)@.dom() == old(self)@.dom(),
    {
        if !self.queues.contains_key(&id) {
            return None;
        }
        let mut q = self.take_queue(id);
        let chunks = take_full_chunks(&mut q, chunk_len);
        let ghost rest = q@;
        self.put_queue(id, q);
        assert(self@ =~= old(self)@.insert(id, rest));
        Some(chunks)
    }

    /// Takes from every open stream its share of an output block of
    /// `out_len` samples: the first `out_len` queued samples, or all of them
    /// when fewer are queued. The shares come in ascending stream id order,
    /// each with its id; every stream stays open with the rest of its queue.
    pub fn drain_for_output(&mut self, out_len: usize) -> (shares: Vec<(u8, Vec<T>)>)
        ensures
            pairs_view(shares@) == block_shares(old(self)@, out_len as nat),
            final(self)@ == after_blocks(old(self)@, out_len as nat),
            final(self)@ == apply_op(old(self)@, QueueOp::Drain(out_len as nat)),
            final(self)@.dom() == old(self)@.dom(),
    {
        let ghost m0 = self@;
        let mut shares: Vec<(u8, Vec<T>)> = Vec::new();
        let mut next: u16 = 0;
        while next < 256
            invariant
                next <= 256,
                self@.dom() == m0.dom(),
                forall|k: u8|
                    #![trigger self@[k]]
                    m0.contains_key(k) ==> self@[k] == (if k < next {
                        after_block(m0[k], out_len as nat)
                    } else {
                        m0[k]
                    }),
                pairs_view(shares@) =~= open_ids_below(m0, next as nat).map_values(
                    |id: u8| (id, block_share(m0[id], out_len as nat)),
                ),
            decreases 256 - next,
        {
            let id = next as u8;
            let ghost before = shares@;
            let ghost mid = self@;
            if self.queues.contains_key(&id) {
                let mut q = self.take_queue(id);
                let n = if q.len() <= out_len {
                    q.len()
                } else {
                    out_len
                };
                let rest = q.split_off(n);
                self.put_queue(id, rest);
                shares.push((id, q));
                proof {
                    assert(q@ =~= block_share(m0[id], out_len as nat));
                    assert(rest@ =~= after_block(m0[id], out_len as nat));
                    assert(shares@ == before.push((id, q)));
                    assert(pairs_view(shares@) =~= pairs_view(before).push(
                        (id, block_share(m0[id], out_len as nat)),
                    ));
                }
            }
            proof {
                assert(id as nat == next as nat);
                assert(self@.dom() =~= m0.dom());
                assert forall|k: u8| m0.contains_key(k) implies #[trigger] self@[k] == (if k < next
                    + 1 {
                    after_block(m0[k], out_len as nat)
                } else {
                    m0[k]
                }) by {
                    if k != id {
                        assert(self@[k] == mid[k]);
                    }
                }
                let ids = open_ids_below(m0, (next + 1) as nat);
                assert(ids == if m0.contains_key(id) {
                    open_ids_below(m0, next as nat).push(id)
                } else {
                    open_ids_below(m0, next as nat)
                });
                assert(pairs_view(shares@) =~= ids.map_values(
                    |id: u8| (id, block_share(m0[id], out_len as nat)),
                ));
            }
            next = next + 1;
        }
        assert(self@ =~= after_blocks(m0, out_len as nat));
        shares
    }
}

/// The `k`-th samples of the shares that hold more than `k` samples, in
/// share order: the values that are averaged into output sample `k`.
pub open spec fn mix_column<T>(shares: Seq<(u8, Seq<T>)>, k: nat) -> Seq<T>
    decreases shares.len(),
{
    if shares.len() == 0 {
        Seq::empty()
    } else {
        let prev = mix_column(shares.drop_last(), k);
        let q = shares.last().1;
        if k < q.len() {
            prev.push(q[k as int])
        } else {
            prev
        }
    }
}

/// For each of the `out_len` output samples, the share samples that are
/// averaged into it: column `k` holds sample `k` of every share that has one,
/// in share order, so its length is the number of peers that contribute.
pub fn mix_plan<T: Copy>(shares: &Vec<(u8, Vec<T>)>, out_len: usize) -> (columns: Vec<Vec<T>>)
    ensures
        columns@.len() == out_len,
        forall|k: int|
            0 <= k < out_len ==> #[trigger] columns@[k]@ == mix_column(
                pairs_view(shares@),
                k as nat,
            ),
{
    let ghost p = pairs_view(shares@);
    let mut columns: Vec<Vec<T>> = Vec::with_capacity(out_len);
    let mut k: usize = 0;
    while k < out_len
        invariant
            k <= out_len,
            p == pairs_view(shares@),
            columns@.len() == k,
            forall|j: int| 0 <= j < k ==> #[trigger] columns@[j]@ == mix_column(p, j as nat),
        decreases out_len - k,
    {
        let mut column: Vec<T> = Vec::new();
        let mut s: usize = 0;
        while s < shares.len()
            invariant
                s <= shares@.len(),
                p == pairs_view(shares@),
                column@ == mix_column(p.take(s as int), k as nat),
            decreases shares@.len() - s,
        {
            let q = &shares[s].1;
            assert(p.take(s + 1).drop_last() =~= p.take(s as int));
            if k < q.len() {
                column.push(q[k]);
            }
            s = s + 1;
        }
        assert(p.take(shares@.len() as int) =~= p);
        columns.push(column);
        k = k + 1;
    }
    columns
}

/// Total number of samples in a list of shares.
pub open spec fn shares_total<T>(shares: Seq<(u8, Seq<T>)>) -> nat
    decreases shares.len(),
{
    if shares.len() == 0 {
        0
    } else {
        shares_total(shares.drop_last()) + shares.last().1.len()
    }
}

/// Total number of samples in the first `n` mixing columns.
pub open spec fn columns_total<T>(shares: Seq<(u8, Seq<T>)>, n: nat) -> nat
    decreases n,
{
    if n == 0 {
        0
    } else {
        columns_total(shares, (n - 1) as nat) + mix_column(shares, (n - 1) as nat).len()
    }
}

/// Taking a block share keeps every sample: the share followed by what stays
/// queued is the queue, and the share holds `out_len` samples or the whole
/// queue when that is shorter.
pub proof fn lemma_block_conserves<T>(q: Seq<T>, out_len: nat)
    ensures
        block_share(q, out_len) + after_block(q, out_len) =~= q,
        block_share(q, out_len).len() == if q.len() <= out_len {
            q.len()
        } else {
            out_len
        },
        block_share(q, out_len).len() <= out_len,
{
}

proof fn lemma_columns_split<T>(shares: Seq<(u8, Seq<T>)>, n: nat)
    requires
        shares.len() > 0,
    ensures
        columns_total(shares, n) == columns_total(shares.drop_last(), n) + (if n
            <= shares.last().1.len() {
            n
        } else {
            shares.last().1.len()
        }),
    decreases n,
{
    if n > 0 {
        lemma_columns_split(shares, (n - 1) as nat);
    }
}

/// Mixing plays every sample of the shares exactly once: when no share is
/// longer than the block, the columns of a block of `out_len` samples hold
/// as many samples as all shares together.
pub proof fn lemma_mix_conserves<T>(shares: Seq<(u8, Seq<T>)>, out_len: nat)
    requires
        forall|j: int| 0 <= j < shares.len() ==> (#[trigger] shares[j]).1.len() <= out_len,
    ensures
        columns_total(shares, out_len) == shares_total(shares),
    decreases shares.len(),
{
    if shares.len() == 0 {
        lemma_columns_empty(shares, out_len);
    } else {
        let rest = shares.drop_last();
        assert forall|j: int| 0 <= j < rest.len() implies (#[trigger] rest[j]).1.len()
            <= out_len by {
            assert(rest[j] == shares[j]);
        }
        lemma_mix_conserves(rest, out_len);
        lemma_columns_split(shares, out_len);
        assert(shares.last() == shares[shares.len() - 1]);
    }
}

proof fn lemma_columns_empty<T>(shares: Seq<(u8, Seq<T>)>, n: nat)
    requires
        shares.len() == 0,
    ensures
        columns_total(shares, n) == 0,
    decreases n,
{
    if n > 0 {
        lemma_columns_empty(shares, (n - 1) as nat);
    }
}

/// Every share that `drain_for_output` hands out fits the block, so the
/// mixing plan of that block plays all of them.
pub proof fn lemma_shares_fit_block<T>(m: Map<u8, Seq<T>>, out_len: nat)
    ensures
        forall|j: int|
            0 <= j < block_shares(m, out_len).len() ==> (#[trigger] block_shares(
                m,
                out_len,
            )[j]).1.len() <= out_len,
        columns_total(block_shares(m, out_len), out_len) == shares_total(
            block_shares(m, out_len),
        ),
{
    let b = block_shares(m, out_len);
    assert forall|j: int| 0 <= j < b.len() implies (#[trigger] b[j]).1.len() <= out_len by {
        lemma_block_conserves(m[open_ids(m)[j]], out_len);
    }
    lemma_mix_conserves(b, out_len);
}

proof fn lemma_open_ids_below<T>(m: Map<u8, Seq<T>>, bound: nat)
    requires
        bound <= 256,
    ensures
        forall|i: int, j: int|
            0 <= i < j < open_ids_below(m, bound).len() ==> #[trigger] open_ids_below(m, bound)[i]
                < #[trigger] open_ids_below(m, bound)[j],
        forall|i: int|
            0 <= i < open_ids_below(m, bound).len() ==> #[trigger] open_ids_below(m, bound)[i]
                < bound && m.contains_key(open_ids_below(m, bound)[i]),
        forall|k: u8|
            k < bound && m.contains_key(k) ==> #[trigger] open_ids_below(m, bound).contains(k),
    decreases bound,
{
    if bound > 0 {
        let b1 = (bound - 1) as nat;
        lemma_open_ids_below(m, b1);
        let prev = open_ids_below(m, b1);
        let ids = open_ids_below(m, bound);
        if m.contains_key(b1 as u8) {
            assert(ids == prev.push(b1 as u8));
            assert forall|k: u8| k < bound && m.contains_key(k) implies #[trigger] ids.contains(
                k,
            ) by {
                if k < b1 {
                    assert(prev.contains(k));
                    let i = choose|i: int| 0 <= i < prev.len() && prev[i] == k;
                    assert(ids[i] == k);
                } else {
                    assert(ids[prev.len() as int] == k);
                }
            }
        } else {
            assert forall|k: u8| k < bound && m.contains_key(k) implies #[trigger] ids.contains(
                k,
            ) by {
                assert(k < b1);
                assert(prev.contains(k));
            }
        }
    }
}

/// The shares of `drain_for_output` cover the open streams exactly: their
/// ids strictly ascend, each is an open stream, and every open stream has a
/// share.
pub proof fn lemma_shares_cover_open_streams<T>(m: Map<u8, Seq<T>>, out_len: nat)
    ensures
        forall|i: int, j: int|
            0 <= i < j < block_shares(m, out_len).len() ==> #[trigger] block_shares(m, out_len)[i].0
                < #[trigger] block_shares(m, out_len)[j].0,
        forall|i: int|
            0 <= i < block_shares(m, out_len).len() ==> m.contains_key(
                #[trigger] block_shares(m, out_len)[i].0,
            ),
        forall|k: u8|
            #[trigger] m.contains_key(k) ==> exists|i: int|
                0 <= i < block_shares(m, out_len).len() && #[trigger] block_shares(m, out_len)[i]
                    == (k, block_share(m[k], out_len)),
{
    lemma_open_ids_below(m, 256);
    let ids = open_ids(m);
    let b = block_shares(m, out_len);
    assert forall|k: u8| #[trigger] m.contains_key(k) implies exists|i: int|
        0 <= i < b.len() && #[trigger] b[i] == (k, block_share(m[k], out_len)) by {
        assert(ids.contains(k));
        let i = choose|i: int| 0 <= i < ids.len() && ids[i] == k;
        assert(b[i] == (k, block_share(m[k], out_len)));
    }
}

/// Taking a block of `out_len` samples from the open stream `k` hands out
/// its first `min(len, out_len)` samples and leaves exactly the rest, in
/// order; the stream stays open and no other stream appears or goes.
pub proof fn lemma_drain_takes_the_front<T>(m: Map<u8, Seq<T>>, out_len: nat, k: u8)
    requires
        m.contains_key(k),
    ensures
        ({
            let q = m[k];
            let taken: int = if q.len() <= out_len {
                q.len() as int
            } else {
                out_len as int
            };
            &&& block_share(q, out_len) == q.take(taken)
            &&& after_blocks(m, out_len).contains_key(k)
            &&& after_blocks(m, out_len)[k] == q.skip(taken)
            &&& block_share(q, out_len) + after_blocks(m, out_len)[k] == q
        }),
        after_blocks(m, out_len).dom() == m.dom(),
{
    let q = m[k];
    assert(q.take(q.len() as int) =~= q);
    assert(q.skip(q.len() as int) =~= Seq::<T>::empty());
    if out_len < q.len() {
        assert(q.take(out_len as int) + q.skip(out_len as int) =~= q);
    }
    assert(after_blocks(m, out_len).dom() =~= m.dom());
}

/// Column `k` of the mixing plan is the `k`-th sample of every share that
/// has more than `k` samples, in share order.
pub proof fn lemma_mix_column_is_sample_k<T>(shares: Seq<(u8, Seq<T>)>, k: nat)
    ensures
        mix_column(shares, k) == shares.filter(|p: (u8, Seq<T>)| k < p.1.len()).map_values(
            |p: (u8, Seq<T>)| p.1[k as int],
        ),
    decreases shares.len(),
{
    reveal(Seq::filter);
    let pred = |p: (u8, Seq<T>)| k < p.1.len();
    let pick = |p: (u8, Seq<T>)| p.1[k as int];
    if shares.len() == 0 {
        assert(shares.filter(pred) =~= Seq::<(u8, Seq<T>)>::empty());
        assert(shares.filter(pred).map_values(pick) =~= Seq::<T>::empty());
    } else {
        lemma_mix_column_is_sample_k(shares.drop_last(), k);
        let rest = shares.drop_last().filter(pred);
        if pred(shares.last()) {
            assert(shares.filter(pred) == rest.push(shares.last()));
            assert(rest.push(shares.last()).map_values(pick) =~= rest.map_values(pick).push(
                pick(shares.last()),
            ));
        } else {
            assert(shares.filter(pred) == rest);
        }
    }
}

/// When every share is longer than `k`, column `k` has one sample per share
/// and its `j`-th sample is sample `k` of share `j`.
pub proof fn lemma_mix_column_full<T>(shares: Seq<(u8, Seq<T>)>, k: nat)
    requires
        forall|j: int| 0 <= j < shares.len() ==> k < (#[trigger] shares[j]).1.len(),
    ensures
        mix_column(shares, k).len() == shares.len(),
        forall|j: int|
            0 <= j < shares.len() ==> #[trigger] mix_column(shares, k)[j] == shares[j].1[k as int],
    decreases shares.len(),
{
    if shares.len() > 0 {
        let rest = shares.drop_last();
        assert forall|j: int| 0 <= j < rest.len() implies k < (#[trigger] rest[j]).1.len() by {
            assert(rest[j] == shares[j]);
        }
        lemma_mix_column_full(rest, k);
        assert(shares.last() == shares[shares.len() - 1]);
        assert forall|j: int| 0 <= j < shares.len() implies #[trigger] mix_column(shares, k)[j]
            == shares[j].1[k as int] by {
            if j < shares.len() - 1 {
                assert(rest[j] == shares[j]);
            }
        }
    }
}

} // verus!
