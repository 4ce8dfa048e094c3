use vstd::prelude::*;

verus! {

/// Number of whole chunks of `chunk_len` samples that a queue of `len`
/// samples holds.
pub open spec fn full_chunk_count(len: nat, chunk_len: nat) -> nat
    recommends
        chunk_len > 0,
{
    len / chunk_len
}

/// The first `count` chunks of `chunk_len` consecutive samples of `s`, in order.
pub open spec fn chunk_prefix<T>(s: Seq<T>, chunk_len: nat, count: nat) -> Seq<Seq<T>> {
    Seq::new(
        count,
        |i: int| s.subrange(i * chunk_len, i * chunk_len + chunk_len),
    )
}

/// Every whole chunk of `chunk_len` samples at the front of `s`, in order;
/// a shorter tail is not part of it.
pub open spec fn full_chunks<T>(s: Seq<T>, chunk_len: nat) -> Seq<Seq<T>> {
    chunk_prefix(s, chunk_len, full_chunk_count(s.len(), chunk_len))
}

/// The views of a vector of sample vectors.
pub open spec fn nested_view<T>(v: Seq<Vec<T>>) -> Seq<Seq<T>> {
    v.map_values(|x: Vec<T>| x@)
}

proof fn lemma_chunk_bounds(i: int, c: int, n: int, len: int)
    by (nonlinear_arith)
    requires
        0 <= i < n,
        c > 0,
        n == len / c,
        len >= 0,
    ensures
        0 <= i * c,
        i * c + c <= n * c,
        n * c <= len,
        len - n * c < c,
        (i + 1) * c == i * c + c,
{
}

proof fn lemma_count_bounds(len: int, c: int)
    by (nonlinear_arith)
    requires
        c > 0,
        len >= 0,
    ensures
        0 <= (len / c) * c <= len,
        len - (len / c) * c < c,
        len - (len / c) * c == len % c,
{
}

/// Laying the first `count` chunks end to end gives back the first
/// `count * chunk_len` samples.
proof fn lemma_chunk_prefix_flatten<T>(s: Seq<T>, chunk_len: nat, count: nat)
    requires
        chunk_len > 0,
        count * chunk_len <= s.len(),
    ensures
        chunk_prefix(s, chunk_len, count).flatten_alt() =~= s.take((count * chunk_len) as int),
    decreases count,
{
    let p = chunk_prefix(s, chunk_len, count);
    if count > 0 {
        let k = (count - 1) as nat;
        let c = chunk_len as int;
        let ki = k as int;
        assert(ki * c + c == count * chunk_len) by (nonlinear_arith)
            requires
                ki + 1 == count,
                c == chunk_len,
        ;
        assert(ki * c <= count * chunk_len) by (nonlinear_arith)
            requires
                ki + 1 == count,
                c == chunk_len,
        ;
        lemma_chunk_prefix_flatten(s, chunk_len, k);
        assert(p.drop_last() =~= chunk_prefix(s, chunk_len, k));
        assert(p.flatten_alt() == p.drop_last().flatten_alt() + p.last());
        assert(p.drop_last().flatten_alt() =~= s.take(ki * c));
        assert(p.last() == s.subrange(ki * c, ki * c + c));
        assert(s.take(ki * c) + s.subrange(ki * c, ki * c + c) =~= s.take(ki * c + c));
    } else {
        assert(count * chunk_len == 0) by (nonlinear_arith)
            requires
                count == 0,
        ;
        assert(p.flatten_alt() =~= Seq::<T>::empty());
    }
}

/// Nothing is lost and nothing is reordered when a queue is cut into chunks:
/// the whole chunks laid end to end, followed by what stays queued, give back
/// the queue. Every chunk has exactly `chunk_len` samples and fewer than
/// `chunk_len` samples stay behind.
pub proof fn lemma_chunks_reassemble<T>(s: Seq<T>, chunk_len: nat)
    requires
        chunk_len > 0,
    ensures
        full_chunks(s, chunk_len).flatten() + s.skip(
            (full_chunk_count(s.len(), chunk_len) * chunk_len) as int,
        ) =~= s,
        forall|i: int|
            0 <= i < full_chunks(s, chunk_len).len() ==> #[trigger] full_chunks(
                s,
                chunk_len,
            )[i].len() == chunk_len,
        s.len() - full_chunk_count(s.len(), chunk_len) * chunk_len < chunk_len,
        s.len() - full_chunk_count(s.len(), chunk_len) * chunk_len == s.len() % chunk_len,
{
    let n = full_chunk_count(s.len(), chunk_len);
    lemma_count_bounds(s.len() as int, chunk_len as int);
    lemma_chunk_prefix_flatten(s, chunk_len, n);
    full_chunks(s, chunk_len).lemma_flatten_and_flatten_alt_are_equivalent();
    assert forall|i: int| 0 <= i < full_chunks(s, chunk_len).len() implies #[trigger] full_chunks(
        s,
        chunk_len,
    )[i].len() == chunk_len by {
        lemma_chunk_bounds(i, chunk_len as int, n as int, s.len() as int);
    }
}

/// Removes every whole chunk of `chunk_len` samples from the front of `queue`
/// and hands them back in order; the shorter tail stays queued for the next
/// round.
pub fn take_full_chunks<T: Copy>(queue: &mut Vec<T>, chunk_len: usize) -> (chunks: Vec<Vec<T>>)
    requires
        chunk_len > 0,
    ensures
        nested_view(chunks@) == full_chunks(old(queue)@, chunk_len as nat),
        final(queue)@ == old(queue)@.skip(
            (full_chunk_count(old(queue)@.len(), chunk_len as nat) * chunk_len) as int,
        ),
        final(queue)@.len() == old(queue)@.len() % (chunk_len as nat),
{
    let ghost s = queue@;
    let count = queue.len() / chunk_len;
    proof {
        lemma_count_bounds(s.len() as int, chunk_len as int);
    }
    let taken = count * chunk_len;
    let rest = queue.split_off(taken);
    let mut chunks: Vec<Vec<T>> = Vec::with_capacity(count);
    let mut i: usize = 0;
    while i < count
        invariant
            chunk_len > 0,
            count == s.len() / (chunk_len as nat),
            taken == count * chunk_len,
            taken <= s.len(),
            queue@ == s.subrange(0, taken as int),
            i <= count,
            nested_view(chunks@) =~= chunk_prefix(s, chunk_len as nat, i as nat),
        decreases count - i,
    {
        proof {
            lemma_chunk_bounds(i as int, chunk_len as int, count as int, s.len() as int);
        }
        let start = i * chunk_len;
        assert(start == i * chunk_len);
        let mut chunk: Vec<T> = Vec::with_capacity(chunk_len);
        let mut j: usize = 0;
        while j < chunk_len
            invariant
                j <= chunk_len,
                start + chunk_len <= taken,
                taken <= s.len(),
                queue@ == s.subrange(0, taken as int),
                chunk@ =~= s.subrange(start as int, start + j),
            decreases chunk_len - j,
        {
            chunk.push(queue[start + j]);
            j = j + 1;
        }
        let ghost prev = chunks@;
        chunks.push(chunk);
        proof {
            assert(nested_view(prev).len() == i);
            assert(chunks@ == prev.push(chunk));
            assert forall|k: int| 0 <= k < i + 1 implies #[trigger] nested_view(chunks@)[k]
                == chunk_prefix(s, chunk_len as nat, (i + 1) as nat)[k] by {
                if k < i {
                    assert(chunks@[k] == prev[k]);
                    assert(nested_view(prev)[k] == chunk_prefix(s, chunk_len as nat, i as nat)[k]);
                } else {
                    assert(chunks@[k]@ == s.subrange(start as int, start + chunk_len));
                }
            }
        }
        i = i + 1;
    }
    *queue = rest;
    chunks
}

} // verus!
