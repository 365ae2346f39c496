//! What building a graph from pairs of payloads does, one pair at a time.
use crate::connectivity::linked;
use vstd::prelude::*;

verus! {

/// The position of the last payload in `s` equal to `x`, or -1 if none is.
pub open spec fn last_index<V>(s: Seq<V>, x: V) -> int
    decreases s.len(),
{
    if s.len() == 0 {
        -1
    } else if s.last() == x {
        s.len() - 1
    } else {
        last_index(s.drop_last(), x)
    }
}

/// `s` with `x` appended unless `x` is already in it.
pub open spec fn with_payload<V>(s: Seq<V>, x: V) -> Seq<V> {
    if last_index(s, x) >= 0 {
        s
    } else {
        s.push(x)
    }
}

/// The payloads and edge endpoints after taking in the pair `(u, v)`: each
/// payload not yet present becomes a new vertex, and the two vertices found
/// for `u` and `v` are joined unless they coincide or are already joined.
pub open spec fn bulk_step<V>(state: (Seq<V>, Seq<(int, int)>), pair: (V, V)) -> (Seq<V>, Seq<(int, int)>) {
    let p = with_payload(with_payload(state.0, pair.0), pair.1);
    let iu = last_index(p, pair.0);
    let iv = last_index(p, pair.1);
    let ends = state.1;
    if iu != iv && !linked(ends, iu, iv) {
        (p, ends.push((iu, iv)))
    } else {
        (p, ends)
    }
}

/// The payloads and edge endpoints after taking in every pair, in order.
pub open spec fn bulk<V>(state: (Seq<V>, Seq<(int, int)>), pairs: Seq<(V, V)>) -> (Seq<V>, Seq<(int, int)>)
    decreases pairs.len(),
{
    if pairs.len() == 0 {
        state
    } else {
        bulk_step(bulk(state, pairs.drop_last()), pairs.last())
    }
}

pub proof fn lemma_last_index_found<V>(s: Seq<V>, x: V, k: int)
    requires
        0 <= k < s.len(),
        s[k] == x,
        forall|k2: int| k < k2 < s.len() ==> s[k2] != x,
    ensures
        last_index(s, x) == k,
    decreases s.len(),
{
    if k < s.len() - 1 {
        let r = s.drop_last();
        assert forall|k2: int| k < k2 < r.len() implies r[k2] != x by {
            assert(r[k2] == s[k2]);
        }
        lemma_last_index_found(r, x, k);
    }
}

pub proof fn lemma_last_index_absent<V>(s: Seq<V>, x: V)
    requires
        forall|k: int| 0 <= k < s.len() ==> s[k] != x,
    ensures
        last_index(s, x) == -1,
    decreases s.len(),
{
    if s.len() > 0 {
        let r = s.drop_last();
        assert forall|k: int| 0 <= k < r.len() implies r[k] != x by {
            assert(r[k] == s[k]);
        }
        lemma_last_index_absent(r, x);
    }
}

pub proof fn lemma_last_index_range<V>(s: Seq<V>, x: V)
    ensures
        -1 <= last_index(s, x) < s.len(),
        last_index(s, x) >= 0 ==> s[last_index(s, x)] == x,
    decreases s.len(),
{
    if s.len() > 0 && s.last() != x {
        lemma_last_index_range(s.drop_last(), x);
    }
}

/// Taking in a payload keeps the position found for any payload present.
pub proof fn lemma_with_payload_keeps<V>(s: Seq<V>, y: V, x: V)
    requires
        last_index(s, x) >= 0,
    ensures
        last_index(with_payload(s, y), x) == last_index(s, x),
{
    if last_index(s, y) < 0 {
        assert(s.push(y).drop_last() == s);
    }
}

pub proof fn lemma_with_payload_has<V>(s: Seq<V>, x: V)
    ensures
        last_index(with_payload(s, x), x) >= 0,
{
    if last_index(s, x) < 0 {
        assert(s.push(x).last() == x);
    }
}

/// Every pair of `pairs` has both payloads present and their vertices equal
/// or joined.
pub open spec fn closed_under<V>(state: (Seq<V>, Seq<(int, int)>), pairs: Seq<(V, V)>) -> bool {
    forall|t: int|
        0 <= t < pairs.len() ==> {
            let iu = last_index(state.0, (#[trigger] pairs[t]).0);
            let iv = last_index(state.0, pairs[t].1);
            &&& iu >= 0
            &&& iv >= 0
            &&& iu == iv || linked(state.1, iu, iv)
        }
}

proof fn lemma_step_keeps_closed<V>(state: (Seq<V>, Seq<(int, int)>), pairs: Seq<(V, V)>, pair: (V, V))
    requires
        closed_under(state, pairs),
    ensures
        closed_under(bulk_step(state, pair), pairs),
{
    let next = bulk_step(state, pair);
    let p1 = with_payload(state.0, pair.0);
    assert forall|t: int| 0 <= t < pairs.len() implies {
        let iu = last_index(next.0, (#[trigger] pairs[t]).0);
        let iv = last_index(next.0, pairs[t].1);
        &&& iu >= 0
        &&& iv >= 0
        &&& iu == iv || linked(next.1, iu, iv)
    } by {
        let (u, v) = pairs[t];
        lemma_with_payload_keeps(state.0, pair.0, u);
        lemma_with_payload_keeps(p1, pair.1, u);
        lemma_with_payload_keeps(state.0, pair.0, v);
        lemma_with_payload_keeps(p1, pair.1, v);
        let iu = last_index(state.0, u);
        let iv = last_index(state.0, v);
        if iu != iv && next.1 != state.1 {
            let k = choose|k: int| 0 <= k < state.1.len() && #[trigger] crate::connectivity::joins(state.1[k], iu, iv);
            assert(next.1[k] == state.1[k]);
        }
    }
}

/// After taking in `pairs`, every pair of them is accounted for.
pub proof fn lemma_bulk_closed<V>(state: (Seq<V>, Seq<(int, int)>), pairs: Seq<(V, V)>)
    ensures
        closed_under(bulk(state, pairs), pairs),
    decreases pairs.len(),
{
    if pairs.len() > 0 {
        let front = pairs.drop_last();
        let pair = pairs.last();
        lemma_bulk_closed(state, front);
        let before = bulk(state, front);
        lemma_step_keeps_closed(before, front, pair);
        let after = bulk(state, pairs);
        let p1 = with_payload(before.0, pair.0);
        lemma_with_payload_has(before.0, pair.0);
        lemma_with_payload_keeps(p1, pair.1, pair.0);
        lemma_with_payload_has(p1, pair.1);
        let iu = last_index(after.0, pair.0);
        let iv = last_index(after.0, pair.1);
        if iu != iv && !linked(before.1, iu, iv) {
            assert(crate::connectivity::joins(after.1[before.1.len() as int], iu, iv));
        }
        assert forall|t: int| 0 <= t < pairs.len() implies {
            let iu = last_index(after.0, (#[trigger] pairs[t]).0);
            let iv = last_index(after.0, pairs[t].1);
            &&& iu >= 0
            &&& iv >= 0
            &&& iu == iv || linked(after.1, iu, iv)
        } by {
            if t < front.len() {
                assert(pairs[t] == front[t]);
            }
        }
    }
}

/// Taking in pairs that are all accounted for changes nothing.
pub proof fn lemma_bulk_fixed<V>(state: (Seq<V>, Seq<(int, int)>), pairs: Seq<(V, V)>)
    requires
        closed_under(state, pairs),
    ensures
        bulk(state, pairs) == state,
    decreases pairs.len(),
{
    if pairs.len() > 0 {
        let front = pairs.drop_last();
        assert forall|t: int| 0 <= t < front.len() implies {
            let iu = last_index(state.0, (#[trigger] front[t]).0);
            let iv = last_index(state.0, front[t].1);
            &&& iu >= 0
            &&& iv >= 0
            &&& iu == iv || linked(state.1, iu, iv)
        } by {
            assert(front[t] == pairs[t]);
        }
        lemma_bulk_fixed(state, front);
        assert(pairs.last() == pairs[pairs.len() - 1]);
    }
}

} // verus!
