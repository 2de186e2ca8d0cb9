use vstd::prelude::*;
use crate::board::{adjacent, in_mask, side_mask};

verus! {

/// `p` is a walk on the board that starts anywhere and then only steps onto
/// points of `stones`, moving between adjacent points.
pub open spec fn is_walk(stones: u128, p: Seq<int>) -> bool {
    &&& p.len() >= 1
    &&& forall|k: int| 0 <= k < p.len() - 1 ==> #[trigger] adjacent(p[k], p[k + 1])
    &&& forall|k: int| 1 <= k < p.len() ==> in_mask(stones, #[trigger] p[k])
}

/// Point `v` is reached from `start` by a walk over `stones`: `v` belongs to
/// the group of `start`.
pub open spec fn in_group(stones: u128, start: int, v: int) -> bool {
    exists|p: Seq<int>| #[trigger] is_walk(stones, p) && p[0] == start && p.last() == v
}

/// The group of `start` over `stones` reaches side `s`.
pub open spec fn touches(stones: u128, start: int, s: int) -> bool {
    exists|v: int| #[trigger] in_group(stones, start, v) && in_mask(side_mask(s), v)
}

/// The group of `start` over `stones` reaches all three sides: a winning Y.
pub open spec fn spans(stones: u128, start: int) -> bool {
    &&& touches(stones, start, 0)
    &&& touches(stones, start, 1)
    &&& touches(stones, start, 2)
}

/// Every point belongs to its own group.
pub proof fn lemma_group_start(stones: u128, start: int)
    ensures
        in_group(stones, start, start),
{
    let p = seq![start];
    assert(is_walk(stones, p));
}

/// A group grows along adjacent stones.
pub proof fn lemma_group_step(stones: u128, start: int, v: int, w: int)
    requires
        in_group(stones, start, v),
        adjacent(v, w),
        in_mask(stones, w),
    ensures
        in_group(stones, start, w),
{
    let p = choose|p: Seq<int>| #[trigger] is_walk(stones, p) && p[0] == start && p.last() == v;
    let q = p.push(w);
    assert forall|k: int| 0 <= k < q.len() - 1 implies #[trigger] adjacent(q[k], q[k + 1]) by {
        if k < p.len() - 1 {
            assert(q[k] == p[k] && q[k + 1] == p[k + 1]);
        }
    }
    assert forall|k: int| 1 <= k < q.len() implies in_mask(stones, #[trigger] q[k]) by {
        if k < p.len() {
            assert(q[k] == p[k]);
        }
    }
    assert(is_walk(stones, q));
}

proof fn lemma_walk_in_closed(stones: u128, p: Seq<int>, set: Set<int>)
    requires
        is_walk(stones, p),
        set.contains(p[0]),
        forall|x: int, w: int| set.contains(x) && #[trigger] adjacent(x, w) && in_mask(stones, w) ==> set.contains(w),
    ensures
        set.contains(p.last()),
    decreases p.len(),
{
    if p.len() > 1 {
        let q = p.drop_last();
        assert forall|k: int| 0 <= k < q.len() - 1 implies #[trigger] adjacent(q[k], q[k + 1]) by {
            assert(adjacent(p[k], p[k + 1]));
        }
        assert forall|k: int| 1 <= k < q.len() implies in_mask(stones, #[trigger] q[k]) by {
            assert(in_mask(stones, p[k]));
        }
        lemma_walk_in_closed(stones, q, set);
        let k = p.len() - 2;
        assert(adjacent(p[k], p[k + 1]));
        assert(in_mask(stones, p[k + 1]));
    }
}

/// A set that holds `start` and is closed under stepping onto adjacent stones
/// holds the whole group of `start`.
pub proof fn lemma_closed_holds_group(stones: u128, start: int, set: Set<int>, v: int)
    requires
        set.contains(start),
        forall|x: int, w: int| set.contains(x) && #[trigger] adjacent(x, w) && in_mask(stones, w) ==> set.contains(w),
        in_group(stones, start, v),
    ensures
        set.contains(v),
{
    let p = choose|p: Seq<int>| #[trigger] is_walk(stones, p) && p[0] == start && p.last() == v;
    lemma_walk_in_closed(stones, p, set);
}

} // verus!
