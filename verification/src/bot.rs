use vstd::prelude::*;
use std::collections::VecDeque;
use crate::bits::{bit, count_clear, lemma_count_clear_set, lemma_has_or, lemma_has_set, lemma_has_zero};
use crate::board::{adjacent, board_row, in_mask, neighbours, side, side_mask, slot, NO_MOVE};
use crate::game::{in_queue, Game, GameState, GameView};
use crate::table::{Position, Transpositions};
use crate::group::{in_group, lemma_closed_holds_group, lemma_group_start, lemma_group_step};
use crate::search::{owner, run, search_wf, settle, state_of, Search, FAR};

verus! {

/// Score of a won position.
pub const INF: i32 = 10_000;

/// Search state before the distances from side `mask` are spread: the
/// points `0..n` of the side at distance 0 in the queue, in order.
pub open spec fn edge_seed(red: u128, blue: u128, mask: u128, n: int) -> Search
    decreases n,
{
    if n <= 0 {
        Search { dist: Seq::new(93, |i: int| FAR), visited: 0, queue: seq![] }
    } else {
        let p = edge_seed(red, blue, mask, n - 1);
        let j = n - 1;
        if in_mask(mask, j) {
            Search {
                dist: p.dist.update(j, 0),
                visited: 0,
                queue: p.queue.push((j as u32, owner(red, blue, j))),
            }
        } else {
            p
        }
    }
}

/// Distances of the points from side `s`.
pub open spec fn edge_distances(red: u128, blue: u128, s: int) -> Seq<u32> {
    run(red, blue, edge_seed(red, blue, side_mask(s), 93)).dist
}

/// Search state before the distances from corner point `c` are spread.
pub open spec fn corner_seed(red: u128, blue: u128, c: int) -> Search {
    Search {
        dist: Seq::new(93, |i: int| FAR).update(c, 0),
        visited: 0,
        queue: seq![(c as u32, owner(red, blue, c))],
    }
}

/// Distances of the points from corner point `c`.
pub open spec fn corner_distances(red: u128, blue: u128, c: int) -> Seq<u32> {
    run(red, blue, corner_seed(red, blue, c)).dist
}

/// Corner `k` of the board: point 0, 8 or 16. Corner 0 faces side 1,
/// corner 1 faces side 2 and corner 2 faces side 0.
pub open spec fn corner_point(k: int) -> int {
    8 * k
}

/// Index of the first smallest of the first `n` entries of `costs`.
pub open spec fn first_min(costs: Seq<int>, n: int) -> int
    decreases n,
{
    if n <= 1 {
        0
    } else {
        let m = first_min(costs, n - 1);
        if costs[n - 1] < costs[m] {
            n - 1
        } else {
            m
        }
    }
}

/// The seven ways of reaching all three sides from a point: straight to the
/// three sides, a corner and the side opposite to it, or two corners.
pub open spec fn plan_costs(x: int, y: int, z: int, a: int, b: int, c: int) -> Seq<int> {
    seq![x + y + z, a + y, b + z, c + x, a + b, b + c, c + a]
}

/// The side distances of a point after the cheapest way is taken into
/// account (`x`, `y`, `z` from the sides, `a`, `b`, `c` from the corners).
pub open spec fn refine(x: u32, y: u32, z: u32, a: u32, b: u32, c: u32) -> Seq<u32> {
    let plan = first_min(plan_costs(x as int, y as int, z as int, a as int, b as int, c as int), 7);
    if plan == 0 {
        seq![x, y, z]
    } else if plan == 1 {
        seq![a / 2, y, a / 2]
    } else if plan == 2 {
        seq![b / 2, b / 2, z]
    } else if plan == 3 {
        seq![x, c / 2, c / 2]
    } else if plan == 4 {
        seq![((a + b) / 2) as u32, b / 2, a / 2]
    } else if plan == 5 {
        seq![b / 2, ((c + b) / 2) as u32, c / 2]
    } else {
        seq![a / 2, c / 2, ((a + c) / 2) as u32]
    }
}

/// The row of `distance_from_edges` for point `i`.
pub open spec fn distance_row(red: u128, blue: u128, i: int) -> Seq<u32> {
    refine(
        edge_distances(red, blue, 0)[i],
        edge_distances(red, blue, 1)[i],
        edge_distances(red, blue, 2)[i],
        corner_distances(red, blue, corner_point(0))[i],
        corner_distances(red, blue, corner_point(1))[i],
        corner_distances(red, blue, corner_point(2))[i],
    )
}


/// Point `n` holds a stone of either colour.
pub open spec fn is_stone(red: u128, blue: u128, n: int) -> bool {
    in_mask(red, n) || in_mask(blue, n)
}

/// The stones a chain through point `n` is made of: red when `n` is red,
/// blue otherwise.
pub open spec fn chain_stones(red: u128, blue: u128, n: int) -> u128 {
    if in_mask(red, n) {
        red
    } else {
        blue
    }
}

/// Point `v` lies in the chain of one of the points of `l`.
pub open spec fn claimed(red: u128, blue: u128, l: Set<int>, v: int) -> bool {
    exists|m: int| l.contains(m) && #[trigger] in_group(chain_stones(red, blue, m), m, v)
}

/// The points below `n` that start a chain: stones that no chain started at
/// a smaller point has already reached.
pub open spec fn leaders(red: u128, blue: u128, n: int) -> Set<int>
    decreases n,
{
    if n <= 0 {
        Set::empty()
    } else {
        let l = leaders(red, blue, n - 1);
        if is_stone(red, blue, n - 1) && !claimed(red, blue, l, n - 1) {
            l.insert(n - 1)
        } else {
            l
        }
    }
}

/// The smallest distance to side `s` over the points below `m` of the chain
/// of `n`, or `FAR` when there is none smaller.
pub open spec fn group_min(red: u128, blue: u128, n: int, s: int, m: int) -> u32
    decreases m,
{
    if m <= 0 {
        FAR
    } else {
        let r = group_min(red, blue, n, s, m - 1);
        let d = distance_row(red, blue, m - 1)[s];
        if in_group(chain_stones(red, blue, n), n, m - 1) && d < r {
            d
        } else {
            r
        }
    }
}

/// The cost of the chain of `n`: the sum over the three sides of the
/// smallest distance of any of its points to that side.
pub open spec fn string_cost(red: u128, blue: u128, n: int) -> u32 {
    (group_min(red, blue, n, 0, 93) + group_min(red, blue, n, 1, 93) + group_min(red, blue, n, 2, 93)) as u32
}

/// The chains started below `n`, in the order of their first point, each
/// with its cost and whether it is red.
pub open spec fn strings(red: u128, blue: u128, n: int) -> Seq<(u32, bool)>
    decreases n,
{
    if n <= 0 {
        seq![]
    } else {
        let p = strings(red, blue, n - 1);
        if leaders(red, blue, n).contains(n - 1) {
            p.push((string_cost(red, blue, n - 1), in_mask(red, n - 1)))
        } else {
            p
        }
    }
}

/// Leaders below `n` are points below `n`.
pub proof fn lemma_leaders_range(red: u128, blue: u128, n: int)
    ensures
        forall|m: int| #[trigger] leaders(red, blue, n).contains(m) ==> 0 <= m < n,
    decreases n,
{
    if n > 0 {
        lemma_leaders_range(red, blue, n - 1);
        let l = leaders(red, blue, n - 1);
        assert forall|m: int| #[trigger] leaders(red, blue, n).contains(m) implies 0 <= m < n by {
            if m != n - 1 {
                assert(l.contains(m));
            }
        }
    }
}

/// `group_min` is the least of `FAR` and the distances of the chain's points.
pub proof fn lemma_group_min(red: u128, blue: u128, n: int, s: int, m: int)
    ensures
        group_min(red, blue, n, s, m) <= FAR,
        forall|v: int|
            0 <= v < m && #[trigger] in_group(chain_stones(red, blue, n), n, v) ==> group_min(red, blue, n, s, m)
                <= distance_row(red, blue, v)[s],
        group_min(red, blue, n, s, m) == FAR || exists|v: int|
            0 <= v < m && #[trigger] in_group(chain_stones(red, blue, n), n, v) && group_min(red, blue, n, s, m)
                == distance_row(red, blue, v)[s],
    decreases m,
{
    if m > 0 {
        lemma_group_min(red, blue, n, s, m - 1);
    }
}

/// The smallest cost among the first `n` chains of the wanted colour, or
/// `FAR` when none is smaller.
pub open spec fn cheapest(strs: Seq<(u32, bool)>, want_red: bool, n: int) -> u32
    decreases n,
{
    if n <= 0 {
        FAR
    } else {
        let r = cheapest(strs, want_red, n - 1);
        if strs[n - 1].1 == want_red && strs[n - 1].0 < r {
            strs[n - 1].0
        } else {
            r
        }
    }
}

/// The score of a position from the cheapest red and blue chains: a won
/// position for red when red needs nothing more, for blue when blue needs
/// nothing more, else the difference of the squared costs.
pub open spec fn score(red_cost: u32, blue_cost: u32) -> i32 {
    if red_cost == 0 {
        INF
    } else if blue_cost == 0 {
        (-INF) as i32
    } else {
        (blue_cost * blue_cost - red_cost * red_cost) as i32
    }
}

/// The static evaluation of a position.
pub open spec fn static_score(red: u128, blue: u128) -> i32 {
    let s = strings(red, blue, 93);
    score(cheapest(s, true, s.len() as int), cheapest(s, false, s.len() as int))
}

/// The key under which a position is stored.
pub open spec fn key_of(g: GameView) -> Position {
    (g.red, g.blue, g.player())
}

/// The order in which moves are tried: the entries of the table row of the
/// last move, then every point.
pub open spec fn move_order(last: u32) -> Seq<u32> {
    board_row(last) + Seq::new(93, |i: int| i as u32)
}

/// The position after the search puts a stone on `i`.
pub open spec fn child(g: GameView, i: u32) -> GameView {
    g.with_stone(i).pass_turn().with_winner()
}

/// What the alpha-beta search returns for a position: its value, the best
/// move found (or `NO_MOVE`) and the table afterwards.
pub open spec fn search_value(
    g: GameView,
    depth: u32,
    maximizing: bool,
    alpha: i32,
    beta: i32,
    t: Map<Position, i32>,
) -> (i32, u32, Map<Position, i32>)
    decreases depth, 1int, 0int,
{
    if t.contains_key(key_of(g)) {
        (t[key_of(g)], NO_MOVE, t)
    } else if g.state == GameState::RedWin {
        (INF, NO_MOVE, t)
    } else if g.state == GameState::RedLose {
        ((-INF) as i32, NO_MOVE, t)
    } else if depth == 0 {
        (static_score(g.red, g.blue), NO_MOVE, t)
    } else {
        scan_moves(
            g,
            depth,
            maximizing,
            alpha,
            beta,
            t,
            0,
            0,
            if maximizing {
                (-2 * INF) as i32
            } else {
                (2 * INF) as i32
            },
            NO_MOVE,
        )
    }
}

/// The move loop of the search from the `idx`-th entry of the move order on.
pub open spec fn scan_moves(
    g: GameView,
    depth: u32,
    maximizing: bool,
    alpha: i32,
    beta: i32,
    t: Map<Position, i32>,
    idx: int,
    seen: u128,
    best: i32,
    best_move: u32,
) -> (i32, u32, Map<Position, i32>)
    decreases depth, 0int, 100 - idx,
{
    if idx >= 100 || depth == 0 || idx < 0 {
        (best, best_move, t)
    } else {
        let i = move_order(g.last_move)[idx];
        if in_mask(seen, i as int) {
            scan_moves(g, depth, maximizing, alpha, beta, t, idx + 1, seen, best, best_move)
        } else {
            let seen2 = seen | bit(i as int);
            if in_mask(g.red | g.blue, i as int) {
                scan_moves(g, depth, maximizing, alpha, beta, t, idx + 1, seen2, best, best_move)
            } else {
                let c = child(g, i);
                let r = search_value(c, (depth - 1) as u32, !maximizing, alpha, beta, t);
                let improved = if maximizing {
                    r.0 > best
                } else {
                    r.0 < best
                };
                let best2 = if improved {
                    r.0
                } else {
                    best
                };
                let move2 = if improved {
                    i
                } else {
                    best_move
                };
                let alpha2 = if maximizing && best2 > alpha {
                    best2
                } else {
                    alpha
                };
                let beta2 = if !maximizing && best2 < beta {
                    best2
                } else {
                    beta
                };
                let t2 = r.2.insert(key_of(c), best2);
                if beta2 <= alpha2 {
                    (best2, move2, t2)
                } else {
                    scan_moves(g, depth, maximizing, alpha2, beta2, t2, idx + 1, seen2, best2, move2)
                }
            }
        }
    }
}

/// What `eval_with_transpos` returns, with the table afterwards: at depth 0
/// the static evaluation and the first free point; otherwise the search from
/// a fresh game on the boards with red maximizing.
pub open spec fn eval_spec(boards: (u128, u128), player: u8, depth: u32, t: Map<Position, i32>) -> (
    i32,
    u32,
    Map<Position, i32>,
) {
    if depth == 0 {
        (static_score(boards.0, boards.1), first_free(boards.0 | boards.1, 0), t)
    } else {
        search_value(
            GameView::fresh(boards.0, boards.1, player == 1),
            depth,
            player == 1,
            (-3 * INF) as i32,
            (3 * INF) as i32,
            t,
        )
    }
}

/// The first point from `n` on that the mask leaves free.
pub open spec fn first_free(b: u128, n: int) -> u32
    decreases 93 - n,
{
    if n >= 93 {
        NO_MOVE
    } else if !in_mask(b, n) {
        n as u32
    } else {
        first_free(b, n + 1)
    }
}

/// `cheapest` never exceeds `FAR`.
pub proof fn lemma_cheapest_bound(strs: Seq<(u32, bool)>, want_red: bool, n: int)
    ensures
        cheapest(strs, want_red, n) <= FAR,
    decreases n,
{
    if n > 0 {
        lemma_cheapest_bound(strs, want_red, n - 1);
    }
}

/// `first_min` picks the first of the smallest entries.
pub proof fn lemma_first_min(costs: Seq<int>, n: int)
    requires
        1 <= n <= costs.len(),
    ensures
        0 <= first_min(costs, n) < n,
        forall|j: int| 0 <= j < n ==> costs[first_min(costs, n)] <= #[trigger] costs[j],
        forall|j: int| 0 <= j < first_min(costs, n) ==> costs[first_min(costs, n)] < #[trigger] costs[j],
    decreases n,
{
    if n > 1 {
        lemma_first_min(costs, n - 1);
    }
}

fn spread_from_side(red: u128, blue: u128, s: usize) -> (out: [u32; 93])
    requires
        s < 3,
    ensures
        out@ == edge_distances(red, blue, s as int),
        forall|i: int| 0 <= i < 93 ==> #[trigger] out@[i] <= FAR,
{
    let mask = side(s);
    let mut dist: [u32; 93] = [10_000u32; 93];
    let mut q: VecDeque<(u32, u8)> = VecDeque::new();
    let mut j: u32 = 0;
    proof {
        assert(dist@ =~= edge_seed(red, blue, mask, 0).dist);
    }
    while j < 93
        invariant
            j <= 93,
            mask == side_mask(s as int),
            state_of(dist, 0, q@) == edge_seed(red, blue, mask, j as int),
            search_wf(state_of(dist, 0, q@)),
        decreases 93 - j,
    {
        let bitj: u128 = 1u128 << j;
        if mask & bitj != 0 {
            let ghost w0 = state_of(dist, 0, q@);
            assert(forall|k: int| 0 <= k < w0.queue.len() ==> (#[trigger] w0.queue[k]).0 < 93);
            assert(w0.queue == q@);
            dist[j as usize] = 0;
            let pl: u8 = if red & bitj != 0 {
                1
            } else if blue & bitj != 0 {
                2
            } else {
                0
            };
            let ghost q0 = q@;
            q.push_back((j, pl));
            proof {
                assert forall|k: int| 0 <= k < q@.len() implies (#[trigger] q@[k]).0 < 93 by {
                    if k < q0.len() {
                        assert(q@[k] == q0[k]);
                        assert(w0.queue[k] == q0[k]);
                    } else {
                        assert(q@[k] == (j, pl));
                    }
                }
            }
        }
        j = j + 1;
    }
    settle(red, blue, dist, q)
}

fn spread_from_corner(red: u128, blue: u128, c: u32) -> (out: [u32; 93])
    requires
        c < 93,
    ensures
        out@ == corner_distances(red, blue, c as int),
        forall|i: int| 0 <= i < 93 ==> #[trigger] out@[i] <= FAR,
{
    let mut dist: [u32; 93] = [10_000u32; 93];
    let mut q: VecDeque<(u32, u8)> = VecDeque::new();
    dist[c as usize] = 0;
    let bitc: u128 = 1u128 << c;
    let pl: u8 = if red & bitc != 0 {
        1
    } else if blue & bitc != 0 {
        2
    } else {
        0
    };
    q.push_back((c, pl));
    proof {
        assert(state_of(dist, 0, q@) =~= corner_seed(red, blue, c as int));
    }
    settle(red, blue, dist, q)
}

/// The side distances of one point after the cheapest way to all three sides
/// is taken into account.
fn refine_row(x: u32, y: u32, z: u32, a: u32, b: u32, c: u32) -> (r: [u32; 3])
    requires
        x <= FAR,
        y <= FAR,
        z <= FAR,
        a <= FAR,
        b <= FAR,
        c <= FAR,
    ensures
        r@ == refine(x, y, z, a, b, c),
{
    let costs: [u32; 7] = [x + y + z, a + y, b + z, c + x, a + b, b + c, c + a];
    let ghost plan = plan_costs(x as int, y as int, z as int, a as int, b as int, c as int);
    assert(forall|k: int| 0 <= k < 7 ==> costs@[k] as int == #[trigger] plan[k]);
    let mut best: usize = 0;
    let mut k: usize = 1;
    while k < 7
        invariant
            1 <= k <= 7,
            best < k,
            best as int == first_min(plan, k as int),
            forall|j: int| 0 <= j < 7 ==> costs@[j] as int == #[trigger] plan[j],
        decreases 7 - k,
    {
        if costs[k] < costs[best] {
            best = k;
        }
        k = k + 1;
    }
    if best == 0 {
        [x, y, z]
    } else if best == 1 {
        [a / 2, y, a / 2]
    } else if best == 2 {
        [b / 2, b / 2, z]
    } else if best == 3 {
        [x, c / 2, c / 2]
    } else if best == 4 {
        [(a + b) / 2, b / 2, a / 2]
    } else if best == 5 {
        [b / 2, (c + b) / 2, c / 2]
    } else {
        [a / 2, c / 2, (a + c) / 2]
    }
}

/// Walks the chain of the stone on `node`: returns the mask of its points and,
/// for each side, the smallest distance of any of them to that side.
fn chain_of(red: u128, blue: u128, node: u32, dists: &[[u32; 3]; 93]) -> (res: (u128, [u32; 3]))
    requires
        node < 93,
        is_stone(red, blue, node as int),
        forall|i: int| 0 <= i < 93 ==> (#[trigger] dists@[i])@ == distance_row(red, blue, i),
    ensures
        forall|v: int| #[trigger] in_mask(res.0, v) == in_group(chain_stones(red, blue, node as int), node as int, v),
        forall|s: int| 0 <= s < 3 ==> #[trigger] res.1@[s] == group_min(red, blue, node as int, s, 93),
{
    let ghost start = node as int;
    let mask: u128 = 1u128 << node;
    let is_red = red & mask != 0;
    let bridges = if is_red {
        red
    } else {
        blue
    };
    let ghost stones = chain_stones(red, blue, start);
    assert(bridges == stones);
    let mut q: VecDeque<u32> = VecDeque::new();
    let mut visited: u128 = 0;
    let mut dist_to_edges: [u32; 3] = [10_000u32; 3];
    proof {
        lemma_has_set(0u128, start);
        lemma_has_zero();
        lemma_group_start(stones, start);
        assert(mask == bit(start));
    }
    visited = visited | mask;
    q.push_back(node);
    let ghost mut done: Set<int> = Set::empty();
    assert(q@[0] == node);
    while q.len() > 0
        invariant
            node < 93,
            start == node as int,
            stones == chain_stones(red, blue, start),
            bridges == stones,
            forall|i: int| 0 <= i < 93 ==> (#[trigger] dists@[i])@ == distance_row(red, blue, i),
            in_mask(visited, start),
            forall|v: int| #[trigger] in_mask(visited, v) ==> 0 <= v < 93 && in_group(stones, start, v),
            forall|j: int| 0 <= j < q@.len() ==> #[trigger] q@[j] < 93 && in_mask(visited, q@[j] as int),
            forall|v: int| #[trigger] in_mask(visited, v) ==> done.contains(v) || in_queue(q@, v),
            forall|v: int| #[trigger] done.contains(v) ==> in_mask(visited, v),
            forall|v: int, w: int|
                done.contains(v) && #[trigger] adjacent(v, w) && in_mask(stones, w) ==> in_mask(visited, w),
            forall|s: int| 0 <= s < 3 ==> #[trigger] dist_to_edges@[s] <= FAR,
            forall|s: int, v: int|
                0 <= s < 3 && #[trigger] done.contains(v) ==> dist_to_edges@[s] <= #[trigger] distance_row(red, blue, v)[s],
            forall|s: int|
                0 <= s < 3 ==> #[trigger] dist_to_edges@[s] == FAR || exists|v: int|
                    #[trigger] done.contains(v) && dist_to_edges@[s] == distance_row(red, blue, v)[s],
        decreases 8 * count_clear(visited, 93) + q@.len(),
    {
        let ghost m0 = 8 * count_clear(visited, 93) + q@.len();
        let ghost old_q = q@;
        let current = q.pop_front().unwrap();
        let ghost done0 = done;
        proof {
            done = done.insert(current as int);
            assert forall|v: int| #[trigger] in_mask(visited, v) implies done.contains(v) || in_queue(q@, v) by {
                if !done0.contains(v) {
                    let j = choose|j: int| 0 <= j < old_q.len() && old_q[j] as int == v;
                    if j > 0 {
                        assert(q@[j - 1] == old_q[j]);
                    }
                }
            }
        }
        let drow = dists[current as usize];
        let mut i: usize = 0;
        while i < 3
            invariant
                0 <= i <= 3,
                current < 93,
                drow@ == distance_row(red, blue, current as int),
                done == done0.insert(current as int),
                forall|s: int| 0 <= s < 3 ==> #[trigger] dist_to_edges@[s] <= FAR,
                forall|s: int| 0 <= s < i ==> #[trigger] dist_to_edges@[s] <= distance_row(red, blue, current as int)[s],
                forall|s: int, v: int|
                    0 <= s < 3 && #[trigger] done0.contains(v) ==> dist_to_edges@[s] <= #[trigger] distance_row(red, blue, v)[s],
                forall|s: int|
                    0 <= s < 3 ==> #[trigger] dist_to_edges@[s] == FAR || exists|v: int|
                        #[trigger] done.contains(v) && dist_to_edges@[s] == distance_row(red, blue, v)[s],
            decreases 3 - i,
        {
            if drow[i] < dist_to_edges[i] {
                dist_to_edges[i] = drow[i];
                assert(done.contains(current as int));
            }
            i = i + 1;
        }
        let row = neighbours(current);
        let mut k: usize = 0;
        while k < 7
            invariant
                0 <= k <= 7,
                start == node as int,
                current < 93,
                row@ == crate::board::board_row(current),
                forall|j: int| 0 <= j < 7 ==> #[trigger] row@[j] <= 93,
                bridges == stones,
                in_group(stones, start, current as int),
                in_mask(visited, start),
                forall|v: int| #[trigger] in_mask(visited, v) ==> 0 <= v < 93 && in_group(stones, start, v),
                forall|j: int| 0 <= j < q@.len() ==> #[trigger] q@[j] < 93 && in_mask(visited, q@[j] as int),
                forall|v: int| #[trigger] in_mask(visited, v) ==> done.contains(v) || in_queue(q@, v),
                forall|v: int| #[trigger] done.contains(v) ==> in_mask(visited, v),
                forall|v: int, w: int|
                    done0.contains(v) && #[trigger] adjacent(v, w) && in_mask(stones, w) ==> in_mask(visited, w),
                forall|j: int|
                    0 <= j < k && #[trigger] slot(current as int, j) != 0 && in_mask(stones, slot(current as int, j) - 1)
                        ==> in_mask(visited, slot(current as int, j) - 1),
                done == done0.insert(current as int),
                8 * count_clear(visited, 93) + q@.len() < m0,
            decreases 7 - k,
        {
            let adj = row[k];
            if adj != 0 {
                let a = adj - 1;
                let amask: u128 = 1u128 << a;
                if (visited & amask == 0) && (bridges & amask != 0) {
                    proof {
                        lemma_has_set(visited, a as int);
                        lemma_count_clear_set(visited, a as int, 93);
                        assert(slot(current as int, k as int) == a + 1);
                        assert(adjacent(current as int, a as int));
                        lemma_group_step(stones, start, current as int, a as int);
                    }
                    let ghost q_before = q@;
                    visited = visited | amask;
                    q.push_back(a);
                    proof {
                        assert(q@[q@.len() - 1] == a);
                        assert forall|v: int| #[trigger] in_mask(visited, v) implies done.contains(v) || in_queue(q@, v) by {
                            if v != a as int && !done.contains(v) {
                                let j = choose|j: int| 0 <= j < q_before.len() && q_before[j] as int == v;
                                assert(q@[j] == q_before[j]);
                            }
                        }
                    }
                }
            }
            k = k + 1;
        }
        proof {
            assert forall|v: int, w: int|
                done.contains(v) && #[trigger] adjacent(v, w) && in_mask(stones, w) implies in_mask(visited, w) by {
                if v == current as int {
                    let j = choose|j: int| 0 <= j < 7 && #[trigger] slot(v, j) == w + 1;
                }
            }
        }
    }
    proof {
        let set = Set::new(|v: int| in_mask(visited, v));
        assert forall|v: int| #[trigger] in_mask(visited, v) == in_group(stones, start, v) by {
            if in_group(stones, start, v) {
                lemma_closed_holds_group(stones, start, set, v);
            }
        }
        assert forall|s: int| 0 <= s < 3 implies #[trigger] dist_to_edges@[s] == group_min(red, blue, start, s, 93) by {
            lemma_group_min(red, blue, start, s, 93);
            let g = group_min(red, blue, start, s, 93);
            if g != FAR {
                let v = choose|v: int|
                    0 <= v < 93 && #[trigger] in_group(stones, start, v) && g == distance_row(red, blue, v)[s];
                assert(in_mask(visited, v));
                assert(done.contains(v));
            }
            if dist_to_edges@[s] != FAR {
                let v = choose|v: int| #[trigger] done.contains(v) && dist_to_edges@[s] == distance_row(red, blue, v)[s];
                assert(in_mask(visited, v));
                assert(in_group(stones, start, v));
            }
        }
    }
    (visited, dist_to_edges)
}

/// The engine: evaluation of positions and search for the best move.
pub struct Bot;

impl Bot {
    /// For every point, its distances to the three sides: how many more
    /// stones a chain from that point needs to reach each side, where stones
    /// of the chain's colour are free and stones of the other colour block.
    pub fn distance_from_edges(red: u128, blue: u128) -> (out: [[u32; 3]; 93])
        ensures
            forall|i: int| 0 <= i < 93 ==> (#[trigger] out@[i])@ == distance_row(red, blue, i),
    {
        let e0 = spread_from_side(red, blue, 0);
        let e1 = spread_from_side(red, blue, 1);
        let e2 = spread_from_side(red, blue, 2);
        let c0 = spread_from_corner(red, blue, 0);
        let c1 = spread_from_corner(red, blue, 8);
        let c2 = spread_from_corner(red, blue, 16);
        let mut out: [[u32; 3]; 93] = [[10_000u32; 3]; 93];
        let mut i: usize = 0;
        while i < 93
            invariant
                i <= 93,
                e0@ == edge_distances(red, blue, 0),
                e1@ == edge_distances(red, blue, 1),
                e2@ == edge_distances(red, blue, 2),
                c0@ == corner_distances(red, blue, corner_point(0)),
                c1@ == corner_distances(red, blue, corner_point(1)),
                c2@ == corner_distances(red, blue, corner_point(2)),
                forall|j: int| 0 <= j < 93 ==> #[trigger] e0@[j] <= FAR,
                forall|j: int| 0 <= j < 93 ==> #[trigger] e1@[j] <= FAR,
                forall|j: int| 0 <= j < 93 ==> #[trigger] e2@[j] <= FAR,
                forall|j: int| 0 <= j < 93 ==> #[trigger] c0@[j] <= FAR,
                forall|j: int| 0 <= j < 93 ==> #[trigger] c1@[j] <= FAR,
                forall|j: int| 0 <= j < 93 ==> #[trigger] c2@[j] <= FAR,
                forall|j: int| 0 <= j < i ==> (#[trigger] out@[j])@ == distance_row(red, blue, j),
            decreases 93 - i,
        {
            let row = refine_row(e0[i], e1[i], e2[i], c0[i], c1[i], c2[i]);
            out[i] = row;
            i = i + 1;
        }
        out
    }

    /// Every chain on the board, in the order of its smallest point, with its
    /// cost (the sum over the sides of its smallest distance to each) and
    /// whether it is red.
    pub fn all_strings(red: u128, blue: u128) -> (out: Vec<(u32, bool)>)
        ensures
            out@ == strings(red, blue, 93),
    {
        let mut outvisited: u128 = 0;
        let mut dist_of_strings: Vec<(u32, bool)> = Vec::new();
        let distances_to_edges = Self::distance_from_edges(red, blue);
        proof {
            lemma_has_zero();
        }
        let mut node: u32 = 0;
        while node < 93
            invariant
                node <= 93,
                dist_of_strings@ == strings(red, blue, node as int),
                forall|v: int| #[trigger] in_mask(outvisited, v) == claimed(red, blue, leaders(red, blue, node as int), v),
                forall|i: int| 0 <= i < 93 ==> (#[trigger] distances_to_edges@[i])@ == distance_row(red, blue, i),
            decreases 93 - node,
        {
            let mask: u128 = 1u128 << node;
            proof {
                lemma_has_or(red, blue);
                assert(mask == bit(node as int));
            }
            let ghost l = leaders(red, blue, node as int);
            proof {
                lemma_leaders_range(red, blue, node as int);
                assert(in_mask(red | blue, node as int) == ((red | blue) & mask != 0));
            }
            if (red | blue) & mask == 0 {
                assert(!is_stone(red, blue, node as int));
                assert(leaders(red, blue, node + 1) == l);
                node = node + 1;
                continue;
            }
            if outvisited & mask != 0 {
                assert(in_mask(outvisited, node as int));
                assert(claimed(red, blue, l, node as int));
                assert(leaders(red, blue, node + 1) == l);
                node = node + 1;
                continue;
            }
            assert(!in_mask(outvisited, node as int));
            assert(in_mask(red | blue, node as int));
            assert(is_stone(red, blue, node as int));
            let is_red = red & mask != 0;
            let (visited, dist_to_edges) = chain_of(red, blue, node, &distances_to_edges);
            proof {
                lemma_has_or(outvisited, visited);
                let l1 = leaders(red, blue, node + 1);
                assert(l1 == l.insert(node as int));
                assert forall|v: int| #[trigger] in_mask(outvisited | visited, v) == claimed(red, blue, l1, v) by {
                    if in_mask(outvisited, v) {
                        let m = choose|m: int| l.contains(m) && #[trigger] in_group(chain_stones(red, blue, m), m, v);
                        assert(l1.contains(m));
                    }
                    if in_mask(visited, v) {
                        assert(l1.contains(node as int));
                        assert(in_group(chain_stones(red, blue, node as int), node as int, v));
                    }
                    if claimed(red, blue, l1, v) {
                        let m = choose|m: int| l1.contains(m) && #[trigger] in_group(chain_stones(red, blue, m), m, v);
                        if m != node as int {
                            assert(l.contains(m));
                        }
                    }
                }
            }
            outvisited = outvisited | visited;
            proof {
                lemma_group_min(red, blue, node as int, 0, 93);
                lemma_group_min(red, blue, node as int, 1, 93);
                lemma_group_min(red, blue, node as int, 2, 93);
            }
            let cost = dist_to_edges[0] + dist_to_edges[1] + dist_to_edges[2];
            dist_of_strings.push((cost, is_red));
            node = node + 1;
        }
        dist_of_strings
    }

    /// The static evaluation of a position: `INF` when red is connected,
    /// `-INF` when blue is, else the square of blue's cheapest chain cost less
    /// the square of red's.
    pub fn static_eval(boards: (u128, u128)) -> (v: i32)
        ensures
            v == static_score(boards.0, boards.1),
    {
        let (red, blue) = boards;
        let mut red_cost: u32 = 10_000;
        let mut blue_cost: u32 = 10_000;
        let strs = Self::all_strings(red, blue);
        let mut i: usize = 0;
        while i < strs.len()
            invariant
                0 <= i <= strs@.len(),
                strs@ == strings(red, blue, 93),
                red_cost == cheapest(strs@, true, i as int),
                blue_cost == cheapest(strs@, false, i as int),
            decreases strs@.len() - i,
        {
            let (cost, is_red) = strs[i];
            if is_red {
                if cost < red_cost {
                    red_cost = cost;
                }
            } else if cost < blue_cost {
                blue_cost = cost;
            }
            i = i + 1;
        }
        proof {
            lemma_cheapest_bound(strs@, true, strs@.len() as int);
            lemma_cheapest_bound(strs@, false, strs@.len() as int);
        }
        if red_cost == 0 {
            INF
        } else if blue_cost == 0 {
            -INF
        } else {
            let r = red_cost as i32;
            let b = blue_cost as i32;
            assert(0 <= r * r <= 100_000_000) by (nonlinear_arith)
                requires
                    0 <= r <= 10_000,
            ;
            assert(0 <= b * b <= 100_000_000) by (nonlinear_arith)
                requires
                    0 <= b <= 10_000,
            ;
            -(r * r) + b * b
        }
    }

    /// Alpha-beta search from `game` to `depth` moves, reading and filling
    /// the transposition table; returns the value and the best move found
    /// (`NO_MOVE` when none).
    pub fn minimax(
        game: Game,
        depth: u32,
        maximizing: bool,
        alpha: i32,
        beta: i32,
        trasnpositions: &mut Transpositions,
    ) -> (r: (i32, u32))
        ensures
            (r.0, r.1, final(trasnpositions)@) == search_value(
                game@,
                depth,
                maximizing,
                alpha,
                beta,
                old(trasnpositions)@,
            ),
            !old(trasnpositions)@.contains_key(key_of(game@)) && game@.state == GameState::RedWin ==> r == (
                10_000i32,
                NO_MOVE,
            ),
            !old(trasnpositions)@.contains_key(key_of(game@)) && game@.state == GameState::RedLose ==> r == (
                -10_000i32,
                NO_MOVE,
            ),
        decreases depth,
    {
        let mut lo = alpha;
        let mut hi = beta;
        let (red, blue) = game.boards();
        if let Some(best) = trasnpositions.get(&(red, blue, game.player())) {
            return (best, 93);
        }
        match game.state() {
            GameState::RedWin => return (INF, 93),
            GameState::RedLose => return (-INF, 93),
            GameState::OnGoing => {},
        }
        if depth == 0 {
            let eval = Self::static_eval(game.boards());
            return (eval, 93);
        }
        let board = red | blue;
        let mut visited: u128 = 0;
        let mut best_move: u32 = 93;
        let mut best: i32 = if maximizing {
            -2 * INF
        } else {
            2 * INF
        };
        let last = game.last_move();
        let row = neighbours(last);
        let ghost goal = search_value(game@, depth, maximizing, alpha, beta, old(trasnpositions)@);
        let mut idx: usize = 0;
        while idx < 100
            invariant
                0 <= idx <= 100,
                depth > 0,
                row@ == board_row(last),
                last == game@.last_move,
                forall|j: int| 0 <= j < 7 ==> #[trigger] row@[j] <= 93,
                board == game@.red | game@.blue,
                goal == search_value(game@, depth, maximizing, alpha, beta, old(trasnpositions)@),
                goal == scan_moves(
                    game@,
                    depth,
                    maximizing,
                    lo,
                    hi,
                    trasnpositions@,
                    idx as int,
                    visited,
                    best,
                    best_move,
                ),
            decreases 100 - idx,
        {
            let i: u32 = if idx < 7 {
                row[idx]
            } else {
                (idx - 7) as u32
            };
            assert(i == move_order(last)[idx as int]);
            let imask: u128 = 1u128 << i;
            assert(imask == bit(i as int));
            if visited & imask != 0 {
                idx = idx + 1;
                continue;
            }
            visited = visited | imask;
            if board & imask != 0 {
                idx = idx + 1;
                continue;
            }
            let mut new = game.clone();
            new.play_inner(i);
            new.update_winner();
            let (nred, nblue) = new.boards();
            let k = (nred, nblue, new.player());
            let (eval, _) = Self::minimax(new, depth - 1, !maximizing, lo, hi, trasnpositions);
            if maximizing {
                if eval > best {
                    best = eval;
                    best_move = i;
                }
                if best > lo {
                    lo = best;
                }
            } else {
                if eval < best {
                    best = eval;
                    best_move = i;
                }
                if best < hi {
                    hi = best;
                }
            }
            trasnpositions.insert(k, best);
            proof {
                let c = child(game@, i);
                assert(new@ == c);
                assert(k == key_of(c));
            }
            if hi <= lo {
                return (best, best_move);
            }
            idx = idx + 1;
        }
        (best, best_move)
    }

    /// Evaluates the position for `player` (1 red, 2 blue) to `depth` moves
    /// with the given transposition table; at depth 0 returns the static
    /// evaluation and the first free point.
    pub fn eval_with_transpos(
        boards: (u128, u128),
        player: u8,
        depth: u32,
        transpositions: &mut Transpositions,
    ) -> (r: (i32, u32))
        requires
            depth == 0 ==> exists|i: int| 0 <= i < 93 && !in_mask(boards.0 | boards.1, i),
        ensures
            (r.0, r.1, final(transpositions)@) == eval_spec(boards, player, depth, old(transpositions)@),
    {
        if depth == 0 {
            let board = boards.0 | boards.1;
            let mut i: u32 = 0;
            while i < 93
                invariant
                    i <= 93,
                    board == boards.0 | boards.1,
                    transpositions@ == old(transpositions)@,
                    depth == 0,
                    first_free(board, 0) == first_free(board, i as int),
                    exists|j: int| i <= j < 93 && !in_mask(board, j),
                decreases 93 - i,
            {
                let imask: u128 = 1u128 << i;
                assert(in_mask(board, i as int) == (board & imask != 0));
                if board & imask == 0 {
                    return (Self::static_eval(boards), i);
                }
                i = i + 1;
            }
            proof {
                let j = choose|j: int| i <= j < 93 && !in_mask(board, j);
            }
            return (0, 93);
        }
        Self::minimax(Game::new(boards, player == 1), depth, player == 1, -3 * INF, 3 * INF, transpositions)
    }

    /// Evaluates the position for `player` to `depth` moves with a fresh
    /// transposition table.
    pub fn eval(boards: (u128, u128), player: u8, depth: u32) -> (r: (i32, u32))
        requires
            depth == 0 ==> exists|i: int| 0 <= i < 93 && !in_mask(boards.0 | boards.1, i),
        ensures
            r == (eval_spec(boards, player, depth, Map::empty()).0, eval_spec(boards, player, depth, Map::empty()).1),
    {
        Self::eval_with_transpos(boards, player, depth, &mut Transpositions::new())
    }
}

} // verus!
