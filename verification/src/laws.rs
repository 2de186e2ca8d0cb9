use vstd::prelude::*;
use crate::bits::{bit, lemma_has_set};
use crate::board::{in_mask, side_mask, NO_MOVE};
use crate::bot::{
    cheapest, corner_point, key_of, static_score, strings,
    claimed, corner_distances, corner_seed, edge_distances, edge_seed, first_min, is_stone, lemma_first_min,
    leaders, move_order, plan_costs, refine, scan_moves, search_value, chain_stones,
};
use crate::game::{GameState, GameView};
use crate::group::{in_group, lemma_group_start, spans};
use crate::search::{relax, relax_slot, run, search_wf, step, Search, FAR};
use crate::table::Position;

verus! {

/// After an accepted move the point holds a stone of the player who moved,
/// every other point is as it was, and the turn has passed.
pub proof fn law_play_then_get(g: GameView, node: u32)
    requires
        g.play_result(node) is Ok,
    ensures
        g.play_spec(node).point(node as int) == g.player(),
        forall|j: int| j != node ==> #[trigger] g.play_spec(node).point(j) == g.point(j),
        g.play_spec(node).player() != g.player(),
        g.play_spec(node).last_move == node,
{
    lemma_has_set(g.red, node as int);
    lemma_has_set(g.blue, node as int);
}

/// Stones are never taken off the board by a move.
pub proof fn law_stones_stay(g: GameView, node: u32, j: int)
    requires
        in_mask(g.red, j) || in_mask(g.blue, j),
    ensures
        g.play_spec(node).point(j) == g.point(j),
{
    if g.play_result(node) is Ok {
        lemma_has_set(g.red, node as int);
        lemma_has_set(g.blue, node as int);
    }
}

/// A finished game refuses every move and stays as it is.
pub proof fn law_finished_game_frozen(g: GameView, node: u32)
    requires
        g.state != GameState::OnGoing,
    ensures
        g.play_result(node) == Err::<(), crate::game::GameError>(crate::game::GameError::GameEnded),
        g.play_spec(node) == g,
{
}

/// An accepted move ends the game exactly when the mover's group through the
/// new stone reaches all three sides, and then the mover is the winner.
pub proof fn law_win_is_a_y(g: GameView, node: u32)
    requires
        g.play_result(node) is Ok,
    ensures
        (g.play_spec(node).state != GameState::OnGoing) == spans(g.with_stone(node).mover_stones(), node as int),
        g.play_spec(node).state == GameState::RedWin <==> g.red_to_move && spans(g.red | bit(node as int), node as int),
        g.play_spec(node).state == GameState::RedLose <==> !g.red_to_move && spans(g.blue | bit(node as int), node as int),
{
}

/// Looking for the winner twice decides the same as looking once.
pub proof fn law_winner_check_idempotent(g: GameView)
    ensures
        g.with_winner().with_winner() == g.with_winner(),
{
}

/// Looking up a position just stored gives the stored value; other
/// positions keep theirs.
pub proof fn law_table_read_after_write(t: Map<Position, i32>, k: Position, v: i32, other: Position)
    requires
        other != k,
    ensures
        t.insert(k, v).contains_key(k),
        t.insert(k, v)[k] == v,
        t.insert(k, v).contains_key(other) == t.contains_key(other),
        t.contains_key(other) ==> t.insert(k, v)[other] == t[other],
{
}

proof fn lemma_relax_lowers(red: u128, blue: u128, s: Search, c: int, pl: u8, d: u32, k: int)
    requires
        search_wf(s),
        0 <= c < 93,
        0 <= k <= 7,
    ensures
        relax(red, blue, s, c, pl, d, k).dist.len() == 93,
        forall|i: int| 0 <= i < 93 ==> #[trigger] relax(red, blue, s, c, pl, d, k).dist[i] <= s.dist[i],
    decreases k,
{
    if k > 0 {
        lemma_relax_lowers(red, blue, s, c, pl, d, k - 1);
        let r = relax(red, blue, s, c, pl, d, k - 1);
        crate::board::lemma_slot_bound(c, k - 1);
        let r2 = relax_slot(red, blue, r, c, pl, d, k - 1);
        assert forall|i: int| 0 <= i < 93 implies #[trigger] r2.dist[i] <= s.dist[i] by {
            assert(r.dist[i] <= s.dist[i]);
        }
    }
}

/// A search never raises a distance.
proof fn lemma_run_lowers(red: u128, blue: u128, s: Search)
    requires
        search_wf(s),
    ensures
        forall|i: int| 0 <= i < 93 ==> #[trigger] run(red, blue, s).dist[i] <= s.dist[i],
    decreases crate::search::measure(s),
{
    if s.queue.len() > 0 {
        crate::search::lemma_step(red, blue, s);
        let c = s.queue[0].0;
        let popped = Search { dist: s.dist, visited: s.visited | bit(c as int), queue: s.queue.drop_first() };
        assert forall|j: int| 0 <= j < popped.queue.len() implies (#[trigger] popped.queue[j]).0 < 93 by {
            assert(popped.queue[j] == s.queue[j + 1]);
        }
        lemma_relax_lowers(red, blue, popped, c as int, s.queue[0].1, s.dist[c as int], 7);
        lemma_run_lowers(red, blue, step(red, blue, s));
        assert(run(red, blue, s) == run(red, blue, step(red, blue, s)));
        assert forall|i: int| 0 <= i < 93 implies #[trigger] run(red, blue, s).dist[i] <= s.dist[i] by {
            assert(step(red, blue, s).dist[i] <= popped.dist[i]);
        }
    }
}

proof fn lemma_edge_seed(red: u128, blue: u128, mask: u128, n: int)
    requires
        0 <= n <= 93,
    ensures
        search_wf(edge_seed(red, blue, mask, n)),
        forall|j: int| 0 <= j < n && in_mask(mask, j) ==> #[trigger] edge_seed(red, blue, mask, n).dist[j] == 0,
    decreases n,
{
    if n > 0 {
        lemma_edge_seed(red, blue, mask, n - 1);
        let p = edge_seed(red, blue, mask, n - 1);
        let s = edge_seed(red, blue, mask, n);
        assert forall|j: int| 0 <= j < s.queue.len() implies (#[trigger] s.queue[j]).0 < 93 by {
            if j < p.queue.len() {
                assert(s.queue[j] == p.queue[j]);
            }
        }
    }
}

/// Every point of a side is at distance 0 from it.
pub proof fn law_side_points_at_zero(red: u128, blue: u128, s: int, j: int)
    requires
        0 <= s < 3,
        0 <= j < 93,
        in_mask(side_mask(s), j),
    ensures
        edge_distances(red, blue, s)[j] == 0,
{
    lemma_edge_seed(red, blue, side_mask(s), 93);
    lemma_run_lowers(red, blue, edge_seed(red, blue, side_mask(s), 93));
}

/// A corner point is at distance 0 from itself.
pub proof fn law_corner_at_zero(red: u128, blue: u128, c: int)
    requires
        0 <= c < 93,
    ensures
        corner_distances(red, blue, c)[c] == 0,
{
    let s = corner_seed(red, blue, c);
    assert(search_wf(s));
    lemma_run_lowers(red, blue, s);
}

/// Taking the cheapest way to the three sides into account never makes a
/// point's total distance larger than that way's cost, nor than the sum of
/// its plain side distances.
pub proof fn law_refine_cheaper(x: u32, y: u32, z: u32, a: u32, b: u32, c: u32)
    ensures
        refine(x, y, z, a, b, c)[0] + refine(x, y, z, a, b, c)[1] + refine(x, y, z, a, b, c)[2]
            <= plan_costs(x as int, y as int, z as int, a as int, b as int, c as int)[first_min(
            plan_costs(x as int, y as int, z as int, a as int, b as int, c as int),
            7,
        )],
        refine(x, y, z, a, b, c)[0] + refine(x, y, z, a, b, c)[1] + refine(x, y, z, a, b, c)[2] <= x + y + z,
{
    let costs = plan_costs(x as int, y as int, z as int, a as int, b as int, c as int);
    lemma_first_min(costs, 7);
    assert(costs[first_min(costs, 7)] <= costs[0]);
}

/// Every stone lies in the chain of one of the chain starts that
/// `all_strings` reports.
pub proof fn law_every_stone_in_a_chain(red: u128, blue: u128, v: int, n: int)
    requires
        0 <= v < n <= 93,
        is_stone(red, blue, v),
    ensures
        claimed(red, blue, leaders(red, blue, n), v),
    decreases n,
{
    let l = leaders(red, blue, n - 1);
    if v < n - 1 {
        law_every_stone_in_a_chain(red, blue, v, n - 1);
        let m = choose|m: int| l.contains(m) && #[trigger] in_group(chain_stones(red, blue, m), m, v);
        assert(leaders(red, blue, n).contains(m));
    } else {
        if !claimed(red, blue, l, v) {
            lemma_group_start(chain_stones(red, blue, v), v);
            assert(leaders(red, blue, n).contains(v));
        }
    }
}

/// The move the search returns is either none or a free point of the board,
/// and the search never drops a stored position from the table.
pub proof fn law_search_move_free(
    g: GameView,
    depth: u32,
    maximizing: bool,
    alpha: i32,
    beta: i32,
    t: Map<Position, i32>,
)
    ensures
        search_value(g, depth, maximizing, alpha, beta, t).1 == NO_MOVE || (search_value(
            g,
            depth,
            maximizing,
            alpha,
            beta,
            t,
        ).1 < 93 && !in_mask(g.red | g.blue, search_value(g, depth, maximizing, alpha, beta, t).1 as int)),
        t.dom().subset_of(search_value(g, depth, maximizing, alpha, beta, t).2.dom()),
    decreases depth, 1int, 0int,
{
    if !t.contains_key(crate::bot::key_of(g)) && g.state == GameState::OnGoing && depth > 0 {
        law_scan_move_free(
            g,
            depth,
            maximizing,
            alpha,
            beta,
            t,
            0,
            0,
            if maximizing {
                (-2 * crate::bot::INF) as i32
            } else {
                (2 * crate::bot::INF) as i32
            },
            NO_MOVE,
        );
    }
}

/// The move loop of the search keeps the best move none or free.
#[verifier::spinoff_prover]
#[verifier::rlimit(40)]
pub proof fn law_scan_move_free(
    g: GameView,
    depth: u32,
    maximizing: bool,
    alpha: i32,
    beta: i32,
    t: Map<Position, i32>,
    idx: int,
    seen: u128,
    best: i32,
    best_move: u32,
)
    requires
        best_move == NO_MOVE || (best_move < 93 && !in_mask(g.red | g.blue, best_move as int)),
    ensures
        scan_moves(g, depth, maximizing, alpha, beta, t, idx, seen, best, best_move).1 == NO_MOVE || (scan_moves(
            g,
            depth,
            maximizing,
            alpha,
            beta,
            t,
            idx,
            seen,
            best,
            best_move,
        ).1 < 93 && !in_mask(
            g.red | g.blue,
            scan_moves(g, depth, maximizing, alpha, beta, t, idx, seen, best, best_move).1 as int,
        )),
        t.dom().subset_of(scan_moves(g, depth, maximizing, alpha, beta, t, idx, seen, best, best_move).2.dom()),
    decreases depth, 0int, 100 - idx,
{
    if !(idx >= 100 || depth == 0 || idx < 0) {
        let i = move_order(g.last_move)[idx];
        if in_mask(seen, i as int) {
            law_scan_move_free(g, depth, maximizing, alpha, beta, t, idx + 1, seen, best, best_move);
        } else {
            let seen2 = seen | bit(i as int);
            if in_mask(g.red | g.blue, i as int) {
                law_scan_move_free(g, depth, maximizing, alpha, beta, t, idx + 1, seen2, best, best_move);
            } else {
                let c = crate::bot::child(g, i);
                law_search_move_free(c, (depth - 1) as u32, !maximizing, alpha, beta, t);
                let r = search_value(c, (depth - 1) as u32, !maximizing, alpha, beta, t);
                let improved = if maximizing {
                    r.0 > best
                } else {
                    r.0 < best
                };
                let best2 = if improved {
                    r.0
                } else {
                    best
                };
                let move2 = if improved {
                    i
                } else {
                    best_move
                };
                let alpha2 = if maximizing && best2 > alpha {
                    best2
                } else {
                    alpha
                };
                let beta2 = if !maximizing && best2 < beta {
                    best2
                } else {
                    beta
                };
                let t2 = r.2.insert(crate::bot::key_of(c), best2);
                assert(move_order(g.last_move)[idx] <= 93) by {
                    let row = crate::board::board_row(g.last_move);
                    if idx < 7 {
                        crate::board::lemma_slot_bound(g.last_move as int, idx);
                        assert(move_order(g.last_move)[idx] == row[idx]);
                    }
                }
                if !(beta2 <= alpha2) {
                    law_scan_move_free(g, depth, maximizing, alpha2, beta2, t2, idx + 1, seen2, best2, move2);
                }
            }
        }
    }
}

/// A finished game that the table does not hold is worth the score of its
/// winner: `+10000` when red has won, `-10000` when blue has, with no move
/// and the table untouched.
pub proof fn law_finished_game_value(
    g: GameView,
    depth: u32,
    maximizing: bool,
    alpha: i32,
    beta: i32,
    t: Map<Position, i32>,
)
    requires
        !t.contains_key(key_of(g)),
        g.state != GameState::OnGoing,
    ensures
        g.state == GameState::RedWin ==> search_value(g, depth, maximizing, alpha, beta, t).0 == 10_000,
        g.state == GameState::RedLose ==> search_value(g, depth, maximizing, alpha, beta, t).0 == -10_000,
        search_value(g, depth, maximizing, alpha, beta, t).0 > 0 <==> g.state == GameState::RedWin,
        search_value(g, depth, maximizing, alpha, beta, t).1 == NO_MOVE,
        search_value(g, depth, maximizing, alpha, beta, t).2 == t,
{
}

/// Plan `p` of the seven ways to all three sides goes straight to side `s`.
pub open spec fn plan_side(p: int, s: int) -> bool {
    p == 0 || (p == 1 && s == 1) || (p == 2 && s == 2) || (p == 3 && s == 0)
}

/// Plan `p` goes through corner `k` (corner 0, 1, 2 is point 0, 8, 16).
pub open spec fn plan_corner(p: int, k: int) -> bool {
    ||| p == 1 && k == 0
    ||| p == 2 && k == 1
    ||| p == 3 && k == 2
    ||| p == 4 && (k == 0 || k == 1)
    ||| p == 5 && (k == 1 || k == 2)
    ||| p == 6 && (k == 2 || k == 0)
}

/// Corner `k` is a point of side `s`.
pub open spec fn corner_on_side(k: int, s: int) -> bool {
    in_mask(side_mask(s), corner_point(k))
}

pub open spec fn pick3(s: int, v0: int, v1: int, v2: int) -> int {
    if s == 0 {
        v0
    } else if s == 1 {
        v1
    } else {
        v2
    }
}

/// The cost of plan `p`: the distances of the sides it goes to straight and
/// of the corners it goes through.
pub open spec fn plan_cost(p: int, x: int, y: int, z: int, a: int, b: int, c: int) -> int {
    (if plan_side(p, 0) { x } else { 0 }) + (if plan_side(p, 1) { y } else { 0 }) + (if plan_side(p, 2) {
        z
    } else {
        0
    }) + (if plan_corner(p, 0) { a } else { 0 }) + (if plan_corner(p, 1) { b } else { 0 }) + (if plan_corner(
        p,
        2,
    ) {
        c
    } else {
        0
    })
}

/// What plan `p` gives for side `s`: its own distance when the plan goes
/// there straight, else half the sum of the distances of the plan's
/// corners that lie on side `s`.
pub open spec fn plan_slot(p: int, s: int, x: int, y: int, z: int, a: int, b: int, c: int) -> int {
    if plan_side(p, s) {
        pick3(s, x, y, z)
    } else {
        ((if plan_corner(p, 0) && corner_on_side(0, s) { a } else { 0 }) + (if plan_corner(p, 1)
            && corner_on_side(1, s) {
            b
        } else {
            0
        }) + (if plan_corner(p, 2) && corner_on_side(2, s) {
            c
        } else {
            0
        })) / 2
    }
}

/// Which corners lie on which sides: corner 0 on sides 0 and 2, corner 1 on
/// sides 0 and 1, corner 2 on sides 1 and 2.
pub proof fn law_corners_on_sides()
    ensures
        corner_on_side(0, 0) && !corner_on_side(0, 1) && corner_on_side(0, 2),
        corner_on_side(1, 0) && corner_on_side(1, 1) && !corner_on_side(1, 2),
        !corner_on_side(2, 0) && corner_on_side(2, 1) && corner_on_side(2, 2),
{
    assert(511u128 & (1u128 << 0u128) != 0) by (bit_vector);
    assert(511u128 & (1u128 << 8u128) != 0) by (bit_vector);
    assert(511u128 & (1u128 << 16u128) == 0) by (bit_vector);
    assert(130816u128 & (1u128 << 0u128) == 0) by (bit_vector);
    assert(130816u128 & (1u128 << 8u128) != 0) by (bit_vector);
    assert(130816u128 & (1u128 << 16u128) != 0) by (bit_vector);
    assert(16711681u128 & (1u128 << 0u128) != 0) by (bit_vector);
    assert(16711681u128 & (1u128 << 8u128) == 0) by (bit_vector);
    assert(16711681u128 & (1u128 << 16u128) != 0) by (bit_vector);
}

/// Every plan reaches all three sides, either straight or through one of its
/// corners, and its cost is the sum of the distances it uses.
pub proof fn law_plans_reach_all_sides(p: int, s: int, x: int, y: int, z: int, a: int, b: int, c: int)
    requires
        0 <= p < 7,
        0 <= s < 3,
    ensures
        plan_side(p, s) || exists|k: int| 0 <= k < 3 && plan_corner(p, k) && #[trigger] corner_on_side(k, s),
        plan_costs(x, y, z, a, b, c)[p] == plan_cost(p, x, y, z, a, b, c),
{
    law_corners_on_sides();
    if !plan_side(p, s) {
        if p == 1 || p == 4 || p == 6 {
            if corner_on_side(0, s) {
                assert(plan_corner(p, 0) && corner_on_side(0, s));
            } else if p == 1 {
                assert(plan_corner(p, 0) && corner_on_side(0, s));
            } else if p == 4 {
                assert(plan_corner(p, 1) && corner_on_side(1, s));
            } else {
                assert(plan_corner(p, 2) && corner_on_side(2, s));
            }
        } else if p == 2 || p == 5 {
            if corner_on_side(1, s) {
                assert(plan_corner(p, 1) && corner_on_side(1, s));
            } else if p == 5 {
                assert(plan_corner(p, 2) && corner_on_side(2, s));
            }
        } else if p == 3 {
            assert(plan_corner(p, 2) && corner_on_side(2, s));
        }
    }
}

/// Slot `s` of a refined row is about side `s`: the cheapest plan is taken,
/// and each slot holds what that plan gives for its side.
pub proof fn law_refine_slots(x: u32, y: u32, z: u32, a: u32, b: u32, c: u32)
    ensures
        ({
            let costs = plan_costs(x as int, y as int, z as int, a as int, b as int, c as int);
            let p = first_min(costs, 7);
            &&& 0 <= p < 7
            &&& forall|q: int| 0 <= q < 7 ==> costs[p] <= #[trigger] costs[q]
            &&& forall|s: int|
                0 <= s < 3 ==> refine(x, y, z, a, b, c)[s] as int == #[trigger] plan_slot(
                    p,
                    s,
                    x as int,
                    y as int,
                    z as int,
                    a as int,
                    b as int,
                    c as int,
                )
        }),
{
    let costs = plan_costs(x as int, y as int, z as int, a as int, b as int, c as int);
    lemma_first_min(costs, 7);
    law_corners_on_sides();
}

/// A point of side `s` whose cheapest plan goes to side `s` straight keeps
/// distance 0 to side `s`.
pub proof fn law_side_point_keeps_zero(red: u128, blue: u128, i: int, s: int)
    requires
        0 <= i < 93,
        0 <= s < 3,
        in_mask(side_mask(s), i),
        plan_side(
            first_min(
                plan_costs(
                    edge_distances(red, blue, 0)[i] as int,
                    edge_distances(red, blue, 1)[i] as int,
                    edge_distances(red, blue, 2)[i] as int,
                    corner_distances(red, blue, corner_point(0))[i] as int,
                    corner_distances(red, blue, corner_point(1))[i] as int,
                    corner_distances(red, blue, corner_point(2))[i] as int,
                ),
                7,
            ),
            s,
        ),
    ensures
        crate::bot::distance_row(red, blue, i)[s] == 0,
{
    law_side_points_at_zero(red, blue, s, i);
    law_refine_slots(
        edge_distances(red, blue, 0)[i],
        edge_distances(red, blue, 1)[i],
        edge_distances(red, blue, 2)[i],
        corner_distances(red, blue, corner_point(0))[i],
        corner_distances(red, blue, corner_point(1))[i],
        corner_distances(red, blue, corner_point(2))[i],
    );
}

/// `v` is the least cost of the chains of the wanted colour in `strs`, or
/// `FAR` when none costs less.
pub open spec fn least_cost(strs: Seq<(u32, bool)>, want_red: bool, v: u32) -> bool {
    &&& v <= FAR
    &&& forall|k: int| 0 <= k < strs.len() && (#[trigger] strs[k]).1 == want_red ==> v <= strs[k].0
    &&& (v == FAR || exists|k: int| 0 <= k < strs.len() && (#[trigger] strs[k]).1 == want_red && strs[k].0 == v)
}

proof fn lemma_cheapest_least(strs: Seq<(u32, bool)>, want_red: bool, n: int)
    requires
        0 <= n <= strs.len(),
    ensures
        least_cost(strs.take(n), want_red, cheapest(strs, want_red, n)),
    decreases n,
{
    if n > 0 {
        lemma_cheapest_least(strs, want_red, n - 1);
        let p = strs.take(n - 1);
        let q = strs.take(n);
        assert forall|k: int| 0 <= k < n - 1 implies q[k] == p[k] by {}
        let v = cheapest(strs, want_red, n);
        if v != FAR && v != strs[n - 1].0 {
            let k = choose|k: int| 0 <= k < p.len() && (#[trigger] p[k]).1 == want_red && p[k].0 == cheapest(
                strs,
                want_red,
                n - 1,
            );
            assert(q[k] == p[k]);
        }
        if v == strs[n - 1].0 && strs[n - 1].1 == want_red {
            assert(q[n - 1] == strs[n - 1]);
        }
    } else {
        assert(strs.take(0).len() == 0);
    }
}

proof fn lemma_least_unique(strs: Seq<(u32, bool)>, want_red: bool, v: u32, w: u32)
    requires
        least_cost(strs, want_red, v),
        least_cost(strs, want_red, w),
    ensures
        v == w,
{
    if v != FAR {
        let k = choose|k: int| 0 <= k < strs.len() && (#[trigger] strs[k]).1 == want_red && strs[k].0 == v;
        assert(w <= strs[k].0);
    }
    if w != FAR {
        let k = choose|k: int| 0 <= k < strs.len() && (#[trigger] strs[k]).1 == want_red && strs[k].0 == w;
        assert(v <= strs[k].0);
    }
}

/// The static evaluation from the least red and blue chain costs `r` and
/// `b`: `+10000` exactly when red's cheapest chain costs nothing, `-10000`
/// when blue's costs nothing and red's does not, and otherwise the square of
/// blue's cost less the square of red's.
pub proof fn law_static_eval(red: u128, blue: u128, r: u32, b: u32)
    requires
        least_cost(strings(red, blue, 93), true, r),
        least_cost(strings(red, blue, 93), false, b),
    ensures
        r == 0 ==> static_score(red, blue) == 10_000,
        r > 0 && b == 0 ==> static_score(red, blue) == -10_000,
        r > 0 && b > 0 ==> static_score(red, blue) as int == b * b - r * r,
        r > 0 && b > 0 ==> (static_score(red, blue) > 0 <==> b > r),
{
    let s = strings(red, blue, 93);
    lemma_cheapest_least(s, true, s.len() as int);
    lemma_cheapest_least(s, false, s.len() as int);
    assert(s.take(s.len() as int) =~= s);
    lemma_least_unique(s, true, r, cheapest(s, true, s.len() as int));
    lemma_least_unique(s, false, b, cheapest(s, false, s.len() as int));
    assert(0 <= r * r <= 100_000_000) by (nonlinear_arith)
        requires
            0 <= r <= 10_000,
    ;
    assert(0 <= b * b <= 100_000_000) by (nonlinear_arith)
        requires
            0 <= b <= 10_000,
    ;
    if r > 0 && b > 0 {
        assert((b * b > r * r) <==> b > r) by (nonlinear_arith)
            requires
                r > 0,
                b > 0,
        ;
    }
}

} // verus!
