use vstd::prelude::*;
use std::collections::VecDeque;
use crate::bits::{bit, lemma_has_set};
use crate::board::{in_mask, lemma_slot_bound, neighbours, slot};

verus! {

/// Distance given to a point that no search has reached.
pub const FAR: u32 = 10_000;

/// The state of a distance search: the distance found so far for each point,
/// the points already expanded, and the points waiting to be expanded with
/// the colour (0 none, 1 red, 2 blue) of the chain that reached them.
#[verifier::ext_equal]
pub struct Search {
    pub dist: Seq<u32>,
    pub visited: u128,
    pub queue: Seq<(u32, u8)>,
}

/// Who holds point `j`: 1 for red, 2 for blue, 0 for nobody.
pub open spec fn owner(red: u128, blue: u128, j: int) -> u8 {
    if in_mask(red, j) {
        1
    } else if in_mask(blue, j) {
        2
    } else {
        0
    }
}

/// The stones that block a chain of colour `pl`.
pub open spec fn barriers(red: u128, blue: u128, pl: u8) -> u128 {
    if pl == 1 {
        blue
    } else if pl == 2 {
        red
    } else {
        0
    }
}

/// The stones that a chain of colour `pl` crosses for free.
pub open spec fn bridges(red: u128, blue: u128, pl: u8) -> u128 {
    if pl == 1 {
        red
    } else if pl == 2 {
        blue
    } else {
        0
    }
}

/// Looks at slot `k` of point `c`, reached at distance `d` by a chain of
/// colour `pl`: a free stone of the chain's colour is reached at the same
/// distance and goes to the front of the queue; any other open point is
/// reached one step further and goes to the back, taking the colour of the
/// first stone met.
pub open spec fn relax_slot(red: u128, blue: u128, s: Search, c: int, pl: u8, d: u32, k: int) -> Search {
    let a = slot(c, k);
    if a == 0 {
        s
    } else {
        let adj = a - 1;
        if in_mask(s.visited, adj) || in_mask(barriers(red, blue, pl), adj) {
            s
        } else if in_mask(bridges(red, blue, pl), adj) {
            if d < s.dist[adj] {
                Search {
                    dist: s.dist.update(adj, d),
                    visited: s.visited,
                    queue: seq![(adj as u32, pl)] + s.queue,
                }
            } else {
                s
            }
        } else if d + 1 < s.dist[adj] {
            Search {
                dist: s.dist.update(adj, (d + 1) as u32),
                visited: s.visited,
                queue: s.queue.push(
                    (
                        adj as u32,
                        if pl != 0 {
                            pl
                        } else {
                            owner(red, blue, adj)
                        },
                    ),
                ),
            }
        } else {
            s
        }
    }
}

/// Slots `0..k` of point `c` looked at in order.
pub open spec fn relax(red: u128, blue: u128, s: Search, c: int, pl: u8, d: u32, k: int) -> Search
    decreases k,
{
    if k <= 0 {
        s
    } else {
        relax_slot(red, blue, relax(red, blue, s, c, pl, d, k - 1), c, pl, d, k - 1)
    }
}

/// One round of the search: the point at the front of the queue is taken
/// out, marked expanded, and its neighbours looked at.
pub open spec fn step(red: u128, blue: u128, s: Search) -> Search {
    let c = s.queue[0].0;
    let pl = s.queue[0].1;
    let popped = Search { dist: s.dist, visited: s.visited | bit(c as int), queue: s.queue.drop_first() };
    relax(red, blue, popped, c as int, pl, s.dist[c as int], 7)
}

/// Sum of the first `n` distances.
pub open spec fn total(d: Seq<u32>, n: int) -> int
    decreases n,
{
    if n <= 0 {
        0
    } else {
        total(d, n - 1) + d[n - 1]
    }
}

/// A search state fit to run: one distance per point, none beyond `FAR`,
/// and only points of the board in the queue.
pub open spec fn search_wf(s: Search) -> bool {
    &&& s.dist.len() == 93
    &&& forall|i: int| 0 <= i < 93 ==> #[trigger] s.dist[i] <= FAR
    &&& forall|j: int| 0 <= j < s.queue.len() ==> (#[trigger] s.queue[j]).0 < 93
}

/// What each round of the search lowers.
pub open spec fn measure(s: Search) -> int {
    8 * total(s.dist, 93) + s.queue.len()
}

/// The search run until its queue is empty.
pub open spec fn run(red: u128, blue: u128, s: Search) -> Search
    decreases measure(s),
    when search_wf(s)
    via run_decreases
{
    if s.queue.len() == 0 {
        s
    } else {
        run(red, blue, step(red, blue, s))
    }
}

proof fn lemma_total_nonneg(d: Seq<u32>, n: int)
    ensures
        total(d, n) >= 0,
    decreases n,
{
    if n > 0 {
        lemma_total_nonneg(d, n - 1);
    }
}

proof fn lemma_total_update(d: Seq<u32>, j: int, v: u32, n: int)
    requires
        0 <= j < d.len(),
        n <= d.len(),
    ensures
        total(d.update(j, v), n) == total(d, n) + if j < n {
            v - d[j]
        } else {
            0
        },
    decreases n,
{
    if n > 0 {
        lemma_total_update(d, j, v, n - 1);
    }
}

proof fn lemma_relax_slot(red: u128, blue: u128, s: Search, c: int, pl: u8, d: u32, k: int)
    requires
        search_wf(s),
        0 <= c < 93,
        0 <= k < 7,
        d <= FAR,
    ensures
        search_wf(relax_slot(red, blue, s, c, pl, d, k)),
        measure(relax_slot(red, blue, s, c, pl, d, k)) <= measure(s),
        relax_slot(red, blue, s, c, pl, d, k).visited == s.visited,
{
    lemma_slot_bound(c, k);
    let a = slot(c, k);
    if a != 0 {
        let adj = a - 1;
        lemma_total_update(s.dist, adj, d, 93);
        lemma_total_update(s.dist, adj, (d + 1) as u32, 93);
        let r = relax_slot(red, blue, s, c, pl, d, k);
        assert forall|j: int| 0 <= j < r.queue.len() implies (#[trigger] r.queue[j]).0 < 93 by {
            if r.queue.len() == s.queue.len() + 1 {
                if r.queue[0].0 == adj as u32 && r.queue[0].1 == pl && r.queue == seq![(adj as u32, pl)] + s.queue {
                    if j > 0 {
                        assert(r.queue[j] == s.queue[j - 1]);
                    }
                } else {
                    if j < s.queue.len() {
                        assert(r.queue[j] == s.queue[j]);
                    }
                }
            }
        }
    }
}

proof fn lemma_relax(red: u128, blue: u128, s: Search, c: int, pl: u8, d: u32, k: int)
    requires
        search_wf(s),
        0 <= c < 93,
        0 <= k <= 7,
        d <= FAR,
    ensures
        search_wf(relax(red, blue, s, c, pl, d, k)),
        measure(relax(red, blue, s, c, pl, d, k)) <= measure(s),
        relax(red, blue, s, c, pl, d, k).visited == s.visited,
    decreases k,
{
    if k > 0 {
        lemma_relax(red, blue, s, c, pl, d, k - 1);
        lemma_relax_slot(red, blue, relax(red, blue, s, c, pl, d, k - 1), c, pl, d, k - 1);
    }
}

/// A round of the search keeps the state fit and lowers the measure.
pub proof fn lemma_step(red: u128, blue: u128, s: Search)
    requires
        search_wf(s),
        s.queue.len() > 0,
    ensures
        search_wf(step(red, blue, s)),
        measure(step(red, blue, s)) < measure(s),
        0 <= measure(step(red, blue, s)),
{
    let c = s.queue[0].0;
    let popped = Search { dist: s.dist, visited: s.visited | bit(c as int), queue: s.queue.drop_first() };
    assert forall|j: int| 0 <= j < popped.queue.len() implies (#[trigger] popped.queue[j]).0 < 93 by {
        assert(popped.queue[j] == s.queue[j + 1]);
    }
    lemma_relax(red, blue, popped, c as int, s.queue[0].1, s.dist[c as int], 7);
    lemma_total_nonneg(step(red, blue, s).dist, 93);
}

#[via_fn]
proof fn run_decreases(red: u128, blue: u128, s: Search) {
    if search_wf(s) && s.queue.len() > 0 {
        lemma_step(red, blue, s);
    }
}

/// The search keeps its state fit to the end.
pub proof fn lemma_run_wf(red: u128, blue: u128, s: Search)
    requires
        search_wf(s),
    ensures
        search_wf(run(red, blue, s)),
        run(red, blue, s).queue.len() == 0,
    decreases measure(s),
{
    if s.queue.len() > 0 {
        lemma_step(red, blue, s);
        lemma_run_wf(red, blue, step(red, blue, s));
    }
}

/// The current state of a running search as a `Search`.
pub open spec fn state_of(dist: [u32; 93], visited: u128, q: Seq<(u32, u8)>) -> Search {
    Search { dist: dist@, visited, queue: q }
}

/// Runs the search from the given distances and queue, with nothing expanded
/// yet, until the queue is empty, and returns the distances.
pub fn settle(red: u128, blue: u128, dist: [u32; 93], queue: VecDeque<(u32, u8)>) -> (out: [u32; 93])
    requires
        search_wf(state_of(dist, 0, queue@)),
    ensures
        out@ == run(red, blue, state_of(dist, 0, queue@)).dist,
        forall|i: int| 0 <= i < 93 ==> #[trigger] out@[i] <= FAR,
{
    let ghost init = state_of(dist, 0, queue@);
    let mut dist = dist;
    let mut q = queue;
    let mut visited: u128 = 0;
    while q.len() > 0
        invariant
            search_wf(state_of(dist, visited, q@)),
            run(red, blue, state_of(dist, visited, q@)) == run(red, blue, init),
        decreases measure(state_of(dist, visited, q@)),
    {
        let ghost before = state_of(dist, visited, q@);
        proof {
            lemma_step(red, blue, before);
        }

        let (current, pl) = q.pop_front().unwrap();
        let d = dist[current as usize];
        let cmask: u128 = 1u128 << current;
        visited = visited | cmask;
        let barriers: u128 = if pl == 1 {
            blue
        } else if pl == 2 {
            red
        } else {
            0
        };
        let bridges: u128 = if pl == 1 {
            red
        } else if pl == 2 {
            blue
        } else {
            0
        };
        let ghost popped = state_of(dist, visited, q@);
        proof {
            assert(popped =~= Search {
                dist: before.dist,
                visited: before.visited | bit(current as int),
                queue: before.queue.drop_first(),
            });
        }
        let row = neighbours(current);
        let mut k: usize = 0;
        while k < 7
            invariant
                0 <= k <= 7,
                current < 93,
                d <= FAR,
                row@ == crate::board::board_row(current),
                forall|j: int| 0 <= j < 7 ==> #[trigger] row@[j] <= 93,
                barriers == crate::search::barriers(red, blue, pl),
                bridges == crate::search::bridges(red, blue, pl),
                search_wf(popped),
                state_of(dist, visited, q@) == relax(red, blue, popped, current as int, pl, d, k as int),
            decreases 7 - k,
        {
            proof {
                lemma_relax(red, blue, popped, current as int, pl, d, k as int);
            }
            let adj = row[k];
            if adj != 0 {
                let a = adj - 1;
                let mask: u128 = 1u128 << a;
                if (visited & mask != 0) || (barriers & mask != 0) {
                } else if bridges & mask != 0 {
                    if d < dist[a as usize] {
                        dist[a as usize] = d;
                        q.push_front((a, pl));
                    }
                } else if d + 1 < dist[a as usize] {
                    dist[a as usize] = d + 1;
                    let next_pl: u8 = if pl != 0 {
                        pl
                    } else if red & mask != 0 {
                        1
                    } else if blue & mask != 0 {
                        2
                    } else {
                        0
                    };
                    q.push_back((a, next_pl));
                }
            }
            k = k + 1;
        }
    }
    proof {
        lemma_run_wf(red, blue, init);
    }
    dist
}

} // verus!
