use vstd::prelude::*;
use std::collections::VecDeque;
use crate::bits::{bit, count_clear, lemma_count_clear_set, lemma_has_or, lemma_has_set};
use crate::board::{adjacent, in_mask, neighbours, side, side_mask, slot, NO_MOVE};
use crate::group::{in_group, lemma_closed_holds_group, lemma_group_start, lemma_group_step, spans, touches};

verus! {

/// Where a game stands.
#[derive(Debug, Clone, Copy, PartialEq, Eq, Structural)]
pub enum GameState {
    RedWin,
    RedLose,
    OnGoing,
}

impl Default for GameState {
    fn default() -> (s: Self)
        ensures
            s == GameState::OnGoing,
    {
        GameState::OnGoing
    }
}

/// Why a move was refused.
#[derive(Debug, Clone, PartialEq, Eq, Structural)]
pub enum GameError {
    InvalidMove,
    GameEnded,
}

/// Point `v` waits in the queue `q`.
pub open spec fn in_queue(q: Seq<u32>, v: int) -> bool {
    exists|j: int| 0 <= j < q.len() && q[j] as int == v
}

/// The mathematical picture of a game.
pub struct GameView {
    pub red: u128,
    pub blue: u128,
    pub last_move: u32,
    pub red_to_move: bool,
    pub state: GameState,
}

impl GameView {
    /// The stones of the player to move.
    pub open spec fn mover_stones(self) -> u128 {
        if self.red_to_move {
            self.red
        } else {
            self.blue
        }
    }

    /// The state in which the player to move has won.
    pub open spec fn mover_wins(self) -> GameState {
        if self.red_to_move {
            GameState::RedWin
        } else {
            GameState::RedLose
        }
    }

    /// The game after the player to move puts a stone on `node`, before the
    /// winner is looked at and the turn passes.
    pub open spec fn with_stone(self, node: u32) -> GameView {
        GameView {
            red: if self.red_to_move {
                self.red | bit(node as int)
            } else {
                self.red
            },
            blue: if self.red_to_move {
                self.blue
            } else {
                self.blue | bit(node as int)
            },
            last_move: node,
            red_to_move: self.red_to_move,
            state: self.state,
        }
    }

    /// The game once the winner is looked at: the player to move has won when
    /// the group of its stones through the last move reaches all three sides;
    /// otherwise the state stays.
    pub open spec fn with_winner(self) -> GameView {
        if self.last_move == NO_MOVE {
            self
        } else {
            GameView {
                state: if spans(self.mover_stones(), self.last_move as int) {
                    self.mover_wins()
                } else {
                    self.state
                },
                ..self
            }
        }
    }

    /// The game with the turn passed to the other player.
    pub open spec fn pass_turn(self) -> GameView {
        GameView { red_to_move: !self.red_to_move, ..self }
    }

    /// What `play` answers for `node`.
    pub open spec fn play_result(self, node: u32) -> Result<(), GameError> {
        if self.state != GameState::OnGoing {
            Err(GameError::GameEnded)
        } else if node > 92 {
            Err(GameError::InvalidMove)
        } else if in_mask(self.red, node as int) || in_mask(self.blue, node as int) {
            Err(GameError::InvalidMove)
        } else {
            Ok(())
        }
    }

    /// The game after a successful move on `node`.
    pub open spec fn after_play(self, node: u32) -> GameView {
        self.with_stone(node).with_winner().pass_turn()
    }

    /// The game after `play(node)`, whether or not the move was accepted.
    pub open spec fn play_spec(self, node: u32) -> GameView {
        if self.play_result(node) is Ok {
            self.after_play(node)
        } else {
            self
        }
    }

    /// What stands on `node`: 1 for red, 2 for blue, 0 for nothing.
    pub open spec fn point(self, node: int) -> u8 {
        if in_mask(self.red, node) {
            1
        } else if in_mask(self.blue, node) {
            2
        } else {
            0
        }
    }

    /// The number of the player to move: 1 for red, 2 for blue.
    pub open spec fn player(self) -> u8 {
        if self.red_to_move {
            1
        } else {
            2
        }
    }

    /// A fresh game on the given boards.
    pub open spec fn fresh(red: u128, blue: u128, red_to_move: bool) -> GameView {
        GameView { red, blue, last_move: NO_MOVE, red_to_move, state: GameState::OnGoing }
    }
}

/// A game of Y: the red and blue stones as bit masks over the points of the
/// board, the last move played, whose turn it is and how the game stands.
#[derive(Debug, Clone, Copy)]
pub struct Game {
    red: u128,
    blue: u128,
    last_move: u32,
    red_to_move: bool,
    state: GameState,
}

impl View for Game {
    type V = GameView;

    closed spec fn view(&self) -> GameView {
        GameView {
            red: self.red,
            blue: self.blue,
            last_move: self.last_move,
            red_to_move: self.red_to_move,
            state: self.state,
        }
    }
}

impl Default for Game {
    /// An empty board with blue to move and the first point as last move.
    fn default() -> (g: Self)
        ensures
            g@ == (GameView { red: 0, blue: 0, last_move: 0, red_to_move: false, state: GameState::OnGoing }),
    {
        Game { red: 0, blue: 0, last_move: 0, red_to_move: false, state: GameState::OnGoing }
    }
}

impl Game {
    /// The last move is a point of the board or the "no move" marker.
    #[verifier::type_invariant]
    spec fn wf(self) -> bool {
        self.last_move <= NO_MOVE
    }

    pub fn new(boards: (u128, u128), red_to_move: bool) -> (g: Game)
        ensures
            g@ == GameView::fresh(boards.0, boards.1, red_to_move),
    {
        Game {
            red: boards.0,
            blue: boards.1,
            red_to_move,
            last_move: 93,
            state: GameState::OnGoing,
        }
    }

    pub fn boards(&self) -> (b: (u128, u128))
        ensures
            b == (self@.red, self@.blue),
    {
        (self.red, self.blue)
    }

    pub fn reset(&mut self, red: u128, blue: u128, red_to_move: bool)
        ensures
            final(self)@ == GameView::fresh(red, blue, red_to_move),
    {
        proof {
            use_type_invariant(&*self);
        }
        self.red = red;
        self.blue = blue;
        self.red_to_move = red_to_move;
        self.last_move = 93;
        self.state = GameState::OnGoing;
    }

    pub fn state(&self) -> (s: GameState)
        ensures
            s == self@.state,
    {
        self.state
    }

    pub fn get(&self, node: u32) -> (p: u8)
        requires
            node < 128,
        ensures
            p == self@.point(node as int),
    {
        let mask: u128 = 1u128 << node;
        if self.red & mask != 0 {
            1
        } else if self.blue & mask != 0 {
            2
        } else {
            0
        }
    }

    pub fn player(&self) -> (p: u8)
        ensures
            p == self@.player(),
    {
        if self.red_to_move {
            1
        } else {
            2
        }
    }

    pub fn last_move(&self) -> (m: u32)
        ensures
            m == self@.last_move,
            m <= NO_MOVE,
    {
        proof {
            use_type_invariant(self);
        }
        self.last_move
    }

    /// Puts a stone of the player to move on `node`, records the move and
    /// passes the turn, without any check.
    pub(crate) fn play_inner(&mut self, node: u32)
        requires
            node <= 93,
        ensures
            final(self)@ == old(self)@.with_stone(node).pass_turn(),
    {
        proof {
            use_type_invariant(&*self);
        }
        let mask: u128 = 1u128 << node;
        if self.red_to_move {
            self.red = self.red | mask;
        } else {
            self.blue = self.blue | mask;
        }
        self.last_move = node;
        self.red_to_move = !self.red_to_move;
    }

    pub fn play(&mut self, node: u32) -> (r: Result<(), GameError>)
        ensures
            r == old(self)@.play_result(node),
            final(self)@ == old(self)@.play_spec(node),
    {
        proof {
            use_type_invariant(&*self);
        }
        if self.state != GameState::OnGoing {
            return Err(GameError::GameEnded);
        }
        if node > 92 {
            return Err(GameError::InvalidMove);
        }
        let board = self.red | self.blue;
        let mask: u128 = 1u128 << node;
        proof {
            lemma_has_or(self.red, self.blue);
            assert(in_mask(board, node as int) == (board & mask != 0));
        }
        if board & mask != 0 {
            return Err(GameError::InvalidMove);
        }
        if self.red_to_move {
            self.red = self.red | mask;
        } else {
            self.blue = self.blue | mask;
        }
        self.last_move = node;
        self.update_winner();
        self.red_to_move = !self.red_to_move;
        Ok(())
    }

    /// Looks at the group of the player to move through the last move and
    /// declares that player the winner when the group reaches all three sides.
    pub fn update_winner(&mut self)
        ensures
            final(self)@ == old(self)@.with_winner(),
    {
        proof {
            use_type_invariant(&*self);
        }
        if self.last_move == 93 {
            return;
        }
        let start = self.last_move;
        let stones = if self.red_to_move {
            self.red
        } else {
            self.blue
        };
        let ghost g = self@;
        let ghost win = g.mover_wins();
        let mut q: VecDeque<u32> = VecDeque::new();
        let mut visited: u128 = 0;
        let mut touched: [bool; 3] = [false, false, false];
        proof {
            lemma_has_set(0u128, start as int);
            crate::bits::lemma_has_zero();
            lemma_group_start(stones, start as int);
            assert((1u128 << start) == bit(start as int));
        }
        visited = visited | (1u128 << start);
        q.push_back(start);
        let ghost mut done: Set<int> = Set::empty();
        assert(q@[0] == start);
        while q.len() > 0
            invariant
                start < 93,
                g == old(self)@,
                win == g.mover_wins(),
                stones == g.mover_stones(),
                self.red == g.red,
                self.blue == g.blue,
                self.last_move == g.last_move,
                self.red_to_move == g.red_to_move,
                self.last_move == start,
                in_mask(visited, start as int),
                forall|v: int| #[trigger] in_mask(visited, v) ==> 0 <= v < 93 && in_group(stones, start as int, v),
                forall|j: int| 0 <= j < q@.len() ==> #[trigger] q@[j] < 93 && in_mask(visited, q@[j] as int),
                forall|v: int| #[trigger] in_mask(visited, v) ==> done.contains(v) || in_queue(q@, v),
                forall|v: int| #[trigger] done.contains(v) ==> in_mask(visited, v),
                forall|v: int, w: int|
                    done.contains(v) && #[trigger] adjacent(v, w) && in_mask(stones, w) ==> in_mask(visited, w),
                forall|s: int| 0 <= s < 3 && #[trigger] touched@[s] ==> touches(stones, start as int, s),
                forall|s: int, v: int|
                    0 <= s < 3 && done.contains(v) && #[trigger] in_mask(side_mask(s), v) ==> touched@[s],
                self.state == (if touched@[0] && touched@[1] && touched@[2] {
                    win
                } else {
                    g.state
                }),
            decreases 8 * count_clear(visited, 93) + q@.len(),
        {
            let ghost m0 = 8 * count_clear(visited, 93) + q@.len();
            let ghost old_q = q@;
            let current = q.pop_front().unwrap();
            let ghost done0 = done;
            proof {
                done = done.insert(current as int);
            }
            let cmask: u128 = 1u128 << current;
            let ghost t0 = touched@;
            proof {
                assert forall|v: int| #[trigger] in_mask(visited, v) implies done.contains(v) || in_queue(q@, v) by {
                    if !done0.contains(v) {
                        let j = choose|j: int| 0 <= j < old_q.len() && old_q[j] as int == v;
                        if j > 0 {
                            assert(q@[j - 1] == old_q[j]);
                        }
                    }
                }
            }
            let mut i: usize = 0;
            while i < 3
                invariant
                    0 <= i <= 3,
                    current < 93,
                    in_mask(visited, current as int),
                    in_group(stones, start as int, current as int),
                    cmask == bit(current as int),
                    forall|s: int| 0 <= s < 3 && #[trigger] touched@[s] ==> touches(stones, start as int, s),
                    forall|s: int| 0 <= s < i && #[trigger] in_mask(side_mask(s), current as int) ==> touched@[s],
                    forall|s: int, v: int|
                        0 <= s < 3 && done0.contains(v) && #[trigger] in_mask(side_mask(s), v) ==> touched@[s],
                    forall|s: int| 0 <= s < 3 && #[trigger] t0[s] ==> touched@[s],
                    t0.len() == 3,
                    win == g.mover_wins(),
                    self.red == g.red,
                    self.blue == g.blue,
                    self.last_move == g.last_move,
                    self.red_to_move == g.red_to_move,
                    self.state == (if t0[0] && t0[1] && t0[2] {
                        win
                    } else {
                        g.state
                    }),
                decreases 3 - i,
            {
                if side(i) & cmask != 0 {
                    touched[i] = true;
                }
                i = i + 1;
            }
            proof {
                assert(t0[0] ==> touched@[0]);
                assert(t0[1] ==> touched@[1]);
                assert(t0[2] ==> touched@[2]);
            }
            if touched[0] && touched[1] && touched[2] {
                if self.red_to_move {
                    self.state = GameState::RedWin;
                } else {
                    self.state = GameState::RedLose;
                }
            }
            let row = neighbours(current);
            let ghost t1 = touched@;
            let mut k: usize = 0;
            while k < 7
                invariant
                    0 <= k <= 7,
                    start < 93,
                    current < 93,
                    row@ == crate::board::board_row(current),
                    forall|j: int| 0 <= j < 7 ==> #[trigger] row@[j] <= 93,
                    in_group(stones, start as int, current as int),
                    in_mask(visited, start as int),
                    forall|v: int| #[trigger] in_mask(visited, v) ==> 0 <= v < 93 && in_group(stones, start as int, v),
                    forall|j: int| 0 <= j < q@.len() ==> #[trigger] q@[j] < 93 && in_mask(visited, q@[j] as int),
                    forall|v: int| #[trigger] in_mask(visited, v) ==> done.contains(v) || in_queue(q@, v),
                    forall|v: int| #[trigger] done.contains(v) ==> in_mask(visited, v),
                    forall|v: int, w: int|
                        done0.contains(v) && #[trigger] adjacent(v, w) && in_mask(stones, w) ==> in_mask(visited, w),
                    forall|j: int|
                        0 <= j < k && #[trigger] slot(current as int, j) != 0 && in_mask(stones, slot(current as int, j) - 1)
                            ==> in_mask(visited, slot(current as int, j) - 1),
                    done == done0.insert(current as int),
                    touched@ == t1,
                    win == g.mover_wins(),
                    self.red == g.red,
                    self.blue == g.blue,
                    self.last_move == g.last_move,
                    self.red_to_move == g.red_to_move,
                    self.state == (if touched@[0] && touched@[1] && touched@[2] {
                        win
                    } else {
                        g.state
                    }),
                    8 * count_clear(visited, 93) + q@.len() < m0,
                decreases 7 - k,
            {
                let adj = row[k];
                if adj != 0 {
                    let a = adj - 1;
                    let mask: u128 = 1u128 << a;
                    if visited & mask == 0 && stones & mask != 0 {
                        proof {
                            lemma_has_set(visited, a as int);
                            lemma_count_clear_set(visited, a as int, 93);
                            assert(slot(current as int, k as int) == a + 1);
                            assert(adjacent(current as int, a as int));
                            lemma_group_step(stones, start as int, current as int, a as int);
                        }
                        let ghost q_before = q@;
                        visited = visited | mask;
                        q.push_back(a);
                        proof {
                            assert(q@[q@.len() - 1] == a);
                            assert forall|j: int| 0 <= j < q_before.len() implies q@[j] == q_before[j] by {}
                            assert forall|v: int| #[trigger] in_mask(visited, v) implies done.contains(v) || in_queue(q@, v) by {
                                if v != a as int && !done.contains(v) {
                                    let j = choose|j: int| 0 <= j < q_before.len() && q_before[j] as int == v;
                                    assert(q@[j] == q_before[j]);
                                }
                            }
                        }
                    }
                }
                k = k + 1;
            }
            proof {
                assert forall|v: int, w: int|
                    done.contains(v) && #[trigger] adjacent(v, w) && in_mask(stones, w) implies in_mask(visited, w) by {
                    if v == current as int {
                        let j = choose|j: int| 0 <= j < 7 && #[trigger] slot(v, j) == w + 1;
                    }
                }
            }
        }
        proof {
            let set = Set::new(|v: int| in_mask(visited, v));
            assert forall|v: int| in_group(stones, start as int, v) implies #[trigger] in_mask(visited, v) by {
                lemma_closed_holds_group(stones, start as int, set, v);
            }
            assert forall|s: int| 0 <= s < 3 implies touched@[s] == touches(stones, start as int, s) by {
                if touches(stones, start as int, s) {
                    let v = choose|v: int| #[trigger] in_group(stones, start as int, v) && in_mask(side_mask(s), v);
                    assert(in_mask(visited, v));
                    assert(!in_queue(q@, v));
                }
            }
        }
    }
}

} // verus!
