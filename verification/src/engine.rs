//! The board engine: a fixed-length array of stone counters plus the
//! state machine that applies a single move (sowing, capture, extra
//! turns, end-of-game sweep).

use vstd::prelude::*;

verus! {

/// Number of slots per side: six playable pits plus one goal pit.
pub const SLOTS: usize = 7;

/// Stones placed in every playable pit at the start of a game.
pub const STARTING_STONES: u8 = 4;

/// Total number of board slots (both sides).
pub const BOARD_LENGTH: usize = SLOTS * 2;

/// Total stones in play: four stones in each of the twelve playable pits.
pub const TOTAL_STONES: u8 = 48;

/// Sum of the stone counters of `b` over the index range `[i, j)`.
pub open spec fn sum_between(b: Seq<u8>, i: int, j: int) -> int
    decreases j - i,
{
    if 0 <= i && i < j && j <= b.len() {
        b[i] + sum_between(b, i + 1, j)
    } else {
        0
    }
}

/// Sum of all stone counters of `b`.
pub open spec fn total(b: Seq<u8>) -> int {
    sum_between(b, 0, b.len() as int)
}

pub proof fn lemma_sum_between_nonneg(b: Seq<u8>, i: int, j: int)
    ensures
        sum_between(b, i, j) >= 0,
    decreases j - i,
{
    if 0 <= i && i < j && j <= b.len() {
        lemma_sum_between_nonneg(b, i + 1, j);
    }
}

pub proof fn lemma_sum_between_split(b: Seq<u8>, i: int, k: int, j: int)
    requires
        0 <= i <= k <= j <= b.len(),
    ensures
        sum_between(b, i, j) == sum_between(b, i, k) + sum_between(b, k, j),
    decreases k - i,
{
    if i < k {
        lemma_sum_between_split(b, i + 1, k, j);
    }
}

/// Changing one counter outside `[i, j)` leaves the range sum unchanged;
/// changing one inside moves it by the difference.
pub proof fn lemma_sum_between_update(b: Seq<u8>, i: int, j: int, k: int, v: u8)
    requires
        0 <= k < b.len(),
        0 <= i,
        j <= b.len(),
    ensures
        i <= k < j ==> sum_between(b.update(k, v), i, j) == sum_between(b, i, j) - b[k] + v,
        !(i <= k < j) ==> sum_between(b.update(k, v), i, j) == sum_between(b, i, j),
    decreases j - i,
{
    if i < j {
        lemma_sum_between_update(b, i + 1, j, k, v);
    }
}

/// A single counter never exceeds the sum of any range that contains it.
pub proof fn lemma_elem_le_sum(b: Seq<u8>, i: int, j: int, k: int)
    requires
        0 <= i <= k < j <= b.len(),
    ensures
        b[k] <= sum_between(b, i, j),
{
    lemma_sum_between_split(b, i, k, j);
    lemma_sum_between_nonneg(b, i, k);
    lemma_sum_between_nonneg(b, k + 1, j);
}

/// Two distinct counters never exceed the sum of a range containing both.
pub proof fn lemma_two_elems_le_sum(b: Seq<u8>, i: int, j: int, k1: int, k2: int)
    requires
        0 <= i <= k1 < k2 < j <= b.len(),
    ensures
        b[k1] + b[k2] <= sum_between(b, i, j),
{
    lemma_sum_between_split(b, i, k1, j);
    lemma_sum_between_split(b, k1 + 1, k2, j);
    lemma_sum_between_nonneg(b, i, k1);
    lemma_sum_between_nonneg(b, k1 + 1, k2);
    lemma_sum_between_nonneg(b, k2 + 1, j);
}

/// A range of all-zero counters sums to zero.
pub proof fn lemma_sum_between_zero(b: Seq<u8>, i: int, j: int)
    requires
        forall|k: int| i <= k < j ==> 0 <= k < b.len() && b[k] == 0,
    ensures
        sum_between(b, i, j) == 0,
    decreases j - i,
{
    if 0 <= i && i < j && j <= b.len() {
        lemma_sum_between_zero(b, i + 1, j);
    }
}

/// Goal index of the side to move when `player_one_turn` holds.
pub open spec fn own_goal(player_one_turn: bool) -> int {
    if player_one_turn {
        SLOTS as int
    } else {
        0
    }
}

/// Goal index of the side waiting when `player_one_turn` holds.
pub open spec fn opponent_goal(player_one_turn: bool) -> int {
    if player_one_turn {
        0
    } else {
        SLOTS as int
    }
}

/// Sowing: starting at `cur`, drop one stone into each slot walking
/// forward circularly, skipping the slot `skip` (the opponent's goal),
/// until `n` stones have been placed. Returns the board afterwards and
/// the slot that received the last stone.
pub open spec fn spec_sow(b: Seq<u8>, cur: int, n: nat, skip: int) -> (Seq<u8>, int)
    decreases n, (if cur == skip { 1int } else { 0int }),
        when b.len() == BOARD_LENGTH && 0 <= cur < BOARD_LENGTH && 0 <= skip < BOARD_LENGTH && n
        >= 1
{
    if cur == skip {
        spec_sow(b, (cur + 1) % (BOARD_LENGTH as int), n, skip)
    } else if n == 1 {
        (b.update(cur, (b[cur] + 1) as u8), cur)
    } else {
        spec_sow(
            b.update(cur, (b[cur] + 1) as u8),
            (cur + 1) % (BOARD_LENGTH as int),
            (n - 1) as nat,
            skip,
        )
    }
}

/// Whether the last stone landing on `last` wins a capture: the slot is
/// a playable pit on the mover's own side, held exactly one stone after
/// the deposit, and the pit directly opposite is not empty.
pub open spec fn capture_fires(b: Seq<u8>, player_one_turn: bool, last: int) -> bool {
    &&& b[last] == 1
    &&& if player_one_turn {
        0 < last < (SLOTS as int)
    } else {
        (SLOTS as int) < last < (BOARD_LENGTH as int)
    }
    &&& b[2 * (SLOTS as int) - last] != 0
}

/// The board after resolving a possible capture at `last`: when the
/// capture fires, the landed stone and the opposite pit's stones all
/// move to the mover's goal; otherwise the board is unchanged.
pub open spec fn capture_result(b: Seq<u8>, player_one_turn: bool, last: int) -> Seq<u8> {
    if capture_fires(b, player_one_turn, last) {
        let goal = own_goal(player_one_turn);
        let opposite = 2 * (SLOTS as int) - last;
        b.update(goal, (b[goal] + b[opposite] + 1) as u8).update(last, 0u8).update(opposite, 0u8)
    } else {
        b
    }
}

/// Whether every playable pit of the side to move is empty.
pub open spec fn side_empty(b: Seq<u8>, player_one_turn: bool) -> bool {
    if player_one_turn {
        forall|k: int| 0 < k < (SLOTS as int) ==> #[trigger] b[k] == 0
    } else {
        forall|k: int| (SLOTS as int) < k < (BOARD_LENGTH as int) ==> #[trigger] b[k] == 0
    }
}

/// The end-of-game sweep: each side's remaining playable stones move
/// into that side's own goal; every playable pit ends empty.
pub open spec fn sweep(b: Seq<u8>) -> Seq<u8> {
    Seq::new(
        b.len(),
        |i: int|
            if i == SLOTS as int {
                (b[SLOTS as int] + sum_between(b, 1, SLOTS as int)) as u8
            } else if i == 0 {
                (b[0] + sum_between(b, SLOTS as int + 1, BOARD_LENGTH as int)) as u8
            } else {
                0u8
            },
    )
}

/// The board and last-visited slot after the sowing phase of a move
/// from `g` out of `slot`.
pub open spec fn sow_result(g: GameView, slot: int) -> (Seq<u8>, int) {
    spec_sow(
        g.board.update(slot, 0u8),
        (slot + 1) % (BOARD_LENGTH as int),
        g.board[slot] as nat,
        opponent_goal(g.player_one_turn),
    )
}

/// The slot that receives the last sown stone of a move from `g` out of
/// `slot`.
pub open spec fn landing_slot(g: GameView, slot: int) -> int {
    sow_result(g, slot).1
}

/// Whether a move from `g` out of `slot` triggers a capture.
pub open spec fn move_captures(g: GameView, slot: int) -> bool {
    let sown = sow_result(g, slot);
    sown.1 != own_goal(g.player_one_turn) && capture_fires(sown.0, g.player_one_turn, sown.1)
}

/// The full outcome of one move from `g` out of slot `slot`: sow the
/// slot's stones, resolve capture and extra-turn, then end the game with
/// a sweep if the side now to move has no stones left.
pub open spec fn move_outcome(g: GameView, slot: int) -> GameView {
    let own = own_goal(g.player_one_turn);
    let sown = sow_result(g, slot);
    let last = sown.1;
    let fired = move_captures(g, slot);
    let resolved = if last != own {
        capture_result(sown.0, g.player_one_turn, last)
    } else {
        sown.0
    };
    let next_turn = if last == own || fired {
        g.player_one_turn
    } else {
        !g.player_one_turn
    };
    let over = side_empty(resolved, next_turn);
    GameView {
        board: if over {
            sweep(resolved)
        } else {
            resolved
        },
        player_one_turn: next_turn,
        active: !over,
        ..g
    }
}

/// The one condition the engine reports instead of acting on: a move
/// submitted after the game has ended.
#[derive(Clone, Copy, Debug, PartialEq, Eq, Structural)]
pub enum EngineError {
    InactiveGame,
}

/// Mathematical snapshot of a game: names, counters, whose turn it is,
/// and whether the game is still running.
#[verifier::ext_equal]
pub ghost struct GameView {
    pub player_one: Seq<char>,
    pub player_two: Seq<char>,
    pub board: Seq<u8>,
    pub player_one_turn: bool,
    pub active: bool,
}

/// The board at the start of a game: both goals empty, every playable
/// pit holding [`STARTING_STONES`] stones.
pub open spec fn init_board() -> Seq<u8> {
    Seq::new(
        BOARD_LENGTH as nat,
        |i: int|
            if i == 0 || i == SLOTS as int {
                0u8
            } else {
                STARTING_STONES
            },
    )
}

/// One game of Mancala: two named players, the board, and the turn and
/// lifecycle flags.
#[derive(Debug, Clone)]
pub struct GameState {
    pub player_one: String,
    pub player_two: String,
    pub game_board: Vec<u8>,
    pub player_one_goal_slot: usize,
    pub player_two_goal_slot: usize,
    pub player_one_turn: bool,
    pub active: bool,
}

impl View for GameState {
    type V = GameView;

    open spec fn view(&self) -> GameView {
        GameView {
            player_one: self.player_one@,
            player_two: self.player_two@,
            board: self.game_board@,
            player_one_turn: self.player_one_turn,
            active: self.active,
        }
    }
}

impl GameState {
    /// The fixed layout facts: board length and the two goal indices.
    pub open spec fn shape_ok(self) -> bool {
        &&& self.game_board@.len() == BOARD_LENGTH
        &&& self.player_one_goal_slot == SLOTS
        &&& self.player_two_goal_slot == 0
    }

    /// Well-formedness: the layout facts plus stone conservation.
    pub open spec fn wf(self) -> bool {
        &&& self.shape_ok()
        &&& total(self.game_board@) == TOTAL_STONES
    }

    /// A fresh game: initial board, player one to move, game active.
    pub fn new(p_one: String, p_two: String) -> (game: GameState)
        ensures
            game.wf(),
            game@ == (GameView {
                player_one: p_one@,
                player_two: p_two@,
                board: init_board(),
                player_one_turn: true,
                active: true,
            }),
    {
        let mut init_game_board: Vec<u8> = Vec::new();
        let mut i: usize = 0;
        while i < BOARD_LENGTH
            invariant
                i <= BOARD_LENGTH,
                init_game_board@.len() == i,
                forall|k: int| 0 <= k < i ==> init_game_board@[k] == STARTING_STONES,
            decreases BOARD_LENGTH - i,
        {
            init_game_board.push(STARTING_STONES);
            i = i + 1;
        }
        init_game_board[SLOTS] = 0;
        init_game_board[0] = 0;
        proof {
            assert(init_game_board@ =~= init_board());
            lemma_init_board_total();
        }
        GameState {
            player_one: p_one,
            player_two: p_two,
            game_board: init_game_board,
            player_one_goal_slot: SLOTS,
            player_two_goal_slot: 0,
            player_one_turn: true,
            active: true,
        }
    }

    /// The goal slots as `(mover's goal, opponent's goal)` for the side
    /// currently to move.
    pub fn get_players_goal_slots(&self) -> (goals: (usize, usize))
        requires
            self.shape_ok(),
        ensures
            goals.0 == own_goal(self@.player_one_turn),
            goals.1 == opponent_goal(self@.player_one_turn),
    {
        if self.player_one_turn {
            (self.player_one_goal_slot, self.player_two_goal_slot)
        } else {
            (self.player_two_goal_slot, self.player_one_goal_slot)
        }
    }

    /// Credit `points_to_add` stones to the goal of the side to move.
    pub fn add_capture_points(&mut self, points_to_add: u8)
        requires
            old(self).shape_ok(),
            old(self)@.board[own_goal(old(self)@.player_one_turn)] + points_to_add <= u8::MAX,
        ensures
            final(self).shape_ok(),
            final(self)@ == (GameView {
                board: old(self)@.board.update(
                    own_goal(old(self)@.player_one_turn),
                    (old(self)@.board[own_goal(old(self)@.player_one_turn)] + points_to_add) as u8,
                ),
                ..old(self)@
            }),
    {
        if self.player_one_turn {
            let goal = self.player_one_goal_slot;
            self.game_board[goal] = self.game_board[goal] + points_to_add;
        } else {
            let goal = self.player_two_goal_slot;
            self.game_board[goal] = self.game_board[goal] + points_to_add;
        }
        proof {
            assert(self@ =~= (GameView {
                board: old(self)@.board.update(
                    own_goal(old(self)@.player_one_turn),
                    (old(self)@.board[own_goal(old(self)@.player_one_turn)] + points_to_add) as u8,
                ),
                ..old(self)@
            }));
        }
    }

    /// Whether the side currently to move has run out of stones: every
    /// playable pit on that side is empty.
    pub fn is_game_over(&self) -> (over: bool)
        requires
            self.shape_ok(),
        ensures
            over == side_empty(self@.board, self@.player_one_turn),
    {
        if self.player_one_turn {
            let mut k: usize = 1;
            while k < SLOTS
                invariant
                    1 <= k <= SLOTS,
                    self.shape_ok(),
                    self@.player_one_turn,
                    forall|i: int| 0 < i < k ==> self@.board[i] == 0,
                decreases SLOTS - k,
            {
                if self.game_board[k] != 0 {
                    proof {
                        assert(self@.board[k as int] != 0);
                        assert(!side_empty(self@.board, self@.player_one_turn));
                    }
                    return false;
                }
                k = k + 1;
            }
            true
        } else {
            let mut k: usize = SLOTS + 1;
            while k < BOARD_LENGTH
                invariant
                    SLOTS + 1 <= k <= BOARD_LENGTH,
                    self.shape_ok(),
                    !self@.player_one_turn,
                    forall|i: int| (SLOTS as int) < i < k ==> self@.board[i] == 0,
                decreases BOARD_LENGTH - k,
            {
                if self.game_board[k] != 0 {
                    proof {
                        assert(self@.board[k as int] != 0);
                        assert(!side_empty(self@.board, self@.player_one_turn));
                    }
                    return false;
                }
                k = k + 1;
            }
            true
        }
    }

    /// Resolve a possible capture after the last stone landed on
    /// `cur_slot`: when that slot is an own-side playable pit that was
    /// empty before the deposit and the pit directly opposite is not,
    /// both pits are emptied into the mover's goal.
    pub fn capture(&mut self, cur_slot: usize) -> (captured: bool)
        requires
            old(self).wf(),
            cur_slot < BOARD_LENGTH,
        ensures
            final(self).wf(),
            captured == capture_fires(old(self)@.board, old(self)@.player_one_turn, cur_slot as int),
            final(self)@ == (GameView {
                board: capture_result(old(self)@.board, old(self)@.player_one_turn, cur_slot as int),
                ..old(self)@
            }),
    {
        if self.game_board[cur_slot] != 1 {
            return false;
        }
        let mut opposite_slot: usize = 0;
        if self.player_one_turn && cur_slot > 0 && cur_slot < SLOTS {
            opposite_slot = SLOTS + (SLOTS - cur_slot);
        } else if !self.player_one_turn && cur_slot > SLOTS {
            opposite_slot = SLOTS - (cur_slot - SLOTS);
        }
        if self.game_board[opposite_slot] == 0 || opposite_slot == 0 {
            return false;
        }
        let ghost b0 = self@.board;
        proof {
            lemma_two_elems_le_sum(
                b0,
                0,
                BOARD_LENGTH as int,
                if cur_slot < opposite_slot {
                    cur_slot as int
                } else {
                    opposite_slot as int
                },
                if cur_slot < opposite_slot {
                    opposite_slot as int
                } else {
                    cur_slot as int
                },
            );
            lemma_elem_le_sum(b0, 0, BOARD_LENGTH as int, own_goal(self@.player_one_turn));
            lemma_sum_between_split(b0, 0, own_goal(self@.player_one_turn), BOARD_LENGTH as int);
        }
        let points = self.game_board[opposite_slot];
        self.add_capture_points(points + 1);
        self.game_board[cur_slot] = 0;
        self.game_board[opposite_slot] = 0;
        proof {
            let turn = old(self)@.player_one_turn;
            let goal = own_goal(turn);
            assert(self@.board =~= capture_result(b0, turn, cur_slot as int));
            lemma_sum_between_update(b0, 0, BOARD_LENGTH as int, goal, (b0[goal] + points + 1) as u8);
            let b1 = b0.update(goal, (b0[goal] + points + 1) as u8);
            lemma_sum_between_update(b1, 0, BOARD_LENGTH as int, cur_slot as int, 0u8);
            let b2 = b1.update(cur_slot as int, 0u8);
            lemma_sum_between_update(b2, 0, BOARD_LENGTH as int, opposite_slot as int, 0u8);
        }
        true
    }

    /// The end-of-game sweep: move every remaining playable stone into
    /// its own side's goal, leaving all playable pits empty.
    pub fn collect_remaining_stones(&mut self)
        requires
            old(self).wf(),
        ensures
            final(self).wf(),
            final(self)@ == (GameView { board: sweep(old(self)@.board), ..old(self)@ }),
    {
        let ghost b0 = self@.board;
        let mut gathered: u8 = 0;
        let mut i: usize = 1;
        while i < SLOTS
            invariant
                1 <= i <= SLOTS,
                self.shape_ok(),
                b0.len() == BOARD_LENGTH,
                gathered == sum_between(b0, 1, i as int),
                self@.board =~= (Seq::new(
                    BOARD_LENGTH as nat,
                    |k: int|
                        if 1 <= k < i {
                            0u8
                        } else {
                            b0[k]
                        },
                )),
                total(b0) == TOTAL_STONES,
                self@.player_one == old(self)@.player_one,
                self@.player_two == old(self)@.player_two,
                self@.player_one_turn == old(self)@.player_one_turn,
                self@.active == old(self)@.active,
                self.player_one_goal_slot == old(self).player_one_goal_slot,
                self.player_two_goal_slot == old(self).player_two_goal_slot,
            decreases SLOTS - i,
        {
            proof {
                lemma_sum_between_split(b0, 0, 1, BOARD_LENGTH as int);
                lemma_sum_between_split(b0, 1, i as int, BOARD_LENGTH as int);
                lemma_sum_between_split(b0, i as int, i as int + 1, BOARD_LENGTH as int);
                lemma_sum_between_nonneg(b0, 0, 1);
                lemma_sum_between_nonneg(b0, i as int + 1, BOARD_LENGTH as int);
                assert(sum_between(b0, i as int, i as int + 1) == b0[i as int]);
                assert(gathered + b0[i as int] <= TOTAL_STONES);
            }
            gathered = gathered + self.game_board[i];
            self.game_board[i] = 0;
            i = i + 1;
            proof {
                lemma_sum_between_split(b0, 1, i as int - 1, i as int);
                assert(sum_between(b0, i as int - 1, i as int) == b0[i as int - 1]);
                assert(self@.board =~= (Seq::new(
                    BOARD_LENGTH as nat,
                    |k: int|
                        if 1 <= k < i {
                            0u8
                        } else {
                            b0[k]
                        },
                )));
            }
        }
        proof {
            lemma_sum_between_split(b0, 0, 1, BOARD_LENGTH as int);
            lemma_sum_between_split(b0, 1, SLOTS as int, BOARD_LENGTH as int);
            lemma_sum_between_split(b0, SLOTS as int, SLOTS as int + 1, BOARD_LENGTH as int);
            lemma_sum_between_nonneg(b0, 0, 1);
            lemma_sum_between_nonneg(b0, SLOTS as int + 1, BOARD_LENGTH as int);
            assert(sum_between(b0, SLOTS as int, SLOTS as int + 1) == b0[SLOTS as int]);
            assert(b0[SLOTS as int] + gathered <= TOTAL_STONES);
        }
        let goal_one = self.player_one_goal_slot;
        self.game_board[goal_one] = self.game_board[goal_one] + gathered;
        let mut gathered_two: u8 = 0;
        let mut j: usize = SLOTS + 1;
        while j < BOARD_LENGTH
            invariant
                SLOTS + 1 <= j <= BOARD_LENGTH,
                self.shape_ok(),
                b0.len() == BOARD_LENGTH,
                gathered_two == sum_between(b0, SLOTS as int + 1, j as int),
                self@.board =~= (Seq::new(
                    BOARD_LENGTH as nat,
                    |k: int|
                        if 1 <= k < (SLOTS as int) || (SLOTS as int) < k < j {
                            0u8
                        } else if k == (SLOTS as int) {
                            (b0[SLOTS as int] + sum_between(b0, 1, SLOTS as int)) as u8
                        } else {
                            b0[k]
                        },
                )),
                total(b0) == TOTAL_STONES,
                self@.player_one == old(self)@.player_one,
                self@.player_two == old(self)@.player_two,
                self@.player_one_turn == old(self)@.player_one_turn,
                self@.active == old(self)@.active,
                self.player_one_goal_slot == old(self).player_one_goal_slot,
                self.player_two_goal_slot == old(self).player_two_goal_slot,
            decreases BOARD_LENGTH - j,
        {
            proof {
                lemma_sum_between_split(b0, 0, SLOTS as int + 1, BOARD_LENGTH as int);
                lemma_sum_between_split(b0, SLOTS as int + 1, j as int, BOARD_LENGTH as int);
                lemma_sum_between_split(b0, j as int, j as int + 1, BOARD_LENGTH as int);
                lemma_sum_between_nonneg(b0, 0, SLOTS as int + 1);
                lemma_sum_between_nonneg(b0, j as int + 1, BOARD_LENGTH as int);
                assert(sum_between(b0, j as int, j as int + 1) == b0[j as int]);
                assert(gathered_two + b0[j as int] <= TOTAL_STONES);
            }
            gathered_two = gathered_two + self.game_board[j];
            self.game_board[j] = 0;
            j = j + 1;
            proof {
                lemma_sum_between_split(b0, SLOTS as int + 1, j as int - 1, j as int);
                assert(sum_between(b0, j as int - 1, j as int) == b0[j as int - 1]);
                assert(self@.board =~= (Seq::new(
                    BOARD_LENGTH as nat,
                    |k: int|
                        if 1 <= k < (SLOTS as int) || (SLOTS as int) < k < j {
                            0u8
                        } else if k == (SLOTS as int) {
                            (b0[SLOTS as int] + sum_between(b0, 1, SLOTS as int)) as u8
                        } else {
                            b0[k]
                        },
                )));
            }
        }
        proof {
            lemma_sum_between_split(b0, 0, 1, BOARD_LENGTH as int);
            lemma_sum_between_split(b0, 1, SLOTS as int + 1, BOARD_LENGTH as int);
            lemma_sum_between_split(b0, 1, SLOTS as int, SLOTS as int + 1);
            lemma_sum_between_nonneg(b0, 1, SLOTS as int);
            lemma_sum_between_nonneg(b0, SLOTS as int + 1, BOARD_LENGTH as int);
            assert(sum_between(b0, SLOTS as int, SLOTS as int + 1) == b0[SLOTS as int]);
            assert(b0[0] + sum_between(b0, SLOTS as int + 1, BOARD_LENGTH as int) <= TOTAL_STONES);
        }
        let goal_two = self.player_two_goal_slot;
        self.game_board[goal_two] = self.game_board[goal_two] + gathered_two;
        proof {
            assert(self@.board =~= sweep(b0));
            lemma_sweep_total(b0);
            assert(self@ =~= (GameView { board: sweep(old(self)@.board), ..old(self)@ }));
        }
    }

    /// Apply one move: sow the stones of `slot_to_move`, skipping the
    /// opponent's goal, then resolve the three outcomes (extra turn on
    /// landing in the own goal, capture, or passing the turn) and end
    /// the game with a sweep when the side now to move has no stones.
    ///
    /// The caller is responsible for turn, ownership and non-empty-pit
    /// legality; any in-range slot is tolerated without a panic. A move
    /// on a finished game is refused with [`EngineError::InactiveGame`]
    /// and leaves the state untouched.
    pub fn make_move(&mut self, slot_to_move: usize) -> (outcome: Result<(), EngineError>)
        requires
            old(self).wf(),
            slot_to_move < BOARD_LENGTH,
            old(self)@.board[slot_to_move as int] >= 1,
        ensures
            final(self).wf(),
            old(self)@.active ==> outcome == Ok::<(), EngineError>(()) && final(self)@
                == move_outcome(old(self)@, slot_to_move as int),
            !old(self)@.active ==> outcome == Err::<(), EngineError>(EngineError::InactiveGame)
                && final(self)@ == old(self)@,
    {
        if !self.active {
            return Err(EngineError::InactiveGame);
        }
        let goal_slots: (usize, usize) = self.get_players_goal_slots();
        let ghost g0 = self@;
        let ghost target = spec_sow(
            g0.board.update(slot_to_move as int, 0u8),
            ((slot_to_move as int) + 1) % (BOARD_LENGTH as int),
            g0.board[slot_to_move as int] as nat,
            opponent_goal(g0.player_one_turn),
        );
        let mut num_of_stones: u8 = self.game_board[slot_to_move];
        self.game_board[slot_to_move] = 0;
        let mut cur_slot: usize = (slot_to_move + 1) % BOARD_LENGTH;
        let mut last_slot: usize = 0;
        proof {
            lemma_sum_between_update(g0.board, 0, BOARD_LENGTH as int, slot_to_move as int, 0u8);
        }
        while num_of_stones > 0
            invariant
                self.shape_ok(),
                cur_slot < BOARD_LENGTH,
                last_slot < BOARD_LENGTH,
                goal_slots.0 == own_goal(g0.player_one_turn),
                goal_slots.1 == opponent_goal(g0.player_one_turn),
                total(self@.board) + num_of_stones == TOTAL_STONES,
                num_of_stones > 0 ==> spec_sow(
                    self@.board,
                    cur_slot as int,
                    num_of_stones as nat,
                    goal_slots.1 as int,
                ) == target,
                num_of_stones == 0 ==> (self@.board, last_slot as int) == target,
                self@.player_one == g0.player_one,
                self@.player_two == g0.player_two,
                self@.player_one_turn == g0.player_one_turn,
                self@.active,
            decreases num_of_stones, (if cur_slot == goal_slots.1 { 1int } else { 0int }),
        {
            if cur_slot == goal_slots.1 {
                // skip the opponent's goal without spending a stone
                cur_slot = (cur_slot + 1) % BOARD_LENGTH;
            } else {
                proof {
                    lemma_elem_le_sum(self@.board, 0, BOARD_LENGTH as int, cur_slot as int);
                    lemma_sum_between_update(
                        self@.board,
                        0,
                        BOARD_LENGTH as int,
                        cur_slot as int,
                        (self@.board[cur_slot as int] + 1) as u8,
                    );
                }
                let deposit = self.game_board[cur_slot] + 1;
                self.game_board[cur_slot] = deposit;
                last_slot = cur_slot;
                num_of_stones = num_of_stones - 1;
                cur_slot = (cur_slot + 1) % BOARD_LENGTH;
            }
        }
        let mut captured = false;
        if last_slot != goal_slots.0 {
            captured = self.capture(last_slot);
            if !captured {
                self.player_one_turn = !self.player_one_turn;
            }
        }
        if self.is_game_over() {
            self.collect_remaining_stones();
            self.active = false;
        }
        proof {
            assert(self@ =~= move_outcome(g0, slot_to_move as int));
        }
        Ok(())
    }

    /// A copy of the board counters; the caller cannot mutate engine
    /// state through the returned vector.
    pub fn get_board(&self) -> (board: Vec<u8>)
        ensures
            board@ == self@.board,
    {
        let mut copy: Vec<u8> = Vec::new();
        let mut i: usize = 0;
        while i < self.game_board.len()
            invariant
                i <= self.game_board@.len(),
                copy@ =~= self.game_board@.subrange(0, i as int),
            decreases self.game_board@.len() - i,
        {
            copy.push(self.game_board[i]);
            i = i + 1;
        }
        proof {
            assert(copy@ =~= self.game_board@);
        }
        copy
    }
}

/// The sweep moves stones but neither creates nor destroys them: the
/// total stone count is unchanged, and afterwards it sits entirely in
/// the two goal slots.
pub proof fn lemma_sweep_total(b: Seq<u8>)
    requires
        b.len() == BOARD_LENGTH,
        total(b) <= TOTAL_STONES,
    ensures
        total(sweep(b)) == total(b),
        sweep(b)[0] == b[0] + sum_between(b, SLOTS as int + 1, BOARD_LENGTH as int),
        sweep(b)[SLOTS as int] == b[SLOTS as int] + sum_between(b, 1, SLOTS as int),
        forall|k: int|
            0 < k < (BOARD_LENGTH as int) && k != (SLOTS as int) ==> sweep(b)[k] == 0,
{
    let s = sweep(b);
    lemma_sum_between_split(b, 0, 1, BOARD_LENGTH as int);
    lemma_sum_between_split(b, 1, SLOTS as int, BOARD_LENGTH as int);
    lemma_sum_between_split(b, SLOTS as int, SLOTS as int + 1, BOARD_LENGTH as int);
    lemma_sum_between_nonneg(b, 1, SLOTS as int);
    lemma_sum_between_nonneg(b, SLOTS as int + 1, BOARD_LENGTH as int);
    assert(sum_between(b, 0, 1) == b[0] + sum_between(b, 1, 1));
    assert(sum_between(b, SLOTS as int, SLOTS as int + 1) == b[SLOTS as int] + sum_between(
        b,
        SLOTS as int + 1,
        SLOTS as int + 1,
    ));
    lemma_sum_between_split(s, 0, 1, BOARD_LENGTH as int);
    lemma_sum_between_split(s, 1, SLOTS as int, BOARD_LENGTH as int);
    lemma_sum_between_split(s, SLOTS as int, SLOTS as int + 1, BOARD_LENGTH as int);
    lemma_sum_between_zero(s, 1, SLOTS as int);
    lemma_sum_between_zero(s, SLOTS as int + 1, BOARD_LENGTH as int);
    assert(sum_between(s, 0, 1) == s[0] + sum_between(s, 1, 1));
    assert(sum_between(s, SLOTS as int, SLOTS as int + 1) == s[SLOTS as int] + sum_between(
        s,
        SLOTS as int + 1,
        SLOTS as int + 1,
    ));
}

/// Sowing `n` stones adds exactly `n` to the total, and the last slot
/// visited is a board slot other than the skipped goal.
pub proof fn lemma_sow_props(b: Seq<u8>, cur: int, n: nat, skip: int)
    requires
        b.len() == BOARD_LENGTH,
        0 <= cur < BOARD_LENGTH,
        0 <= skip < BOARD_LENGTH,
        n >= 1,
        total(b) + n <= u8::MAX,
    ensures
        spec_sow(b, cur, n, skip).0.len() == BOARD_LENGTH,
        total(spec_sow(b, cur, n, skip).0) == total(b) + n,
        0 <= spec_sow(b, cur, n, skip).1 < BOARD_LENGTH,
        spec_sow(b, cur, n, skip).1 != skip,
    decreases n, (if cur == skip { 1int } else { 0int }),
{
    if cur == skip {
        lemma_sow_props(b, (cur + 1) % (BOARD_LENGTH as int), n, skip);
    } else {
        lemma_elem_le_sum(b, 0, BOARD_LENGTH as int, cur);
        lemma_sum_between_update(b, 0, BOARD_LENGTH as int, cur, (b[cur] + 1) as u8);
        if n > 1 {
            lemma_sow_props(
                b.update(cur, (b[cur] + 1) as u8),
                (cur + 1) % (BOARD_LENGTH as int),
                (n - 1) as nat,
                skip,
            );
        }
    }
}

/// A capture only moves stones; the total is unchanged.
pub proof fn lemma_capture_total(b: Seq<u8>, player_one_turn: bool, last: int)
    requires
        b.len() == BOARD_LENGTH,
        total(b) <= TOTAL_STONES,
        0 <= last < BOARD_LENGTH,
    ensures
        capture_result(b, player_one_turn, last).len() == BOARD_LENGTH,
        total(capture_result(b, player_one_turn, last)) == total(b),
{
    if capture_fires(b, player_one_turn, last) {
        let goal = own_goal(player_one_turn);
        let opposite = 2 * (SLOTS as int) - last;
        lemma_elem_le_sum(b, 0, BOARD_LENGTH as int, goal);
        if last < opposite {
            lemma_two_elems_le_sum(b, 0, BOARD_LENGTH as int, last, opposite);
        } else {
            lemma_two_elems_le_sum(b, 0, BOARD_LENGTH as int, opposite, last);
        }
        let b1 = b.update(goal, (b[goal] + b[opposite] + 1) as u8);
        lemma_sum_between_update(b, 0, BOARD_LENGTH as int, goal, (b[goal] + b[opposite] + 1) as u8);
        let b2 = b1.update(last, 0u8);
        lemma_sum_between_update(b1, 0, BOARD_LENGTH as int, last, 0u8);
        lemma_sum_between_update(b2, 0, BOARD_LENGTH as int, opposite, 0u8);
    }
}

/// Conservation: one legal move neither creates nor destroys stones.
/// The board total stays at [`TOTAL_STONES`], and when the move ends the
/// game the whole total sits in the two goal slots. Together with the
/// starting total of [`lemma_init_board_total`] this pins the total over
/// every sequence of legal moves.
pub proof fn lemma_move_conserves_stones(g: GameView, slot: int)
    requires
        g.board.len() == BOARD_LENGTH,
        total(g.board) == TOTAL_STONES,
        0 <= slot < BOARD_LENGTH,
        g.board[slot] >= 1,
    ensures
        move_outcome(g, slot).board.len() == BOARD_LENGTH,
        total(move_outcome(g, slot).board) == TOTAL_STONES,
        !move_outcome(g, slot).active ==> forall|k: int|
            0 < k < (BOARD_LENGTH as int) && k != (SLOTS as int) ==> move_outcome(
                g,
                slot,
            ).board[k] == 0,
{
    let b0 = g.board.update(slot, 0u8);
    let n = g.board[slot] as nat;
    lemma_sum_between_update(g.board, 0, BOARD_LENGTH as int, slot, 0u8);
    lemma_sow_props(b0, (slot + 1) % (BOARD_LENGTH as int), n, opponent_goal(g.player_one_turn));
    let sown = sow_result(g, slot);
    lemma_capture_total(sown.0, g.player_one_turn, sown.1);
    let own = own_goal(g.player_one_turn);
    let resolved = if sown.1 != own {
        capture_result(sown.0, g.player_one_turn, sown.1)
    } else {
        sown.0
    };
    lemma_sweep_total(resolved);
}

/// Turn alternation: a move whose last stone lands in the mover's own
/// goal, or that triggers a capture, leaves the turn with the mover;
/// every other move passes the turn to the opponent.
pub proof fn lemma_turn_alternation(g: GameView, slot: int)
    ensures
        landing_slot(g, slot) == own_goal(g.player_one_turn) || move_captures(g, slot)
            ==> move_outcome(g, slot).player_one_turn == g.player_one_turn,
        landing_slot(g, slot) != own_goal(g.player_one_turn) && !move_captures(g, slot)
            ==> move_outcome(g, slot).player_one_turn == !g.player_one_turn,
{
}

/// The initial board carries exactly [`TOTAL_STONES`] stones.
pub proof fn lemma_init_board_total()
    ensures
        total(init_board()) == TOTAL_STONES,
{
    reveal_with_fuel(sum_between, 15);
    assert(total(init_board()) == TOTAL_STONES);
}

} // verus!
