//! One move played in full (captures, repetition, outcome and status
//! message) and the end-of-turn bookkeeping: whether the side to move can
//! still complete a turn.

use vstd::prelude::*;
use crate::apply::move_room;
use crate::branch::{branched_from, keeps_boards, keeps_rows};
use crate::history::repeats;
use crate::legal::{any_legal_move, legal_list, lemma_legal_sound};
use crate::model::{
    position_text, push_str, reason_name, side_name, BoardCoordinate, GameOutcome, Move, OutcomeReason, Position,
    Ruleset, Side,
};
use crate::outcome::evaluated;
use crate::rules::{MoveError, StateView, COORDINATE_BOUND};
use crate::state::State;

verus! {

/// How many moves deep the search for a completable multiverse turn looks:
/// as deep as the coordinates of a playable game leave room for, each move
/// moving coordinates outward by at most eight (see
/// `lemma_search_depth_fills_room`).
pub const TURN_SEARCH_DEPTH: u64 = 67108861;

/// The largest coordinate magnitude at which a game still accepts moves.
pub const PLAY_BOUND: i32 = 536870912;

/// A position within the playable bound, after any number of moves up to
/// the search depth, each widening the coordinates by at most eight, still
/// leaves the room a further move needs; one move more would not.
pub proof fn lemma_search_depth_fills_room()
    ensures
        PLAY_BOUND + 8 + 8 * TURN_SEARCH_DEPTH <= COORDINATE_BOUND - 16,
        PLAY_BOUND + 8 + 8 * (TURN_SEARCH_DEPTH + 1) > COORDINATE_BOUND - 16,
{
}

pub open spec fn to_move_text(side: Side) -> Seq<char> {
    side_name(side) + " to move."@
}

pub open spec fn moved_text(side: Side, from: Position, to: Position) -> Seq<char> {
    side_name(side) + " moved "@ + position_text(from) + " to "@ + position_text(to) + "."@
}

pub open spec fn win_text(outcome: GameOutcome) -> Seq<char> {
    side_name(outcome.winner) + " win: "@ + reason_name(outcome.reason) + "."@
}

pub open spec fn stuck_text(side: Side) -> Seq<char> {
    side_name(side) + " have no legal move."@
}

/// The position after a move and everything it decides, or the rule the
/// move breaks. A defender move whose new boards repeat a causal ancestor
/// is refused.
#[verifier::opaque]
pub open spec fn played(s: StateView, mv: Move) -> Result<StateView, MoveError> {
    match s.validate(mv) {
        Err(e) => Err(e),
        Ok(v) => {
            let (n, created) = s.apply_validated(mv, v);
            if v.piece.owner() == Side::Defender && repeats(n, created) {
                Err(MoveError::DefenderRepetition)
            } else {
                Ok(
                    StateView {
                        message: moved_text(v.piece.owner(), mv.from, mv.to),
                        ..evaluated(n)
                    },
                )
            }
        },
    }
}

/// The side to move can complete its turn within `fuel` more moves: the
/// game is over, no active Present board waits for it, or some legal move
/// leads to a position from which the turn can be completed.
pub open spec fn completable(s: StateView, fuel: nat) -> bool
    decreases fuel,
{
    if s.outcome is Some || !s.pending(s.turn) {
        true
    } else if fuel == 0 {
        false
    } else {
        exists|k: int|
            0 <= k < legal_list(s).len() && (#[trigger] played(s, legal_list(s)[k])) is Ok
                && completable(played(s, legal_list(s)[k]).unwrap(), (fuel - 1) as nat)
    }
}

/// The turn can be completed: in classic play some piece can move; in
/// multiverse play some sequence of moves clears every Present board.
pub open spec fn turn_completable(s: StateView) -> bool {
    if s.ruleset == Ruleset::Classic {
        any_legal_move(s)
    } else {
        completable(s, TURN_SEARCH_DEPTH as nat)
    }
}

/// The status after a turn changes hands: the result of a decided game,
/// the side to move, or that side's loss for want of a legal turn.
pub open spec fn finished(s: StateView) -> StateView {
    match s.outcome {
        Some(o) => StateView { message: win_text(o), ..s },
        None => if turn_completable(s) {
            StateView { message: to_move_text(s.turn), ..s }
        } else {
            StateView {
                outcome: Some(GameOutcome { winner: s.turn.other(), reason: OutcomeReason::NoLegalTurn }),
                message: stuck_text(s.turn),
                ..s
            }
        },
    }
}

/// The board a move was played on has its successor at the next time on
/// the same timeline, derived from it.
pub open spec fn successor_made(s: StateView, mv: Move) -> bool {
    let next = BoardCoordinate { time: (mv.from.board.time + 1) as i32, timeline: mv.from.board.timeline };
    s.board_at(next) is Some && s.board_at(next).unwrap().parent == Some(mv.from.board)
}

pub(crate) fn to_move_message(side: Side) -> (r: String)
    ensures
        r@ == to_move_text(side),
{
    let mut text = String::new();
    push_str(&mut text, side.name());
    push_str(&mut text, " to move.");
    text
}

fn moved_message(side: Side, from: Position, to: Position) -> (r: String)
    requires
        from.square.valid(),
        to.square.valid(),
    ensures
        r@ == moved_text(side, from, to),
{
    let mut text = String::new();
    push_str(&mut text, side.name());
    push_str(&mut text, " moved ");
    let a = from.label();
    push_str(&mut text, a.as_str());
    push_str(&mut text, " to ");
    let b = to.label();
    push_str(&mut text, b.as_str());
    push_str(&mut text, ".");
    text
}

fn win_message(outcome: GameOutcome) -> (r: String)
    ensures
        r@ == win_text(outcome),
{
    let mut text = String::new();
    push_str(&mut text, outcome.winner.name());
    push_str(&mut text, " win: ");
    push_str(&mut text, outcome.reason.name());
    push_str(&mut text, ".");
    text
}

fn stuck_message(side: Side) -> (r: String)
    ensures
        r@ == stuck_text(side),
{
    let mut text = String::new();
    push_str(&mut text, side.name());
    push_str(&mut text, " have no legal move.");
    text
}

impl State {
    /// Plays one move in full, or leaves the position unchanged and says
    /// which rule the move breaks.
    pub(crate) fn play(&mut self, mv: Move) -> (r: Result<(), MoveError>)
        requires
            old(self)@.wf(),
            old(self)@.checkable(mv),
            move_room(old(self)@),
        ensures
            match played(old(self)@, mv) {
                Ok(n) => r is Ok && final(self)@ == n,
                Err(e) => r == Err::<(), MoveError>(e) && final(self)@ == old(self)@,
            },
            final(self)@.wf(),
            forall|b: int| #[trigger] old(self)@.bounded_by(b) && 0 <= b ==> final(self)@.bounded_by(b + 8),
            keeps_boards(old(self)@, final(self)@),
            keeps_rows(old(self)@, final(self)@),
            r is Ok ==> successor_made(final(self)@, mv),
            r is Ok ==> old(self)@.board_at(
                BoardCoordinate { time: (mv.from.board.time + 1) as i32, timeline: mv.from.board.timeline },
            ) is None,
            r is Ok && mv.to.board.time < mv.from.board.time ==> branched_from(
                old(self)@,
                final(self)@,
                mv.to.board,
                old(self)@.turn,
            ),
    {
        proof {
            reveal(played);
        }
        let v = match self.validate_move(mv) {
            Ok(v) => v,
            Err(e) => {
                return Err(e);
            },
        };
        proof {
            crate::apply::lemma_validated(self@, mv);
            crate::apply::lemma_after_latest_free(self@, mv.from.board);
        }
        let mut next = self.duplicate();
        let created = next.apply_validated_move(mv, v);
        if v.piece.side() == Side::Defender && next.repeats_ancestor(&created) {
            return Err(MoveError::DefenderRepetition);
        }
        next.evaluate_outcome();
        next.message = moved_message(v.piece.side(), mv.from, mv.to);
        proof {
            assert(next@.timelines == old(self)@.apply_validated(mv, v).0.timelines);
        }
        *self = next;
        Ok(())
    }

    /// Whether some sequence of at most `fuel` moves completes the turn of
    /// the side to move.
    fn has_legal_turn_completion(&self, fuel: u64) -> (r: bool)
        requires
            self@.wf(),
            fuel <= TURN_SEARCH_DEPTH,
            self@.bounded_by(COORDINATE_BOUND - 16 - 8 * fuel),
        ensures
            r == completable(self@, fuel as nat),
        decreases fuel,
    {
        if self.outcome.is_some() || !self.has_pending_present_board(self.turn) {
            return true;
        }
        if fuel == 0 {
            return false;
        }
        proof {
            crate::branch::lemma_bounded_weaken_pub(
                self@,
                COORDINATE_BOUND - 16 - 8 * fuel,
                COORDINATE_BOUND - 16,
            );
        }
        let moves = self.legal_moves();
        proof {
            lemma_legal_sound(self@);
        }
        let mut k: usize = 0;
        while k < moves.len()
            invariant
                k <= moves@.len(),
                moves@ == legal_list(self@),
                self@.wf(),
                0 < fuel <= TURN_SEARCH_DEPTH,
                self@.bounded_by(COORDINATE_BOUND - 16 - 8 * fuel),
                move_room(self@),
                forall|m: int| 0 <= m < moves@.len() ==> (#[trigger] moves@[m]).on_board(),
                forall|m: int|
                    0 <= m < k ==> !((#[trigger] played(self@, moves@[m])) is Ok && completable(
                        played(self@, moves@[m]).unwrap(),
                        (fuel - 1) as nat,
                    )),
            decreases moves@.len() - k,
        {
            let mv = moves[k];
            let mut continuation = self.duplicate();
            let result = continuation.play(mv);
            if result.is_ok() {
                proof {
                    assert(continuation@.bounded_by(COORDINATE_BOUND - 16 - 8 * fuel + 8));
                    assert(COORDINATE_BOUND - 16 - 8 * fuel + 8 == COORDINATE_BOUND - 16 - 8 * (fuel
                        - 1));
                }
                if continuation.has_legal_turn_completion(fuel - 1) {
                    assert(played(self@, moves@[k as int]) is Ok);
                    return true;
                }
            }
            k = k + 1;
        }
        false
    }

    /// Settles the status once a turn changes hands: reports a decided
    /// game, or names the side to move, or ends the game when that side has
    /// no legal turn.
    pub(crate) fn finish_turn_status(&mut self)
        requires
            old(self)@.wf(),
            old(self)@.bounded_by(PLAY_BOUND + 8),
        ensures
            final(self)@ == finished(old(self)@),
            final(self)@.wf(),
    {
        if let Some(outcome) = self.outcome {
            self.message = win_message(outcome);
            return;
        }
        proof {
            lemma_search_depth_fills_room();
            crate::branch::lemma_bounded_weaken_pub(
                self@,
                PLAY_BOUND + 8,
                COORDINATE_BOUND - 16 - 8 * TURN_SEARCH_DEPTH,
            );
            crate::branch::lemma_bounded_weaken_pub(self@, PLAY_BOUND + 8, COORDINATE_BOUND - 16);
        }
        let can_complete = match self.ruleset {
            Ruleset::Classic => self.has_any_legal_move(),
            Ruleset::Multiverse => self.has_legal_turn_completion(TURN_SEARCH_DEPTH),
        };
        if can_complete {
            self.message = to_move_message(self.turn);
        } else {
            self.outcome = Some(
                GameOutcome { winner: self.turn.opponent(), reason: OutcomeReason::NoLegalTurn },
            );
            self.message = stuck_message(self.turn);
        }
    }
}

} // verus!
