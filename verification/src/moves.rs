//! Move validation.

use vstd::prelude::*;
use crate::model::{Board, BoardCoordinate, Move, Piece, Position, Ruleset, Side, Square};
use crate::rules::{strictly_between, MoveError, MoveKind, ValidatedMove};
use crate::state::{find_time, State};

verus! {

/// Every square strictly between two squares of one rank or file is empty.
fn line_clear(board: &Board, from: Square, to: Square) -> (r: bool)
    requires
        from.valid(),
        to.valid(),
        (from.x == to.x) != (from.y == to.y),
    ensures
        r == (forall|q: Square|
            q.valid() && strictly_between(from, to, q) ==> (#[trigger] board.at(q)) is None),
{
    if from.y == to.y {
        let (low, high) = if from.x < to.x {
            (from.x, to.x)
        } else {
            (to.x, from.x)
        };
        let mut x: u8 = low + 1;
        while x < high
            invariant
                low < high <= 10,
                low + 1 <= x <= high,
                from.y == to.y,
                from.y < 11,
                (low == from.x && high == to.x) || (low == to.x && high == from.x),
                forall|q: Square|
                    q.valid() && q.y == from.y && low < q.x < x ==> (#[trigger] board.at(q)) is None,
            decreases high - x,
        {
            let q = Square { x, y: from.y };
            if board.get(q).is_some() {
                assert(strictly_between(from, to, q));
                return false;
            }
            x = x + 1;
        }
        assert forall|q: Square| q.valid() && strictly_between(from, to, q) implies (#[trigger] board.at(
            q,
        )) is None by {
            assert(q.y == from.y && low < q.x < high);
        }
        true
    } else {
        let (low, high) = if from.y < to.y {
            (from.y, to.y)
        } else {
            (to.y, from.y)
        };
        let mut y: u8 = low + 1;
        while y < high
            invariant
                low < high <= 10,
                low + 1 <= y <= high,
                from.x == to.x,
                from.x < 11,
                (low == from.y && high == to.y) || (low == to.y && high == from.y),
                forall|q: Square|
                    q.valid() && q.x == from.x && low < q.y < y ==> (#[trigger] board.at(q)) is None,
            decreases high - y,
        {
            let q = Square { x: from.x, y };
            if board.get(q).is_some() {
                assert(strictly_between(from, to, q));
                return false;
            }
            y = y + 1;
        }
        assert forall|q: Square| q.valid() && strictly_between(from, to, q) implies (#[trigger] board.at(
            q,
        )) is None by {
            assert(q.x == from.x && low < q.y < high);
        }
        true
    }
}

impl State {
    /// The first legality rule that `mv` breaks, or what is known of the move.
    pub fn validate_move(&self, mv: Move) -> (r: Result<ValidatedMove, MoveError>)
        requires
            self@.wf(),
            self@.checkable(mv),
        ensures
            r == self@.validate(mv),
            r is Ok ==> mv.on_board(),
    {
        if self.outcome.is_some() {
            return Err(MoveError::GameOver);
        }
        let source = match self.board(mv.from.board) {
            Some(b) => b,
            None => {
                return Err(MoveError::MissingBoard);
            },
        };
        if self.board(mv.to.board).is_none() {
            return Err(MoveError::MissingBoard);
        }
        if !self.is_playable_board(mv.from.board) {
            return Err(MoveError::SourceNotPlayable);
        }
        let piece = match self.piece_at(mv.from) {
            Some(p) => p,
            None => {
                return Err(MoveError::EmptySource);
            },
        };
        if piece.side() != self.turn {
            return Err(MoveError::WrongSide);
        }
        if self.piece_at(mv.to).is_some() {
            return Err(MoveError::OccupiedDestination);
        }
        if piece != Piece::King && mv.to.square.is_restricted() {
            return Err(MoveError::RestrictedDestination);
        }
        if mv.from.board == mv.to.board {
            if (mv.from.square.x == mv.to.square.x) == (mv.from.square.y == mv.to.square.y) {
                return Err(MoveError::InvalidGeometry);
            }
            let clear = line_clear(&source.board, mv.from.square, mv.to.square);
            proof {
                if clear {
                    assert forall|q: Square|
                        q.valid() && strictly_between(
                            mv.from.square,
                            mv.to.square,
                            q,
                        ) implies (#[trigger] self@.piece_at(
                        Position { board: mv.from.board, square: q },
                    )) is None by {
                        assert(source.board.at(q) is None);
                    }
                } else {
                    let q = choose|q: Square|
                        q.valid() && strictly_between(mv.from.square, mv.to.square, q) && !(
                        #[trigger] source.board.at(q) is None);
                    assert(self@.piece_at(Position { board: mv.from.board, square: q }) is Some);
                }
            }
            if !clear {
                return Err(MoveError::BlockedPath);
            }
            return Ok(ValidatedMove { piece, kind: MoveKind::Spatial });
        }
        if self.ruleset != Ruleset::Multiverse || mv.from.square != mv.to.square
            || mv.from.board.timeline != mv.to.board.timeline {
            return Err(MoveError::InvalidGeometry);
        }
        let from_time = mv.from.board.time;
        let to_time = mv.to.board.time;
        if from_time <= to_time {
            return Err(MoveError::InvalidTimeTravel);
        }
        let distance: i64 = from_time as i64 - to_time as i64;
        if distance % 2 != 0 || Side::for_time(to_time) != piece.side() {
            return Err(MoveError::InvalidTimeTravel);
        }
        let row = match self.find_row(mv.from.board.timeline) {
            Some(i) => i,
            None => {
                return Err(MoveError::MissingBoard);
            },
        };
        let timeline = &self.timelines[row];
        assert(timeline@ == self@.timelines[row as int]);
        let mut time: i64 = to_time as i64 + 2;
        #[verifier::loop_isolation(false)]
        while time < from_time as i64
            invariant
                self@.wf(),
                timeline@.wf(),
                self@.timeline_at(mv.from.board.timeline as int) == Some(timeline@),
                to_time < from_time,
                to_time + 2 <= time <= from_time,
                (time - to_time) % 2 == 0,
                (from_time - to_time) % 2 == 0,
                forall|t: int|
                    to_time < t < time && (t - to_time) % 2 == 0 ==> #[trigger] self@.clear_at(
                        mv.from.board.timeline,
                        t,
                        mv.from.square,
                    ),
            decreases from_time - time,
        {
            let c = BoardCoordinate { time: time as i32, timeline: mv.from.board.timeline };
            match find_time(timeline, time as i32) {
                None => {
                    assert(self@.board_at(c) is None);
                    assert(!self@.clear_at(mv.from.board.timeline, time as int, mv.from.square));
                    return Err(MoveError::BlockedPath);
                },
                Some(k) => {
                    let snapshot = &timeline.boards[k];
                    assert(timeline@.boards[k as int] == snapshot@);
                    if snapshot.board.get(mv.from.square).is_some() {
                        assert(self@.board_at(c) == Some(snapshot@));
                        assert(!self@.clear_at(mv.from.board.timeline, time as int, mv.from.square));
                        return Err(MoveError::BlockedPath);
                    }
                },
            }
            time = time + 2;
        }
        Ok(ValidatedMove { piece, kind: MoveKind::Temporal })
    }
}

} // verus!
