//! The mathematical model of a multiverse position and the rules that read
//! it: which timelines are active, where the Present lies and which boards
//! may be played.

use vstd::prelude::*;
use crate::model::{
    side_for_time, BoardCoordinate, GameOutcome, Move, Piece, Position, Ruleset, Side,
    SnapshotView, Square, TimelineView,
};

verus! {

/// Largest absolute time or row that a well-formed position holds.
pub const COORDINATE_BOUND: i32 = 1073741824;

/// The mathematical content of a game position.
pub struct StateView {
    pub ruleset: Ruleset,
    pub turn: Side,
    pub timelines: Seq<TimelineView>,
    pub outcome: Option<GameOutcome>,
    pub message: Seq<char>,
}

pub open spec fn magnitude(a: int) -> int {
    if a < 0 {
        -a
    } else {
        a
    }
}

impl TimelineView {
    pub open spec fn has_time(self, time: int) -> bool {
        exists|k: int| 0 <= k < self.boards.len() && (#[trigger] self.boards[k]).coordinate.time == time
    }

    pub open spec fn time_index(self, time: int) -> int {
        choose|k: int| 0 <= k < self.boards.len() && (#[trigger] self.boards[k]).coordinate.time == time
    }

    /// The board of this timeline at `time`.
    pub open spec fn board_at_time(self, time: int) -> Option<SnapshotView> {
        if self.has_time(time) {
            Some(self.boards[self.time_index(time)])
        } else {
            None
        }
    }

    /// Boards are ordered by strictly increasing time, sit on this row, have
    /// a parent earlier in time, and stay within the coordinate bound.
    pub open spec fn wf(self) -> bool {
        &&& forall|k: int, m: int|
            #![trigger self.boards[k], self.boards[m]]
            0 <= k < m < self.boards.len() ==> self.boards[k].coordinate.time
                < self.boards[m].coordinate.time
        &&& forall|k: int|
            0 <= k < self.boards.len() ==> {
                &&& (#[trigger] self.boards[k]).coordinate.timeline == self.row
                &&& self.boards[k].cells.len() == 121
                &&& -COORDINATE_BOUND <= self.boards[k].coordinate.time <= COORDINATE_BOUND
                &&& match self.boards[k].parent {
                    Some(p) => p.time < self.boards[k].coordinate.time,
                    None => true,
                }
            }
        &&& -COORDINATE_BOUND <= self.row <= COORDINATE_BOUND
    }
}

/// Number of the first `n` timelines owned by `side`.
pub open spec fn owned_upto(timelines: Seq<TimelineView>, side: Side, n: nat) -> nat
    decreases n,
{
    if n == 0 {
        0
    } else {
        owned_upto(timelines, side, (n - 1) as nat) + if timelines[n - 1].owner == Some(side) {
            1nat
        } else {
            0nat
        }
    }
}

/// Row `a` is nearer to L0 than row `b`; between rows equally near, the
/// negative one comes first.
pub open spec fn ranks_before(a: int, b: int) -> bool {
    magnitude(a) < magnitude(b) || (magnitude(a) == magnitude(b) && a < b)
}

/// Number of the first `n` timelines owned by `side` whose row ranks
/// before `row`.
pub open spec fn rank_upto(timelines: Seq<TimelineView>, side: Side, row: int, n: nat) -> nat
    decreases n,
{
    if n == 0 {
        0
    } else {
        rank_upto(timelines, side, row, (n - 1) as nat) + if timelines[n - 1].owner == Some(side)
            && ranks_before(timelines[n - 1].row as int, row) {
            1nat
        } else {
            0nat
        }
    }
}

impl StateView {
    pub open spec fn has_row(self, row: int) -> bool {
        exists|i: int| 0 <= i < self.timelines.len() && (#[trigger] self.timelines[i]).row == row
    }

    pub open spec fn row_index(self, row: int) -> int {
        choose|i: int| 0 <= i < self.timelines.len() && (#[trigger] self.timelines[i]).row == row
    }

    /// The timeline on row `row`.
    pub open spec fn timeline_at(self, row: int) -> Option<TimelineView> {
        if self.has_row(row) {
            Some(self.timelines[self.row_index(row)])
        } else {
            None
        }
    }

    /// The board at a coordinate.
    pub open spec fn board_at(self, c: BoardCoordinate) -> Option<SnapshotView> {
        match self.timeline_at(c.timeline as int) {
            Some(t) => t.board_at_time(c.time as int),
            None => None,
        }
    }

    /// The piece at a position; none when its board does not exist.
    pub open spec fn piece_at(self, p: Position) -> Option<Piece> {
        match self.board_at(p.board) {
            Some(b) => b.cells[p.square.index()],
            None => None,
        }
    }

    /// Timelines are ordered by strictly increasing row and each is
    /// well formed.
    pub open spec fn wf(self) -> bool {
        &&& forall|i: int, j: int|
            #![trigger self.timelines[i], self.timelines[j]]
            0 <= i < j < self.timelines.len() ==> self.timelines[i].row < self.timelines[j].row
        &&& forall|i: int| 0 <= i < self.timelines.len() ==> (#[trigger] self.timelines[i]).wf()
    }

    /// Every row and time lies within `[-b, b]`.
    pub open spec fn bounded_by(self, b: int) -> bool {
        forall|i: int|
            0 <= i < self.timelines.len() ==> {
                &&& -b <= (#[trigger] self.timelines[i]).row <= b
                &&& forall|k: int|
                    0 <= k < self.timelines[i].boards.len() ==> -b
                        <= (#[trigger] self.timelines[i].boards[k]).coordinate.time <= b
            }
    }

    /// One more than the smaller of the two sides' created-timeline counts.
    pub open spec fn quota(self) -> nat {
        let a = owned_upto(self.timelines, Side::Attacker, self.timelines.len());
        let d = owned_upto(self.timelines, Side::Defender, self.timelines.len());
        (if a <= d {
            a
        } else {
            d
        }) + 1
    }

    /// L0 and every unowned timeline are active; of the timelines a side
    /// created, only the `quota` nearest to L0 are.
    pub open spec fn is_active(self, row: int) -> bool {
        match self.timeline_at(row) {
            None => false,
            Some(t) => match t.owner {
                None => true,
                Some(o) => rank_upto(self.timelines, o, row, self.timelines.len()) < self.quota(),
            },
        }
    }

    /// The lowest latest-board time among the first `n` active timelines.
    pub open spec fn present_upto(self, n: nat) -> Option<i32>
        decreases n,
    {
        if n == 0 {
            None
        } else {
            let earlier = self.present_upto((n - 1) as nat);
            let t = self.timelines[n - 1];
            if self.is_active(t.row as int) && t.boards.len() > 0 {
                let time = t.boards.last().coordinate.time;
                match earlier {
                    Some(e) => if e <= time {
                        Some(e)
                    } else {
                        Some(time)
                    },
                    None => Some(time),
                }
            } else {
                earlier
            }
        }
    }

    /// The Present: the lowest time of a latest board on an active timeline.
    pub open spec fn present(self) -> Option<i32> {
        self.present_upto(self.timelines.len())
    }

    pub open spec fn latest_coordinate(self, row: int) -> Option<BoardCoordinate> {
        match self.timeline_at(row) {
            Some(t) => match t.last_board() {
                Some(b) => Some(b.coordinate),
                None => None,
            },
            None => None,
        }
    }

    /// A board may be played: the game is running, it is the latest board
    /// of an active timeline, the side to move plays on it, and it is L0 in
    /// classic play or a Present board in multiverse play.
    pub open spec fn playable(self, c: BoardCoordinate) -> bool {
        &&& self.outcome is None
        &&& self.is_active(c.timeline as int)
        &&& self.latest_coordinate(c.timeline as int) == Some(c)
        &&& side_for_time(c.time as int) == self.turn
        &&& if self.ruleset == Ruleset::Classic {
            c.timeline == 0
        } else {
            self.present() == Some(c.time)
        }
    }

    /// Playable latest boards among the first `n` timelines, by row.
    pub open spec fn playable_upto(self, n: nat) -> Seq<BoardCoordinate>
        decreases n,
    {
        if n == 0 {
            Seq::empty()
        } else {
            let earlier = self.playable_upto((n - 1) as nat);
            match self.timelines[n - 1].last_board() {
                Some(b) => if self.playable(b.coordinate) {
                    earlier.push(b.coordinate)
                } else {
                    earlier
                },
                None => earlier,
            }
        }
    }

    /// All playable boards, ordered by row.
    pub open spec fn playable_list(self) -> Seq<BoardCoordinate> {
        self.playable_upto(self.timelines.len())
    }

    /// An active Present board still waits for `side`.
    pub open spec fn pending(self, side: Side) -> bool {
        match self.present() {
            Some(p) => side_for_time(p as int) == side,
            None => false,
        }
    }
}

/// Why a move or a turn action was refused.
#[derive(Clone, Copy, Debug, PartialEq, Eq, Structural)]
pub enum MoveError {
    GameOver,
    MissingBoard,
    SourceNotPlayable,
    EmptySource,
    WrongSide,
    OccupiedDestination,
    RestrictedDestination,
    InvalidGeometry,
    BlockedPath,
    InvalidTimeTravel,
    DefenderRepetition,
    NothingToSubmit,
    PendingPresentBoards,
    NothingToUndo,
}

impl MoveError {
    /// A sentence explaining the refusal.
    pub fn description(self) -> (r: &'static str)
        ensures
            r@ == error_text(self),
    {
        match self {
            MoveError::GameOver => "the game is already over",
            MoveError::MissingBoard => "the source or destination board does not exist",
            MoveError::SourceNotPlayable => "only an active latest board at the Present may be played",
            MoveError::EmptySource => "there is no piece at the source square",
            MoveError::WrongSide => "that piece belongs to the other side",
            MoveError::OccupiedDestination => "the destination is occupied",
            MoveError::RestrictedDestination => "soldiers may not stop on the throne or a corner",
            MoveError::InvalidGeometry => "pieces move orthogonally along exactly one axis",
            MoveError::BlockedPath => "another piece blocks the path",
            MoveError::InvalidTimeTravel => "time travel must move backward an even number of turns on the same timeline",
            MoveError::DefenderRepetition => "the defender may not repeat an ancestral board position",
            MoveError::NothingToSubmit => "make at least one move before submitting",
            MoveError::PendingPresentBoards => "more Present boards must be played before submitting",
            MoveError::NothingToUndo => "there is no staged move to undo",
        }
    }
}

pub open spec fn error_text(e: MoveError) -> Seq<char> {
    match e {
        MoveError::GameOver => "the game is already over"@,
        MoveError::MissingBoard => "the source or destination board does not exist"@,
        MoveError::SourceNotPlayable => "only an active latest board at the Present may be played"@,
        MoveError::EmptySource => "there is no piece at the source square"@,
        MoveError::WrongSide => "that piece belongs to the other side"@,
        MoveError::OccupiedDestination => "the destination is occupied"@,
        MoveError::RestrictedDestination => "soldiers may not stop on the throne or a corner"@,
        MoveError::InvalidGeometry => "pieces move orthogonally along exactly one axis"@,
        MoveError::BlockedPath => "another piece blocks the path"@,
        MoveError::InvalidTimeTravel => "time travel must move backward an even number of turns on the same timeline"@,
        MoveError::DefenderRepetition => "the defender may not repeat an ancestral board position"@,
        MoveError::NothingToSubmit => "make at least one move before submitting"@,
        MoveError::PendingPresentBoards => "more Present boards must be played before submitting"@,
        MoveError::NothingToUndo => "there is no staged move to undo"@,
    }
}

#[derive(Clone, Copy, Debug, PartialEq, Eq, Structural)]
pub enum MoveKind {
    Spatial,
    Temporal,
}

/// What validation learns about a legal move.
#[derive(Clone, Copy, Debug, PartialEq, Eq, Structural)]
pub struct ValidatedMove {
    pub piece: Piece,
    pub kind: MoveKind,
}

/// `q` lies strictly between `a` and `b` on their shared rank or file.
pub open spec fn strictly_between(a: Square, b: Square, q: Square) -> bool {
    ||| (q.y == a.y && q.y == b.y && ((a.x < q.x < b.x) || (b.x < q.x < a.x)))
    ||| (q.x == a.x && q.x == b.x && ((a.y < q.y < b.y) || (b.y < q.y < a.y)))
}

impl StateView {
    /// Every square strictly between the ends of a move on one board is empty.
    pub open spec fn spatial_path_clear(self, mv: Move) -> bool {
        forall|q: Square|
            q.valid() && strictly_between(mv.from.square, mv.to.square, q) ==> (#[trigger] self.piece_at(
                Position { board: mv.from.board, square: q },
            )) is None
    }

    /// The board at time `t` of row `row` exists and has `square` empty.
    pub open spec fn clear_at(self, row: i32, t: int, square: Square) -> bool {
        let c = BoardCoordinate { time: t as i32, timeline: row };
        &&& self.board_at(c) is Some
        &&& self.board_at(c).unwrap().cells[square.index()] is None
    }

    /// Every board of the moving side strictly between the two ends of a
    /// backward move exists and has the square empty.
    pub open spec fn temporal_path_clear(self, mv: Move) -> bool {
        forall|t: int|
            mv.to.board.time < t < mv.from.board.time && (t - mv.to.board.time) % 2 == 0
                ==> #[trigger] self.clear_at(mv.from.board.timeline, t, mv.from.square)
    }

    /// The first legality rule that a move breaks, or what is known of the
    /// move when it breaks none.
    /// The move's squares lie on the board, or validation refuses the
    /// move before it reads a square that does not.
    pub open spec fn checkable(self, mv: Move) -> bool {
        ||| mv.on_board()
        ||| self.outcome is Some
        ||| self.board_at(mv.from.board) is None
        ||| self.board_at(mv.to.board) is None
        ||| !self.playable(mv.from.board)
        ||| mv.from.square.valid() && (self.piece_at(mv.from) is None || self.piece_at(
            mv.from,
        ).unwrap().owner() != self.turn)
    }

    pub open spec fn validate(self, mv: Move) -> Result<ValidatedMove, MoveError> {
        if self.outcome is Some {
            Err(MoveError::GameOver)
        } else if self.board_at(mv.from.board) is None || self.board_at(mv.to.board) is None {
            Err(MoveError::MissingBoard)
        } else if !self.playable(mv.from.board) {
            Err(MoveError::SourceNotPlayable)
        } else if self.piece_at(mv.from) is None {
            Err(MoveError::EmptySource)
        } else {
            let piece = self.piece_at(mv.from).unwrap();
            if piece.owner() != self.turn {
                Err(MoveError::WrongSide)
            } else if self.piece_at(mv.to) is Some {
                Err(MoveError::OccupiedDestination)
            } else if piece != Piece::King && mv.to.square.restricted() {
                Err(MoveError::RestrictedDestination)
            } else if mv.from.board == mv.to.board {
                if (mv.from.square.x == mv.to.square.x) == (mv.from.square.y == mv.to.square.y) {
                    Err(MoveError::InvalidGeometry)
                } else if !self.spatial_path_clear(mv) {
                    Err(MoveError::BlockedPath)
                } else {
                    Ok(ValidatedMove { piece, kind: MoveKind::Spatial })
                }
            } else if self.ruleset != Ruleset::Multiverse || mv.from.square != mv.to.square
                || mv.from.board.timeline != mv.to.board.timeline {
                Err(MoveError::InvalidGeometry)
            } else {
                let distance = mv.from.board.time - mv.to.board.time;
                if distance <= 0 || distance % 2 != 0 || side_for_time(mv.to.board.time as int)
                    != piece.owner() {
                    Err(MoveError::InvalidTimeTravel)
                } else if !self.temporal_path_clear(mv) {
                    Err(MoveError::BlockedPath)
                } else {
                    Ok(ValidatedMove { piece, kind: MoveKind::Temporal })
                }
            }
        }
    }
}

/// In a well-formed position each row names exactly one timeline.
pub proof fn lemma_row_unique(s: StateView, i: int)
    requires
        s.wf(),
        0 <= i < s.timelines.len(),
    ensures
        s.has_row(s.timelines[i].row as int),
        s.row_index(s.timelines[i].row as int) == i,
        s.timeline_at(s.timelines[i].row as int) == Some(s.timelines[i]),
{
    let row = s.timelines[i].row as int;
    assert(s.has_row(row));
    let j = s.row_index(row);
    if j < i {
        assert(s.timelines[j].row < s.timelines[i].row);
    } else if j > i {
        assert(s.timelines[i].row < s.timelines[j].row);
    }
}

/// In a well-formed timeline each time names exactly one board.
pub proof fn lemma_time_unique(t: TimelineView, k: int)
    requires
        t.wf(),
        0 <= k < t.boards.len(),
    ensures
        t.has_time(t.boards[k].coordinate.time as int),
        t.time_index(t.boards[k].coordinate.time as int) == k,
        t.board_at_time(t.boards[k].coordinate.time as int) == Some(t.boards[k]),
{
    let time = t.boards[k].coordinate.time as int;
    assert(t.has_time(time));
    let m = t.time_index(time);
    if m < k {
        assert(t.boards[m].coordinate.time < t.boards[k].coordinate.time);
    } else if m > k {
        assert(t.boards[k].coordinate.time < t.boards[m].coordinate.time);
    }
}

} // verus!
