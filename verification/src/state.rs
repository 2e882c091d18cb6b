//! The executable position: timeline lookup, activity, the Present and
//! playable boards.

use vstd::prelude::*;
use crate::model::{BoardCoordinate, BoardSnapshot, GameOutcome, Piece, Position, Ruleset, Side, Timeline};
use crate::rules::{lemma_row_unique, lemma_time_unique, owned_upto, rank_upto, StateView, COORDINATE_BOUND};
use crate::model::TimelineView;

verus! {

/// A position of the multiverse: every timeline with its immutable boards,
/// whose turn it is, and how the game ended, if it did.
pub struct State {
    pub ruleset: Ruleset,
    pub turn: Side,
    pub timelines: Vec<Timeline>,
    pub outcome: Option<GameOutcome>,
    pub message: String,
}

impl View for State {
    type V = StateView;

    open spec fn view(&self) -> StateView {
        StateView {
            ruleset: self.ruleset,
            turn: self.turn,
            timelines: self.timelines@.map_values(|t: Timeline| t@),
            outcome: self.outcome,
            message: self.message@,
        }
    }
}

/// Index of the board at `time` on a well-formed timeline.
pub(crate) fn find_time(timeline: &Timeline, time: i32) -> (r: Option<usize>)
    requires
        timeline@.wf(),
    ensures
        match r {
            Some(k) => k < timeline.boards@.len() && timeline.boards@[k as int].coordinate.time
                == time && timeline@.board_at_time(time as int) == Some(
                timeline.boards@[k as int]@,
            ),
            None => timeline@.board_at_time(time as int) is None,
        },
{
    let mut k: usize = 0;
    while k < timeline.boards.len()
        invariant
            k <= timeline.boards@.len(),
            timeline@.wf(),
            forall|m: int| 0 <= m < k ==> timeline.boards@[m].coordinate.time != time,
        decreases timeline.boards@.len() - k,
    {
        if timeline.boards[k].coordinate.time == time {
            proof {
                lemma_time_unique(timeline@, k as int);
            }
            return Some(k);
        }
        k = k + 1;
    }
    proof {
        if timeline@.has_time(time as int) {
            let m = timeline@.time_index(time as int);
            assert(timeline@.boards[m] == timeline.boards@[m]@);
        }
    }
    None
}

impl State {
    pub open spec fn wf(&self) -> bool {
        self@.wf()
    }

    /// Index of the timeline on row `row`.
    pub(crate) fn find_row(&self, row: i32) -> (r: Option<usize>)
        requires
            self@.wf(),
        ensures
            match r {
                Some(i) => i < self.timelines@.len() && self.timelines@[i as int].row == row
                    && self@.timeline_at(row as int) == Some(self.timelines@[i as int]@)
                    && self@.row_index(row as int) == i,
                None => !self@.has_row(row as int) && self@.timeline_at(row as int) is None,
            },
    {
        let mut i: usize = 0;
        while i < self.timelines.len()
            invariant
                i <= self.timelines@.len(),
                self@.wf(),
                forall|m: int| 0 <= m < i ==> self.timelines@[m].row != row,
            decreases self.timelines@.len() - i,
        {
            if self.timelines[i].row == row {
                proof {
                    lemma_row_unique(self@, i as int);
                }
                return Some(i);
            }
            i = i + 1;
        }
        proof {
            if self@.has_row(row as int) {
                let m = self@.row_index(row as int);
                assert(self@.timelines[m] == self.timelines@[m]@);
            }
        }
        None
    }

    /// The board at a coordinate.
    pub(crate) fn board(&self, c: BoardCoordinate) -> (r: Option<&BoardSnapshot>)
        requires
            self@.wf(),
        ensures
            match r {
                Some(b) => self@.board_at(c) == Some(b@) && b.coordinate == c,
                None => self@.board_at(c) is None,
            },
    {
        match self.find_row(c.timeline) {
            None => None,
            Some(i) => {
                let timeline = &self.timelines[i];
                assert(timeline@ == self@.timelines[i as int]);
                match find_time(timeline, c.time) {
                    None => None,
                    Some(k) => {
                        assert(timeline@.boards[k as int] == timeline.boards@[k as int]@);
                        Some(&timeline.boards[k])
                    },
                }
            },
        }
    }

    pub(crate) fn piece_at(&self, p: Position) -> (r: Option<Piece>)
        requires
            self@.wf(),
            p.square.valid(),
        ensures
            r == self@.piece_at(p),
    {
        match self.board(p.board) {
            Some(snapshot) => snapshot.board.get(p.square),
            None => None,
        }
    }

    pub(crate) fn latest_coordinate(&self, row: i32) -> (r: Option<BoardCoordinate>)
        requires
            self@.wf(),
        ensures
            r == self@.latest_coordinate(row as int),
    {
        match self.find_row(row) {
            None => None,
            Some(i) => match self.timelines[i].latest() {
                Some(b) => Some(b.coordinate),
                None => None,
            },
        }
    }

    /// Whether the timeline on `row` counts for the Present, obligations,
    /// captures and wins.
    pub(crate) fn is_active_timeline(&self, row: i32) -> (r: bool)
        requires
            self@.wf(),
        ensures
            r == self@.is_active(row as int),
    {
        let Some(index) = self.find_row(row) else {
            return false;
        };
        let Some(owner) = self.timelines[index].owner else {
            return true;
        };
        let mut attackers: usize = 0;
        let mut defenders: usize = 0;
        let mut rank: usize = 0;
        let mut i: usize = 0;
        while i < self.timelines.len()
            invariant
                i <= self.timelines@.len(),
                attackers == owned_upto(self@.timelines, Side::Attacker, i as nat),
                defenders == owned_upto(self@.timelines, Side::Defender, i as nat),
                rank == rank_upto(self@.timelines, owner, row as int, i as nat),
                attackers <= i,
                defenders <= i,
                rank <= i,
            decreases self.timelines@.len() - i,
        {
            let candidate = &self.timelines[i];
            assert(self@.timelines[i as int] == candidate@);
            if candidate.owner == Some(Side::Attacker) {
                attackers = attackers + 1;
            }
            if candidate.owner == Some(Side::Defender) {
                defenders = defenders + 1;
            }
            if candidate.owner == Some(owner) {
                let a: i64 = if candidate.row < 0 {
                    -(candidate.row as i64)
                } else {
                    candidate.row as i64
                };
                let b: i64 = if row < 0 {
                    -(row as i64)
                } else {
                    row as i64
                };
                if a < b || (a == b && candidate.row < row) {
                    rank = rank + 1;
                }
            }
            i = i + 1;
        }
        let fewer = if attackers <= defenders {
            attackers
        } else {
            defenders
        };
        rank <= fewer
    }

    /// The lowest time of a latest board on an active timeline.
    pub(crate) fn present_time(&self) -> (r: Option<i32>)
        requires
            self@.wf(),
        ensures
            r == self@.present(),
    {
        let mut present: Option<i32> = None;
        let mut i: usize = 0;
        while i < self.timelines.len()
            invariant
                i <= self.timelines@.len(),
                self@.wf(),
                present == self@.present_upto(i as nat),
            decreases self.timelines@.len() - i,
        {
            let timeline = &self.timelines[i];
            assert(self@.timelines[i as int] == timeline@);
            if self.is_active_timeline(timeline.row) {
                if let Some(latest) = timeline.latest() {
                    let time = latest.coordinate.time;
                    present = match present {
                        Some(earlier) => if earlier <= time {
                            Some(earlier)
                        } else {
                            Some(time)
                        },
                        None => Some(time),
                    };
                }
            }
            i = i + 1;
        }
        present
    }

    /// A board may be played now.
    pub(crate) fn is_playable_board(&self, c: BoardCoordinate) -> (r: bool)
        requires
            self@.wf(),
        ensures
            r == self@.playable(c),
    {
        if self.outcome.is_some() || !self.is_active_timeline(c.timeline) || self.latest_coordinate(
            c.timeline,
        ) != Some(c) {
            return false;
        }
        if Side::for_time(c.time) != self.turn {
            return false;
        }
        match self.ruleset {
            Ruleset::Classic => c.timeline == 0,
            Ruleset::Multiverse => self.present_time() == Some(c.time),
        }
    }

    /// All playable boards, ordered by row.
    pub(crate) fn playable_coordinates(&self) -> (r: Vec<BoardCoordinate>)
        requires
            self@.wf(),
        ensures
            r@ == self@.playable_list(),
    {
        let mut result: Vec<BoardCoordinate> = Vec::new();
        let mut i: usize = 0;
        while i < self.timelines.len()
            invariant
                i <= self.timelines@.len(),
                self@.wf(),
                result@ == self@.playable_upto(i as nat),
            decreases self.timelines@.len() - i,
        {
            let timeline = &self.timelines[i];
            assert(self@.timelines[i as int] == timeline@);
            if let Some(latest) = timeline.latest() {
                if self.is_playable_board(latest.coordinate) {
                    result.push(latest.coordinate);
                }
            }
            i = i + 1;
        }
        result
    }

    /// An active Present board still waits for `side`.
    pub(crate) fn has_pending_present_board(&self, side: Side) -> (r: bool)
        requires
            self@.wf(),
        ensures
            r == self@.pending(side),
    {
        match self.present_time() {
            Some(present) => Side::for_time(present) == side,
            None => false,
        }
    }
}

impl State {
    /// A copy of the position.
    pub(crate) fn duplicate(&self) -> (r: State)
        ensures
            r@ == self@,
    {
        let mut timelines: Vec<Timeline> = Vec::new();
        let mut i: usize = 0;
        while i < self.timelines.len()
            invariant
                i <= self.timelines@.len(),
                timelines@.len() == i,
                forall|j: int| 0 <= j < i ==> (#[trigger] timelines@[j])@ == self.timelines@[j]@,
            decreases self.timelines@.len() - i,
        {
            timelines.push(self.timelines[i].duplicate());
            i = i + 1;
        }
        let r = State {
            ruleset: self.ruleset,
            turn: self.turn,
            timelines,
            outcome: self.outcome,
            message: self.message.clone(),
        };
        assert(r@.timelines =~= self@.timelines);
        r
    }
}

/// A well-formed timeline whose row and times lie within `[-b, b]`.
pub open spec fn timeline_within(t: TimelineView, b: int) -> bool {
    &&& t.wf()
    &&& -b <= t.row <= b
    &&& forall|k: int| 0 <= k < t.boards.len() ==> -b <= (#[trigger] t.boards[k]).coordinate.time <= b
}

/// Whether a timeline is well formed with its row and times within
/// `[-bound, bound]`.
fn check_timeline(t: &Timeline, bound: i32) -> (r: bool)
    requires
        0 <= bound <= COORDINATE_BOUND,
    ensures
        r == timeline_within(t@, bound as int),
{
    if t.row < -bound || t.row > bound {
        return false;
    }
    let mut k: usize = 0;
    while k < t.boards.len()
        invariant
            0 <= bound <= COORDINATE_BOUND,
            k <= t.boards@.len(),
            -bound <= t.row <= bound,
            forall|a: int, c: int|
                #![trigger t@.boards[a], t@.boards[c]]
                0 <= a < c < k ==> t@.boards[a].coordinate.time < t@.boards[c].coordinate.time,
            forall|a: int|
                0 <= a < k ==> {
                    &&& (#[trigger] t@.boards[a]).coordinate.timeline == t@.row
                    &&& -bound <= t@.boards[a].coordinate.time <= bound
                    &&& match t@.boards[a].parent {
                        Some(p) => p.time < t@.boards[a].coordinate.time,
                        None => true,
                    }
                },
        decreases t.boards@.len() - k,
    {
        let b = &t.boards[k];
        assert(t@.boards[k as int] == b@);
        if b.coordinate.timeline != t.row || b.coordinate.time < -bound || b.coordinate.time > bound {
            return false;
        }
        if let Some(p) = b.parent {
            if p.time >= b.coordinate.time {
                return false;
            }
        }
        if k > 0 && t.boards[k - 1].coordinate.time >= b.coordinate.time {
            assert(t@.boards[k - 1] == t.boards@[k - 1]@);
            return false;
        }
        proof {
            if k > 0 {
                assert(t@.boards[k - 1] == t.boards@[k - 1]@);
            }
        }
        k = k + 1;
    }
    assert forall|a: int| 0 <= a < t@.boards.len() implies (#[trigger] t@.boards[a]).cells.len() == 121 by {
        assert(t@.boards[a] == t.boards@[a]@);
        crate::model::lemma_board_cells(t.boards@[a].board);
    }
    true
}

impl State {
    /// Whether the position is well formed with every row and time within
    /// `[-bound, bound]`.
    pub(crate) fn well_formed_within(&self, bound: i32) -> (r: bool)
        requires
            0 <= bound <= COORDINATE_BOUND,
        ensures
            r == (self@.wf() && self@.bounded_by(bound as int)),
    {
        let mut i: usize = 0;
        while i < self.timelines.len()
            invariant
                0 <= bound <= COORDINATE_BOUND,
                i <= self.timelines@.len(),
                forall|a: int, c: int|
                    #![trigger self@.timelines[a], self@.timelines[c]]
                    0 <= a < c < i ==> self@.timelines[a].row < self@.timelines[c].row,
                forall|a: int| 0 <= a < i ==> timeline_within(#[trigger] self@.timelines[a], bound as int),
            decreases self.timelines@.len() - i,
        {
            let t = &self.timelines[i];
            assert(self@.timelines[i as int] == t@);
            if !check_timeline(t, bound) {
                proof {
                    if self@.wf() && self@.bounded_by(bound as int) {
                        assert(self@.timelines[i as int].wf());
                        assert forall|k: int| 0 <= k < t@.boards.len() implies -bound <= (
                        #[trigger] t@.boards[k]).coordinate.time <= bound by {
                            assert(t@.boards[k] == self@.timelines[i as int].boards[k]);
                        }
                    }
                }
                return false;
            }
            if i > 0 && self.timelines[i - 1].row >= t.row {
                assert(self@.timelines[i - 1] == self.timelines@[i - 1]@);
                return false;
            }
            proof {
                if i > 0 {
                    assert(self@.timelines[i - 1] == self.timelines@[i - 1]@);
                }
            }
            i = i + 1;
        }
        proof {
            assert forall|a: int| 0 <= a < self@.timelines.len() implies {
                &&& -bound <= (#[trigger] self@.timelines[a]).row <= bound
                &&& forall|k: int|
                    0 <= k < self@.timelines[a].boards.len() ==> -bound <= (
                    #[trigger] self@.timelines[a].boards[k]).coordinate.time <= bound
            } by {
                assert(timeline_within(self@.timelines[a], bound as int));
            }
        }
        true
    }
}

} // verus!
