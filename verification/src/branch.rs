//! Adding boards to the multiverse: successors on a timeline, and new
//! timelines branched off a historical board.

use vstd::prelude::*;
use crate::model::{BoardCoordinate, BoardSnapshot, Piece, Side, SnapshotView, Timeline, TimelineView};
use crate::rules::{lemma_row_unique, StateView, COORDINATE_BOUND};
use crate::state::State;

verus! {

broadcast use crate::model::lemma_board_cells;

/// Number of the first `n` timelines whose row lies below `row`.
pub open spec fn rows_below(timelines: Seq<TimelineView>, row: int, n: nat) -> nat
    decreases n,
{
    if n == 0 {
        0
    } else {
        rows_below(timelines, row, (n - 1) as nat) + if timelines[n - 1].row < row {
            1nat
        } else {
            0nat
        }
    }
}

/// `row` is the first row, from `first` outward in direction `dir`, that
/// holds no timeline.
pub open spec fn first_free_row(s: StateView, first: int, dir: int, row: int) -> bool {
    exists|k: nat|
        row == row_step(first, dir, k) && !s.has_row(row) && forall|j: nat|
            j < k ==> #[trigger] s.has_row(row_step(first, dir, j))
}

/// In `t`, the successor of board `c` made by `side` stands on a new
/// timeline: one time later, on the first row of `s` free from the row next
/// to `c`'s outward in `side`'s direction, derived from `c` and owned by
/// `side`.
pub open spec fn branched_from(s: StateView, t: StateView, c: BoardCoordinate, side: Side) -> bool {
    exists|row: int|
        #[trigger] first_free_row(s, c.timeline + side.direction(), side.direction(), row) && {
            let d = BoardCoordinate { time: (c.time + 1) as i32, timeline: row as i32 };
            &&& t.board_at(d) is Some
            &&& t.board_at(d).unwrap().parent == Some(c)
            &&& t.timeline_at(row) is Some
            &&& t.timeline_at(row).unwrap().owner == Some(side)
        }
}

/// The row `k` steps from `first` in direction `dir`.
pub open spec fn row_step(first: int, dir: int, k: nat) -> int {
    if dir >= 0 {
        first + k
    } else {
        first - k
    }
}

impl StateView {
    /// The position with `snap` added after the last board of its row.
    pub closed spec fn insert_snapshot(self, snap: SnapshotView) -> StateView {
        let i = self.row_index(snap.coordinate.timeline as int);
        let t = self.timelines[i];
        StateView {
            timelines: self.timelines.update(
                i,
                TimelineView { row: t.row, owner: t.owner, boards: t.boards.push(snap) },
            ),
            ..self
        }
    }

    /// The position with a new timeline inserted in row order.
    pub closed spec fn insert_timeline(self, t: TimelineView) -> StateView {
        StateView {
            timelines: self.timelines.insert(
                rows_below(self.timelines, t.row as int, self.timelines.len()) as int,
                t,
            ),
            ..self
        }
    }

    /// The first row from `first` outward in direction `dir` that holds no
    /// timeline.
    pub closed spec fn free_row(self, first: int, dir: int) -> int {
        let k = choose|k: nat|
            !self.has_row(row_step(first, dir, k)) && forall|j: nat|
                j < k ==> #[trigger] self.has_row(row_step(first, dir, j));
        row_step(first, dir, k)
    }

    /// The timeline of `parent` already holds a board later than it.
    pub closed spec fn later_board_exists(self, parent: BoardCoordinate) -> bool {
        match self.timeline_at(parent.timeline as int) {
            Some(t) => exists|k: int|
                0 <= k < t.boards.len() && (#[trigger] t.boards[k]).coordinate.time > parent.time,
            None => false,
        }
    }

    /// Records `cells` as the successor of `parent`: on the parent's own
    /// timeline when the next time there is free, and otherwise on the next
    /// free row in the creator's direction.
    pub closed spec fn insert_successor_or_branch(
        self,
        parent: BoardCoordinate,
        cells: Seq<Option<Piece>>,
        creator: Side,
    ) -> (StateView, BoardCoordinate) {
        if !self.later_board_exists(parent) {
            let c = BoardCoordinate { time: (parent.time + 1) as i32, timeline: parent.timeline };
            (
                self.insert_snapshot(
                    SnapshotView {
                        coordinate: c,
                        cells,
                        parent: Some(parent),
                        created_by: Some(creator),
                    },
                ),
                c,
            )
        } else {
            let row = self.free_row(
                parent.timeline + creator.direction(),
                creator.direction(),
            );
            let c = BoardCoordinate { time: (parent.time + 1) as i32, timeline: row as i32 };
            (
                self.insert_timeline(
                    TimelineView {
                        row: row as i32,
                        owner: Some(creator),
                        boards: seq![
                            SnapshotView {
                                coordinate: c,
                                cells,
                                parent: Some(parent),
                                created_by: Some(creator),
                            },
                        ],
                    },
                ),
                c,
            )
        }
    }

    /// The position with the board at `c` holding `cells`.
    pub closed spec fn set_cells(self, c: BoardCoordinate, cells: Seq<Option<Piece>>) -> StateView {
        let i = self.row_index(c.timeline as int);
        let t = self.timelines[i];
        let k = t.time_index(c.time as int);
        StateView {
            timelines: self.timelines.update(
                i,
                TimelineView {
                    row: t.row,
                    owner: t.owner,
                    boards: t.boards.update(k, SnapshotView { cells, ..t.boards[k] }),
                },
            ),
            ..self
        }
    }
}

/// Counting rows below `row` gains nothing over rows that lie above it.
proof fn lemma_rows_below_stable(timelines: Seq<TimelineView>, row: int, p: nat, m: nat)
    requires
        p <= m <= timelines.len(),
        forall|j: int| p <= j < m ==> timelines[j].row > row,
    ensures
        rows_below(timelines, row, m) == rows_below(timelines, row, p),
    decreases m - p,
{
    if m > p {
        lemma_rows_below_stable(timelines, row, p, (m - 1) as nat);
    }
}

/// Rows beyond the bound hold no timeline.
proof fn lemma_far_rows_free(s: StateView, b: int, row: int)
    requires
        s.bounded_by(b),
        row < -b || row > b,
    ensures
        !s.has_row(row),
{
    if s.has_row(row) {
        let i = s.row_index(row);
        assert(-b <= s.timelines[i].row <= b);
    }
}

/// Bounds are preserved when a timeline is replaced by one with the same
/// row whose boards are those of the old one plus boards within the bound.
proof fn lemma_bounded_update(s: StateView, i: int, t: TimelineView, b: int)
    requires
        s.bounded_by(b),
        0 <= i < s.timelines.len(),
        t.row == s.timelines[i].row,
        forall|k: int| 0 <= k < t.boards.len() ==> -b <= (#[trigger] t.boards[k]).coordinate.time <= b,
    ensures
        (StateView { timelines: s.timelines.update(i, t), ..s }).bounded_by(b),
{
    let n = StateView { timelines: s.timelines.update(i, t), ..s };
    assert forall|j: int| 0 <= j < n.timelines.len() implies {
        &&& -b <= (#[trigger] n.timelines[j]).row <= b
        &&& forall|k: int|
            0 <= k < n.timelines[j].boards.len() ==> -b <= (#[trigger] n.timelines[j].boards[k]).coordinate.time <= b
    } by {
        if j != i {
            assert(n.timelines[j] == s.timelines[j]);
        }
    }
}

pub proof fn lemma_bounded_weaken_pub(s: StateView, b: int, c: int)
    requires
        s.bounded_by(b),
        b <= c,
    ensures
        s.bounded_by(c),
{
    lemma_bounded_weaken(s, b, c);
}

/// Appending a board at a new coordinate leaves every other board in place.
pub proof fn lemma_append_keeps_boards(s: StateView, snap: SnapshotView, c: BoardCoordinate)
    requires
        s.wf(),
        s.insert_snapshot(snap).wf(),
        s.has_row(snap.coordinate.timeline as int),
        s.board_at(c) is Some,
        c != snap.coordinate,
    ensures
        s.insert_snapshot(snap).board_at(c) == s.board_at(c),
{
    let n = s.insert_snapshot(snap);
    let i = s.row_index(snap.coordinate.timeline as int);
    let j = s.row_index(c.timeline as int);
    lemma_row_unique(s, i);
    lemma_row_unique(s, j);
    lemma_row_unique(n, i);
    lemma_row_unique(n, j);
    let t = s.timelines[j];
    let k = t.time_index(c.time as int);
    crate::rules::lemma_time_unique(t, k);
    let nt = n.timelines[j];
    assert(nt.boards[k] == t.boards[k]);
    crate::rules::lemma_time_unique(nt, k);
}

/// Adding a board to an existing timeline leaves the set of rows alone.
pub proof fn lemma_snapshot_keeps_row_set(s: StateView, snap: SnapshotView)
    requires
        s.has_row(snap.coordinate.timeline as int),
    ensures
        forall|row: int| #[trigger] s.insert_snapshot(snap).has_row(row) == s.has_row(row),
{
    let n = s.insert_snapshot(snap);
    let i = s.row_index(snap.coordinate.timeline as int);
    assert forall|row: int| #[trigger] n.has_row(row) == s.has_row(row) by {
        if n.has_row(row) {
            let j = choose|j: int| 0 <= j < n.timelines.len() && (#[trigger] n.timelines[j]).row == row;
            assert(s.timelines[j].row == row);
        }
        if s.has_row(row) {
            let j = choose|j: int| 0 <= j < s.timelines.len() && (#[trigger] s.timelines[j]).row == row;
            assert(n.timelines[j].row == row);
        }
    }
}

/// Two positions with the same rows have the same first free rows.
pub proof fn lemma_first_free_row_same_rows(s: StateView, t: StateView, first: int, dir: int, row: int)
    requires
        forall|r: int| #[trigger] s.has_row(r) == t.has_row(r),
        first_free_row(t, first, dir, row),
    ensures
        first_free_row(s, first, dir, row),
{
    let k = choose|k: nat|
        row == row_step(first, dir, k) && !t.has_row(row) && forall|j: nat|
            j < k ==> #[trigger] t.has_row(row_step(first, dir, j));
    assert(!s.has_row(row));
    assert forall|j: nat| j < k implies #[trigger] s.has_row(row_step(first, dir, j)) by {
        assert(t.has_row(row_step(first, dir, j)));
    }
}

/// Every board of `s` is still in `t`, unchanged.
pub open spec fn keeps_boards(s: StateView, t: StateView) -> bool {
    forall|c: BoardCoordinate| #[trigger] s.board_at(c) is Some ==> t.board_at(c) == s.board_at(c)
}

/// Adding or changing boards leaves the rules, the turn, the outcome and
/// the message alone.
pub proof fn lemma_board_edits_frame(
    s: StateView,
    snap: SnapshotView,
    t: TimelineView,
    parent: BoardCoordinate,
    cells: Seq<Option<Piece>>,
    creator: Side,
)
    ensures
        ({
            let a = s.insert_snapshot(snap);
            a.ruleset == s.ruleset && a.turn == s.turn && a.outcome == s.outcome && a.message
                == s.message
        }),
        ({
            let b = s.insert_timeline(t);
            b.ruleset == s.ruleset && b.turn == s.turn && b.outcome == s.outcome && b.message
                == s.message
        }),
        ({
            let c = s.insert_successor_or_branch(parent, cells, creator).0;
            c.ruleset == s.ruleset && c.turn == s.turn && c.outcome == s.outcome && c.message
                == s.message
        }),
        ({
            let d = s.set_cells(parent, cells);
            d.ruleset == s.ruleset && d.turn == s.turn && d.outcome == s.outcome && d.message
                == s.message
        }),
{
}

/// Every timeline of `s` is still in `t`, on the same row and created by
/// the same side.
pub open spec fn keeps_rows(s: StateView, t: StateView) -> bool {
    forall|row: int|
        #[trigger] s.timeline_at(row) is Some ==> t.timeline_at(row) is Some && t.timeline_at(
            row,
        ).unwrap().owner == s.timeline_at(row).unwrap().owner
}

/// Replacing the boards of timeline `i` keeps every row and its creator.
proof fn lemma_update_keeps_rows(s: StateView, i: int, t: TimelineView)
    requires
        s.wf(),
        0 <= i < s.timelines.len(),
        t.row == s.timelines[i].row,
        t.owner == s.timelines[i].owner,
        (StateView { timelines: s.timelines.update(i, t), ..s }).wf(),
    ensures
        keeps_rows(s, StateView { timelines: s.timelines.update(i, t), ..s }),
{
    let n = StateView { timelines: s.timelines.update(i, t), ..s };
    assert forall|row: int| #[trigger] s.timeline_at(row) is Some implies n.timeline_at(row) is Some
        && n.timeline_at(row).unwrap().owner == s.timeline_at(row).unwrap().owner by {
        let j = s.row_index(row);
        lemma_row_unique(s, j);
        lemma_row_unique(n, j);
    }
}

/// Inserting a timeline on a free row keeps every other row and its
/// creator.
proof fn lemma_insert_keeps_rows(s: StateView, t: TimelineView)
    requires
        s.wf(),
        s.insert_timeline(t).wf(),
        !s.has_row(t.row as int),
    ensures
        keeps_rows(s, s.insert_timeline(t)),
{
    let n = s.insert_timeline(t);
    let pos = rows_below(s.timelines, t.row as int, s.timelines.len()) as int;
    lemma_rows_below_le(s.timelines, t.row as int, s.timelines.len());
    assert forall|row: int| #[trigger] s.timeline_at(row) is Some implies n.timeline_at(row) is Some
        && n.timeline_at(row).unwrap().owner == s.timeline_at(row).unwrap().owner by {
        let j = s.row_index(row);
        lemma_row_unique(s, j);
        let j2 = if j < pos {
            j
        } else {
            j + 1
        };
        assert(n.timelines[j2] == s.timelines[j]);
        lemma_row_unique(n, j2);
    }
}

proof fn lemma_rows_below_le(timelines: Seq<TimelineView>, row: int, n: nat)
    ensures
        rows_below(timelines, row, n) <= n,
    decreases n,
{
    if n > 0 {
        lemma_rows_below_le(timelines, row, (n - 1) as nat);
    }
}

/// Inserting a timeline on a free row leaves every board in place.
pub proof fn lemma_insert_keeps_boards(s: StateView, t: TimelineView, c: BoardCoordinate)
    requires
        s.wf(),
        s.insert_timeline(t).wf(),
        !s.has_row(t.row as int),
        s.board_at(c) is Some,
    ensures
        s.insert_timeline(t).board_at(c) == s.board_at(c),
{
    let n = s.insert_timeline(t);
    let pos = rows_below(s.timelines, t.row as int, s.timelines.len()) as int;
    lemma_rows_below_le(s.timelines, t.row as int, s.timelines.len());
    let j = s.row_index(c.timeline as int);
    lemma_row_unique(s, j);
    let j2 = if j < pos {
        j
    } else {
        j + 1
    };
    assert(n.timelines[j2] == s.timelines[j]);
    lemma_row_unique(n, j2);
}

/// Replacing the cells of one board leaves every other board in place.
pub proof fn lemma_set_cells_keeps_others(
    s: StateView,
    c0: BoardCoordinate,
    cells: Seq<Option<Piece>>,
    c: BoardCoordinate,
)
    requires
        s.wf(),
        s.set_cells(c0, cells).wf(),
        s.board_at(c0) is Some,
        s.board_at(c) is Some,
        c != c0,
    ensures
        s.set_cells(c0, cells).board_at(c) == s.board_at(c),
{
    let n = s.set_cells(c0, cells);
    let i = s.row_index(c0.timeline as int);
    let j = s.row_index(c.timeline as int);
    lemma_row_unique(s, i);
    lemma_row_unique(s, j);
    lemma_row_unique(n, j);
    let t = s.timelines[j];
    let k = t.time_index(c.time as int);
    crate::rules::lemma_time_unique(t, k);
    if j == i {
        let k0 = t.time_index(c0.time as int);
        crate::rules::lemma_time_unique(t, k0);
        assert(k != k0);
        let nt = n.timelines[j];
        assert(nt.boards[k] == t.boards[k]);
        crate::rules::lemma_time_unique(nt, k);
    } else {
        assert(n.timelines[j] == s.timelines[j]);
    }
}

proof fn lemma_bounded_weaken(s: StateView, b: int, c: int)
    requires
        s.bounded_by(b),
        b <= c,
    ensures
        s.bounded_by(c),
{
    assert forall|j: int| 0 <= j < s.timelines.len() implies {
        &&& -c <= (#[trigger] s.timelines[j]).row <= c
        &&& forall|k: int|
            0 <= k < s.timelines[j].boards.len() ==> -c <= (#[trigger] s.timelines[j].boards[k]).coordinate.time <= c
    } by {
        assert(-b <= s.timelines[j].row <= b);
        assert forall|k: int| 0 <= k < s.timelines[j].boards.len() implies -c <= (
        #[trigger] s.timelines[j].boards[k]).coordinate.time <= c by {
            assert(-b <= s.timelines[j].boards[k].coordinate.time <= b);
        }
    }
}

impl State {
    /// Adds `snap` after the last board of its timeline.
    pub fn insert_snapshot(&mut self, snap: BoardSnapshot)
        requires
            old(self)@.wf(),
            old(self)@.has_row(snap.coordinate.timeline as int),
            ({
                let t = old(self)@.timeline_at(snap.coordinate.timeline as int).unwrap();
                t.boards.len() == 0 || t.boards.last().coordinate.time < snap.coordinate.time
            }),
            -COORDINATE_BOUND <= snap.coordinate.time <= COORDINATE_BOUND,
            match snap.parent {
                Some(p) => p.time < snap.coordinate.time,
                None => true,
            },
        ensures
            final(self)@ == old(self)@.insert_snapshot(snap@),
            final(self)@.wf(),
            keeps_boards(old(self)@, final(self)@),
            keeps_rows(old(self)@, final(self)@),
            final(self)@.board_at(snap.coordinate) == Some(snap@),
            forall|b: int|
                old(self)@.bounded_by(b) && -b <= snap.coordinate.time <= b ==> #[trigger] final(self)@.bounded_by(b),
    {
        let ghost pre = self@;
        let i = self.find_row(snap.coordinate.timeline).unwrap();
        proof {
            lemma_row_unique(pre, i as int);
        }
        let ghost old_t = self.timelines@[i as int];
        self.timelines[i].boards.push(snap);
        let ghost t = self.timelines@[i as int];
        proof {
            assert(t@.boards =~= old_t@.boards.push(snap@));
            assert(self@.timelines =~= pre.timelines.update(
                i as int,
                TimelineView { row: old_t@.row, owner: old_t@.owner, boards: old_t@.boards.push(snap@) },
            ));
            let nt = self@.timelines[i as int];
            assert forall|k: int, m: int|
                #![trigger nt.boards[k], nt.boards[m]]
                0 <= k < m < nt.boards.len() implies nt.boards[k].coordinate.time
                < nt.boards[m].coordinate.time by {
                if m == nt.boards.len() - 1 && k < m {
                    if old_t@.boards.len() > 0 {
                        assert(old_t@.boards[k].coordinate.time <= old_t@.boards.last().coordinate.time);
                    }
                }
            }
            assert forall|k: int| 0 <= k < nt.boards.len() implies {
                &&& (#[trigger] nt.boards[k]).coordinate.timeline == nt.row
                &&& nt.boards[k].cells.len() == 121
                &&& -COORDINATE_BOUND <= nt.boards[k].coordinate.time <= COORDINATE_BOUND
                &&& match nt.boards[k].parent {
                    Some(p) => p.time < nt.boards[k].coordinate.time,
                    None => true,
                }
            } by {
                if k < nt.boards.len() - 1 {
                    assert(nt.boards[k] == old_t@.boards[k]);
                } else {
                    assert(nt.boards[k] == snap@);
                }
            }
            assert(nt.wf());
            assert forall|a: int, c: int|
                #![trigger self@.timelines[a], self@.timelines[c]]
                0 <= a < c < self@.timelines.len() implies self@.timelines[a].row
                < self@.timelines[c].row by {
                assert(pre.timelines[a].row < pre.timelines[c].row);
            }
            assert forall|a: int| 0 <= a < self@.timelines.len() implies (
            #[trigger] self@.timelines[a]).wf() by {
                if a != i {
                    assert(self@.timelines[a] == pre.timelines[a]);
                }
            }
            assert forall|b: int|
                pre.bounded_by(b) && -b <= snap.coordinate.time <= b implies #[trigger] self@.bounded_by(
                b,
            ) by {
                lemma_bounded_update(pre, i as int, nt, b);
            }
            assert forall|c: BoardCoordinate| #[trigger] pre.board_at(c) is Some implies self@.board_at(c)
                == pre.board_at(c) by {
                if c.timeline == snap.coordinate.timeline {
                    let j = pre.row_index(c.timeline as int);
                    lemma_row_unique(pre, j);
                    let ot = pre.timelines[j];
                    let k = ot.time_index(c.time as int);
                    crate::rules::lemma_time_unique(ot, k);
                    let n = ot.boards.len();
                    if k < n - 1 {
                        assert(ot.boards[k].coordinate.time < ot.boards[n - 1].coordinate.time);
                    }
                }
                lemma_append_keeps_boards(pre, snap@, c);
            }
            lemma_row_unique(self@, i as int);
            crate::rules::lemma_time_unique(nt, nt.boards.len() - 1);
            lemma_update_keeps_rows(pre, i as int, nt);
        }
    }

    /// Adds a timeline holding one board at its place in row order.
    pub fn insert_timeline(&mut self, t: Timeline)
        requires
            old(self)@.wf(),
            !old(self)@.has_row(t.row as int),
            t@.wf(),
            t.boards@.len() == 1,
        ensures
            final(self)@ == old(self)@.insert_timeline(t@),
            final(self)@.wf(),
            keeps_boards(old(self)@, final(self)@),
            keeps_rows(old(self)@, final(self)@),
            final(self)@.timeline_at(t.row as int) == Some(t@),
            forall|b: int|
                old(self)@.bounded_by(b) && -b <= t.row <= b && -b <= t.boards@[0].coordinate.time
                    <= b ==> #[trigger] final(self)@.bounded_by(b),
    {
        let ghost pre = self@;
        let mut pos: usize = 0;
        while pos < self.timelines.len() && self.timelines[pos].row < t.row
            invariant
                pos <= self.timelines@.len(),
                self@ == pre,
                pre.wf(),
                pos == rows_below(pre.timelines, t.row as int, pos as nat),
                forall|m: int| 0 <= m < pos ==> pre.timelines[m].row < t.row,
            decreases self.timelines@.len() - pos,
        {
            assert(pre.timelines[pos as int] == self.timelines@[pos as int]@);
            pos = pos + 1;
        }
        proof {
            // Every later row is above the new one, so the count is complete.
            let n = pre.timelines.len();
            assert forall|m: int| pos <= m < n implies pre.timelines[m].row > t.row by {
                assert(pre.timelines[pos as int] == self.timelines@[pos as int]@);
                if m > pos {
                    assert(pre.timelines[pos as int].row < pre.timelines[m].row);
                }
                if pre.timelines[m].row == t.row {
                    assert(pre.has_row(t.row as int));
                }
            }
            lemma_rows_below_stable(pre.timelines, t.row as int, pos as nat, n);
        }
        let ghost tv = t@;
        self.timelines.insert(pos, t);
        proof {
            assert(self@.timelines =~= pre.timelines.insert(pos as int, tv));
            let s = self@;
            assert forall|a: int, c: int|
                #![trigger s.timelines[a], s.timelines[c]]
                0 <= a < c < s.timelines.len() implies s.timelines[a].row < s.timelines[c].row by {
                if c < pos {
                    assert(pre.timelines[a].row < pre.timelines[c].row);
                } else if c == pos {
                    assert(pre.timelines[a].row < t.row);
                } else if a == pos {
                    assert(pre.timelines[c - 1].row > t.row);
                } else if a < pos {
                    assert(pre.timelines[a].row < t.row);
                    assert(pre.timelines[c - 1].row > t.row);
                } else {
                    assert(pre.timelines[a - 1].row < pre.timelines[c - 1].row);
                }
            }
            assert forall|a: int| 0 <= a < s.timelines.len() implies (#[trigger] s.timelines[a]).wf() by {
                if a < pos {
                    assert(s.timelines[a] == pre.timelines[a]);
                } else if a > pos {
                    assert(s.timelines[a] == pre.timelines[a - 1]);
                }
            }
            assert forall|b: int|
                pre.bounded_by(b) && -b <= t.row <= b && -b <= t.boards@[0].coordinate.time
                    <= b implies #[trigger] s.bounded_by(b) by {
                assert forall|j: int| 0 <= j < s.timelines.len() implies {
                    &&& -b <= (#[trigger] s.timelines[j]).row <= b
                    &&& forall|k: int|
                        0 <= k < s.timelines[j].boards.len() ==> -b <= (
                        #[trigger] s.timelines[j].boards[k]).coordinate.time <= b
                } by {
                    if j < pos {
                        assert(s.timelines[j] == pre.timelines[j]);
                    } else if j > pos {
                        assert(s.timelines[j] == pre.timelines[j - 1]);
                    } else {
                        assert(s.timelines[j] == tv);
                        assert forall|k: int| 0 <= k < s.timelines[j].boards.len() implies -b <= (
                        #[trigger] s.timelines[j].boards[k]).coordinate.time <= b by {
                            assert(k == 0);
                            assert(tv.boards[0] == t.boards@[0]@);
                        }
                    }
                }
            }
            assert forall|c: BoardCoordinate| #[trigger] pre.board_at(c) is Some implies s.board_at(c)
                == pre.board_at(c) by {
                lemma_insert_keeps_boards(pre, tv, c);
            }
            lemma_insert_keeps_rows(pre, tv);
            assert(s.timelines[pos as int] == tv);
            lemma_row_unique(s, pos as int);
        }
    }

    /// The first free row from `first` outward in direction `dir`.
    pub fn next_free_row(&self, first: i32, dir: i32) -> (r: i32)
        requires
            self@.wf(),
            dir == 1 || dir == -1,
            self@.bounded_by(COORDINATE_BOUND - 2),
            -(COORDINATE_BOUND - 1) <= first <= COORDINATE_BOUND - 1,
        ensures
            r == self@.free_row(first as int, dir as int),
            !self@.has_row(r as int),
            first_free_row(self@, first as int, dir as int, r as int),
            forall|b: int|
                self@.bounded_by(b) && 0 <= b && -(b + 1) <= first <= b + 1 ==> -(b + 1) <= r <= b
                    + 1,
    {
        let ghost s = self@;
        let mut row: i32 = first;
        let ghost mut k: nat = 0;
        while self.find_row(row).is_some()
            invariant
                self@ == s,
                s.wf(),
                s.bounded_by(COORDINATE_BOUND - 2),
                dir == 1 || dir == -1,
                -(COORDINATE_BOUND - 1) <= first <= COORDINATE_BOUND - 1,
                row == row_step(first as int, dir as int, k),
                -(COORDINATE_BOUND - 1) <= row <= COORDINATE_BOUND - 1,
                forall|j: nat| j < k ==> #[trigger] s.has_row(row_step(first as int, dir as int, j)),
                forall|b: int|
                    s.bounded_by(b) && 0 <= b && -(b + 1) <= first <= b + 1 ==> -(b + 1) <= row <= b
                        + 1,
            decreases (if dir > 0 {
                COORDINATE_BOUND - row
            } else {
                row + COORDINATE_BOUND
            }),
        {
            proof {
                assert(s.has_row(row as int));
                if row <= -(COORDINATE_BOUND - 1) || row >= COORDINATE_BOUND - 1 {
                    lemma_far_rows_free(s, COORDINATE_BOUND - 2, row as int);
                }
                assert forall|b: int|
                    s.bounded_by(b) && 0 <= b && -(b + 1) <= first <= b + 1 implies -(b + 1) <= row
                    + dir <= b + 1 by {
                    if row + dir > b + 1 || row + dir < -(b + 1) {
                        if row > b || row < -b {
                            lemma_far_rows_free(s, b, row as int);
                        }
                    }
                }
            }
            row = row + dir;
            proof {
                k = k + 1;
            }
        }
        proof {
            let pick = choose|m: nat|
                !s.has_row(row_step(first as int, dir as int, m)) && forall|j: nat|
                    j < m ==> #[trigger] s.has_row(row_step(first as int, dir as int, j));
            assert(!s.has_row(row_step(first as int, dir as int, k)));
            if pick < k {
                assert(s.has_row(row_step(first as int, dir as int, pick)));
            } else if pick > k {
                assert(s.has_row(row_step(first as int, dir as int, k)));
            }
            assert(first_free_row(s, first as int, dir as int, row as int));
        }
        row
    }

    /// Records `board` as the successor of `parent`, branching to the next
    /// free row in the creator's direction when the parent already has a
    /// later board; returns where the board went.
    #[verifier::rlimit(80)]
    #[verifier::spinoff_prover]
    pub fn insert_successor_or_branch(&mut self, parent: BoardCoordinate, board: crate::model::Board, creator: Side) -> (r: BoardCoordinate)
        requires
            old(self)@.wf(),
            old(self)@.bounded_by(COORDINATE_BOUND - 2),
            old(self)@.board_at(parent) is Some,
        ensures
            (final(self)@, r) == old(self)@.insert_successor_or_branch(parent, board@, creator),
            final(self)@.wf(),
            keeps_boards(old(self)@, final(self)@),
            keeps_rows(old(self)@, final(self)@),
            old(self)@.board_at(r) is None,
            forall|b: int| #[trigger] old(self)@.bounded_by(b) && 0 <= b ==> final(self)@.bounded_by(b + 1),
            forall|b: int|
                #[trigger] old(self)@.bounded_by(b) && 0 <= b ==> -(b + 1) <= r.time <= b + 1 && -(b
                    + 1) <= r.timeline <= b + 1,
            -(COORDINATE_BOUND - 1) <= r.time <= COORDINATE_BOUND - 1,
            r.time == parent.time + 1,
            final(self)@.board_at(r) == Some(
                SnapshotView { coordinate: r, cells: board@, parent: Some(parent), created_by: Some(creator) },
            ),
            old(self)@.latest_coordinate(parent.timeline as int) == Some(parent) ==> r.timeline
                == parent.timeline,
            old(self)@.latest_coordinate(parent.timeline as int) != Some(parent) ==> first_free_row(
                old(self)@,
                parent.timeline + creator.direction(),
                creator.direction(),
                r.timeline as int,
            ) && final(self)@.timeline_at(r.timeline as int) is Some && final(self)@.timeline_at(
                r.timeline as int,
            ).unwrap().owner == Some(creator),
    {
        let ghost pre = self@;
        let i = self.find_row(parent.timeline).unwrap();
        let n = self.timelines[i].boards.len();
        proof {
            lemma_row_unique(pre, i as int);
            let t = pre.timelines[i as int];
            assert(t == self.timelines@[i as int]@);
            assert(pre.timeline_at(parent.timeline as int) == Some(t));
            assert(t.has_time(parent.time as int));
            let k = t.time_index(parent.time as int);
            assert(-(COORDINATE_BOUND - 2) <= t.boards[k].coordinate.time <= COORDINATE_BOUND - 2);
            assert(n > 0);
        }
        let last_time = self.timelines[i].boards[n - 1].coordinate.time;
        proof {
            let t = pre.timelines[i as int];
            assert(t.boards[n - 1] == self.timelines@[i as int].boards@[n - 1]@);
            let k = t.time_index(parent.time as int);
            if last_time > parent.time {
                assert(t.boards[n - 1].coordinate.time > parent.time);
                assert(pre.later_board_exists(parent));
            } else {
                assert forall|m: int| 0 <= m < t.boards.len() implies !((#[trigger] t.boards[m]).coordinate.time
                    > parent.time) by {
                    if m < n - 1 {
                        assert(t.boards[m].coordinate.time < t.boards[n - 1].coordinate.time);
                    }
                }
                assert(!pre.later_board_exists(parent));
                if k < n - 1 {
                    assert(t.boards[k].coordinate.time < t.boards[n - 1].coordinate.time);
                }
                assert(t.boards[n - 1].coordinate == parent);
            }
            assert(pre.latest_coordinate(parent.timeline as int) == Some(t.boards[n - 1].coordinate));
        }
        if last_time <= parent.time {
            let c = BoardCoordinate { time: parent.time + 1, timeline: parent.timeline };
            let snap = BoardSnapshot {
                coordinate: c,
                board,
                parent: Some(parent),
                created_by: Some(creator),
            };
            self.insert_snapshot(snap);
            proof {
                assert forall|b: int| pre.bounded_by(b) && 0 <= b implies #[trigger] self@.bounded_by(b + 1) by {
                    lemma_bounded_weaken(pre, b, b + 1);
                    let t = pre.timelines[i as int];
                    let k = t.time_index(parent.time as int);
                    assert(-b <= t.boards[k].coordinate.time <= b);
                }
                assert forall|b: int| #[trigger] pre.bounded_by(b) && 0 <= b implies -(b + 1) <= c.time
                    <= b + 1 && -(b + 1) <= c.timeline <= b + 1 by {
                    let t = pre.timelines[i as int];
                    let k = t.time_index(parent.time as int);
                    assert(-b <= t.boards[k].coordinate.time <= b);
                    assert(-b <= t.row <= b);
                }
            }
            return c;
        }
        let dir = creator.timeline_direction();
        proof {
            assert(-(COORDINATE_BOUND - 2) <= pre.timelines[i as int].row <= COORDINATE_BOUND - 2);
        }
        let row = self.next_free_row(parent.timeline + dir, dir);
        let c = BoardCoordinate { time: parent.time + 1, timeline: row };
        let snap = BoardSnapshot { coordinate: c, board, parent: Some(parent), created_by: Some(creator) };
        let mut boards: Vec<BoardSnapshot> = Vec::new();
        boards.push(snap);
        let timeline = Timeline { row, owner: Some(creator), boards };
        proof {
            assert(timeline@.boards =~= seq![snap@]);
            assert(timeline@.wf());
        }
        let ghost tv = timeline@;
        self.insert_timeline(timeline);
        proof {
            assert(tv.boards[0].coordinate.time == c.time);
            assert(tv.has_time(c.time as int));
            assert(self@.board_at(c) == Some(snap@));
            assert forall|b: int| pre.bounded_by(b) && 0 <= b implies #[trigger] self@.bounded_by(b + 1) by {
                lemma_bounded_weaken(pre, b, b + 1);
                let t = pre.timelines[i as int];
                let k = t.time_index(parent.time as int);
                assert(-b <= t.boards[k].coordinate.time <= b);
                assert(-b <= pre.timelines[i as int].row <= b);
            }
            assert forall|b: int| #[trigger] pre.bounded_by(b) && 0 <= b implies -(b + 1) <= c.time
                <= b + 1 && -(b + 1) <= c.timeline <= b + 1 by {
                let t = pre.timelines[i as int];
                let k = t.time_index(parent.time as int);
                assert(-b <= t.boards[k].coordinate.time <= b);
                assert(-b <= t.row <= b);
            }
        }
        c
    }

    /// Replaces the cells of the existing board at `c`.
    pub fn set_board(&mut self, c: BoardCoordinate, board: crate::model::Board)
        requires
            old(self)@.wf(),
            old(self)@.board_at(c) is Some,
        ensures
            final(self)@ == old(self)@.set_cells(c, board@),
            final(self)@.wf(),
            keeps_rows(old(self)@, final(self)@),
            final(self)@.board_at(c) == Some(SnapshotView { cells: board@, ..old(self)@.board_at(c).unwrap() }),
            forall|d: BoardCoordinate|
                d != c && #[trigger] old(self)@.board_at(d) is Some ==> final(self)@.board_at(d)
                    == old(self)@.board_at(d),
            forall|b: int| old(self)@.bounded_by(b) ==> #[trigger] final(self)@.bounded_by(b),
    {
        let ghost pre = self@;
        let i = self.find_row(c.timeline).unwrap();
        proof {
            lemma_row_unique(pre, i as int);
            assert(pre.timelines[i as int] == self.timelines@[i as int]@);
        }
        let k = crate::state::find_time(&self.timelines[i], c.time).unwrap();
        proof {
            crate::rules::lemma_time_unique(pre.timelines[i as int], k as int);
        }
        let ghost old_t = self.timelines@[i as int];
        self.timelines[i].boards[k].board = board;
        proof {
            let t = pre.timelines[i as int];
            let nt = TimelineView {
                row: t.row,
                owner: t.owner,
                boards: t.boards.update(k as int, SnapshotView { cells: board@, ..t.boards[k as int] }),
            };
            assert(self.timelines@[i as int]@.boards =~= nt.boards);
            assert(self@.timelines =~= pre.timelines.update(i as int, nt));
            assert forall|a: int, m: int|
                #![trigger nt.boards[a], nt.boards[m]]
                0 <= a < m < nt.boards.len() implies nt.boards[a].coordinate.time
                < nt.boards[m].coordinate.time by {
                assert(t.boards[a].coordinate.time < t.boards[m].coordinate.time);
            }
            assert forall|m: int| 0 <= m < nt.boards.len() implies {
                &&& (#[trigger] nt.boards[m]).coordinate.timeline == nt.row
                &&& nt.boards[m].cells.len() == 121
                &&& -COORDINATE_BOUND <= nt.boards[m].coordinate.time <= COORDINATE_BOUND
                &&& match nt.boards[m].parent {
                    Some(p) => p.time < nt.boards[m].coordinate.time,
                    None => true,
                }
            } by {
                assert(nt.boards[m].coordinate == t.boards[m].coordinate);
                assert(nt.boards[m].parent == t.boards[m].parent);
                assert(t.boards[m].cells.len() == 121);
            }
            assert(nt.wf());
            assert forall|a: int, d: int|
                #![trigger self@.timelines[a], self@.timelines[d]]
                0 <= a < d < self@.timelines.len() implies self@.timelines[a].row
                < self@.timelines[d].row by {
                assert(pre.timelines[a].row < pre.timelines[d].row);
            }
            assert forall|a: int| 0 <= a < self@.timelines.len() implies (
            #[trigger] self@.timelines[a]).wf() by {
                if a != i {
                    assert(self@.timelines[a] == pre.timelines[a]);
                }
            }
            assert forall|b: int| pre.bounded_by(b) implies #[trigger] self@.bounded_by(b) by {
                assert forall|m: int| 0 <= m < nt.boards.len() implies -b <= (
                #[trigger] nt.boards[m]).coordinate.time <= b by {
                    assert(nt.boards[m].coordinate == t.boards[m].coordinate);
                    assert(-b <= pre.timelines[i as int].boards[m].coordinate.time <= b);
                }
                lemma_bounded_update(pre, i as int, nt, b);
            }
            assert forall|d: BoardCoordinate|
                d != c && #[trigger] pre.board_at(d) is Some implies self@.board_at(d) == pre.board_at(d) by {
                lemma_set_cells_keeps_others(pre, c, board@, d);
            }
            lemma_row_unique(self@, i as int);
            crate::rules::lemma_time_unique(nt, k as int);
            lemma_update_keeps_rows(pre, i as int, nt);
        }
    }
}

} // verus!
