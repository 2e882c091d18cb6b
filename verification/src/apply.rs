//! Playing a validated move: the successor boards it creates and the
//! captures it resolves.

use vstd::prelude::*;
use crate::capture::shift_board;
use crate::model::{
    square_at, Board, BoardCoordinate, BoardSnapshot, GameOutcome, Move, OutcomeReason, Piece,
    Position, Ruleset, Side, SnapshotView, Square, TimelineView,
};
use crate::rules::{MoveKind, StateView, ValidatedMove, COORDINATE_BOUND};
use crate::state::State;
use crate::branch::{branched_from, keeps_boards, keeps_rows};

verus! {

broadcast use crate::model::lemma_board_cells;

/// For each square of board `c`, whether the move to `moved` captures there.
pub open spec fn victim_mask(
    s0: StateView,
    moved: Position,
    side: Side,
    c: BoardCoordinate,
) -> Seq<bool> {
    Seq::new(121, |i: int| s0.captured(moved, side, Position { board: c, square: square_at(i) }))
}

pub open spec fn any_set(mask: Seq<bool>) -> bool {
    exists|i: int| 0 <= i < 121 && mask[i]
}

/// A king stands on one of the squares the mask selects.
pub open spec fn king_in(s0: StateView, c: BoardCoordinate, mask: Seq<bool>) -> bool {
    exists|i: int|
        0 <= i < 121 && mask[i] && s0.piece_at(Position { board: c, square: square_at(i) })
            == Some(Piece::King)
}

/// The cells with every selected square emptied.
pub open spec fn cleared(cells: Seq<Option<Piece>>, mask: Seq<bool>) -> Seq<Option<Piece>> {
    Seq::new(
        121,
        |i: int|
            if mask[i] {
                None
            } else {
                cells[i]
            },
    )
}

/// The bound on coordinates under which a move can be played.
pub open spec fn move_room(s: StateView) -> bool {
    s.bounded_by(COORDINATE_BOUND - 16)
}

impl StateView {
    /// Boards whose pieces a move onto board `c` may capture, in coordinate
    /// order.
    pub open spec fn capture_boards(self, c: BoardCoordinate) -> Seq<BoardCoordinate> {
        if self.ruleset == Ruleset::Multiverse {
            seq![
                shift_board(c, -2, 0),
                shift_board(c, 0, -1),
                c,
                shift_board(c, 0, 1),
                shift_board(c, 2, 0),
            ]
        } else {
            seq![c]
        }
    }

    /// Applies the captures on the first `n` boards of `coords`, all decided
    /// in the position `s0`: victims on a board the move created are removed
    /// from it; elsewhere the victim's board gets a successor without them.
    /// Returns the position, the boards created for captures, and the boards
    /// where a king was taken.
    pub open spec fn apply_groups(
        self,
        s0: StateView,
        moved: Position,
        side: Side,
        created: Seq<BoardCoordinate>,
        coords: Seq<BoardCoordinate>,
        n: nat,
    ) -> (StateView, Seq<BoardCoordinate>, Seq<BoardCoordinate>)
        decreases n,
    {
        if n == 0 {
            (self, Seq::empty(), Seq::empty())
        } else {
            let (s, made, kings) = self.apply_groups(s0, moved, side, created, coords, (n - 1) as nat);
            let c = coords[n - 1];
            let mask = victim_mask(s0, moved, side, c);
            if !any_set(mask) {
                (s, made, kings)
            } else {
                let king = king_in(s0, c, mask);
                if created.contains(c) {
                    match s.board_at(c) {
                        Some(b) => (
                            s.set_cells(c, cleared(b.cells, mask)),
                            made,
                            if king {
                                kings.push(c)
                            } else {
                                kings
                            },
                        ),
                        None => (
                            s,
                            made,
                            if king {
                                kings.push(c)
                            } else {
                                kings
                            },
                        ),
                    }
                } else {
                    match s.board_at(c) {
                        None => (s, made, kings),
                        Some(b) => {
                            let (s2, r) = s.insert_successor_or_branch(c, cleared(b.cells, mask), side);
                            (
                                s2,
                                made.push(r),
                                if king {
                                    kings.push(r)
                                } else {
                                    kings
                                },
                            )
                        },
                    }
                }
            }
        }
    }

    /// The boards a move creates before captures, and where the piece lands.
    pub open spec fn placed(self, mv: Move, v: ValidatedMove) -> (
        StateView,
        Seq<BoardCoordinate>,
        Position,
    ) {
        let side = v.piece.owner();
        let src = self.board_at(mv.from.board).unwrap();
        let cs = BoardCoordinate {
            time: (mv.from.board.time + 1) as i32,
            timeline: mv.from.board.timeline,
        };
        match v.kind {
            MoveKind::Spatial => {
                let cells = src.cells.update(mv.from.square.index(), None).update(
                    mv.to.square.index(),
                    Some(v.piece),
                );
                (
                    self.insert_snapshot(
                        SnapshotView {
                            coordinate: cs,
                            cells,
                            parent: Some(mv.from.board),
                            created_by: Some(side),
                        },
                    ),
                    seq![cs],
                    Position { board: cs, square: mv.to.square },
                )
            },
            MoveKind::Temporal => {
                let tgt = self.board_at(mv.to.board).unwrap();
                let s1 = self.insert_snapshot(
                    SnapshotView {
                        coordinate: cs,
                        cells: src.cells.update(mv.from.square.index(), None),
                        parent: Some(mv.from.board),
                        created_by: Some(side),
                    },
                );
                let (s2, cd) = s1.insert_successor_or_branch(
                    mv.to.board,
                    tgt.cells.update(mv.to.square.index(), Some(v.piece)),
                    side,
                );
                (s2, seq![cs, cd], Position { board: cd, square: mv.to.square })
            },
        }
    }

    /// One of the boards where a king was taken is an active latest board.
    pub open spec fn king_capture_decides(self, kings: Seq<BoardCoordinate>) -> bool {
        exists|k: int|
            0 <= k < kings.len() && self.is_active(kings[k].timeline as int)
                && self.latest_coordinate(kings[k].timeline as int) == Some(kings[k])
    }

    /// The position after a validated move and its captures, and every board
    /// the move created.
    pub open spec fn apply_validated(self, mv: Move, v: ValidatedMove) -> (
        StateView,
        Seq<BoardCoordinate>,
    ) {
        let (s1, created, moved) = self.placed(mv, v);
        let side = v.piece.owner();
        let coords = s1.capture_boards(moved.board);
        let (s2, made, kings) = s1.apply_groups(s1, moved, side, created, coords, coords.len());
        let s3 = if s2.king_capture_decides(kings) {
            StateView {
                outcome: Some(
                    GameOutcome { winner: Side::Attacker, reason: OutcomeReason::KingCaptured },
                ),
                ..s2
            }
        } else {
            s2
        };
        (s3, created + made)
    }
}

/// Resolving captures leaves the rules, the turn, the outcome and the
/// message alone.
pub proof fn lemma_groups_frame(
    s: StateView,
    s0: StateView,
    moved: Position,
    side: Side,
    created: Seq<BoardCoordinate>,
    coords: Seq<BoardCoordinate>,
    n: nat,
)
    ensures
        ({
            let r = s.apply_groups(s0, moved, side, created, coords, n).0;
            r.ruleset == s.ruleset && r.turn == s.turn && r.outcome == s.outcome && r.message
                == s.message
        }),
    decreases n,
{
    if n > 0 {
        lemma_groups_frame(s, s0, moved, side, created, coords, (n - 1) as nat);
        let p = s.apply_groups(s0, moved, side, created, coords, (n - 1) as nat).0;
        let c = coords[n - 1];
        let mask = victim_mask(s0, moved, side, c);
        if let Some(b) = p.board_at(c) {
            crate::branch::lemma_board_edits_frame(
                p,
                b,
                TimelineView { row: 0, owner: None, boards: Seq::empty() },
                c,
                cleared(b.cells, mask),
                side,
            );
        }
    }
}

/// A move leaves the rules, the turn and the message alone; only the
/// boards and the outcome may change.
pub proof fn lemma_apply_frame(s: StateView, mv: Move, v: ValidatedMove)
    ensures
        s.apply_validated(mv, v).0.ruleset == s.ruleset,
        s.apply_validated(mv, v).0.turn == s.turn,
        s.apply_validated(mv, v).0.message == s.message,
{
    let side = v.piece.owner();
    let src = s.board_at(mv.from.board).unwrap();
    let cs = BoardCoordinate { time: (mv.from.board.time + 1) as i32, timeline: mv.from.board.timeline };
    let snap1 = SnapshotView {
        coordinate: cs,
        cells: src.cells.update(mv.from.square.index(), None).update(mv.to.square.index(), Some(v.piece)),
        parent: Some(mv.from.board),
        created_by: Some(side),
    };
    let snap2 = SnapshotView {
        coordinate: cs,
        cells: src.cells.update(mv.from.square.index(), None),
        parent: Some(mv.from.board),
        created_by: Some(side),
    };
    let empty = TimelineView { row: 0, owner: None, boards: Seq::empty() };
    crate::branch::lemma_board_edits_frame(s, snap1, empty, mv.from.board, src.cells, side);
    crate::branch::lemma_board_edits_frame(s, snap2, empty, mv.from.board, src.cells, side);
    let s1 = s.insert_snapshot(snap2);
    let tgt = s.board_at(mv.to.board).unwrap();
    crate::branch::lemma_board_edits_frame(
        s1,
        snap2,
        empty,
        mv.to.board,
        tgt.cells.update(mv.to.square.index(), Some(v.piece)),
        side,
    );
    let (p, created, moved) = s.placed(mv, v);
    assert(p.ruleset == s.ruleset && p.turn == s.turn && p.message == s.message);
    let coords = p.capture_boards(moved.board);
    lemma_groups_frame(p, p, moved, side, created, coords, coords.len());
}

/// The board with every selected square emptied.
fn clear_board(board: &Board, mask: &Vec<bool>) -> (r: Board)
    requires
        mask@.len() == 121,
    ensures
        r@ == cleared(board@, mask@),
{
    let mut result = *board;
    let mut i: usize = 0;
    while i < 121
        invariant
            i <= 121,
            mask@.len() == 121,
            result@.len() == 121,
            forall|j: int| 0 <= j < i ==> #[trigger] result@[j] == (if mask@[j] {
                None
            } else {
                board@[j]
            }),
            forall|j: int| i <= j < 121 ==> #[trigger] result@[j] == board@[j],
        decreases 121 - i,
    {
        if mask[i] {
            let square = Square { x: (i % 11) as u8, y: (i / 11) as u8 };
            assert(square.index() == i);
            result.set(square, None);
        }
        i = i + 1;
    }
    assert(result@ =~= cleared(board@, mask@));
    result
}

fn contains_coordinate(list: &Vec<BoardCoordinate>, c: BoardCoordinate) -> (r: bool)
    ensures
        r == list@.contains(c),
{
    let mut i: usize = 0;
    while i < list.len()
        invariant
            i <= list@.len(),
            forall|j: int| 0 <= j < i ==> list@[j] != c,
        decreases list@.len() - i,
    {
        if list[i] == c {
            return true;
        }
        i = i + 1;
    }
    false
}

/// Latest-board facts: the latest board of a timeline is its last board.
pub proof fn lemma_latest_is_last(s: StateView, c: BoardCoordinate)
    requires
        s.wf(),
        s.latest_coordinate(c.timeline as int) == Some(c),
    ensures
        s.board_at(c) is Some,
        ({
            let t = s.timeline_at(c.timeline as int).unwrap();
            t.boards.len() > 0 && t.boards.last().coordinate == c && forall|k: int|
                0 <= k < t.boards.len() ==> (#[trigger] t.boards[k]).coordinate.time <= c.time
        }),
{
    let i = s.row_index(c.timeline as int);
    let t = s.timelines[i];
    let n = t.boards.len();
    crate::rules::lemma_time_unique(t, n - 1);
    assert forall|k: int| 0 <= k < t.boards.len() implies (#[trigger] t.boards[k]).coordinate.time
        <= c.time by {
        if k < n - 1 {
            assert(t.boards[k].coordinate.time < t.boards[n - 1].coordinate.time);
        }
    }
}

/// The coordinate just after a latest board holds no board yet.
pub proof fn lemma_after_latest_free(s: StateView, c: BoardCoordinate)
    requires
        s.wf(),
        s.latest_coordinate(c.timeline as int) == Some(c),
    ensures
        s.board_at(BoardCoordinate { time: (c.time + 1) as i32, timeline: c.timeline }) is None,
{
    lemma_latest_is_last(s, c);
    let t = s.timeline_at(c.timeline as int).unwrap();
    if t.has_time(c.time + 1) {
        let k = t.time_index(c.time + 1);
        assert(t.boards[k].coordinate.time <= c.time);
    }
}

impl State {
    /// Whether any square is selected, and whether a king stands on one.
    fn group_summary(&self, c: BoardCoordinate, mask: &Vec<bool>) -> (r: (bool, bool))
        requires
            self@.wf(),
            mask@.len() == 121,
        ensures
            r.0 == any_set(mask@),
            r.1 == king_in(self@, c, mask@),
    {
        let snapshot = self.board(c);
        let mut any = false;
        let mut king = false;
        let mut i: usize = 0;
        while i < 121
            invariant
                i <= 121,
                mask@.len() == 121,
                self@.wf(),
                match snapshot {
                    Some(b) => self@.board_at(c) == Some(b@),
                    None => self@.board_at(c) is None,
                },
                any == exists|j: int| 0 <= j < i && mask@[j],
                king == exists|j: int|
                    0 <= j < i && mask@[j] && self@.piece_at(Position { board: c, square: square_at(j) })
                        == Some(Piece::King),
            decreases 121 - i,
        {
            if mask[i] {
                any = true;
                let square = Square { x: (i % 11) as u8, y: (i / 11) as u8 };
                assert(square == square_at(i as int));
                let here = match snapshot {
                    Some(b) => b.board.get(square),
                    None => None,
                };
                assert(here == self@.piece_at(Position { board: c, square: square_at(i as int) }));
                if here == Some(Piece::King) {
                    king = true;
                }
            }
            i = i + 1;
        }
        (any, king)
    }

    /// Adds the successor of a spatial move's board.
    fn place_spatial(&mut self, mv: Move, v: ValidatedMove) -> (r: (Vec<BoardCoordinate>, Position))
        requires
            old(self)@.wf(),
            mv.on_board(),
            v.kind == MoveKind::Spatial,
            old(self)@.latest_coordinate(mv.from.board.timeline as int) == Some(mv.from.board),
            move_room(old(self)@),
        ensures
            (final(self)@, r.0@, r.1) == old(self)@.placed(mv, v),
            final(self)@.wf(),
            forall|b: int| #[trigger] old(self)@.bounded_by(b) && 0 <= b ==> final(self)@.bounded_by(b + 2),
            -(COORDINATE_BOUND - 14) <= r.1.board.time <= COORDINATE_BOUND - 14,
            -(COORDINATE_BOUND - 14) <= r.1.board.timeline <= COORDINATE_BOUND - 14,
            r.1.square.valid(),
            keeps_boards(old(self)@, final(self)@),
            keeps_rows(old(self)@, final(self)@),
            forall|k: int| 0 <= k < r.0@.len() ==> old(self)@.board_at(#[trigger] r.0@[k]) is None,
            ({
                let cs = BoardCoordinate {
                    time: (mv.from.board.time + 1) as i32,
                    timeline: mv.from.board.timeline,
                };
                final(self)@.board_at(cs) is Some && final(self)@.board_at(cs).unwrap().parent == Some(
                    mv.from.board,
                )
            }),
    {
        let ghost pre = self@;
        let side = v.piece.side();
        let ghost i = pre.row_index(mv.from.board.timeline as int);
        proof {
            lemma_latest_is_last(pre, mv.from.board);
            crate::rules::lemma_row_unique(pre, i);
            let n = pre.timelines[i].boards.len();
            assert(pre.timelines[i].row == mv.from.board.timeline);
            assert(-(COORDINATE_BOUND - 16) <= pre.timelines[i].boards[n - 1].coordinate.time
                <= COORDINATE_BOUND - 16);
            assert(-(COORDINATE_BOUND - 16) <= pre.timelines[i].row <= COORDINATE_BOUND - 16);
        }
        let source = *self.board(mv.from.board).unwrap();
        let cs = BoardCoordinate { time: mv.from.board.time + 1, timeline: mv.from.board.timeline };
        let mut board = source.board;
        board.set(mv.from.square, None);
        board.set(mv.to.square, Some(v.piece));
        self.insert_snapshot(
            BoardSnapshot { coordinate: cs, board, parent: Some(mv.from.board), created_by: Some(side) },
        );
        let mut created: Vec<BoardCoordinate> = Vec::new();
        created.push(cs);
        proof {
            assert(created@ =~= seq![cs]);
            lemma_after_latest_free(pre, mv.from.board);
            assert forall|b: int| pre.bounded_by(b) && 0 <= b implies #[trigger] self@.bounded_by(
                b + 2,
            ) by {
                crate::branch::lemma_bounded_weaken_pub(pre, b, b + 2);
                let n = pre.timelines[i].boards.len();
                assert(-b <= pre.timelines[i].boards[n - 1].coordinate.time <= b);
                assert(-(b + 2) <= cs.time <= b + 2);
            }
        }
        (created, Position { board: cs, square: mv.to.square })
    }

    /// Adds the source successor and the landing board of a backward move.
    #[verifier::rlimit(50)]
    fn place_temporal(&mut self, mv: Move, v: ValidatedMove) -> (r: (Vec<BoardCoordinate>, Position))
        requires
            old(self)@.wf(),
            mv.on_board(),
            v.kind == MoveKind::Temporal,
            old(self)@.latest_coordinate(mv.from.board.timeline as int) == Some(mv.from.board),
            old(self)@.board_at(mv.to.board) is Some,
            mv.to.board.time < mv.from.board.time,
            mv.to.board.timeline == mv.from.board.timeline,
            move_room(old(self)@),
        ensures
            (final(self)@, r.0@, r.1) == old(self)@.placed(mv, v),
            final(self)@.wf(),
            forall|b: int| #[trigger] old(self)@.bounded_by(b) && 0 <= b ==> final(self)@.bounded_by(b + 2),
            -(COORDINATE_BOUND - 14) <= r.1.board.time <= COORDINATE_BOUND - 14,
            -(COORDINATE_BOUND - 14) <= r.1.board.timeline <= COORDINATE_BOUND - 14,
            r.1.square.valid(),
            keeps_boards(old(self)@, final(self)@),
            keeps_rows(old(self)@, final(self)@),
            branched_from(old(self)@, final(self)@, mv.to.board, v.piece.owner()),
            forall|k: int| 0 <= k < r.0@.len() ==> old(self)@.board_at(#[trigger] r.0@[k]) is None,
            ({
                let cs = BoardCoordinate {
                    time: (mv.from.board.time + 1) as i32,
                    timeline: mv.from.board.timeline,
                };
                final(self)@.board_at(cs) is Some && final(self)@.board_at(cs).unwrap().parent == Some(
                    mv.from.board,
                )
            }),
    {
        let ghost pre = self@;
        let side = v.piece.side();
        let ghost i = pre.row_index(mv.from.board.timeline as int);
        proof {
            lemma_latest_is_last(pre, mv.from.board);
            crate::rules::lemma_row_unique(pre, i);
            let n = pre.timelines[i].boards.len();
            assert(pre.timelines[i].row == mv.from.board.timeline);
            assert(-(COORDINATE_BOUND - 16) <= pre.timelines[i].boards[n - 1].coordinate.time
                <= COORDINATE_BOUND - 16);
        }
        let source = *self.board(mv.from.board).unwrap();
        let target = *self.board(mv.to.board).unwrap();
        let cs = BoardCoordinate { time: mv.from.board.time + 1, timeline: mv.from.board.timeline };
        let mut board = source.board;
        board.set(mv.from.square, None);
        self.insert_snapshot(
            BoardSnapshot { coordinate: cs, board, parent: Some(mv.from.board), created_by: Some(side) },
        );
        let ghost mid = self@;
        proof {
            assert forall|b: int| pre.bounded_by(b) && 0 <= b implies #[trigger] mid.bounded_by(
                b + 1,
            ) by {
                crate::branch::lemma_bounded_weaken_pub(pre, b, b + 1);
                let n = pre.timelines[i].boards.len();
                assert(-b <= pre.timelines[i].boards[n - 1].coordinate.time <= b);
                assert(-(b + 1) <= cs.time <= b + 1);
            }
            assert(mid.bounded_by(COORDINATE_BOUND - 15));
            crate::branch::lemma_bounded_weaken_pub(mid, COORDINATE_BOUND - 15, COORDINATE_BOUND - 2);
            crate::branch::lemma_append_keeps_boards(
                pre,
                source_snapshot_view(cs, board@, mv.from.board, side),
                mv.to.board,
            );
            assert(mid.board_at(mv.to.board) == pre.board_at(mv.to.board));
        }
        let mut landing = target.board;
        landing.set(mv.to.square, Some(v.piece));
        let cd = self.insert_successor_or_branch(mv.to.board, landing, side);
        let mut created: Vec<BoardCoordinate> = Vec::new();
        created.push(cs);
        created.push(cd);
        proof {
            let snap = source_snapshot_view(cs, board@, mv.from.board, side);
            assert(mid == pre.insert_snapshot(snap));
            if mid.latest_coordinate(mv.to.board.timeline as int) == Some(mv.to.board) {
                lemma_latest_is_last(mid, mv.to.board);
                let t = mid.timeline_at(mv.to.board.timeline as int).unwrap();
                assert(mid.board_at(cs) is Some);
                let k = t.time_index(cs.time as int);
                assert(t.boards[k].coordinate.time == cs.time);
            }
            crate::branch::lemma_snapshot_keeps_row_set(pre, snap);
            crate::branch::lemma_first_free_row_same_rows(
                pre,
                mid,
                mv.to.board.timeline + side.direction(),
                side.direction(),
                cd.timeline as int,
            );
            assert(crate::branch::first_free_row(
                pre,
                mv.to.board.timeline + side.direction(),
                side.direction(),
                cd.timeline as int,
            ));
            assert(branched_from(pre, self@, mv.to.board, side));
            assert(created@ =~= seq![cs, cd]);
            lemma_after_latest_free(pre, mv.from.board);
            if pre.board_at(cd) is Some {
                assert(mid.board_at(cd) == pre.board_at(cd));
            }
            assert(mid.bounded_by(COORDINATE_BOUND - 15));
            assert forall|b: int| pre.bounded_by(b) && 0 <= b implies #[trigger] self@.bounded_by(
                b + 2,
            ) by {
                assert(mid.bounded_by(b + 1));
            }
        }
        (created, Position { board: cd, square: mv.to.square })
    }
}

/// What validation guarantees about a legal move.
pub proof fn lemma_validated(s: StateView, mv: Move)
    requires
        s.validate(mv) is Ok,
    ensures
        s.outcome is None,
        s.playable(mv.from.board),
        s.latest_coordinate(mv.from.board.timeline as int) == Some(mv.from.board),
        s.board_at(mv.from.board) is Some,
        s.board_at(mv.to.board) is Some,
        s.piece_at(mv.from) == Some(s.validate(mv).unwrap().piece),
        s.validate(mv).unwrap().piece.owner() == s.turn,
        s.validate(mv).unwrap().kind == MoveKind::Temporal ==> mv.to.board.time < mv.from.board.time,
        s.validate(mv).unwrap().kind == MoveKind::Spatial ==> mv.to.board == mv.from.board,
{
}

impl State {
    /// Resolves the captures of a move that landed on `moved`, all decided in
    /// the position before any of them is applied; returns the boards
    /// created for captures and the boards where a king was taken.
    #[verifier::rlimit(40)]
    fn apply_captures(&mut self, moved: Position, side: Side, created: &Vec<BoardCoordinate>) -> (r: (
        Vec<BoardCoordinate>,
        Vec<BoardCoordinate>,
    ))
        requires
            old(self)@.wf(),
            old(self)@.bounded_by(COORDINATE_BOUND - 14),
            moved.square.valid(),
            -(COORDINATE_BOUND - 14) <= moved.board.time <= COORDINATE_BOUND - 14,
            -(COORDINATE_BOUND - 14) <= moved.board.timeline <= COORDINATE_BOUND - 14,
        ensures
            (final(self)@, r.0@, r.1@) == old(self)@.apply_groups(
                old(self)@,
                moved,
                side,
                created@,
                old(self)@.capture_boards(moved.board),
                old(self)@.capture_boards(moved.board).len(),
            ),
            final(self)@.wf(),
            forall|b: int| #[trigger] old(self)@.bounded_by(b) && 0 <= b ==> final(self)@.bounded_by(b + 5),
            forall|d: BoardCoordinate|
                #[trigger] old(self)@.board_at(d) is Some && !created@.contains(d) ==> final(self)@.board_at(d)
                    == old(self)@.board_at(d),
            forall|d: BoardCoordinate|
                #[trigger] old(self)@.board_at(d) is Some ==> final(self)@.board_at(d) is Some
                    && final(self)@.board_at(d).unwrap().parent == old(self)@.board_at(d).unwrap().parent,
            keeps_rows(old(self)@, final(self)@),
    {
        let ghost s0 = self@;
        let c = moved.board;
        let mut coords: Vec<BoardCoordinate> = Vec::new();
        if self.ruleset == Ruleset::Multiverse {
            coords.push(BoardCoordinate { time: c.time - 2, timeline: c.timeline });
            coords.push(BoardCoordinate { time: c.time, timeline: c.timeline - 1 });
            coords.push(c);
            coords.push(BoardCoordinate { time: c.time, timeline: c.timeline + 1 });
            coords.push(BoardCoordinate { time: c.time + 2, timeline: c.timeline });
        } else {
            coords.push(c);
        }
        assert(coords@ =~= s0.capture_boards(c));
        let mut masks: Vec<Vec<bool>> = Vec::new();
        let mut anys: Vec<bool> = Vec::new();
        let mut kings_seen: Vec<bool> = Vec::new();
        let mut g: usize = 0;
        while g < coords.len()
            invariant
                self@ == s0,
                s0.wf(),
                c == moved.board,
                coords@ == s0.capture_boards(c),
                g <= coords@.len(),
                masks@.len() == g,
                anys@.len() == g,
                kings_seen@.len() == g,
                moved.square.valid(),
                -(COORDINATE_BOUND - 14) <= c.time <= COORDINATE_BOUND - 14,
                -(COORDINATE_BOUND - 14) <= c.timeline <= COORDINATE_BOUND - 14,
                forall|h: int|
                    0 <= h < g ==> (#[trigger] masks@[h])@ == victim_mask(s0, moved, side, coords@[h]),
                forall|h: int|
                    0 <= h < g ==> #[trigger] anys@[h] == any_set(victim_mask(s0, moved, side, coords@[h])),
                forall|h: int|
                    0 <= h < g ==> #[trigger] kings_seen@[h] == king_in(
                        s0,
                        coords@[h],
                        victim_mask(s0, moved, side, coords@[h]),
                    ),
            decreases coords@.len() - g,
        {
            let mask = self.victims_on(moved, side, coords[g]);
            assert(mask@ =~= victim_mask(s0, moved, side, coords@[g as int]));
            let (any, king) = self.group_summary(coords[g], &mask);
            masks.push(mask);
            anys.push(any);
            kings_seen.push(king);
            g = g + 1;
        }
        let mut made: Vec<BoardCoordinate> = Vec::new();
        let mut kings: Vec<BoardCoordinate> = Vec::new();
        let mut g: usize = 0;
        while g < coords.len()
            invariant
                s0.wf(),
                self@.wf(),
                coords@ == s0.capture_boards(c),
                g <= coords@.len(),
                coords@.len() <= 5,
                masks@.len() == coords@.len(),
                anys@.len() == coords@.len(),
                kings_seen@.len() == coords@.len(),
                forall|h: int|
                    0 <= h < coords@.len() ==> (#[trigger] masks@[h])@ == victim_mask(
                        s0,
                        moved,
                        side,
                        coords@[h],
                    ),
                forall|h: int|
                    0 <= h < coords@.len() ==> #[trigger] anys@[h] == any_set(
                        victim_mask(s0, moved, side, coords@[h]),
                    ),
                forall|h: int|
                    0 <= h < coords@.len() ==> #[trigger] kings_seen@[h] == king_in(
                        s0,
                        coords@[h],
                        victim_mask(s0, moved, side, coords@[h]),
                    ),
                (self@, made@, kings@) == s0.apply_groups(
                    s0,
                    moved,
                    side,
                    created@,
                    coords@,
                    g as nat,
                ),
                forall|b: int| #[trigger] s0.bounded_by(b) && 0 <= b ==> self@.bounded_by(b + g),
                self@.bounded_by(COORDINATE_BOUND - 14 + g),
                forall|d: BoardCoordinate|
                    #[trigger] s0.board_at(d) is Some && !created@.contains(d) ==> self@.board_at(d)
                        == s0.board_at(d),
                forall|d: BoardCoordinate|
                    #[trigger] s0.board_at(d) is Some ==> self@.board_at(d) is Some
                        && self@.board_at(d).unwrap().parent == s0.board_at(d).unwrap().parent,
                keeps_rows(s0, self@),
            decreases coords@.len() - g,
        {
            let here = coords[g];
            let ghost before = self@;
            if anys[g] {
                if contains_coordinate(created, here) {
                    let cleared_board = match self.board(here) {
                        Some(snapshot) => Some(clear_board(&snapshot.board, &masks[g])),
                        None => None,
                    };
                    if let Some(board) = cleared_board {
                        self.set_board(here, board);
                    }
                    if kings_seen[g] {
                        kings.push(here);
                    }
                    proof {
                        assert forall|b: int| s0.bounded_by(b) && 0 <= b implies #[trigger] self@.bounded_by(
                            b + g + 1,
                        ) by {
                            assert(before.bounded_by(b + g));
                            crate::branch::lemma_bounded_weaken_pub(self@, b + g, b + g + 1);
                        }
                        crate::branch::lemma_bounded_weaken_pub(
                            self@,
                            COORDINATE_BOUND - 14 + g,
                            COORDINATE_BOUND - 14 + g + 1,
                        );
                    }
                } else {
                    let cleared_board = match self.board(here) {
                        Some(snapshot) => Some(clear_board(&snapshot.board, &masks[g])),
                        None => None,
                    };
                    if let Some(board) = cleared_board {
                        proof {
                            crate::branch::lemma_bounded_weaken_pub(self@, COORDINATE_BOUND - 14 + g, COORDINATE_BOUND - 2);
                        }
                        let result = self.insert_successor_or_branch(here, board, side);
                        made.push(result);
                        if kings_seen[g] {
                            kings.push(result);
                        }
                        proof {
                            assert(before.bounded_by(COORDINATE_BOUND - 14 + g));
                            assert forall|b: int| #[trigger] s0.bounded_by(b) && 0 <= b implies self@.bounded_by(
                                b + g + 1,
                            ) by {
                                assert(before.bounded_by(b + g));
                            }
                        }
                    } else {
                        proof {
                            crate::branch::lemma_bounded_weaken_pub(
                                self@,
                                COORDINATE_BOUND - 14 + g,
                                COORDINATE_BOUND - 14 + g + 1,
                            );
                            assert forall|b: int| s0.bounded_by(b) && 0 <= b implies #[trigger] self@.bounded_by(
                                b + g + 1,
                            ) by {
                                assert(before.bounded_by(b + g));
                                crate::branch::lemma_bounded_weaken_pub(self@, b + g, b + g + 1);
                            }
                        }
                    }
                }
            } else {
                proof {
                    crate::branch::lemma_bounded_weaken_pub(
                        self@,
                        COORDINATE_BOUND - 14 + g,
                        COORDINATE_BOUND - 14 + g + 1,
                    );
                    assert forall|b: int| s0.bounded_by(b) && 0 <= b implies #[trigger] self@.bounded_by(
                        b + g + 1,
                    ) by {
                        assert(before.bounded_by(b + g));
                        crate::branch::lemma_bounded_weaken_pub(self@, b + g, b + g + 1);
                    }
                }
            }
            g = g + 1;
        }
        proof {
            assert forall|b: int| s0.bounded_by(b) && 0 <= b implies #[trigger] self@.bounded_by(
                b + 5,
            ) by {
                assert(self@.bounded_by(b + g));
                crate::branch::lemma_bounded_weaken_pub(self@, b + g, b + 5);
            }
        }
        (made, kings)
    }

    /// Plays a validated move and resolves its captures; returns every board
    /// the move created.
    #[verifier::rlimit(40)]
    pub fn apply_validated_move(&mut self, mv: Move, v: ValidatedMove) -> (r: Vec<BoardCoordinate>)
        requires
            old(self)@.wf(),
            mv.on_board(),
            old(self)@.validate(mv) == Ok::<ValidatedMove, crate::rules::MoveError>(v),
            move_room(old(self)@),
        ensures
            (final(self)@, r@) == old(self)@.apply_validated(mv, v),
            final(self)@.wf(),
            forall|b: int| #[trigger] old(self)@.bounded_by(b) && 0 <= b ==> final(self)@.bounded_by(b + 8),
            keeps_boards(old(self)@, final(self)@),
            keeps_rows(old(self)@, final(self)@),
            v.kind == MoveKind::Temporal ==> branched_from(old(self)@, final(self)@, mv.to.board, v.piece.owner()),
            ({
                let cs = BoardCoordinate {
                    time: (mv.from.board.time + 1) as i32,
                    timeline: mv.from.board.timeline,
                };
                final(self)@.board_at(cs) is Some && final(self)@.board_at(cs).unwrap().parent == Some(
                    mv.from.board,
                )
            }),
    {
        let ghost pre = self@;
        proof {
            lemma_validated(pre, mv);
        }
        let side = v.piece.side();
        let (mut created, moved) = match v.kind {
            MoveKind::Spatial => self.place_spatial(mv, v),
            MoveKind::Temporal => self.place_temporal(mv, v),
        };
        let ghost s1 = self@;
        proof {
            assert(s1.bounded_by(COORDINATE_BOUND - 14));
        }
        let (mut made, kings) = self.apply_captures(moved, side, &created);
        let ghost s2 = self@;
        let mut decided = false;
        let mut k: usize = 0;
        while k < kings.len()
            invariant
                self@ == s2,
                s2.wf(),
                k <= kings@.len(),
                decided == exists|j: int|
                    0 <= j < k && s2.is_active(kings@[j].timeline as int) && s2.latest_coordinate(
                        kings@[j].timeline as int,
                    ) == Some(kings@[j]),
            decreases kings@.len() - k,
        {
            let c = kings[k];
            if self.is_active_timeline(c.timeline) && self.latest_coordinate(c.timeline) == Some(c) {
                decided = true;
            }
            k = k + 1;
        }
        if decided {
            self.outcome = Some(
                GameOutcome { winner: Side::Attacker, reason: OutcomeReason::KingCaptured },
            );
        }
        proof {
            let cs = BoardCoordinate {
                time: (mv.from.board.time + 1) as i32,
                timeline: mv.from.board.timeline,
            };
            assert(s1.board_at(cs) is Some);
            assert(s2.board_at(cs) is Some && s2.board_at(cs).unwrap().parent == Some(mv.from.board));
            assert forall|d: BoardCoordinate| #[trigger] pre.board_at(d) is Some implies s2.board_at(d)
                == pre.board_at(d) by {
                assert(s1.board_at(d) == pre.board_at(d));
                if created@.contains(d) {
                    let k = choose|k: int| 0 <= k < created@.len() && created@[k] == d;
                    assert(pre.board_at(created@[k]) is None);
                }
            }
        }
        proof {
            if v.kind == MoveKind::Temporal {
                let dir = side.direction();
                let row = choose|row: int|
                    #[trigger] crate::branch::first_free_row(pre, mv.to.board.timeline + dir, dir, row) && {
                        let d = BoardCoordinate { time: (mv.to.board.time + 1) as i32, timeline: row as i32 };
                        &&& s1.board_at(d) is Some
                        &&& s1.board_at(d).unwrap().parent == Some(mv.to.board)
                        &&& s1.timeline_at(row) is Some
                        &&& s1.timeline_at(row).unwrap().owner == Some(side)
                    };
                let d = BoardCoordinate { time: (mv.to.board.time + 1) as i32, timeline: row as i32 };
                assert(s2.board_at(d) is Some);
                assert(s2.timeline_at(row) is Some);
                assert(self@.board_at(d) == s2.board_at(d));
                assert(self@.timeline_at(row) == s2.timeline_at(row));
                assert(branched_from(pre, self@, mv.to.board, side));
            }
        }
        let ghost first = created@;
        created.append(&mut made);
        proof {
            assert forall|b: int| pre.bounded_by(b) && 0 <= b implies #[trigger] self@.bounded_by(
                b + 8,
            ) by {
                assert(s1.bounded_by(b + 2));
                assert(s2.bounded_by(b + 2 + 5));
                assert(self@.timelines == s2.timelines);
                crate::branch::lemma_bounded_weaken_pub(s2, b + 7, b + 8);
            }
        }
        created
    }
}

pub open spec fn source_snapshot_view(
    c: BoardCoordinate,
    cells: Seq<Option<Piece>>,
    parent: BoardCoordinate,
    side: Side,
) -> SnapshotView {
    SnapshotView { coordinate: c, cells, parent: Some(parent), created_by: Some(side) }
}

} // verus!
