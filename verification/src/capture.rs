//! Which pieces a move captures: custodial traps along X, Y, T and L,
//! shield walls on the board edges, and the king surrounded on two complete
//! axes.

use vstd::prelude::*;
use crate::model::{square_at, Board, BoardCoordinate, Piece, Position, Ruleset, Side, Square};
use crate::rules::StateView;
use crate::state::State;

verus! {

broadcast use crate::model::lemma_board_cells;

/// The board `dt` later in time and `dl` further along L.
pub open spec fn shift_board(c: BoardCoordinate, dt: int, dl: int) -> BoardCoordinate {
    BoardCoordinate { time: (c.time + dt) as i32, timeline: (c.timeline + dl) as i32 }
}

/// The square at position `a` along edge `e`: `y = 0`, `y = 10`, `x = 0`,
/// `x = 10`.
pub open spec fn edge_square(e: int, a: int) -> Square {
    if e == 0 {
        Square { x: a as u8, y: 0 }
    } else if e == 1 {
        Square { x: a as u8, y: 10 }
    } else if e == 2 {
        Square { x: 0, y: a as u8 }
    } else {
        Square { x: 10, y: a as u8 }
    }
}

/// The square just inside the board from `edge_square(e, a)`.
pub open spec fn inward_square(e: int, a: int) -> Square {
    if e == 0 {
        Square { x: a as u8, y: 1 }
    } else if e == 1 {
        Square { x: a as u8, y: 9 }
    } else if e == 2 {
        Square { x: 1, y: a as u8 }
    } else {
        Square { x: 9, y: a as u8 }
    }
}

/// `square` lies on the line of pressure squares of edge `e`.
pub open spec fn on_pressure_line(e: int, square: Square) -> bool {
    if e == 0 {
        square.y == 1
    } else if e == 1 {
        square.y == 9
    } else if e == 2 {
        square.x == 1
    } else {
        square.x == 9
    }
}

/// Coordinate of `square` along edge `e`.
pub open spec fn along(e: int, square: Square) -> int {
    if e < 2 {
        square.x as int
    } else {
        square.y as int
    }
}

pub open spec fn enemy_at(cells: Seq<Option<Piece>>, square: Square, side: Side) -> bool {
    cells[square.index()] is Some && cells[square.index()].unwrap().owner() != side
}

pub open spec fn own_at(cells: Seq<Option<Piece>>, square: Square, side: Side) -> bool {
    cells[square.index()] is Some && cells[square.index()].unwrap().owner() == side
}

/// An enemy piece on the edge with one of `side`'s pieces pressing it from
/// inside the board.
pub open spec fn pressed(cells: Seq<Option<Piece>>, side: Side, e: int, a: int) -> bool {
    &&& 0 <= a < 11
    &&& enemy_at(cells, edge_square(e, a), side)
    &&& own_at(cells, inward_square(e, a), side)
}

/// First position of the run of pressed pieces through `a`.
pub open spec fn run_start(cells: Seq<Option<Piece>>, side: Side, e: int, a: int) -> int
    decreases a,
{
    if a > 0 && pressed(cells, side, e, a - 1) {
        run_start(cells, side, e, a - 1)
    } else {
        a
    }
}

/// One past the last position of the run of pressed pieces through `a`.
pub open spec fn run_end(cells: Seq<Option<Piece>>, side: Side, e: int, a: int) -> int
    decreases 11 - a,
{
    if a + 1 < 11 && pressed(cells, side, e, a + 1) {
        run_end(cells, side, e, a + 1)
    } else {
        a + 1
    }
}

/// A corner or one of `side`'s pieces closes a run at position `a`.
pub open spec fn bracket(cells: Seq<Option<Piece>>, side: Side, e: int, a: int) -> bool {
    &&& 0 <= a < 11
    &&& (edge_square(e, a).corner() || own_at(cells, edge_square(e, a), side))
}

/// The piece at position `a` of edge `e` is taken by a shield wall closed by
/// the piece that moved to `moved`: it belongs to a run of at least two
/// pressed enemy pieces, bracketed at both ends, that the moved piece presses
/// or brackets. Kings are never taken this way.
pub open spec fn wall_capture(
    cells: Seq<Option<Piece>>,
    side: Side,
    e: int,
    moved: Square,
    a: int,
) -> bool {
    let lo = run_start(cells, side, e, a);
    let hi = run_end(cells, side, e, a);
    &&& pressed(cells, side, e, a)
    &&& hi - lo >= 2
    &&& bracket(cells, side, e, lo - 1)
    &&& bracket(cells, side, e, hi)
    &&& {
        ||| (on_pressure_line(e, moved) && lo <= along(e, moved) < hi)
        ||| (lo > 0 && edge_square(e, lo - 1) == moved)
        ||| (hi < 11 && edge_square(e, hi) == moved)
    }
    &&& cells[edge_square(e, a).index()] != Some(Piece::King)
}

impl StateView {
    /// The square two steps beyond the moved piece closes a custodial trap
    /// for `side`: a friendly piece, a corner, or the throne when it is
    /// hostile (always to attackers' victims when defenders capture, and
    /// only while empty otherwise).
    pub open spec fn spatial_flank_supports(
        self,
        c: BoardCoordinate,
        moved: Square,
        dx: int,
        dy: int,
        side: Side,
    ) -> bool {
        match moved.shifted(2 * dx, 2 * dy) {
            None => false,
            Some(flank) => {
                let piece = self.piece_at(Position { board: c, square: flank });
                ||| (piece is Some && piece.unwrap().owner() == side)
                ||| flank.corner()
                ||| (flank.throne() && (side == Side::Defender || piece is None))
            },
        }
    }

    /// `p` holds an enemy soldier next to the moved piece along `(dx, dy)`
    /// that is trapped against the flank beyond it.
    pub open spec fn spatial_victim(
        self,
        moved: Position,
        side: Side,
        dx: int,
        dy: int,
        p: Position,
    ) -> bool {
        &&& p.board == moved.board
        &&& moved.square.shifted(dx, dy) == Some(p.square)
        &&& match self.piece_at(p) {
            Some(q) => q != Piece::King && q.owner() != side,
            None => false,
        }
        &&& self.spatial_flank_supports(moved.board, moved.square, dx, dy, side)
    }

    /// `victim` holds an enemy soldier and `support` a piece of `side`.
    pub open spec fn is_capturable_with_support(
        self,
        victim: Position,
        support: Position,
        side: Side,
    ) -> bool {
        &&& match self.piece_at(victim) {
            Some(q) => q != Piece::King && q.owner() != side,
            None => false,
        }
        &&& match self.piece_at(support) {
            Some(q) => q.owner() == side,
            None => false,
        }
    }

    /// `p` holds an enemy soldier trapped along T (two raw times away, with a
    /// friendly piece four away) or along L (on the adjacent active row, with
    /// a friendly piece on the next active row).
    pub open spec fn axis_victim(self, moved: Position, side: Side, p: Position) -> bool {
        let c = moved.board;
        let sq = moved.square;
        &&& self.ruleset == Ruleset::Multiverse
        &&& self.is_active(c.timeline as int)
        &&& p.square == sq
        &&& {
            ||| (p.board == shift_board(c, -2, 0) && self.is_capturable_with_support(
            p,
            Position { board: shift_board(c, -4, 0), square: sq },
            side,
        ))
            ||| (p.board == shift_board(c, 2, 0) && self.is_capturable_with_support(
            p,
            Position { board: shift_board(c, 4, 0), square: sq },
            side,
        ))
            ||| (p.board == shift_board(c, 0, -1) && self.is_active(c.timeline - 1)
            && self.is_active(c.timeline - 2) && self.is_capturable_with_support(
            p,
            Position { board: shift_board(c, 0, -2), square: sq },
            side,
        ))
            ||| (p.board == shift_board(c, 0, 1) && self.is_active(c.timeline + 1)
            && self.is_active(c.timeline + 2) && self.is_capturable_with_support(
            p,
            Position { board: shift_board(c, 0, 2), square: sq },
            side,
        ))
        }
    }

    /// `p` is taken by a shield wall on the moved board.
    pub open spec fn shield_victim(self, moved: Position, side: Side, p: Position) -> bool {
        &&& p.board == moved.board
        &&& self.board_at(moved.board) is Some
        &&& {
            let cells = self.board_at(moved.board).unwrap().cells;
            ||| (p.square.y == 0 && wall_capture(cells, side, 0, moved.square, p.square.x as int))
            ||| (p.square.y == 10 && wall_capture(cells, side, 1, moved.square, p.square.x as int))
            ||| (p.square.x == 0 && wall_capture(cells, side, 2, moved.square, p.square.y as int))
            ||| (p.square.x == 10 && wall_capture(cells, side, 3, moved.square, p.square.y as int))
        }
    }

    /// The square `(dx, dy)` from the king is hostile to it: an attacker, a
    /// corner, or the empty throne.
    pub open spec fn king_flank_is_hostile(self, king: Position, dx: int, dy: int) -> bool {
        match king.square.shifted(dx, dy) {
            None => false,
            Some(sq) => match self.board_at(king.board) {
                None => false,
                Some(b) => b.cells[sq.index()] == Some(Piece::Attacker) || sq.corner() || (
                sq.throne() && b.cells[sq.index()] is None),
            },
        }
    }

    /// Number of complete hostile axes around the king: X and Y always; T
    /// (attackers two raw times before and after) and L (attackers on both
    /// adjacent active rows) in multiverse play.
    pub open spec fn complete_attacker_axes(self, king: Position) -> nat {
        let c = king.board;
        let sq = king.square;
        let x_axis: nat = if self.king_flank_is_hostile(king, 1, 0) && self.king_flank_is_hostile(
            king,
            -1,
            0,
        ) {
            1
        } else {
            0
        };
        let y_axis: nat = if self.king_flank_is_hostile(king, 0, 1) && self.king_flank_is_hostile(
            king,
            0,
            -1,
        ) {
            1
        } else {
            0
        };
        let t_axis: nat = if self.piece_at(Position { board: shift_board(c, -2, 0), square: sq })
            == Some(Piece::Attacker) && self.piece_at(
            Position { board: shift_board(c, 2, 0), square: sq },
        ) == Some(Piece::Attacker) {
            1
        } else {
            0
        };
        let l_axis: nat = if self.is_active(c.timeline - 1) && self.is_active(c.timeline + 1)
            && self.piece_at(Position { board: shift_board(c, 0, -1), square: sq }) == Some(
            Piece::Attacker,
        ) && self.piece_at(Position { board: shift_board(c, 0, 1), square: sq }) == Some(
            Piece::Attacker,
        ) {
            1
        } else {
            0
        };
        if self.ruleset == Ruleset::Multiverse {
            x_axis + y_axis + t_axis + l_axis
        } else {
            x_axis + y_axis
        }
    }

    /// Positions next to the moved piece where a king may be surrounded.
    pub open spec fn king_candidate(self, moved: Position, p: Position) -> bool {
        let c = moved.board;
        ||| (p.board == c && (moved.square.shifted(1, 0) == Some(p.square) || moved.square.shifted(
            -1,
            0,
        ) == Some(p.square) || moved.square.shifted(0, 1) == Some(p.square)
            || moved.square.shifted(0, -1) == Some(p.square)))
        ||| (self.ruleset == Ruleset::Multiverse && p.square == moved.square && (p.board
            == shift_board(c, -2, 0) || p.board == shift_board(c, 2, 0) || p.board == shift_board(
            c,
            0,
            -1,
        ) || p.board == shift_board(c, 0, 1)))
    }

    /// A king next to the moved attacker stands surrounded on two complete
    /// axes.
    pub open spec fn king_victim(self, moved: Position, p: Position) -> bool {
        &&& self.king_candidate(moved, p)
        &&& self.piece_at(p) == Some(Piece::King)
        &&& self.complete_attacker_axes(p) >= 2
    }

    /// The move of `side`'s piece to `moved` captures the piece at `p`.
    pub closed spec fn captured(self, moved: Position, side: Side, p: Position) -> bool {
        ||| self.spatial_victim(moved, side, 1, 0, p)
        ||| self.spatial_victim(moved, side, -1, 0, p)
        ||| self.spatial_victim(moved, side, 0, 1, p)
        ||| self.spatial_victim(moved, side, 0, -1, p)
        ||| self.axis_victim(moved, side, p)
        ||| self.shield_victim(moved, side, p)
        ||| (side == Side::Attacker && self.king_victim(moved, p))
    }
}

/// Victims off the moved board can only stand on the moved square.
pub proof fn lemma_victims_elsewhere(s: StateView, moved: Position, side: Side, p: Position)
    requires
        p.board != moved.board,
        p.square != moved.square,
    ensures
        !s.captured(moved, side, p),
{
}

/// Whether the piece at `a` along edge `e` is pressed.
fn is_pressed(board: &Board, side: Side, e: u8, a: u8) -> (r: bool)
    requires
        e < 4,
        a < 11,
    ensures
        r == pressed(board@, side, e as int, a as int),
{
    let (edge, inward) = if e == 0 {
        (Square { x: a, y: 0 }, Square { x: a, y: 1 })
    } else if e == 1 {
        (Square { x: a, y: 10 }, Square { x: a, y: 9 })
    } else if e == 2 {
        (Square { x: 0, y: a }, Square { x: 1, y: a })
    } else {
        (Square { x: 10, y: a }, Square { x: 9, y: a })
    };
    let enemy = match board.get(edge) {
        Some(p) => p.side() != side,
        None => false,
    };
    let own = match board.get(inward) {
        Some(p) => p.side() == side,
        None => false,
    };
    enemy && own
}

fn is_bracket(board: &Board, side: Side, e: u8, a: i32) -> (r: bool)
    requires
        e < 4,
        -1 <= a <= 11,
    ensures
        r == bracket(board@, side, e as int, a as int),
{
    if a < 0 || a >= 11 {
        return false;
    }
    let square = if e == 0 {
        Square { x: a as u8, y: 0 }
    } else if e == 1 {
        Square { x: a as u8, y: 10 }
    } else if e == 2 {
        Square { x: 0, y: a as u8 }
    } else {
        Square { x: 10, y: a as u8 }
    };
    square.is_corner() || match board.get(square) {
        Some(p) => p.side() == side,
        None => false,
    }
}

/// Whether the piece at `a` along edge `e` is taken by a shield wall.
fn is_wall_capture(board: &Board, side: Side, e: u8, moved: Square, a: u8) -> (r: bool)
    requires
        e < 4,
        a < 11,
    ensures
        r == wall_capture(board@, side, e as int, moved, a as int),
{
    if !is_pressed(board, side, e, a) {
        return false;
    }
    let mut lo: u8 = a;
    while lo > 0 && is_pressed(board, side, e, lo - 1)
        invariant
            e < 4,
            a < 11,
            lo <= a,
            run_start(board@, side, e as int, lo as int) == run_start(
                board@,
                side,
                e as int,
                a as int,
            ),
        decreases lo,
    {
        lo = lo - 1;
    }
    let mut hi: u8 = a + 1;
    while hi < 11 && is_pressed(board, side, e, hi)
        invariant
            e < 4,
            a < 11,
            a + 1 <= hi <= 11,
            run_end(board@, side, e as int, (hi - 1) as int) == run_end(
                board@,
                side,
                e as int,
                a as int,
            ),
        decreases 11 - hi,
    {
        hi = hi + 1;
    }
    if hi - lo < 2 {
        return false;
    }
    if !is_bracket(board, side, e, lo as i32 - 1) || !is_bracket(board, side, e, hi as i32) {
        return false;
    }
    let on_line = if e == 0 {
        moved.y == 1
    } else if e == 1 {
        moved.y == 9
    } else if e == 2 {
        moved.x == 1
    } else {
        moved.x == 9
    };
    let position: u8 = if e < 2 {
        moved.x
    } else {
        moved.y
    };
    let before = if lo > 0 {
        let q = if e == 0 {
            Square { x: lo - 1, y: 0 }
        } else if e == 1 {
            Square { x: lo - 1, y: 10 }
        } else if e == 2 {
            Square { x: 0, y: lo - 1 }
        } else {
            Square { x: 10, y: lo - 1 }
        };
        q == moved
    } else {
        false
    };
    let after = if hi < 11 {
        let q = if e == 0 {
            Square { x: hi, y: 0 }
        } else if e == 1 {
            Square { x: hi, y: 10 }
        } else if e == 2 {
            Square { x: 0, y: hi }
        } else {
            Square { x: 10, y: hi }
        };
        q == moved
    } else {
        false
    };
    if !((on_line && lo <= position && position < hi) || before || after) {
        return false;
    }
    let target = if e == 0 {
        Square { x: a, y: 0 }
    } else if e == 1 {
        Square { x: a, y: 10 }
    } else if e == 2 {
        Square { x: 0, y: a }
    } else {
        Square { x: 10, y: a }
    };
    board.get(target) != Some(Piece::King)
}

impl State {
    fn spatial_flank_supports(
        &self,
        c: BoardCoordinate,
        moved: Square,
        dx: i32,
        dy: i32,
        side: Side,
    ) -> (r: bool)
        requires
            self@.wf(),
            moved.valid(),
            -1 <= dx <= 1,
            -1 <= dy <= 1,
        ensures
            r == self@.spatial_flank_supports(c, moved, dx as int, dy as int, side),
    {
        match moved.offset(2 * dx, 2 * dy) {
            None => false,
            Some(flank) => {
                let piece = self.piece_at(Position { board: c, square: flank });
                let own = match piece {
                    Some(p) => p.side() == side,
                    None => false,
                };
                own || flank.is_corner() || (flank.is_throne() && (side == Side::Defender
                    || piece.is_none()))
            },
        }
    }

    fn spatial_victim(&self, moved: Position, side: Side, dx: i32, dy: i32, p: Position) -> (r: bool)
        requires
            self@.wf(),
            moved.square.valid(),
            p.square.valid(),
            -1 <= dx <= 1,
            -1 <= dy <= 1,
        ensures
            r == self@.spatial_victim(moved, side, dx as int, dy as int, p),
    {
        if p.board != moved.board || moved.square.offset(dx, dy) != Some(p.square) {
            return false;
        }
        let soldier = match self.piece_at(p) {
            Some(q) => q != Piece::King && q.side() != side,
            None => false,
        };
        soldier && self.spatial_flank_supports(moved.board, moved.square, dx, dy, side)
    }

    fn is_capturable_with_support(&self, victim: Position, support: Position, side: Side) -> (r: bool)
        requires
            self@.wf(),
            victim.square.valid(),
            support.square.valid(),
        ensures
            r == self@.is_capturable_with_support(victim, support, side),
    {
        let soldier = match self.piece_at(victim) {
            Some(q) => q != Piece::King && q.side() != side,
            None => false,
        };
        let supported = match self.piece_at(support) {
            Some(q) => q.side() == side,
            None => false,
        };
        soldier && supported
    }

    fn axis_victim(&self, moved: Position, side: Side, p: Position) -> (r: bool)
        requires
            self@.wf(),
            moved.square.valid(),
            p.square.valid(),
            -(i32::MAX - 8) <= moved.board.time <= i32::MAX - 8,
            -(i32::MAX - 8) <= moved.board.timeline <= i32::MAX - 8,
        ensures
            r == self@.axis_victim(moved, side, p),
    {
        if self.ruleset != Ruleset::Multiverse || !self.is_active_timeline(moved.board.timeline)
            || p.square != moved.square {
            return false;
        }
        let c = moved.board;
        let sq = moved.square;
        let at = |dt: i32, dl: i32| -> (r: Position)
            requires
                -4 <= dt <= 4,
                -2 <= dl <= 2,
            ensures
                r == (Position { board: shift_board(c, dt as int, dl as int), square: sq }),
            { Position { board: BoardCoordinate { time: c.time + dt, timeline: c.timeline + dl }, square: sq } };
        if p.board == at(-2, 0).board && self.is_capturable_with_support(p, at(-4, 0), side) {
            return true;
        }
        if p.board == at(2, 0).board && self.is_capturable_with_support(p, at(4, 0), side) {
            return true;
        }
        if p.board == at(0, -1).board && self.is_active_timeline(c.timeline - 1)
            && self.is_active_timeline(c.timeline - 2) && self.is_capturable_with_support(
            p,
            at(0, -2),
            side,
        ) {
            return true;
        }
        p.board == at(0, 1).board && self.is_active_timeline(c.timeline + 1)
            && self.is_active_timeline(c.timeline + 2) && self.is_capturable_with_support(
            p,
            at(0, 2),
            side,
        )
    }

    fn shield_victim(&self, moved: Position, side: Side, p: Position) -> (r: bool)
        requires
            self@.wf(),
            moved.square.valid(),
            p.square.valid(),
        ensures
            r == self@.shield_victim(moved, side, p),
    {
        if p.board != moved.board {
            return false;
        }
        let snapshot = match self.board(moved.board) {
            Some(s) => s,
            None => {
                return false;
            },
        };
        let board = &snapshot.board;
        (p.square.y == 0 && is_wall_capture(board, side, 0, moved.square, p.square.x)) || (
        p.square.y == 10 && is_wall_capture(board, side, 1, moved.square, p.square.x)) || (
        p.square.x == 0 && is_wall_capture(board, side, 2, moved.square, p.square.y)) || (
        p.square.x == 10 && is_wall_capture(board, side, 3, moved.square, p.square.y))
    }

    fn king_flank_is_hostile(&self, king: Position, dx: i32, dy: i32) -> (r: bool)
        requires
            self@.wf(),
            king.square.valid(),
            -1 <= dx <= 1,
            -1 <= dy <= 1,
        ensures
            r == self@.king_flank_is_hostile(king, dx as int, dy as int),
    {
        let Some(square) = king.square.offset(dx, dy) else {
            return false;
        };
        match self.board(king.board) {
            None => false,
            Some(snapshot) => {
                let piece = snapshot.board.get(square);
                piece == Some(Piece::Attacker) || square.is_corner() || (square.is_throne()
                    && piece.is_none())
            },
        }
    }

    fn complete_attacker_axes(&self, king: Position) -> (r: u8)
        requires
            self@.wf(),
            king.square.valid(),
            -(i32::MAX - 8) <= king.board.time <= i32::MAX - 8,
            -(i32::MAX - 8) <= king.board.timeline <= i32::MAX - 8,
        ensures
            r == self@.complete_attacker_axes(king),
    {
        let c = king.board;
        let sq = king.square;
        let mut axes: u8 = 0;
        if self.king_flank_is_hostile(king, 1, 0) && self.king_flank_is_hostile(king, -1, 0) {
            axes = axes + 1;
        }
        if self.king_flank_is_hostile(king, 0, 1) && self.king_flank_is_hostile(king, 0, -1) {
            axes = axes + 1;
        }
        if self.ruleset == Ruleset::Multiverse {
            let before = Position {
                board: BoardCoordinate { time: c.time - 2, timeline: c.timeline },
                square: sq,
            };
            let after = Position {
                board: BoardCoordinate { time: c.time + 2, timeline: c.timeline },
                square: sq,
            };
            if self.piece_at(before) == Some(Piece::Attacker) && self.piece_at(after) == Some(
                Piece::Attacker,
            ) {
                axes = axes + 1;
            }
            let below = Position {
                board: BoardCoordinate { time: c.time, timeline: c.timeline - 1 },
                square: sq,
            };
            let above = Position {
                board: BoardCoordinate { time: c.time, timeline: c.timeline + 1 },
                square: sq,
            };
            if self.is_active_timeline(c.timeline - 1) && self.is_active_timeline(c.timeline + 1)
                && self.piece_at(below) == Some(Piece::Attacker) && self.piece_at(above) == Some(
                Piece::Attacker,
            ) {
                axes = axes + 1;
            }
        }
        axes
    }

    fn king_victim(&self, moved: Position, p: Position) -> (r: bool)
        requires
            self@.wf(),
            moved.square.valid(),
            p.square.valid(),
            -(i32::MAX - 8) <= moved.board.time <= i32::MAX - 8,
            -(i32::MAX - 8) <= moved.board.timeline <= i32::MAX - 8,
            -(i32::MAX - 8) <= p.board.time <= i32::MAX - 8,
            -(i32::MAX - 8) <= p.board.timeline <= i32::MAX - 8,
        ensures
            r == self@.king_victim(moved, p),
    {
        let c = moved.board;
        let near = p.board == c && (moved.square.offset(1, 0) == Some(p.square)
            || moved.square.offset(-1, 0) == Some(p.square) || moved.square.offset(0, 1) == Some(
            p.square,
        ) || moved.square.offset(0, -1) == Some(p.square));
        let across = self.ruleset == Ruleset::Multiverse && p.square == moved.square && (p.board
            == BoardCoordinate { time: c.time - 2, timeline: c.timeline } || p.board
            == BoardCoordinate { time: c.time + 2, timeline: c.timeline } || p.board
            == BoardCoordinate { time: c.time, timeline: c.timeline - 1 } || p.board
            == BoardCoordinate { time: c.time, timeline: c.timeline + 1 });
        if !(near || across) {
            return false;
        }
        self.piece_at(p) == Some(Piece::King) && self.complete_attacker_axes(p) >= 2
    }

    /// Whether the move of `side`'s piece to `moved` captures the piece at `p`.
    pub fn is_captured(&self, moved: Position, side: Side, p: Position) -> (r: bool)
        requires
            self@.wf(),
            moved.square.valid(),
            p.square.valid(),
            -(i32::MAX - 8) <= moved.board.time <= i32::MAX - 8,
            -(i32::MAX - 8) <= moved.board.timeline <= i32::MAX - 8,
            -(i32::MAX - 8) <= p.board.time <= i32::MAX - 8,
            -(i32::MAX - 8) <= p.board.timeline <= i32::MAX - 8,
        ensures
            r == self@.captured(moved, side, p),
    {
        self.spatial_victim(moved, side, 1, 0, p) || self.spatial_victim(moved, side, -1, 0, p)
            || self.spatial_victim(moved, side, 0, 1, p) || self.spatial_victim(
            moved,
            side,
            0,
            -1,
            p,
        ) || self.axis_victim(moved, side, p) || self.shield_victim(moved, side, p) || (side
            == Side::Attacker && self.king_victim(moved, p))
    }

    /// For each square of board `c`, whether the move captures the piece there.
    pub fn victims_on(&self, moved: Position, side: Side, c: BoardCoordinate) -> (r: Vec<bool>)
        requires
            self@.wf(),
            moved.square.valid(),
            -(i32::MAX - 8) <= moved.board.time <= i32::MAX - 8,
            -(i32::MAX - 8) <= moved.board.timeline <= i32::MAX - 8,
            -(i32::MAX - 8) <= c.time <= i32::MAX - 8,
            -(i32::MAX - 8) <= c.timeline <= i32::MAX - 8,
        ensures
            r@.len() == 121,
            forall|i: int|
                0 <= i < 121 ==> #[trigger] r@[i] == self@.captured(
                    moved,
                    side,
                    Position { board: c, square: square_at(i) },
                ),
    {
        let mut mask: Vec<bool> = Vec::new();
        let mut i: usize = 0;
        while i < 121
            invariant
                i <= 121,
                mask@.len() == i,
                self@.wf(),
                moved.square.valid(),
                -(i32::MAX - 8) <= moved.board.time <= i32::MAX - 8,
                -(i32::MAX - 8) <= moved.board.timeline <= i32::MAX - 8,
                -(i32::MAX - 8) <= c.time <= i32::MAX - 8,
                -(i32::MAX - 8) <= c.timeline <= i32::MAX - 8,
                forall|j: int|
                    0 <= j < i ==> #[trigger] mask@[j] == self@.captured(
                        moved,
                        side,
                        Position { board: c, square: square_at(j) },
                    ),
            decreases 121 - i,
        {
            let square = Square { x: (i % 11) as u8, y: (i / 11) as u8 };
            let p = Position { board: c, square };
            let hit = if c != moved.board && square != moved.square {
                proof {
                    lemma_victims_elsewhere(self@, moved, side, p);
                }
                false
            } else {
                self.is_captured(moved, side, p)
            };
            mask.push(hit);
            i = i + 1;
        }
        mask
    }
}

/// A shield wall takes only enemy soldiers standing on an edge of the board
/// the move was made on; never a king.
pub proof fn lemma_shield_victims(s: StateView, moved: Position, side: Side, p: Position)
    requires
        s.shield_victim(moved, side, p),
    ensures
        p.board == moved.board,
        p.square.valid(),
        p.square.edge(),
        s.piece_at(p) is Some,
        s.piece_at(p).unwrap().owner() != side,
        s.piece_at(p) != Some(Piece::King),
{
    let cells = s.board_at(moved.board).unwrap().cells;
    if p.square.y == 0 && wall_capture(cells, side, 0, moved.square, p.square.x as int) {
        assert(edge_square(0, p.square.x as int) == p.square);
    } else if p.square.y == 10 && wall_capture(cells, side, 1, moved.square, p.square.x as int) {
        assert(edge_square(1, p.square.x as int) == p.square);
    } else if p.square.x == 0 && wall_capture(cells, side, 2, moved.square, p.square.y as int) {
        assert(edge_square(2, p.square.y as int) == p.square);
    } else {
        assert(edge_square(3, p.square.y as int) == p.square);
    }
}

/// A custodial trap on the board closes against a corner, an empty throne
/// or one of the mover's own pieces: an enemy soldier right next to the
/// moved piece, with such a square just beyond it on the same line, is
/// captured by the move.
pub proof fn lemma_trap_closes_against_hostile_square(
    s: StateView,
    moved: Position,
    side: Side,
    dx: int,
    dy: int,
    p: Position,
)
    requires
        (dx == 0 && (dy == 1 || dy == -1)) || (dy == 0 && (dx == 1 || dx == -1)),
        p.board == moved.board,
        moved.square.shifted(dx, dy) == Some(p.square),
        s.piece_at(p) is Some,
        s.piece_at(p) != Some(Piece::King),
        s.piece_at(p).unwrap().owner() != side,
        moved.square.shifted(2 * dx, 2 * dy) is Some,
        ({
            let flank = moved.square.shifted(2 * dx, 2 * dy).unwrap();
            let there = s.piece_at(Position { board: moved.board, square: flank });
            ||| flank.corner()
            ||| (flank.throne() && there is None)
            ||| (flank.throne() && side == Side::Defender)
            ||| (there is Some && there.unwrap().owner() == side)
        }),
    ensures
        s.captured(moved, side, p),
{
    assert(s.spatial_victim(moved, side, dx, dy, p));
}

/// A move only ever captures enemy pieces: never one of the mover's own, and
/// a king only when attackers move and it stands surrounded on two complete
/// axes next to the moved piece.
pub proof fn lemma_captures_only_enemies(s: StateView, moved: Position, side: Side, p: Position)
    requires
        s.captured(moved, side, p),
    ensures
        s.piece_at(p) is Some,
        s.piece_at(p).unwrap().owner() != side,
        s.piece_at(p) == Some(Piece::King) ==> side == Side::Attacker && s.complete_attacker_axes(p) >= 2
            && s.king_candidate(moved, p),
{
    if s.shield_victim(moved, side, p) {
        lemma_shield_victims(s, moved, side, p);
    }
}

/// In multiverse play on an active timeline, an enemy soldier on the moved
/// square two times earlier or later, with one of the mover's pieces on the
/// same square two times further on, is captured.
pub proof fn lemma_trap_closes_along_time(s: StateView, moved: Position, side: Side, dt: int)
    requires
        s.ruleset == Ruleset::Multiverse,
        s.is_active(moved.board.timeline as int),
        dt == 2 || dt == -2,
        ({
            let victim = Position { board: shift_board(moved.board, dt, 0), square: moved.square };
            let support = Position { board: shift_board(moved.board, 2 * dt, 0), square: moved.square };
            &&& s.piece_at(victim) is Some
            &&& s.piece_at(victim) != Some(Piece::King)
            &&& s.piece_at(victim).unwrap().owner() != side
            &&& s.piece_at(support) is Some
            &&& s.piece_at(support).unwrap().owner() == side
        }),
    ensures
        s.captured(moved, side, Position { board: shift_board(moved.board, dt, 0), square: moved.square }),
{
    let victim = Position { board: shift_board(moved.board, dt, 0), square: moved.square };
    assert(s.axis_victim(moved, side, victim));
}

/// In multiverse play, an enemy soldier on the moved square of the next
/// timeline up or down, with one of the mover's pieces on the timeline after
/// it, all three timelines active, is captured.
pub proof fn lemma_trap_closes_across_timelines(s: StateView, moved: Position, side: Side, dl: int)
    requires
        s.ruleset == Ruleset::Multiverse,
        dl == 1 || dl == -1,
        s.is_active(moved.board.timeline as int),
        s.is_active(moved.board.timeline + dl),
        s.is_active(moved.board.timeline + 2 * dl),
        ({
            let victim = Position { board: shift_board(moved.board, 0, dl), square: moved.square };
            let support = Position { board: shift_board(moved.board, 0, 2 * dl), square: moved.square };
            &&& s.piece_at(victim) is Some
            &&& s.piece_at(victim) != Some(Piece::King)
            &&& s.piece_at(victim).unwrap().owner() != side
            &&& s.piece_at(support) is Some
            &&& s.piece_at(support).unwrap().owner() == side
        }),
    ensures
        s.captured(moved, side, Position { board: shift_board(moved.board, 0, dl), square: moved.square }),
{
    let victim = Position { board: shift_board(moved.board, 0, dl), square: moved.square };
    assert(s.axis_victim(moved, side, victim));
}

} // verus!
