//! Board-local endings: escape to a corner, exit forts, encirclement, and
//! defenders that can no longer escape.

use vstd::prelude::*;
use crate::capture::edge_square;
use crate::model::{square_at, Board, GameOutcome, OutcomeReason, Piece, Side, Square};
use crate::rules::StateView;
use crate::state::State;

verus! {

broadcast use crate::model::lemma_board_cells;

/// The square `(dx, dy)` from `sq` is on the board and selected.
pub open spec fn hit(set: Seq<bool>, sq: Square, dx: int, dy: int) -> bool {
    match sq.shifted(dx, dy) {
        Some(q) => set[q.index()],
        None => false,
    }
}

/// Square `i` has a selected neighbour: orthogonal, or also diagonal when
/// `diag` holds.
pub open spec fn touches(set: Seq<bool>, i: int, diag: bool) -> bool {
    let sq = square_at(i);
    ||| hit(set, sq, 1, 0)
    ||| hit(set, sq, -1, 0)
    ||| hit(set, sq, 0, 1)
    ||| hit(set, sq, 0, -1)
    ||| (diag && (hit(set, sq, 1, 1) || hit(set, sq, 1, -1) || hit(set, sq, -1, 1) || hit(
        set,
        sq,
        -1,
        -1,
    )))
}

/// Squares reachable from `start` in at most `k` steps through passable
/// squares.
pub open spec fn reach(pass: Seq<bool>, start: int, diag: bool, k: nat) -> Seq<bool>
    decreases k,
{
    if k == 0 {
        Seq::new(121, |i: int| i == start && pass[i])
    } else {
        let prev = reach(pass, start, diag, (k - 1) as nat);
        Seq::new(121, |i: int| prev[i] || (pass[i] && touches(prev, i, diag)))
    }
}

/// The connected region of passable squares around `start`: no simple path
/// on the board is longer than its 121 squares.
#[verifier::opaque]
pub open spec fn region(pass: Seq<bool>, start: int, diag: bool) -> Seq<bool> {
    reach(pass, start, diag, 121)
}

/// Number of selected squares among the first `n`.
pub open spec fn count_true(set: Seq<bool>, n: nat) -> nat
    decreases n,
{
    if n == 0 {
        0
    } else {
        count_true(set, (n - 1) as nat) + if set[n - 1] {
            1nat
        } else {
            0nat
        }
    }
}

/// Row-major index of the first king on the board.
pub open spec fn king_index(cells: Seq<Option<Piece>>) -> Option<int> {
    if exists|i: int| 0 <= i < 121 && cells[i] == Some(Piece::King) {
        Some(
            choose|i: int|
                0 <= i < 121 && cells[i] == Some(Piece::King) && forall|j: int|
                    0 <= j < i ==> cells[j] != Some(Piece::King),
        )
    } else {
        None
    }
}

/// Squares without an attacker.
pub open spec fn open_squares(cells: Seq<Option<Piece>>) -> Seq<bool> {
    Seq::new(121, |i: int| cells[i] != Some(Piece::Attacker))
}

/// Squares holding a defender soldier.
pub open spec fn defender_squares(cells: Seq<Option<Piece>>) -> Seq<bool> {
    Seq::new(121, |i: int| cells[i] == Some(Piece::Defender))
}

/// Squares outside a wall.
pub open spec fn outside(wall: Seq<bool>) -> Seq<bool> {
    Seq::new(121, |i: int| !wall[i])
}

/// A king stands on a corner.
pub open spec fn king_on_corner(cells: Seq<Option<Piece>>) -> bool {
    exists|i: int| 0 <= i < 121 && cells[i] == Some(Piece::King) && square_at(i).corner()
}

/// Position of `square` along the king's edge line.
pub open spec fn along_line(horizontal: bool, square: Square) -> int {
    if horizontal {
        square.x as int
    } else {
        square.y as int
    }
}

/// `square` lies on the king's edge line.
pub open spec fn on_line(horizontal: bool, king: Square, square: Square) -> bool {
    if horizontal {
        square.y == king.y
    } else {
        square.x == king.x
    }
}

/// A defender soldier on the king's edge line.
pub open spec fn edge_defender(
    cells: Seq<Option<Piece>>,
    horizontal: bool,
    king: Square,
    i: int,
) -> bool {
    0 <= i < 121 && cells[i] == Some(Piece::Defender) && on_line(horizontal, king, square_at(i))
}

/// The first defender soldier, in row-major order, on the king's edge line
/// before the king.
pub open spec fn fort_start(cells: Seq<Option<Piece>>, horizontal: bool, king: Square) -> int {
    choose|i: int|
        edge_defender(cells, horizontal, king, i) && along_line(horizontal, square_at(i))
            < along_line(horizontal, king) && forall|j: int|
            0 <= j < i ==> !(edge_defender(cells, horizontal, king, j) && along_line(
                horizontal,
                square_at(j),
            ) < along_line(horizontal, king))
}

/// The square `(dx, dy)` from `sq` is an empty square other than a corner.
pub open spec fn free_side(cells: Seq<Option<Piece>>, sq: Square, dx: int, dy: int) -> bool {
    match sq.shifted(dx, dy) {
        Some(q) => cells[q.index()] is None && !q.corner(),
        None => false,
    }
}

/// Whether the king's edge runs along X (bottom or top edge).
pub open spec fn is_horizontal(king: Square) -> bool {
    king.y == 0 || king.y == 10
}

/// Some defender soldier stands on the king's edge line before him.
#[verifier::opaque]
pub open spec fn defender_before(cells: Seq<Option<Piece>>, king: Square) -> bool {
    exists|i: int|
        #[trigger] edge_defender(cells, is_horizontal(king), king, i) && along_line(
            is_horizontal(king),
            square_at(i),
        ) < along_line(is_horizontal(king), king)
}

/// Some defender soldier stands on the king's edge line after him.
#[verifier::opaque]
pub open spec fn defender_after(cells: Seq<Option<Piece>>, king: Square) -> bool {
    exists|i: int|
        #[trigger] edge_defender(cells, is_horizontal(king), king, i) && along_line(
            is_horizontal(king),
            square_at(i),
        ) > along_line(is_horizontal(king), king)
}

/// Some defender soldier after the king on his edge line is part of `wall`.
#[verifier::opaque]
pub open spec fn wall_reaches_after(cells: Seq<Option<Piece>>, king: Square, wall: Seq<bool>) -> bool {
    exists|i: int|
        #[trigger] edge_defender(cells, is_horizontal(king), king, i) && wall[i] && along_line(
            is_horizontal(king),
            square_at(i),
        ) > along_line(is_horizontal(king), king)
}

/// Some selected square holds an attacker.
#[verifier::opaque]
pub open spec fn attacker_among(cells: Seq<Option<Piece>>, set: Seq<bool>) -> bool {
    exists|i: int| 0 <= i < 121 && set[i] && cells[i] == Some(Piece::Attacker)
}

/// One of the four squares beside `king` is empty and not a corner.
pub open spec fn king_has_room(cells: Seq<Option<Piece>>, king: Square) -> bool {
    free_side(cells, king, 1, 0) || free_side(cells, king, -1, 0) || free_side(cells, king, 0, 1)
        || free_side(cells, king, 0, -1)
}

/// The chain of defenders, connected also diagonally, that starts at the
/// first defender before the king on his edge line.
pub open spec fn fort_wall(cells: Seq<Option<Piece>>, king: Square) -> Seq<bool> {
    region(defender_squares(cells), fort_start(cells, is_horizontal(king), king), true)
}

/// An exit fort: the king on a board edge (not a corner) with an empty,
/// non-corner square beside him, and a chain of defenders, connected also
/// diagonally, that meets the king's edge on both sides of him and closes
/// off a region around him that holds no attacker and is not the whole rest
/// of the board.
pub open spec fn exit_fort(cells: Seq<Option<Piece>>) -> bool {
    match king_index(cells) {
        None => false,
        Some(k) => {
            let king = square_at(k);
            let wall = fort_wall(cells, king);
            let interior = region(outside(wall), k, false);
            &&& king.edge()
            &&& !king.corner()
            &&& king_has_room(cells, king)
            &&& defender_before(cells, king)
            &&& defender_after(cells, king)
            &&& wall_reaches_after(cells, king, wall)
            &&& !attacker_among(cells, interior)
            &&& count_true(interior, 121) + count_true(wall, 121) < 121
        },
    }
}

/// The king and every defender are enclosed by attackers: all of them lie
/// in the attacker-free region around the king, which reaches no corner.
pub open spec fn encircled(cells: Seq<Option<Piece>>) -> bool {
    match king_index(cells) {
        None => false,
        Some(k) => {
            let reached = region(open_squares(cells), k, false);
            &&& forall|i: int|
                0 <= i < 121 && cells[i] is Some && cells[i].unwrap().owner() == Side::Defender
                    ==> reached[i]
            &&& !exists|i: int| 0 <= i < 121 && reached[i] && square_at(i).corner()
        },
    }
}

/// The region around the king meets each board edge in at most two
/// adjacent squares.
pub open spec fn narrow_openings(reached: Seq<bool>) -> bool {
    forall|e: int, a: int, b: int|
        0 <= e < 4 && 0 <= a < 11 && 0 <= b < 11 && #[trigger] reached[edge_square(e, a).index()]
            && #[trigger] reached[edge_square(e, b).index()] ==> -1 <= a - b <= 1
}

/// The defenders can no longer escape: there is no exit fort, the region
/// around the king reaches no corner, and either at most five defender
/// soldiers remain or that region touches the board edge only through
/// openings of at most two adjacent squares.
pub open spec fn cannot_escape(cells: Seq<Option<Piece>>) -> bool {
    match king_index(cells) {
        None => false,
        Some(k) => {
            let reached = region(open_squares(cells), k, false);
            &&& !exit_fort(cells)
            &&& !exists|i: int| 0 <= i < 121 && reached[i] && square_at(i).corner()
            &&& (crate::model::count_upto(cells, Piece::Defender, 121) <= 5 || ((exists|e: int, a: int|
                0 <= e < 4 && 0 <= a < 11 && #[trigger] reached[edge_square(e, a).index()])
                && narrow_openings(reached)))
        },
    }
}

/// What a latest board decides on its own, checked in order: corner escape,
/// exit fort, encirclement, no escape.
#[verifier::opaque]
pub open spec fn board_verdict(cells: Seq<Option<Piece>>) -> Option<GameOutcome> {
    if king_on_corner(cells) {
        Some(GameOutcome { winner: Side::Defender, reason: OutcomeReason::KingEscaped })
    } else if exit_fort(cells) {
        Some(GameOutcome { winner: Side::Defender, reason: OutcomeReason::ExitFort })
    } else if encircled(cells) {
        Some(GameOutcome { winner: Side::Attacker, reason: OutcomeReason::Encirclement })
    } else if cannot_escape(cells) {
        Some(GameOutcome { winner: Side::Attacker, reason: OutcomeReason::NoEscape })
    } else {
        None
    }
}

/// Once a step adds nothing, further steps add nothing either.
proof fn lemma_reach_stable(pass: Seq<bool>, start: int, diag: bool, k: nat, m: nat)
    requires
        k <= m,
        reach(pass, start, diag, k + 1) == reach(pass, start, diag, k),
    ensures
        reach(pass, start, diag, m) == reach(pass, start, diag, k),
    decreases m - k,
{
    if m > k {
        lemma_reach_stable(pass, start, diag, k, (m - 1) as nat);
        assert(reach(pass, start, diag, m) =~= reach(pass, start, diag, k + 1));
    }
}

/// Whether the square `(dx, dy)` from `sq` is on the board and selected.
fn neighbour_hit(set: &Vec<bool>, sq: Square, dx: i32, dy: i32) -> (r: bool)
    requires
        set@.len() == 121,
        sq.valid(),
        -1 <= dx <= 1,
        -1 <= dy <= 1,
    ensures
        r == hit(set@, sq, dx as int, dy as int),
{
    match sq.offset(dx, dy) {
        Some(q) => set[q.y as usize * 11 + q.x as usize],
        None => false,
    }
}

/// One more step of a flood: every passable square next to a selected one
/// joins.
fn expand(pass: &Vec<bool>, cur: &Vec<bool>, diag: bool) -> (r: Vec<bool>)
    requires
        pass@.len() == 121,
        cur@.len() == 121,
    ensures
        r@ == Seq::new(121, |i: int| cur@[i] || (pass@[i] && touches(cur@, i, diag))),
{
    let mut next: Vec<bool> = Vec::new();
    let mut i: usize = 0;
    while i < 121
        invariant
            i <= 121,
            pass@.len() == 121,
            cur@.len() == 121,
            next@.len() == i,
            forall|j: int|
                0 <= j < i ==> #[trigger] next@[j] == (cur@[j] || (pass@[j] && touches(
                    cur@,
                    j,
                    diag,
                ))),
        decreases 121 - i,
    {
        let sq = Square { x: (i % 11) as u8, y: (i / 11) as u8 };
        assert(sq == square_at(i as int));
        let mut near = neighbour_hit(cur, sq, 1, 0) || neighbour_hit(cur, sq, -1, 0)
            || neighbour_hit(cur, sq, 0, 1) || neighbour_hit(cur, sq, 0, -1);
        if diag {
            near = near || neighbour_hit(cur, sq, 1, 1) || neighbour_hit(cur, sq, 1, -1)
                || neighbour_hit(cur, sq, -1, 1) || neighbour_hit(cur, sq, -1, -1);
        }
        next.push(cur[i] || (pass[i] && near));
        i = i + 1;
    }
    assert(next@ =~= Seq::new(121, |i: int| cur@[i] || (pass@[i] && touches(cur@, i, diag))));
    next
}

fn same_set(a: &Vec<bool>, b: &Vec<bool>) -> (r: bool)
    requires
        a@.len() == 121,
        b@.len() == 121,
    ensures
        r == (a@ == b@),
{
    let mut i: usize = 0;
    while i < 121
        invariant
            i <= 121,
            a@.len() == 121,
            b@.len() == 121,
            forall|j: int| 0 <= j < i ==> a@[j] == b@[j],
        decreases 121 - i,
    {
        if a[i] != b[i] {
            return false;
        }
        i = i + 1;
    }
    assert(a@ =~= b@);
    true
}

/// The connected region of passable squares around `start`.
fn flood(pass: &Vec<bool>, start: usize, diag: bool) -> (r: Vec<bool>)
    requires
        pass@.len() == 121,
        start < 121,
    ensures
        r@ == region(pass@, start as int, diag),
        r@.len() == 121,
{
    let mut cur: Vec<bool> = Vec::new();
    let mut i: usize = 0;
    while i < 121
        invariant
            i <= 121,
            start < 121,
            pass@.len() == 121,
            cur@.len() == i,
            forall|j: int| 0 <= j < i ==> #[trigger] cur@[j] == (j == start && pass@[j]),
        decreases 121 - i,
    {
        cur.push(i == start && pass[i]);
        i = i + 1;
    }
    assert(cur@ =~= reach(pass@, start as int, diag, 0));
    let mut k: usize = 0;
    while k < 121
        invariant
            k <= 121,
            pass@.len() == 121,
            cur@ == reach(pass@, start as int, diag, k as nat),
            cur@.len() == 121,
        decreases 121 - k,
    {
        let next = expand(pass, &cur, diag);
        assert(next@ == reach(pass@, start as int, diag, (k + 1) as nat));
        if same_set(&next, &cur) {
            proof {
                reveal(region);
                lemma_reach_stable(pass@, start as int, diag, k as nat, 121);
            }
            return cur;
        }
        cur = next;
        k = k + 1;
    }
    proof {
        reveal(region);
    }
    cur
}

fn count_set(set: &Vec<bool>) -> (r: usize)
    requires
        set@.len() == 121,
    ensures
        r == count_true(set@, 121),
        r <= 121,
{
    let mut total: usize = 0;
    let mut i: usize = 0;
    while i < 121
        invariant
            i <= 121,
            set@.len() == 121,
            total == count_true(set@, i as nat),
            total <= i,
        decreases 121 - i,
    {
        if set[i] {
            total = total + 1;
        }
        i = i + 1;
    }
    total
}

/// Row-major index of the first king.
fn find_king(board: &Board) -> (r: Option<usize>)
    ensures
        match r {
            Some(k) => king_index(board@) == Some(k as int) && k < 121,
            None => king_index(board@) is None,
        },
{
    let mut i: usize = 0;
    while i < 121
        invariant
            i <= 121,
            forall|j: int| 0 <= j < i ==> board@[j] != Some(Piece::King),
        decreases 121 - i,
    {
        let sq = Square { x: (i % 11) as u8, y: (i / 11) as u8 };
        assert(sq.index() == i);
        if board.get(sq) == Some(Piece::King) {
            proof {
                let pick = choose|m: int|
                    0 <= m < 121 && board@[m] == Some(Piece::King) && forall|j: int|
                        0 <= j < m ==> board@[j] != Some(Piece::King);
                assert(pick == i) by {
                    if pick < i {
                    } else if pick > i {
                        assert(board@[i as int] == Some(Piece::King));
                    }
                }
            }
            return Some(i);
        }
        i = i + 1;
    }
    None
}

/// Squares selected by a predicate on the cells.
fn attacker_free(board: &Board) -> (r: Vec<bool>)
    ensures
        r@ == open_squares(board@),
{
    let mut set: Vec<bool> = Vec::new();
    let mut i: usize = 0;
    while i < 121
        invariant
            i <= 121,
            set@.len() == i,
            forall|j: int| 0 <= j < i ==> #[trigger] set@[j] == (board@[j] != Some(Piece::Attacker)),
        decreases 121 - i,
    {
        let sq = Square { x: (i % 11) as u8, y: (i / 11) as u8 };
        assert(sq.index() == i);
        set.push(board.get(sq) != Some(Piece::Attacker));
        i = i + 1;
    }
    assert(set@ =~= open_squares(board@));
    set
}

fn defender_set(board: &Board) -> (r: Vec<bool>)
    ensures
        r@ == defender_squares(board@),
{
    let mut set: Vec<bool> = Vec::new();
    let mut i: usize = 0;
    while i < 121
        invariant
            i <= 121,
            set@.len() == i,
            forall|j: int| 0 <= j < i ==> #[trigger] set@[j] == (board@[j] == Some(Piece::Defender)),
        decreases 121 - i,
    {
        let sq = Square { x: (i % 11) as u8, y: (i / 11) as u8 };
        assert(sq.index() == i);
        set.push(board.get(sq) == Some(Piece::Defender));
        i = i + 1;
    }
    assert(set@ =~= defender_squares(board@));
    set
}

fn complement(wall: &Vec<bool>) -> (r: Vec<bool>)
    requires
        wall@.len() == 121,
    ensures
        r@ == outside(wall@),
{
    let mut set: Vec<bool> = Vec::new();
    let mut i: usize = 0;
    while i < 121
        invariant
            i <= 121,
            wall@.len() == 121,
            set@.len() == i,
            forall|j: int| 0 <= j < i ==> #[trigger] set@[j] == !wall@[j],
        decreases 121 - i,
    {
        set.push(!wall[i]);
        i = i + 1;
    }
    assert(set@ =~= outside(wall@));
    set
}

fn free_side_exec(board: &Board, sq: Square, dx: i32, dy: i32) -> (r: bool)
    requires
        sq.valid(),
        -1 <= dx <= 1,
        -1 <= dy <= 1,
    ensures
        r == free_side(board@, sq, dx as int, dy as int),
{
    match sq.offset(dx, dy) {
        Some(q) => board.get(q).is_none() && !q.is_corner(),
        None => false,
    }
}

/// The first edge defender before the king (row-major), and whether some
/// edge defender stands after him.
fn scan_edge_defenders(board: &Board, king: Square) -> (r: (Option<usize>, bool))
    requires
        king.valid(),
    ensures
        match r.0 {
            Some(s) => s < 121 && fort_start(board@, is_horizontal(king), king) == s as int
                && defender_before(board@, king),
            None => !defender_before(board@, king),
        },
        r.1 == defender_after(board@, king),
{
    let horizontal = king.y == 0 || king.y == 10;
    let ghost cells = board@;
    let king_along: u8 = if horizontal {
        king.x
    } else {
        king.y
    };
    let mut start: Option<usize> = None;
    let mut later = false;
    let mut i: usize = 0;
    while i < 121
        invariant
            i <= 121,
            cells == board@,
            horizontal == (king.y == 0 || king.y == 10),
            king_along as int == along_line(horizontal, king),
            match start {
                Some(s) => s < i && edge_defender(cells, horizontal, king, s as int) && along_line(
                    horizontal,
                    square_at(s as int),
                ) < along_line(horizontal, king) && forall|j: int|
                    0 <= j < s ==> !(edge_defender(cells, horizontal, king, j) && along_line(
                        horizontal,
                        square_at(j),
                    ) < along_line(horizontal, king)),
                None => forall|j: int|
                    0 <= j < i ==> !(edge_defender(cells, horizontal, king, j) && along_line(
                        horizontal,
                        square_at(j),
                    ) < along_line(horizontal, king)),
            },
            later == exists|j: int|
                0 <= j < i && #[trigger] edge_defender(cells, horizontal, king, j) && along_line(
                    horizontal,
                    square_at(j),
                ) > along_line(horizontal, king),
        decreases 121 - i,
    {
        let sq = Square { x: (i % 11) as u8, y: (i / 11) as u8 };
        assert(sq == square_at(i as int));
        assert(sq.index() == i);
        let on = if horizontal {
            sq.y == king.y
        } else {
            sq.x == king.x
        };
        if on && board.get(sq) == Some(Piece::Defender) {
            assert(edge_defender(cells, horizontal, king, i as int));
            let here: u8 = if horizontal {
                sq.x
            } else {
                sq.y
            };
            if here < king_along && start.is_none() {
                start = Some(i);
            }
            if here > king_along {
                later = true;
            }
        }
        i = i + 1;
    }
    proof {
        reveal(defender_before);
        reveal(defender_after);
        if later {
            let w = choose|j: int|
                0 <= j < 121 && #[trigger] edge_defender(cells, horizontal, king, j) && along_line(
                    horizontal,
                    square_at(j),
                ) > along_line(horizontal, king);
            assert(edge_defender(board@, is_horizontal(king), king, w));
        } else {
            assert forall|j: int| #[trigger] edge_defender(board@, is_horizontal(king), king, j) implies !(along_line(
                is_horizontal(king),
                square_at(j),
            ) > along_line(is_horizontal(king), king)) by {
                assert(0 <= j < 121);
            }
        }
        if let Some(first) = start {
            let pick = fort_start(cells, horizontal, king);
            assert(pick == first) by {
                if pick < first {
                } else if pick > first {
                }
            }
        }
    }
    (start, later)
}

/// Some edge defender after the king belongs to the wall.
fn wall_meets_far_side(board: &Board, king: Square, wall: &Vec<bool>) -> (r: bool)
    requires
        king.valid(),
        wall@.len() == 121,
    ensures
        r == wall_reaches_after(board@, king, wall@),
{
    let horizontal = king.y == 0 || king.y == 10;
    let ghost cells = board@;
    let king_along: u8 = if horizontal {
        king.x
    } else {
        king.y
    };
    let mut closes = false;
    let mut j: usize = 0;
    while j < 121
        invariant
            j <= 121,
            cells == board@,
            wall@.len() == 121,
            horizontal == (king.y == 0 || king.y == 10),
            king_along as int == along_line(horizontal, king),
            closes == exists|m: int|
                0 <= m < j && #[trigger] edge_defender(cells, horizontal, king, m) && wall@[m]
                    && along_line(horizontal, square_at(m)) > along_line(horizontal, king),
        decreases 121 - j,
    {
        let sq = Square { x: (j % 11) as u8, y: (j / 11) as u8 };
        assert(sq == square_at(j as int));
        assert(sq.index() == j);
        let on = if horizontal {
            sq.y == king.y
        } else {
            sq.x == king.x
        };
        let here: u8 = if horizontal {
            sq.x
        } else {
            sq.y
        };
        if on && board.get(sq) == Some(Piece::Defender) && wall[j] && here > king_along {
            assert(edge_defender(cells, horizontal, king, j as int));
            closes = true;
        }
        j = j + 1;
    }
    proof {
        reveal(wall_reaches_after);
        if closes {
            let w = choose|m: int|
                0 <= m < 121 && #[trigger] edge_defender(cells, horizontal, king, m) && wall@[m]
                    && along_line(horizontal, square_at(m)) > along_line(horizontal, king);
            assert(edge_defender(board@, is_horizontal(king), king, w));
        } else {
            assert forall|m: int| #[trigger] edge_defender(board@, is_horizontal(king), king, m) implies !(wall@[m]
                && along_line(is_horizontal(king), square_at(m)) > along_line(is_horizontal(king), king)) by {
                assert(0 <= m < 121);
            }
        }
    }
    closes
}

/// Some selected square holds an attacker.
fn attacker_within(board: &Board, set: &Vec<bool>) -> (r: bool)
    requires
        set@.len() == 121,
    ensures
        r == attacker_among(board@, set@),
{
    let mut found = false;
    let mut m: usize = 0;
    while m < 121
        invariant
            m <= 121,
            set@.len() == 121,
            found == exists|a: int| 0 <= a < m && set@[a] && board@[a] == Some(Piece::Attacker),
        decreases 121 - m,
    {
        let sq = Square { x: (m % 11) as u8, y: (m / 11) as u8 };
        assert(sq.index() == m);
        if set[m] && board.get(sq) == Some(Piece::Attacker) {
            found = true;
        }
        m = m + 1;
    }
    proof {
        reveal(attacker_among);
    }
    found
}

/// Whether the board shows an exit fort.
pub fn is_exit_fort(board: &Board) -> (r: bool)
    ensures
        r == exit_fort(board@),
{
    let Some(k) = find_king(board) else {
        return false;
    };
    let king = Square { x: (k % 11) as u8, y: (k / 11) as u8 };
    assert(king == square_at(k as int));
    if !king.is_edge() || king.is_corner() {
        return false;
    }
    if !(free_side_exec(board, king, 1, 0) || free_side_exec(board, king, -1, 0) || free_side_exec(
        board,
        king,
        0,
        1,
    ) || free_side_exec(board, king, 0, -1)) {
        return false;
    }
    let (start, later) = scan_edge_defenders(board, king);
    let Some(first) = start else {
        return false;
    };
    if !later {
        return false;
    }
    let defenders = defender_set(board);
    let wall = flood(&defenders, first, true);
    if !wall_meets_far_side(board, king, &wall) {
        return false;
    }
    let open = complement(&wall);
    let interior = flood(&open, k, false);
    if attacker_within(board, &interior) {
        return false;
    }
    count_set(&interior) + count_set(&wall) < 121
}

/// Whether the king and every defender are enclosed by attackers.
pub fn attackers_encircle_all_defenders(board: &Board) -> (r: bool)
    ensures
        r == encircled(board@),
{
    let Some(k) = find_king(board) else {
        return false;
    };
    let open = attacker_free(board);
    let reached = flood(&open, k, false);
    let mut i: usize = 0;
    #[verifier::loop_isolation(false)]
    while i < 121
        invariant
            i <= 121,
            reached@.len() == 121,
            forall|j: int|
                0 <= j < i ==> !(board@[j] is Some && board@[j].unwrap().owner() == Side::Defender)
                    || reached@[j],
            forall|j: int| 0 <= j < i ==> !(reached@[j] && square_at(j).corner()),
        decreases 121 - i,
    {
        let sq = Square { x: (i % 11) as u8, y: (i / 11) as u8 };
        assert(sq == square_at(i as int));
        assert(sq.index() == i);
        let defender = match board.get(sq) {
            Some(p) => p.side() == Side::Defender,
            None => false,
        };
        if defender && !reached[i] {
            proof {
                let kk = king_index(board@).unwrap();
                assert(kk == k as int);
                assert(reached@ == region(open_squares(board@), kk, false));
                assert(board@[i as int] is Some && board@[i as int].unwrap().owner() == Side::Defender
                    && !reached@[i as int]);
            }
            return false;
        }
        if reached[i] && sq.is_corner() {
            proof {
                let kk = king_index(board@).unwrap();
                assert(kk == k as int);
                assert(reached@ == region(open_squares(board@), kk, false));
                assert(reached@[i as int] && square_at(i as int).corner());
            }
            return false;
        }
        i = i + 1;
    }
    true
}

/// Whether the defenders can no longer escape.
pub fn defenders_cannot_escape(board: &Board) -> (r: bool)
    ensures
        r == cannot_escape(board@),
{
    if is_exit_fort(board) {
        return false;
    }
    let Some(k) = find_king(board) else {
        return false;
    };
    let open = attacker_free(board);
    let reached = flood(&open, k, false);
    let mut i: usize = 0;
    #[verifier::loop_isolation(false)]
    while i < 121
        invariant
            i <= 121,
            reached@.len() == 121,
            forall|j: int| 0 <= j < i ==> !(reached@[j] && square_at(j).corner()),
        decreases 121 - i,
    {
        let sq = Square { x: (i % 11) as u8, y: (i / 11) as u8 };
        assert(sq == square_at(i as int));
        if reached[i] && sq.is_corner() {
            return false;
        }
        i = i + 1;
    }
    if board.count(Piece::Defender) <= 5 {
        return true;
    }
    let mut touches_edge = false;
    let mut e: u8 = 0;
    #[verifier::loop_isolation(false)]
    while e < 4
        invariant
            e <= 4,
            reached@.len() == 121,
            touches_edge == exists|f: int, a: int|
                0 <= f < e && 0 <= a < 11 && #[trigger] reached@[edge_square(f, a).index()],
            forall|f: int, a: int, b: int|
                0 <= f < e && 0 <= a < 11 && 0 <= b < 11 && #[trigger] reached@[edge_square(
                    f,
                    a,
                ).index()] && #[trigger] reached@[edge_square(f, b).index()] ==> -1 <= a - b <= 1,
        decreases 4 - e,
    {
        // The lowest and highest reached positions along this edge.
        let mut low: i32 = -1;
        let mut high: i32 = -1;
        let mut a: u8 = 0;
        #[verifier::loop_isolation(false)]
    while a < 11
            invariant
                e < 4,
                a <= 11,
                reached@.len() == 121,
                -1 <= low <= high < a,
                low == -1 ==> high == -1,
                low == -1 <==> forall|c: int| 0 <= c < a ==> !reached@[edge_square(e as int, c).index()],
                low >= 0 ==> reached@[edge_square(e as int, low as int).index()] && forall|c: int|
                    0 <= c < low ==> !reached@[edge_square(e as int, c).index()],
                high >= 0 ==> reached@[edge_square(e as int, high as int).index()] && forall|c: int|
                    high < c < a ==> !reached@[edge_square(e as int, c).index()],
            decreases 11 - a,
        {
            let sq = if e == 0 {
                Square { x: a, y: 0 }
            } else if e == 1 {
                Square { x: a, y: 10 }
            } else if e == 2 {
                Square { x: 0, y: a }
            } else {
                Square { x: 10, y: a }
            };
            assert(sq == edge_square(e as int, a as int));
            if reached[sq.y as usize * 11 + sq.x as usize] {
                if low < 0 {
                    low = a as i32;
                }
                high = a as i32;
            }
            a = a + 1;
        }
        if low >= 0 {
            touches_edge = true;
            if high - low > 1 {
                proof {
                    assert(reached@[edge_square(e as int, low as int).index()]);
                    assert(reached@[edge_square(e as int, high as int).index()]);
                }
                return false;
            }
        }
        proof {
            assert forall|c: int, d: int|
                0 <= c < 11 && 0 <= d < 11 && #[trigger] reached@[edge_square(e as int, c).index()]
                    && #[trigger] reached@[edge_square(e as int, d).index()] implies -1 <= c - d
                <= 1 by {
                assert(low <= c <= high);
                assert(low <= d <= high);
            }
        }
        e = e + 1;
    }
    touches_edge
}

/// What a latest board decides on its own.
pub fn board_verdict_exec(board: &Board) -> (r: Option<GameOutcome>)
    ensures
        r == board_verdict(board@),
{
    reveal(board_verdict);
    let mut i: usize = 0;
    while i < 121
        invariant
            i <= 121,
            forall|j: int| 0 <= j < i ==> !(board@[j] == Some(Piece::King) && square_at(j).corner()),
        decreases 121 - i,
    {
        let sq = Square { x: (i % 11) as u8, y: (i / 11) as u8 };
        assert(sq == square_at(i as int));
        if board.get(sq) == Some(Piece::King) && sq.is_corner() {
            proof {
                reveal(board_verdict);
            }
            return Some(GameOutcome { winner: Side::Defender, reason: OutcomeReason::KingEscaped });
        }
        i = i + 1;
    }
    if is_exit_fort(board) {
        return Some(GameOutcome { winner: Side::Defender, reason: OutcomeReason::ExitFort });
    }
    if attackers_encircle_all_defenders(board) {
        return Some(GameOutcome { winner: Side::Attacker, reason: OutcomeReason::Encirclement });
    }
    if defenders_cannot_escape(board) {
        return Some(GameOutcome { winner: Side::Attacker, reason: OutcomeReason::NoEscape });
    }
    None
}

/// The verdict of the first timeline among the first `n`, in row order,
/// that is active and whose latest board decides the game.
pub open spec fn verdict_upto(s: StateView, n: nat) -> Option<GameOutcome>
    decreases n,
{
    if n == 0 {
        None
    } else {
        match verdict_upto(s, (n - 1) as nat) {
            Some(o) => Some(o),
            None => {
                let t = s.timelines[n - 1];
                if s.is_active(t.row as int) && t.boards.len() > 0 {
                    board_verdict(t.boards.last().cells)
                } else {
                    None
                }
            },
        }
    }
}

/// The position with its outcome decided by the latest boards of the
/// active timelines, unless it was already decided.
pub open spec fn evaluated(s: StateView) -> StateView {
    if s.outcome is Some {
        s
    } else {
        StateView { outcome: verdict_upto(s, s.timelines.len()), ..s }
    }
}

/// A game is decided only by the latest board of an active timeline: a
/// verdict always comes from one such board.
pub proof fn lemma_verdict_from_active_latest(s: StateView, n: nat)
    requires
        n <= s.timelines.len(),
        verdict_upto(s, n) is Some,
    ensures
        exists|j: int|
            0 <= j < n && s.is_active(s.timelines[j].row as int) && s.timelines[j].boards.len() > 0
                && board_verdict(#[trigger] s.timelines[j].boards.last().cells) == verdict_upto(s, n),
    decreases n,
{
    if verdict_upto(s, (n - 1) as nat) is Some {
        lemma_verdict_from_active_latest(s, (n - 1) as nat);
    } else {
        assert(board_verdict(s.timelines[n - 1].boards.last().cells) == verdict_upto(s, n));
    }
}

impl State {
    /// Decides the game from the latest boards of the active timelines,
    /// taken in row order, unless it is already decided.
    pub(crate) fn evaluate_outcome(&mut self)
        requires
            old(self)@.wf(),
        ensures
            final(self)@ == evaluated(old(self)@),
    {
        if self.outcome.is_some() {
            return;
        }
        let mut verdict: Option<GameOutcome> = None;
        let mut i: usize = 0;
        while i < self.timelines.len()
            invariant
                i <= self.timelines@.len(),
                self@.wf(),
                verdict == verdict_upto(self@, i as nat),
            decreases self.timelines@.len() - i,
        {
            let timeline = &self.timelines[i];
            assert(self@.timelines[i as int] == timeline@);
            if verdict.is_none() && self.is_active_timeline(timeline.row) {
                if let Some(latest) = timeline.latest() {
                    verdict = board_verdict_exec(&latest.board);
                }
            }
            i = i + 1;
        }
        self.outcome = verdict;
    }
}

/// Squares `a` and `b` are orthogonal neighbours on the board.
pub open spec fn orthogonal_neighbours(a: int, b: int) -> bool {
    let p = square_at(a);
    let q = square_at(b);
    ||| (p.x == q.x && (p.y + 1 == q.y || q.y + 1 == p.y))
    ||| (p.y == q.y && (p.x + 1 == q.x || q.x + 1 == p.x))
}

/// `path` goes square by square between orthogonal neighbours, through
/// squares of the board that `pass` allows.
#[verifier::opaque]
pub open spec fn walk(pass: Seq<bool>, path: Seq<int>) -> bool {
    &&& path.len() > 0
    &&& forall|k: int| 0 <= k < path.len() ==> 0 <= #[trigger] path[k] < 121 && pass[path[k]]
    &&& forall|k: int| 0 <= k < path.len() - 1 ==> orthogonal_neighbours(#[trigger] path[k], path[k + 1])
}

proof fn lemma_index_square(i: int)
    requires
        0 <= i < 121,
    ensures
        square_at(i).valid(),
        square_at(i).index() == i,
{
    assert(0 <= i % 11 < 11 && 0 <= i / 11 < 11 && i == (i / 11) * 11 + i % 11) by (nonlinear_arith)
        requires
            0 <= i < 121,
    ;
}

proof fn lemma_square_index(q: Square)
    requires
        q.valid(),
    ensures
        0 <= q.index() < 121,
        square_at(q.index()) == q,
{
    let i = q.y * 11 + q.x;
    assert(i % 11 == q.x && i / 11 == q.y) by (nonlinear_arith)
        requires
            i == q.y * 11 + q.x,
            0 <= q.x < 11,
            0 <= q.y < 11,
    ;
}

/// Whatever the flood reaches from `start` within `k` steps, some walk
/// through passable squares leads there from `start`.
proof fn lemma_reach_has_walk(pass: Seq<bool>, start: int, k: nat, i: int) -> (path: Seq<int>)
    requires
        0 <= i < 121,
        reach(pass, start, false, k)[i],
    ensures
        walk(pass, path),
        path[0] == start,
        path.last() == i,
    decreases k,
{
    reveal(walk);
    if k == 0 {
        seq![i]
    } else {
        let prev = reach(pass, start, false, (k - 1) as nat);
        if prev[i] {
            lemma_reach_has_walk(pass, start, (k - 1) as nat, i)
        } else {
            lemma_index_square(i);
            let sq = square_at(i);
            let (dx, dy) = if hit(prev, sq, 1, 0) {
                (1int, 0int)
            } else if hit(prev, sq, -1, 0) {
                (-1int, 0int)
            } else if hit(prev, sq, 0, 1) {
                (0int, 1int)
            } else {
                (0int, -1int)
            };
            let q = sq.shifted(dx, dy).unwrap();
            lemma_square_index(q);
            let j = q.index();
            let before = lemma_reach_has_walk(pass, start, (k - 1) as nat, j);
            let path = before.push(i);
            assert(orthogonal_neighbours(j, i));
            assert forall|m: int| 0 <= m < path.len() implies 0 <= #[trigger] path[m] < 121 && pass[path[m]] by {
                if m < before.len() {
                    assert(path[m] == before[m]);
                }
            }
            assert forall|m: int| 0 <= m < path.len() - 1 implies orthogonal_neighbours(
                #[trigger] path[m],
                path[m + 1],
            ) by {
                if m < before.len() - 1 {
                    assert(path[m] == before[m] && path[m + 1] == before[m + 1]);
                } else {
                    assert(path[m] == before.last());
                }
            }
            path
        }
    }
}

/// Where a king stands, there is a first square holding one.
proof fn lemma_first_king(cells: Seq<Option<Piece>>, i: int)
    requires
        0 <= i < 121,
        cells[i] == Some(Piece::King),
    ensures
        exists|m: int|
            0 <= m < 121 && cells[m] == Some(Piece::King) && forall|j: int| 0 <= j < m ==> cells[j] != Some(
                Piece::King,
            ),
    decreases i,
{
    if exists|j: int| 0 <= j < i && cells[j] == Some(Piece::King) {
        let j = choose|j: int| 0 <= j < i && cells[j] == Some(Piece::King);
        lemma_first_king(cells, j);
    } else {
        assert(forall|j: int| 0 <= j < i ==> cells[j] != Some(Piece::King));
    }
}

/// A defender enclosed with the king is reached from the king by a walk.
proof fn lemma_defender_walk(cells: Seq<Option<Piece>>, i: int) -> (path: Seq<int>)
    requires
        encircled(cells),
        0 <= i < 121,
        cells[i] is Some,
        cells[i].unwrap().owner() == Side::Defender,
    ensures
        walk(open_squares(cells), path),
        path[0] == king_index(cells).unwrap(),
        path.last() == i,
{
    let k = king_index(cells).unwrap();
    assert(region(open_squares(cells), k, false)[i]);
    lemma_region_has_walk(open_squares(cells), k, i)
}

/// Encirclement needs every defender enclosed with the king: when the
/// attackers are found to encircle all defenders, a king stands on the
/// board and every defender piece can be reached from it by a walk of
/// orthogonal steps that never crosses an attacker. A defender cut off from
/// the king by attackers rules encirclement out.
pub proof fn lemma_encircled_defenders_reach_the_king(cells: Seq<Option<Piece>>)
    requires
        encircled(cells),
    ensures
        king_index(cells) is Some,
        cells[king_index(cells).unwrap()] == Some(Piece::King),
        forall|i: int|
            0 <= i < 121 && cells[i] is Some && cells[i].unwrap().owner() == Side::Defender ==> exists|
                path: Seq<int>,
            |
                #[trigger] walk(open_squares(cells), path) && path[0] == king_index(cells).unwrap()
                    && path.last() == i,
{
    let some_king = choose|i: int| 0 <= i < 121 && cells[i] == Some(Piece::King);
    lemma_first_king(cells, some_king);
    let k = king_index(cells).unwrap();
    assert(cells[k] == Some(Piece::King));
    assert forall|i: int|
        0 <= i < 121 && cells[i] is Some && cells[i].unwrap().owner() == Side::Defender implies exists|
            path: Seq<int>,
        |
            #[trigger] walk(open_squares(cells), path) && path[0] == king_index(cells).unwrap()
                && path.last() == i by {
        let path = lemma_defender_walk(cells, i);
        assert(walk(open_squares(cells), path));
    }
}

/// Whatever the region around `start` holds, a walk reaches from `start`.
proof fn lemma_region_has_walk(pass: Seq<bool>, start: int, i: int) -> (path: Seq<int>)
    requires
        0 <= i < 121,
        region(pass, start, false)[i],
    ensures
        walk(pass, path),
        path[0] == start,
        path.last() == i,
{
    reveal(region);
    lemma_reach_has_walk(pass, start, 121, i)
}

proof fn lemma_count_le(set: Seq<bool>, n: nat)
    ensures
        count_true(set, n) <= n,
    decreases n,
{
    if n > 0 {
        lemma_count_le(set, (n - 1) as nat);
    }
}

proof fn lemma_count_grows(a: Seq<bool>, b: Seq<bool>, n: nat)
    requires
        forall|i: int| 0 <= i < n && a[i] ==> b[i],
    ensures
        count_true(a, n) <= count_true(b, n),
        (exists|i: int| 0 <= i < n && b[i] && !a[i]) ==> count_true(a, n) < count_true(b, n),
    decreases n,
{
    if n > 0 {
        lemma_count_grows(a, b, (n - 1) as nat);
        if exists|i: int| 0 <= i < n && b[i] && !a[i] {
            let i = choose|i: int| 0 <= i < n && b[i] && !a[i];
            if i < n - 1 {
                assert(exists|j: int| 0 <= j < n - 1 && b[j] && !a[j]);
            }
        }
    }
}

proof fn lemma_reach_mono(pass: Seq<bool>, start: int, diag: bool, k: nat, m: nat, i: int)
    requires
        k <= m,
        0 <= i < 121,
        reach(pass, start, diag, k)[i],
    ensures
        reach(pass, start, diag, m)[i],
    decreases m - k,
{
    if k < m {
        lemma_reach_mono(pass, start, diag, k, (m - 1) as nat, i);
    }
}

proof fn lemma_reach_count(pass: Seq<bool>, start: int, diag: bool, k: nat)
    requires
        forall|j: nat| j < k ==> #[trigger] reach(pass, start, diag, j + 1) != reach(pass, start, diag, j),
    ensures
        count_true(reach(pass, start, diag, k), 121) >= k,
    decreases k,
{
    if k > 0 {
        let a = reach(pass, start, diag, (k - 1) as nat);
        let b = reach(pass, start, diag, k);
        lemma_reach_count(pass, start, diag, (k - 1) as nat);
        assert(reach(pass, start, diag, ((k - 1) as nat + 1) as nat) != a);
        if forall|i: int| 0 <= i < 121 ==> a[i] == b[i] {
            assert(a =~= b);
        }
        lemma_count_grows(a, b, 121);
    }
}

/// The region around `start` holds every square the flood reaches in any
/// number of steps.
proof fn lemma_reach_within_region(pass: Seq<bool>, start: int, diag: bool, m: nat, i: int)
    requires
        0 <= i < 121,
        reach(pass, start, diag, m)[i],
    ensures
        region(pass, start, diag)[i],
{
    reveal(region);
    if m <= 121 {
        lemma_reach_mono(pass, start, diag, m, 121, i);
    } else {
        if forall|j: nat| j < 122 ==> #[trigger] reach(pass, start, diag, j + 1) != reach(pass, start, diag, j) {
            lemma_reach_count(pass, start, diag, 122);
            lemma_count_le(reach(pass, start, diag, 122), 121);
        }
        let k = choose|j: nat| j < 122 && #[trigger] reach(pass, start, diag, j + 1) == reach(pass, start, diag, j);
        lemma_reach_stable(pass, start, diag, k, m);
        lemma_reach_stable(pass, start, diag, k, 121);
    }
}

/// Every square of a walk from `start` lies in the region around `start`.
proof fn lemma_walk_within_region(pass: Seq<bool>, start: int, path: Seq<int>, j: int)
    requires
        walk(pass, path),
        path[0] == start,
        0 <= j < path.len(),
    ensures
        region(pass, start, false)[path[j]],
{
    lemma_walk_in_reach(pass, start, path, j);
    reveal(walk);
    lemma_reach_within_region(pass, start, false, j as nat, path[j]);
}

proof fn lemma_walk_in_reach(pass: Seq<bool>, start: int, path: Seq<int>, j: int)
    requires
        walk(pass, path),
        path[0] == start,
        0 <= j < path.len(),
    ensures
        reach(pass, start, false, j as nat)[path[j]],
    decreases j,
{
    reveal(walk);
    if j > 0 {
        lemma_walk_in_reach(pass, start, path, j - 1);
        let a = path[j - 1];
        let b = path[j];
        assert(orthogonal_neighbours(path[j - 1], path[j]));
        lemma_index_square(a);
        lemma_index_square(b);
        let prev = reach(pass, start, false, (j - 1) as nat);
        let sq = square_at(b);
        let p = square_at(a);
        if p.x == sq.x && p.y == sq.y + 1 {
            assert(sq.shifted(0, 1) == Some(p));
            assert(hit(prev, sq, 0, 1));
        } else if p.x == sq.x && sq.y == p.y + 1 {
            assert(sq.shifted(0, -1) == Some(p));
            assert(hit(prev, sq, 0, -1));
        } else if p.y == sq.y && p.x == sq.x + 1 {
            assert(sq.shifted(1, 0) == Some(p));
            assert(hit(prev, sq, 1, 0));
        } else {
            assert(sq.shifted(-1, 0) == Some(p));
            assert(hit(prev, sq, -1, 0));
        }
        assert(touches(prev, b, false));
    }
}

/// Encirclement leaves the king no way out: no walk from the king that
/// avoids attackers reaches a corner.
pub proof fn lemma_encircled_king_reaches_no_corner(cells: Seq<Option<Piece>>, path: Seq<int>)
    requires
        encircled(cells),
        walk(open_squares(cells), path),
        path[0] == king_index(cells).unwrap(),
    ensures
        !square_at(path.last()).corner(),
{
    let k = king_index(cells).unwrap();
    reveal(walk);
    lemma_walk_within_region(open_squares(cells), k, path, path.len() - 1);
    let i = path.last();
    assert(0 <= i < 121);
    assert(region(open_squares(cells), k, false)[i]);
}

/// Conversely, when a king stands on the board, every defender can be
/// reached from it by a walk avoiding attackers, and no such walk reaches a
/// corner, the attackers encircle all defenders.
pub proof fn lemma_enclosed_walks_mean_encirclement(cells: Seq<Option<Piece>>)
    requires
        king_index(cells) is Some,
        forall|i: int|
            0 <= i < 121 && cells[i] is Some && cells[i].unwrap().owner() == Side::Defender ==> exists|
                path: Seq<int>,
            |
                #[trigger] walk(open_squares(cells), path) && path[0] == king_index(cells).unwrap()
                    && path.last() == i,
        forall|path: Seq<int>|
            #[trigger] walk(open_squares(cells), path) && path[0] == king_index(cells).unwrap()
                ==> !square_at(path.last()).corner(),
    ensures
        encircled(cells),
{
    let k = king_index(cells).unwrap();
    let pass = open_squares(cells);
    let reached = region(pass, k, false);
    assert forall|i: int|
        0 <= i < 121 && cells[i] is Some && cells[i].unwrap().owner() == Side::Defender implies reached[i] by {
        let path = choose|path: Seq<int>|
            #[trigger] walk(pass, path) && path[0] == k && path.last() == i;
        reveal(walk);
        lemma_walk_within_region(pass, k, path, path.len() - 1);
    }
    assert forall|i: int| 0 <= i < 121 && reached[i] implies !square_at(i).corner() by {
        let path = lemma_region_has_walk(pass, k, i);
        assert(walk(pass, path) && path[0] == k);
    }
}

} // verus!
