//! Full legality (with the defender's repetition rule) and the enumeration
//! of legal moves.

use vstd::prelude::*;
use crate::apply::move_room;
use crate::history::repeats;
use crate::model::{pieces_upto, square_at, BoardCoordinate, Move, Piece, Position, Ruleset, Side, Square, SnapshotView};
use crate::rules::{strictly_between, MoveError, MoveKind, StateView, ValidatedMove};
use crate::state::State;

verus! {

broadcast use crate::model::lemma_board_cells;

/// The first legality rule a move breaks, counting the rule that a defender
/// move may not create a board repeating one of its causal ancestors.
pub open spec fn validate_full(s: StateView, mv: Move) -> Result<ValidatedMove, MoveError> {
    match s.validate(mv) {
        Err(e) => Err(e),
        Ok(v) => if v.piece.owner() == Side::Defender && repeats(
            s.apply_validated(mv, v).0,
            s.apply_validated(mv, v).1,
        ) {
            Err(MoveError::DefenderRepetition)
        } else {
            Ok(v)
        },
    }
}

/// The offset `dist` squares along orthogonal direction `d`: right, left,
/// up, down.
pub open spec fn ray_step(d: int, dist: int) -> (int, int) {
    if d == 0 {
        (dist, 0)
    } else if d == 1 {
        (-dist, 0)
    } else if d == 2 {
        (0, dist)
    } else {
        (0, -dist)
    }
}

/// The spatial move from `from` to the square `dist` steps along `d`.
pub open spec fn ray_move(from: Position, q: Square) -> Move {
    Move { from, to: Position { board: from.board, square: q } }
}

/// Legal spatial moves along direction `d`, from `dist` squares out: the
/// walk stops at the board's edge and at the first refusal other than a
/// restricted square or a repetition.
pub open spec fn ray(s: StateView, from: Position, d: int, dist: int) -> Seq<Move>
    decreases 11 - dist,
{
    if dist < 1 || dist >= 11 {
        Seq::empty()
    } else {
        match from.square.shifted(ray_step(d, dist).0, ray_step(d, dist).1) {
            None => Seq::empty(),
            Some(q) => match validate_full(s, ray_move(from, q)) {
                Ok(_) => seq![ray_move(from, q)] + ray(s, from, d, dist + 1),
                Err(e) => if e == MoveError::RestrictedDestination || e
                    == MoveError::DefenderRepetition {
                    ray(s, from, d, dist + 1)
                } else {
                    Seq::empty()
                },
            },
        }
    }
}

/// The backward move from `from` to the same square at `time`.
pub open spec fn back_move(from: Position, time: i32) -> Move {
    Move {
        from,
        to: Position {
            board: BoardCoordinate { time, timeline: from.board.timeline },
            square: from.square,
        },
    }
}

/// Board `k` of the source timeline is an earlier board of the same parity.
pub open spec fn back_candidate(from: Position, boards: Seq<SnapshotView>, k: int) -> bool {
    let time = boards[k].coordinate.time;
    time < from.board.time && (from.board.time - time) % 2 == 0
}

/// Legal backward moves to the first `k` boards of the source timeline,
/// latest first.
pub open spec fn temporal(s: StateView, from: Position, boards: Seq<SnapshotView>, k: nat) -> Seq<
    Move,
>
    decreases k,
{
    if k == 0 {
        Seq::empty()
    } else {
        let rest = temporal(s, from, boards, (k - 1) as nat);
        let mv = back_move(from, boards[k - 1].coordinate.time);
        if back_candidate(from, boards, k - 1) && validate_full(s, mv) is Ok {
            seq![mv] + rest
        } else {
            rest
        }
    }
}

/// Legal moves of the piece at `from`: spatial moves right, left, up and
/// down, then, in multiverse play, backward moves, latest target first.
pub open spec fn moves_from(s: StateView, from: Position) -> Seq<Move> {
    if s.outcome is Some || !s.playable(from.board) {
        Seq::empty()
    } else {
        match s.piece_at(from) {
            None => Seq::empty(),
            Some(p) => if p.owner() != s.turn {
                Seq::empty()
            } else {
                let spatial = ray(s, from, 0, 1) + ray(s, from, 1, 1) + ray(s, from, 2, 1) + ray(
                    s,
                    from,
                    3,
                    1,
                );
                if s.ruleset == Ruleset::Multiverse {
                    match s.timeline_at(from.board.timeline as int) {
                        Some(t) => spatial + temporal(s, from, t.boards, t.boards.len()),
                        None => spatial,
                    }
                } else {
                    spatial
                }
            },
        }
    }
}

/// Legal moves of the side to move among the first `n` pieces of a board.
pub open spec fn board_moves(
    s: StateView,
    c: BoardCoordinate,
    pieces: Seq<(Square, Piece)>,
    n: nat,
) -> Seq<Move>
    decreases n,
{
    if n == 0 {
        Seq::empty()
    } else {
        let earlier = board_moves(s, c, pieces, (n - 1) as nat);
        if pieces[n - 1].1.owner() == s.turn {
            earlier + moves_from(s, Position { board: c, square: pieces[n - 1].0 })
        } else {
            earlier
        }
    }
}

/// Legal moves on the first `n` boards of `coords`.
pub open spec fn moves_upto(s: StateView, coords: Seq<BoardCoordinate>, n: nat) -> Seq<Move>
    decreases n,
{
    if n == 0 {
        Seq::empty()
    } else {
        let earlier = moves_upto(s, coords, (n - 1) as nat);
        match s.board_at(coords[n - 1]) {
            None => earlier,
            Some(b) => earlier + board_moves(
                s,
                coords[n - 1],
                pieces_upto(b.cells, 121),
                pieces_upto(b.cells, 121).len(),
            ),
        }
    }
}

/// Every legal move: board by board in row order, piece by piece in
/// row-major order.
pub open spec fn legal_list(s: StateView) -> Seq<Move> {
    moves_upto(s, s.playable_list(), s.playable_list().len())
}

/// The piece at `from` has some legal move.
pub open spec fn legal_destination(s: StateView, from: Position) -> bool {
    moves_from(s, from).len() > 0
}

/// Piece `i` of the board at `c` belongs to the side to move and has a
/// legal destination.
pub open spec fn piece_can_move(s: StateView, c: BoardCoordinate, i: int) -> bool {
    match s.board_at(c) {
        None => false,
        Some(b) => {
            let pieces = pieces_upto(b.cells, 121);
            &&& 0 <= i < pieces.len()
            &&& pieces[i].1.owner() == s.turn
            &&& legal_destination(s, Position { board: c, square: pieces[i].0 })
        },
    }
}

/// Some piece of the side to move on a playable board has a legal
/// destination.
pub open spec fn any_legal_move(s: StateView) -> bool {
    exists|j: int, i: int|
        0 <= j < s.playable_list().len() && #[trigger] piece_can_move(s, s.playable_list()[j], i)
}

/// Every listed piece stands on a square of the board.
pub proof fn lemma_pieces_valid(cells: Seq<Option<Piece>>, n: nat)
    requires
        n <= 121,
    ensures
        forall|i: int| 0 <= i < pieces_upto(cells, n).len() ==> (#[trigger] pieces_upto(cells, n)[i]).0.valid(),
    decreases n,
{
    if n > 0 {
        lemma_pieces_valid(cells, (n - 1) as nat);
        let earlier = pieces_upto(cells, (n - 1) as nat);
        assert(square_at(n - 1).valid());
        assert forall|i: int| 0 <= i < pieces_upto(cells, n).len() implies (#[trigger] pieces_upto(
            cells,
            n,
        )[i]).0.valid() by {
            if i < earlier.len() {
                assert(pieces_upto(cells, n)[i] == earlier[i]);
            }
        }
    }
}

/// A listed move starts and ends on the board and passes every legality
/// rule.
pub open spec fn sound_move(s: StateView, mv: Move) -> bool {
    mv.on_board() && validate_full(s, mv) is Ok
}

pub open spec fn all_sound(s: StateView, moves: Seq<Move>) -> bool {
    forall|i: int| 0 <= i < moves.len() ==> sound_move(s, #[trigger] moves[i])
}

proof fn lemma_concat_sound(s: StateView, a: Seq<Move>, b: Seq<Move>)
    requires
        all_sound(s, a),
        all_sound(s, b),
    ensures
        all_sound(s, a + b),
{
    assert forall|i: int| 0 <= i < (a + b).len() implies sound_move(s, #[trigger] (a + b)[i]) by {
        if i < a.len() {
            assert((a + b)[i] == a[i]);
        } else {
            assert((a + b)[i] == b[i - a.len()]);
        }
    }
}

proof fn lemma_shifted_valid(q: crate::model::Square, dx: int, dy: int)
    requires
        q.shifted(dx, dy) is Some,
    ensures
        q.shifted(dx, dy).unwrap().valid(),
{
}

proof fn lemma_ray_sound(s: StateView, from: Position, d: int, dist: int)
    requires
        from.square.valid(),
    ensures
        all_sound(s, ray(s, from, d, dist)),
    decreases 11 - dist,
{
    if 1 <= dist < 11 {
        let st = ray_step(d, dist);
        match from.square.shifted(st.0, st.1) {
            None => {},
            Some(q) => {
                lemma_shifted_valid(from.square, st.0, st.1);
                lemma_ray_sound(s, from, d, dist + 1);
                if validate_full(s, ray_move(from, q)) is Ok {
                    assert(all_sound(s, seq![ray_move(from, q)]));
                    lemma_concat_sound(s, seq![ray_move(from, q)], ray(s, from, d, dist + 1));
                }
            },
        }
    }
}

proof fn lemma_temporal_sound(s: StateView, from: Position, boards: Seq<SnapshotView>, k: nat)
    requires
        from.square.valid(),
    ensures
        all_sound(s, temporal(s, from, boards, k)),
    decreases k,
{
    if k > 0 {
        lemma_temporal_sound(s, from, boards, (k - 1) as nat);
        let mv = back_move(from, boards[k - 1].coordinate.time);
        if back_candidate(from, boards, k - 1) && validate_full(s, mv) is Ok {
            assert(all_sound(s, seq![mv]));
            lemma_concat_sound(s, seq![mv], temporal(s, from, boards, (k - 1) as nat));
        }
    }
}

pub proof fn lemma_moves_from_sound(s: StateView, from: Position)
    requires
        from.square.valid(),
    ensures
        all_sound(s, moves_from(s, from)),
{
    lemma_ray_sound(s, from, 0, 1);
    lemma_ray_sound(s, from, 1, 1);
    lemma_ray_sound(s, from, 2, 1);
    lemma_ray_sound(s, from, 3, 1);
    lemma_concat_sound(s, ray(s, from, 0, 1), ray(s, from, 1, 1));
    lemma_concat_sound(s, ray(s, from, 0, 1) + ray(s, from, 1, 1), ray(s, from, 2, 1));
    lemma_concat_sound(
        s,
        ray(s, from, 0, 1) + ray(s, from, 1, 1) + ray(s, from, 2, 1),
        ray(s, from, 3, 1),
    );
    let spatial = ray(s, from, 0, 1) + ray(s, from, 1, 1) + ray(s, from, 2, 1) + ray(s, from, 3, 1);
    if let Some(t) = s.timeline_at(from.board.timeline as int) {
        lemma_temporal_sound(s, from, t.boards, t.boards.len());
        lemma_concat_sound(s, spatial, temporal(s, from, t.boards, t.boards.len()));
    }
}

proof fn lemma_board_moves_sound(
    s: StateView,
    c: BoardCoordinate,
    pieces: Seq<(Square, Piece)>,
    n: nat,
)
    requires
        n <= pieces.len(),
        forall|i: int| 0 <= i < pieces.len() ==> (#[trigger] pieces[i]).0.valid(),
    ensures
        all_sound(s, board_moves(s, c, pieces, n)),
    decreases n,
{
    if n > 0 {
        lemma_board_moves_sound(s, c, pieces, (n - 1) as nat);
        let from = Position { board: c, square: pieces[n - 1].0 };
        lemma_moves_from_sound(s, from);
        lemma_concat_sound(s, board_moves(s, c, pieces, (n - 1) as nat), moves_from(s, from));
    }
}

proof fn lemma_moves_upto_sound(s: StateView, coords: Seq<BoardCoordinate>, n: nat)
    requires
        n <= coords.len(),
    ensures
        all_sound(s, moves_upto(s, coords, n)),
    decreases n,
{
    if n > 0 {
        lemma_moves_upto_sound(s, coords, (n - 1) as nat);
        if let Some(b) = s.board_at(coords[n - 1]) {
            let pieces = pieces_upto(b.cells, 121);
            lemma_pieces_valid(b.cells, 121);
            lemma_board_moves_sound(s, coords[n - 1], pieces, pieces.len());
            lemma_concat_sound(
                s,
                moves_upto(s, coords, (n - 1) as nat),
                board_moves(s, coords[n - 1], pieces, pieces.len()),
            );
        }
    }
}

/// Every listed legal move starts and ends on the board and passes every
/// legality rule, the defender's repetition rule included.
pub proof fn lemma_legal_sound(s: StateView)
    ensures
        forall|k: int|
            0 <= k < legal_list(s).len() ==> (#[trigger] legal_list(s)[k]).on_board()
                && validate_full(s, legal_list(s)[k]) is Ok,
{
    lemma_moves_upto_sound(s, s.playable_list(), s.playable_list().len());
    assert forall|k: int| 0 <= k < legal_list(s).len() implies (#[trigger] legal_list(s)[k]).on_board()
        && validate_full(s, legal_list(s)[k]) is Ok by {
        assert(sound_move(s, legal_list(s)[k]));
    }
}

proof fn lemma_in_concat(a: Seq<Move>, b: Seq<Move>, x: Move)
    ensures
        (a.contains(x) || b.contains(x)) ==> (a + b).contains(x),
{
    if a.contains(x) {
        let i = choose|i: int| 0 <= i < a.len() && a[i] == x;
        assert((a + b)[i] == a[i]);
    } else if b.contains(x) {
        let i = choose|i: int| 0 <= i < b.len() && b[i] == x;
        assert((a + b)[a.len() + i] == b[i]);
    }
}

/// Walking a ray reaches a legal destination `k` squares out when every
/// square before it is refused at most as restricted or as a repetition.
proof fn lemma_ray_reaches(s: StateView, from: Position, d: int, dist: int, k: int, q: Square)
    requires
        1 <= dist <= k < 11,
        from.square.shifted(ray_step(d, k).0, ray_step(d, k).1) == Some(q),
        validate_full(s, ray_move(from, q)) is Ok,
        forall|j: int|
            dist <= j < k ==> {
                let st = #[trigger] ray_step(d, j);
                &&& from.square.shifted(st.0, st.1) is Some
                &&& match validate_full(s, ray_move(from, from.square.shifted(st.0, st.1).unwrap())) {
                    Ok(_) => true,
                    Err(e) => e == MoveError::RestrictedDestination || e
                        == MoveError::DefenderRepetition,
                }
            },
    ensures
        ray(s, from, d, dist).contains(ray_move(from, q)),
    decreases k - dist,
{
    if dist == k {
        assert(ray(s, from, d, dist)[0] == ray_move(from, q));
    } else {
        let st = ray_step(d, dist);
        let here = from.square.shifted(st.0, st.1).unwrap();
        lemma_ray_reaches(s, from, d, dist + 1, k, q);
        if validate_full(s, ray_move(from, here)) is Ok {
            lemma_in_concat(seq![ray_move(from, here)], ray(s, from, d, dist + 1), ray_move(from, q));
        }
    }
}

/// The direction and distance of a spatial move's destination.
pub open spec fn ray_of(from: Square, to: Square) -> (int, int) {
    if from.y == to.y {
        if to.x > from.x {
            (0, to.x - from.x)
        } else {
            (1, from.x - to.x)
        }
    } else if to.y > from.y {
        (2, to.y - from.y)
    } else {
        (3, from.y - to.y)
    }
}

/// A legal spatial move is found on the ray from its source.
proof fn lemma_spatial_listed(s: StateView, mv: Move)
    requires
        mv.on_board(),
        validate_full(s, mv) is Ok,
        validate_full(s, mv).unwrap().kind == MoveKind::Spatial,
    ensures
        0 <= ray_of(mv.from.square, mv.to.square).0 < 4,
        ray(s, mv.from, ray_of(mv.from.square, mv.to.square).0, 1).contains(mv),
{
    let from = mv.from;
    let (d, k) = ray_of(mv.from.square, mv.to.square);
    let v = s.validate(mv).unwrap();
    assert(mv.to.board == mv.from.board);
    assert(1 <= k < 11);
    assert(from.square.shifted(ray_step(d, k).0, ray_step(d, k).1) == Some(mv.to.square));
    assert(ray_move(from, mv.to.square) == mv);
    assert forall|j: int|
        1 <= j < k implies {
            let st = #[trigger] ray_step(d, j);
            &&& from.square.shifted(st.0, st.1) is Some
            &&& match validate_full(s, ray_move(from, from.square.shifted(st.0, st.1).unwrap())) {
                Ok(_) => true,
                Err(e) => e == MoveError::RestrictedDestination || e == MoveError::DefenderRepetition,
            }
        } by {
        let st = ray_step(d, j);
        let q = from.square.shifted(st.0, st.1).unwrap();
        let step = ray_move(from, q);
        assert(strictly_between(from.square, mv.to.square, q));
        assert(s.piece_at(Position { board: from.board, square: q }) is None);
        assert forall|x: Square| x.valid() && strictly_between(from.square, q, x) implies (#[trigger] s.piece_at(
            Position { board: from.board, square: x },
        )) is None by {
            assert(strictly_between(from.square, mv.to.square, x));
        }
        assert(s.spatial_path_clear(step));
        assert(s.validate(step) is Ok || s.validate(step) == Err::<ValidatedMove, MoveError>(
            MoveError::RestrictedDestination,
        ));
    }
    lemma_ray_reaches(s, from, d, 1, k, mv.to.square);
}

proof fn lemma_temporal_contains(
    s: StateView,
    from: Position,
    boards: Seq<SnapshotView>,
    n: nat,
    k: int,
)
    requires
        0 <= k < n <= boards.len(),
        back_candidate(from, boards, k),
        validate_full(s, back_move(from, boards[k].coordinate.time)) is Ok,
    ensures
        temporal(s, from, boards, n).contains(back_move(from, boards[k].coordinate.time)),
    decreases n,
{
    let mv = back_move(from, boards[k].coordinate.time);
    let rest = temporal(s, from, boards, (n - 1) as nat);
    if k == n - 1 {
        assert(temporal(s, from, boards, n)[0] == mv);
    } else {
        lemma_temporal_contains(s, from, boards, (n - 1) as nat, k);
        let here = back_move(from, boards[n - 1].coordinate.time);
        if back_candidate(from, boards, n - 1) && validate_full(s, here) is Ok {
            lemma_in_concat(seq![here], rest, mv);
        }
    }
}

/// A legal move is among the moves listed for its source square.
proof fn lemma_moves_from_lists(s: StateView, mv: Move)
    requires
        s.wf(),
        mv.on_board(),
        validate_full(s, mv) is Ok,
    ensures
        moves_from(s, mv.from).contains(mv),
{
    let from = mv.from;
    let v = s.validate(mv).unwrap();
    crate::apply::lemma_validated(s, mv);
    let r0 = ray(s, from, 0, 1);
    let r1 = ray(s, from, 1, 1);
    let r2 = ray(s, from, 2, 1);
    let r3 = ray(s, from, 3, 1);
    let spatial = r0 + r1 + r2 + r3;
    if v.kind == MoveKind::Spatial {
        lemma_spatial_listed(s, mv);
        lemma_in_concat(r0, r1, mv);
        lemma_in_concat(r0 + r1, r2, mv);
        lemma_in_concat(r0 + r1 + r2, r3, mv);
        if s.ruleset == Ruleset::Multiverse {
            if let Some(t) = s.timeline_at(from.board.timeline as int) {
                lemma_in_concat(spatial, temporal(s, from, t.boards, t.boards.len()), mv);
            }
        }
    } else {
        assert(s.ruleset == Ruleset::Multiverse);
        let t = s.timeline_at(mv.to.board.timeline as int).unwrap();
        assert(t.has_time(mv.to.board.time as int));
        let k = t.time_index(mv.to.board.time as int);
        assert(t.boards[k].coordinate.time == mv.to.board.time);
        assert(back_move(from, t.boards[k].coordinate.time) == mv);
        lemma_temporal_contains(s, from, t.boards, t.boards.len(), k);
        lemma_in_concat(spatial, temporal(s, from, t.boards, t.boards.len()), mv);
    }
}

proof fn lemma_board_moves_contains(
    s: StateView,
    c: BoardCoordinate,
    pieces: Seq<(Square, Piece)>,
    n: nat,
    i: int,
    mv: Move,
)
    requires
        0 <= i < n <= pieces.len(),
        pieces[i].1.owner() == s.turn,
        moves_from(s, Position { board: c, square: pieces[i].0 }).contains(mv),
    ensures
        board_moves(s, c, pieces, n).contains(mv),
    decreases n,
{
    if i == n - 1 {
        lemma_in_concat(
            board_moves(s, c, pieces, (n - 1) as nat),
            moves_from(s, Position { board: c, square: pieces[i].0 }),
            mv,
        );
    } else {
        lemma_board_moves_contains(s, c, pieces, (n - 1) as nat, i, mv);
        if pieces[n - 1].1.owner() == s.turn {
            lemma_in_concat(
                board_moves(s, c, pieces, (n - 1) as nat),
                moves_from(s, Position { board: c, square: pieces[n - 1].0 }),
                mv,
            );
        }
    }
}

/// An occupied square of the first `n` is listed with its piece.
proof fn lemma_piece_listed(cells: Seq<Option<Piece>>, n: nat, idx: int)
    requires
        0 <= idx < n <= 121,
        cells[idx] is Some,
    ensures
        exists|i: int|
            0 <= i < pieces_upto(cells, n).len() && #[trigger] pieces_upto(cells, n)[i] == (
                square_at(idx),
                cells[idx].unwrap(),
            ),
    decreases n,
{
    let earlier = pieces_upto(cells, (n - 1) as nat);
    if idx == n - 1 {
        assert(pieces_upto(cells, n)[earlier.len() as int] == (square_at(idx), cells[idx].unwrap()));
    } else {
        lemma_piece_listed(cells, (n - 1) as nat, idx);
        let i = choose|i: int|
            0 <= i < earlier.len() && #[trigger] earlier[i] == (square_at(idx), cells[idx].unwrap());
        assert(pieces_upto(cells, n)[i] == earlier[i]);
    }
}

proof fn lemma_moves_upto_contains(
    s: StateView,
    coords: Seq<BoardCoordinate>,
    n: nat,
    j: int,
    mv: Move,
)
    requires
        0 <= j < n <= coords.len(),
        s.board_at(coords[j]) is Some,
        board_moves(
            s,
            coords[j],
            pieces_upto(s.board_at(coords[j]).unwrap().cells, 121),
            pieces_upto(s.board_at(coords[j]).unwrap().cells, 121).len(),
        ).contains(mv),
    ensures
        moves_upto(s, coords, n).contains(mv),
    decreases n,
{
    let earlier = moves_upto(s, coords, (n - 1) as nat);
    if j < n - 1 {
        lemma_moves_upto_contains(s, coords, (n - 1) as nat, j, mv);
    }
    if let Some(b) = s.board_at(coords[n - 1]) {
        lemma_in_concat(
            earlier,
            board_moves(s, coords[n - 1], pieces_upto(b.cells, 121), pieces_upto(b.cells, 121).len()),
            mv,
        );
    }
}

/// A playable board is listed among the playable boards.
proof fn lemma_playable_listed(s: StateView, c: BoardCoordinate, n: nat)
    requires
        s.wf(),
        s.playable(c),
        n <= s.timelines.len(),
        s.row_index(c.timeline as int) < n,
    ensures
        s.playable_upto(n).contains(c),
    decreases n,
{
    let r = s.row_index(c.timeline as int);
    crate::rules::lemma_row_unique(s, r);
    let earlier = s.playable_upto((n - 1) as nat);
    if r < n - 1 {
        lemma_playable_listed(s, c, (n - 1) as nat);
        let i = choose|i: int| 0 <= i < earlier.len() && earlier[i] == c;
        assert(s.playable_upto(n)[i] == earlier[i]);
    } else {
        assert(s.timelines[n - 1].last_board().unwrap().coordinate == c);
        assert(s.playable_upto(n)[earlier.len() as int] == c);
    }
}

/// Every legal move is listed: a move passing every legality rule appears
/// among the legal moves.
pub proof fn lemma_legal_complete(s: StateView, mv: Move)
    requires
        s.wf(),
        mv.on_board(),
        validate_full(s, mv) is Ok,
    ensures
        legal_list(s).contains(mv),
{
    crate::apply::lemma_validated(s, mv);
    let c = mv.from.board;
    lemma_moves_from_lists(s, mv);
    let b = s.board_at(c).unwrap();
    let idx = mv.from.square.index();
    assert(square_at(idx) == mv.from.square);
    let piece = b.cells[idx].unwrap();
    lemma_piece_listed(b.cells, 121, idx);
    let pieces = pieces_upto(b.cells, 121);
    let i = choose|i: int| 0 <= i < pieces.len() && #[trigger] pieces[i] == (square_at(idx), piece);
    lemma_board_moves_contains(s, c, pieces, pieces.len(), i, mv);
    let coords = s.playable_list();
    let r = s.row_index(c.timeline as int);
    crate::rules::lemma_row_unique(s, r);
    lemma_playable_listed(s, c, s.timelines.len());
    let j = choose|j: int| 0 <= j < coords.len() && coords[j] == c;
    lemma_moves_upto_contains(s, coords, coords.len(), j, mv);
}

/// Where a move from `from` stands in the order its moves are listed:
/// spatial moves by direction and then distance, backward moves after them
/// by increasing distance in time.
pub open spec fn move_rank(from: Position, mv: Move) -> int {
    if mv.to.board == from.board {
        ray_of(from.square, mv.to.square).0 * 11 + ray_of(from.square, mv.to.square).1
    } else {
        100 + from.board.time - mv.to.board.time
    }
}

/// The moves all start at `from` and their ranks strictly increase.
pub open spec fn rank_increasing(from: Position, ms: Seq<Move>) -> bool {
    &&& forall|i: int| 0 <= i < ms.len() ==> (#[trigger] ms[i]).from == from
    &&& forall|i: int, j: int|
        #![trigger ms[i], ms[j]]
        0 <= i < j < ms.len() ==> move_rank(from, ms[i]) < move_rank(from, ms[j])
}

/// Every move ranks within `[lo, hi)`.
pub open spec fn ranks_within(from: Position, ms: Seq<Move>, lo: int, hi: int) -> bool {
    forall|i: int| #![trigger ms[i]] 0 <= i < ms.len() ==> lo <= move_rank(from, ms[i]) && move_rank(from, ms[i]) < hi
}

proof fn lemma_rank_concat(from: Position, a: Seq<Move>, b: Seq<Move>, lo: int, mid: int, hi: int)
    requires
        rank_increasing(from, a),
        rank_increasing(from, b),
        ranks_within(from, a, lo, mid),
        ranks_within(from, b, mid, hi),
        lo <= mid <= hi,
    ensures
        rank_increasing(from, a + b),
        ranks_within(from, a + b, lo, hi),
{
    let c = a + b;
    assert forall|i: int| 0 <= i < c.len() implies (#[trigger] c[i]).from == from by {
        if i >= a.len() {
            assert(c[i] == b[i - a.len()]);
        }
    }
    assert forall|i: int, j: int|
        #![trigger c[i], c[j]]
        0 <= i < j < c.len() implies move_rank(from, c[i]) < move_rank(from, c[j]) by {
        if j < a.len() {
            assert(c[i] == a[i] && c[j] == a[j]);
        } else if i < a.len() {
            assert(c[i] == a[i] && c[j] == b[j - a.len()]);
            assert(move_rank(from, a[i]) < mid);
            assert(mid <= move_rank(from, b[j - a.len()]));
        } else {
            assert(c[i] == b[i - a.len()] && c[j] == b[j - a.len()]);
        }
    }
    assert forall|i: int| #![trigger c[i]] 0 <= i < c.len() implies lo <= move_rank(from, c[i]) && move_rank(from, c[i]) < hi by {
        if i < a.len() {
            assert(c[i] == a[i]);
            assert(lo <= move_rank(from, a[i]) < mid);
        } else {
            assert(c[i] == b[i - a.len()]);
            assert(mid <= move_rank(from, b[i - a.len()]) < hi);
        }
    }
}

/// The ray's moves lie `dist` squares out and beyond, in order.
proof fn lemma_ray_ranked(s: StateView, from: Position, d: int, dist: int)
    requires
        0 <= d < 4,
        1 <= dist,
    ensures
        rank_increasing(from, ray(s, from, d, dist)),
        ranks_within(from, ray(s, from, d, dist), d * 11 + dist, d * 11 + 11),
    decreases 11 - dist,
{
    if dist < 11 {
        lemma_ray_ranked(s, from, d, dist + 1);
        let st = ray_step(d, dist);
        if let Some(q) = from.square.shifted(st.0, st.1) {
            let mv = ray_move(from, q);
            assert(ray_of(from.square, q) == (d, dist));
            assert(move_rank(from, mv) == d * 11 + dist);
            let one = seq![mv];
            assert(rank_increasing(from, one));
            assert(ranks_within(from, one, d * 11 + dist, d * 11 + dist + 1));
            lemma_rank_concat(from, one, ray(s, from, d, dist + 1), d * 11 + dist, d * 11 + dist + 1, d * 11 + 11);
        }
    }
}

/// Backward moves go to earlier boards of the source timeline, latest
/// target first.
proof fn lemma_temporal_ranked(s: StateView, from: Position, boards: Seq<SnapshotView>, k: nat)
    requires
        k <= boards.len(),
        forall|a: int, b: int|
            #![trigger boards[a], boards[b]]
            0 <= a < b < boards.len() ==> boards[a].coordinate.time < boards[b].coordinate.time,
    ensures
        rank_increasing(from, temporal(s, from, boards, k)),
        ranks_within(from, temporal(s, from, boards, k), 101, 100 + from.board.time + 2 * 1073741824 + 2),
        forall|i: int|
            0 <= i < temporal(s, from, boards, k).len() ==> k > 0
                && (#[trigger] temporal(s, from, boards, k)[i]).to.board.time <= boards[k - 1].coordinate.time
                && temporal(s, from, boards, k)[i].to.board.time >= boards[0].coordinate.time,
    decreases k,
{
    if k > 0 {
        let rest = temporal(s, from, boards, (k - 1) as nat);
        lemma_temporal_ranked(s, from, boards, (k - 1) as nat);
        let mv = back_move(from, boards[k - 1].coordinate.time);
        if back_candidate(from, boards, k - 1) && validate_full(s, mv) is Ok {
            let one = seq![mv];
            let r = move_rank(from, mv);
            assert(mv.to.board != from.board);
            if k - 1 > 0 {
                assert(boards[0].coordinate.time <= boards[k - 1].coordinate.time);
            }
            assert(ranks_within(from, one, 101, r + 1));
            assert forall|i: int| #![trigger rest[i]] 0 <= i < rest.len() implies r + 1 <= move_rank(from, rest[i])
                && move_rank(from, rest[i]) < 100 + from.board.time + 2 * 1073741824 + 2 by {
                assert(boards[k - 2].coordinate.time < boards[k - 1].coordinate.time);
            }
            assert(rank_increasing(from, one));
            assert(ranks_within(from, rest, r + 1, 100 + from.board.time + 2 * 1073741824 + 2));
            lemma_rank_concat(from, one, rest, 101, r + 1, 100 + from.board.time + 2 * 1073741824 + 2);
            let t = temporal(s, from, boards, k);
            assert forall|i: int| 0 <= i < t.len() implies k > 0 && (#[trigger] t[i]).to.board.time
                <= boards[k - 1].coordinate.time && t[i].to.board.time >= boards[0].coordinate.time by {
                if i > 0 {
                    assert(t[i] == rest[i - 1]);
                    assert(boards[k - 2].coordinate.time < boards[k - 1].coordinate.time);
                }
            }
        } else {
            let t = temporal(s, from, boards, k);
            assert forall|i: int| 0 <= i < t.len() implies k > 0 && (#[trigger] t[i]).to.board.time
                <= boards[k - 1].coordinate.time && t[i].to.board.time >= boards[0].coordinate.time by {
                assert(boards[k - 2].coordinate.time < boards[k - 1].coordinate.time);
            }
        }
    }
}

proof fn lemma_widen(from: Position, ms: Seq<Move>, lo: int, hi: int, lo2: int, hi2: int)
    requires
        ranks_within(from, ms, lo, hi),
        lo2 <= lo,
        hi <= hi2,
    ensures
        ranks_within(from, ms, lo2, hi2),
{
}

proof fn lemma_increasing_distinct(from: Position, ms: Seq<Move>)
    requires
        rank_increasing(from, ms),
    ensures
        ms.no_duplicates(),
{
    assert forall|i: int, j: int| 0 <= i < ms.len() && 0 <= j < ms.len() && i != j implies ms[i]
        != ms[j] by {
        if i < j {
            assert(move_rank(from, ms[i]) < move_rank(from, ms[j]));
        } else {
            assert(move_rank(from, ms[j]) < move_rank(from, ms[i]));
        }
    }
}

/// The moves listed for a square are listed in rank order.
proof fn lemma_moves_from_ranked(s: StateView, from: Position)
    requires
        s.wf(),
    ensures
        rank_increasing(from, moves_from(s, from)),
{
    if !(s.outcome is Some || !s.playable(from.board)) && s.piece_at(from) is Some && s.piece_at(
        from,
    ).unwrap().owner() == s.turn {
        let r0 = ray(s, from, 0, 1);
        let r1 = ray(s, from, 1, 1);
        let r2 = ray(s, from, 2, 1);
        let r3 = ray(s, from, 3, 1);
        lemma_ray_ranked(s, from, 0, 1);
        lemma_ray_ranked(s, from, 1, 1);
        lemma_ray_ranked(s, from, 2, 1);
        lemma_ray_ranked(s, from, 3, 1);
        lemma_rank_concat(from, r0, r1, 1, 11, 22);
        lemma_widen(from, r2, 23, 33, 22, 33);
        lemma_rank_concat(from, r0 + r1, r2, 1, 22, 33);
        lemma_widen(from, r3, 34, 44, 33, 44);
        lemma_rank_concat(from, r0 + r1 + r2, r3, 1, 33, 44);
        let spatial = r0 + r1 + r2 + r3;
        if s.ruleset == Ruleset::Multiverse {
            if let Some(t) = s.timeline_at(from.board.timeline as int) {
                assert(s.timelines[s.row_index(from.board.timeline as int)].wf());
                lemma_temporal_ranked(s, from, t.boards, t.boards.len());
                let tm = temporal(s, from, t.boards, t.boards.len());
                lemma_widen(from, spatial, 1, 44, 1, 101);
                lemma_rank_concat(from, spatial, tm, 1, 101, 100 + from.board.time + 2 * 1073741824 + 2);
            }
        }
    }
}

/// The moves listed for the piece at `from` are exactly the legal moves
/// that start there, each listed once; none are listed when the game is
/// decided, the board is not playable, or no piece of the side to move
/// stands there.
pub proof fn lemma_moves_from_exact(s: StateView, from: Position)
    requires
        s.wf(),
        from.square.valid(),
    ensures
        forall|k: int|
            0 <= k < moves_from(s, from).len() ==> (#[trigger] moves_from(s, from)[k]).from == from
                && moves_from(s, from)[k].on_board() && validate_full(s, moves_from(s, from)[k]) is Ok,
        forall|mv: Move|
            mv.from == from && mv.on_board() && validate_full(s, mv) is Ok ==> #[trigger] moves_from(
                s,
                from,
            ).contains(mv),
        moves_from(s, from).no_duplicates(),
        s.outcome is Some || !s.playable(from.board) || s.piece_at(from) is None || s.piece_at(
            from,
        ).unwrap().owner() != s.turn ==> moves_from(s, from).len() == 0,
{
    lemma_moves_from_sound(s, from);
    lemma_moves_from_ranked(s, from);
    lemma_increasing_distinct(from, moves_from(s, from));
    assert forall|mv: Move|
        mv.from == from && mv.on_board() && validate_full(s, mv) is Ok implies #[trigger] moves_from(
            s,
            from,
        ).contains(mv) by {
        lemma_moves_from_lists(s, mv);
    }
    assert forall|k: int| 0 <= k < moves_from(s, from).len() implies (#[trigger] moves_from(s, from)[k]).from
        == from && moves_from(s, from)[k].on_board() && validate_full(s, moves_from(s, from)[k]) is Ok by {
        assert(sound_move(s, moves_from(s, from)[k]));
    }
}

proof fn lemma_square_at_index(i: int)
    requires
        0 <= i < 121,
    ensures
        square_at(i).valid(),
        square_at(i).index() == i,
{
    assert(0 <= i % 11 < 11 && 0 <= i / 11 < 11 && i == (i / 11) * 11 + i % 11) by (nonlinear_arith)
        requires
            0 <= i < 121,
    ;
}

/// The pieces of a board are listed by increasing square index.
proof fn lemma_pieces_sorted(cells: Seq<Option<Piece>>, n: nat)
    requires
        n <= 121,
    ensures
        forall|k: int|
            0 <= k < pieces_upto(cells, n).len() ==> (#[trigger] pieces_upto(cells, n)[k]).0.valid()
                && pieces_upto(cells, n)[k].0.index() < n,
        forall|a: int, b: int|
            #![trigger pieces_upto(cells, n)[a], pieces_upto(cells, n)[b]]
            0 <= a < b < pieces_upto(cells, n).len() ==> pieces_upto(cells, n)[a].0.index()
                < pieces_upto(cells, n)[b].0.index(),
    decreases n,
{
    if n > 0 {
        lemma_pieces_sorted(cells, (n - 1) as nat);
        lemma_square_at_index(n - 1);
        let e = pieces_upto(cells, (n - 1) as nat);
        let p = pieces_upto(cells, n);
        if cells[n - 1] is Some {
            assert(p == e.push((square_at(n - 1), cells[n - 1].unwrap())));
            assert forall|k: int| 0 <= k < p.len() implies (#[trigger] p[k]).0.valid() && p[k].0.index()
                < n by {
                if k < e.len() {
                    assert(p[k] == e[k]);
                }
            }
            assert forall|a: int, b: int|
                #![trigger p[a], p[b]]
                0 <= a < b < p.len() implies p[a].0.index() < p[b].0.index() by {
                assert(p[a] == e[a]);
                if b < e.len() {
                    assert(p[b] == e[b]);
                }
            }
        } else {
            assert(p == e);
        }
    }
}

proof fn lemma_concat_distinct(a: Seq<Move>, b: Seq<Move>)
    requires
        a.no_duplicates(),
        b.no_duplicates(),
        forall|i: int, j: int| 0 <= i < a.len() && 0 <= j < b.len() ==> a[i] != b[j],
    ensures
        (a + b).no_duplicates(),
{
    let c = a + b;
    assert forall|i: int, j: int| 0 <= i < c.len() && 0 <= j < c.len() && i != j implies c[i] != c[j] by {
        if i < a.len() && j < a.len() {
            assert(c[i] == a[i] && c[j] == a[j]);
        } else if i < a.len() {
            assert(c[i] == a[i] && c[j] == b[j - a.len()]);
        } else if j < a.len() {
            assert(c[j] == a[j] && c[i] == b[i - a.len()]);
        } else {
            assert(c[i] == b[i - a.len()] && c[j] == b[j - a.len()]);
        }
    }
}

/// The moves of a board's pieces are listed once each, piece by piece.
proof fn lemma_board_moves_distinct(s: StateView, c: BoardCoordinate, pieces: Seq<(Square, Piece)>, n: nat)
    requires
        s.wf(),
        n <= pieces.len(),
        forall|k: int| 0 <= k < pieces.len() ==> (#[trigger] pieces[k]).0.valid(),
        forall|a: int, b: int|
            #![trigger pieces[a], pieces[b]]
            0 <= a < b < pieces.len() ==> pieces[a].0.index() < pieces[b].0.index(),
    ensures
        board_moves(s, c, pieces, n).no_duplicates(),
        forall|i: int|
            0 <= i < board_moves(s, c, pieces, n).len() ==> (#[trigger] board_moves(s, c, pieces, n)[i]).from.board
                == c && n > 0 && board_moves(s, c, pieces, n)[i].from.square.index() <= pieces[n
                - 1].0.index(),
    decreases n,
{
    if n > 0 {
        let earlier = board_moves(s, c, pieces, (n - 1) as nat);
        lemma_board_moves_distinct(s, c, pieces, (n - 1) as nat);
        let here = Position { board: c, square: pieces[n - 1].0 };
        assert(pieces[n - 1].0.valid());
        lemma_moves_from_exact(s, here);
        let mine = moves_from(s, here);
        if n > 1 {
            assert(pieces[n - 2].0.index() < pieces[n - 1].0.index());
        }
        if pieces[n - 1].1.owner() == s.turn {
            assert forall|i: int, j: int| 0 <= i < earlier.len() && 0 <= j < mine.len() implies earlier[i]
                != mine[j] by {
                assert(mine[j].from == here);
            }
            lemma_concat_distinct(earlier, mine);
            let all = earlier + mine;
            assert forall|i: int| 0 <= i < all.len() implies (#[trigger] all[i]).from.board == c && n > 0
                && all[i].from.square.index() <= pieces[n - 1].0.index() by {
                if i < earlier.len() {
                    assert(all[i] == earlier[i]);
                } else {
                    assert(all[i] == mine[i - earlier.len()]);
                }
            }
        }
    }
}

/// Playable boards are listed by strictly increasing row.
proof fn lemma_playable_rows(s: StateView, n: nat)
    requires
        s.wf(),
        n <= s.timelines.len(),
    ensures
        forall|i: int|
            0 <= i < s.playable_upto(n).len() ==> n > 0 && (#[trigger] s.playable_upto(n)[i]).timeline
                <= s.timelines[n - 1].row,
        forall|a: int, b: int|
            #![trigger s.playable_upto(n)[a], s.playable_upto(n)[b]]
            0 <= a < b < s.playable_upto(n).len() ==> s.playable_upto(n)[a].timeline < s.playable_upto(
                n,
            )[b].timeline,
    decreases n,
{
    if n > 0 {
        lemma_playable_rows(s, (n - 1) as nat);
        let t = s.timelines[n - 1];
        assert(t.wf());
        if n > 1 {
            assert(s.timelines[n - 2].row < s.timelines[n - 1].row);
        }
        let e = s.playable_upto((n - 1) as nat);
        let p = s.playable_upto(n);
        if t.boards.len() > 0 && s.playable(t.last_board().unwrap().coordinate) {
            let c = t.last_board().unwrap().coordinate;
            assert(c.timeline == t.row);
            assert(p == e.push(c));
            assert forall|i: int| 0 <= i < p.len() implies n > 0 && (#[trigger] p[i]).timeline
                <= s.timelines[n - 1].row by {
                if i < e.len() {
                    assert(p[i] == e[i]);
                }
            }
            assert forall|a: int, b: int|
                #![trigger p[a], p[b]]
                0 <= a < b < p.len() implies p[a].timeline < p[b].timeline by {
                assert(p[a] == e[a]);
                if b < e.len() {
                    assert(p[b] == e[b]);
                }
            }
        } else {
            assert(p == e);
            assert forall|i: int| 0 <= i < p.len() implies n > 0 && (#[trigger] p[i]).timeline
                <= s.timelines[n - 1].row by {
                assert(p[i] == e[i]);
            }
        }
    }
}

/// The moves on the first `n` boards of `coords` are listed once each.
proof fn lemma_moves_upto_distinct(s: StateView, coords: Seq<BoardCoordinate>, n: nat)
    requires
        s.wf(),
        n <= coords.len(),
        forall|a: int, b: int|
            #![trigger coords[a], coords[b]]
            0 <= a < b < coords.len() ==> coords[a].timeline < coords[b].timeline,
    ensures
        moves_upto(s, coords, n).no_duplicates(),
        forall|i: int|
            0 <= i < moves_upto(s, coords, n).len() ==> n > 0 && (#[trigger] moves_upto(s, coords, n)[i]).from.board.timeline
                <= coords[n - 1].timeline,
    decreases n,
{
    if n > 0 {
        let earlier = moves_upto(s, coords, (n - 1) as nat);
        lemma_moves_upto_distinct(s, coords, (n - 1) as nat);
        if n > 1 {
            assert(coords[n - 2].timeline < coords[n - 1].timeline);
        }
        if let Some(b) = s.board_at(coords[n - 1]) {
            let pieces = pieces_upto(b.cells, 121);
            lemma_pieces_sorted(b.cells, 121);
            lemma_board_moves_distinct(s, coords[n - 1], pieces, pieces.len());
            let mine = board_moves(s, coords[n - 1], pieces, pieces.len());
            assert forall|i: int, j: int| 0 <= i < earlier.len() && 0 <= j < mine.len() implies earlier[i]
                != mine[j] by {
                assert(mine[j].from.board == coords[n - 1]);
            }
            lemma_concat_distinct(earlier, mine);
            let all = earlier + mine;
            assert forall|i: int| 0 <= i < all.len() implies n > 0 && (#[trigger] all[i]).from.board.timeline
                <= coords[n - 1].timeline by {
                if i < earlier.len() {
                    assert(all[i] == earlier[i]);
                } else {
                    assert(all[i] == mine[i - earlier.len()]);
                }
            }
        }
    }
}

/// Every legal move is listed exactly once.
pub proof fn lemma_legal_distinct(s: StateView)
    requires
        s.wf(),
    ensures
        legal_list(s).no_duplicates(),
{
    lemma_playable_rows(s, s.timelines.len());
    lemma_moves_upto_distinct(s, s.playable_list(), s.playable_list().len());
}

/// Some piece of the side to move can move exactly when some legal move is
/// listed.
pub proof fn lemma_any_legal_move_iff_listed(s: StateView)
    requires
        s.wf(),
    ensures
        any_legal_move(s) <==> legal_list(s).len() > 0,
{
    let coords = s.playable_list();
    if any_legal_move(s) {
        let (j, i) = choose|j: int, i: int|
            0 <= j < coords.len() && #[trigger] piece_can_move(s, coords[j], i);
        let c = coords[j];
        let b = s.board_at(c).unwrap();
        let pieces = pieces_upto(b.cells, 121);
        let from = Position { board: c, square: pieces[i].0 };
        let mv = moves_from(s, from)[0];
        assert(moves_from(s, from).contains(mv));
        lemma_board_moves_contains(s, c, pieces, pieces.len(), i, mv);
        lemma_moves_upto_contains(s, coords, coords.len(), j, mv);
    }
    if legal_list(s).len() > 0 {
        let mv = legal_list(s)[0];
        lemma_legal_sound(s);
        assert(mv.on_board() && validate_full(s, mv) is Ok);
        crate::apply::lemma_validated(s, mv);
        lemma_moves_from_lists(s, mv);
        let c = mv.from.board;
        let b = s.board_at(c).unwrap();
        let idx = mv.from.square.index();
        assert(square_at(idx) == mv.from.square);
        let piece = b.cells[idx].unwrap();
        lemma_piece_listed(b.cells, 121, idx);
        let pieces = pieces_upto(b.cells, 121);
        let i = choose|i: int| 0 <= i < pieces.len() && #[trigger] pieces[i] == (square_at(idx), piece);
        let r = s.row_index(c.timeline as int);
        crate::rules::lemma_row_unique(s, r);
        lemma_playable_listed(s, c, s.timelines.len());
        let j = choose|j: int| 0 <= j < coords.len() && coords[j] == c;
        assert(moves_from(s, mv.from).len() > 0);
        assert(piece_can_move(s, coords[j], i));
    }
}

proof fn lemma_playable_upto_sound(s: StateView, n: nat)
    requires
        n <= s.timelines.len(),
    ensures
        forall|i: int| 0 <= i < s.playable_upto(n).len() ==> s.playable(#[trigger] s.playable_upto(n)[i]),
    decreases n,
{
    if n > 0 {
        lemma_playable_upto_sound(s, (n - 1) as nat);
        let e = s.playable_upto((n - 1) as nat);
        let p = s.playable_upto(n);
        assert forall|i: int| 0 <= i < p.len() implies s.playable(#[trigger] p[i]) by {
            if i < e.len() {
                assert(p[i] == e[i]);
            }
        }
    }
}

/// The playable boards are listed exactly, by strictly increasing row, so
/// once each and at most one per timeline.
pub proof fn lemma_playable_list_exact(s: StateView)
    requires
        s.wf(),
    ensures
        forall|i: int| 0 <= i < s.playable_list().len() ==> s.playable(#[trigger] s.playable_list()[i]),
        forall|c: BoardCoordinate| s.playable(c) ==> #[trigger] s.playable_list().contains(c),
        forall|a: int, b: int|
            #![trigger s.playable_list()[a], s.playable_list()[b]]
            0 <= a < b < s.playable_list().len() ==> s.playable_list()[a].timeline < s.playable_list()[b].timeline,
{
    lemma_playable_upto_sound(s, s.timelines.len());
    lemma_playable_rows(s, s.timelines.len());
    assert forall|c: BoardCoordinate| s.playable(c) implies #[trigger] s.playable_list().contains(c) by {
        assert(s.has_row(c.timeline as int));
        lemma_playable_listed(s, c, s.timelines.len());
    }
}

/// The offset along direction `d` for `dist` squares.
fn step_for(d: u8, dist: i32) -> (r: (i32, i32))
    requires
        d < 4,
        0 <= dist <= 11,
    ensures
        r.0 == ray_step(d as int, dist as int).0,
        r.1 == ray_step(d as int, dist as int).1,
{
    if d == 0 {
        (dist, 0)
    } else if d == 1 {
        (-dist, 0)
    } else if d == 2 {
        (0, dist)
    } else {
        (0, -dist)
    }
}

impl State {
    /// Checks every legality rule, including the defender's repetition
    /// rule, without changing the position.
    pub(crate) fn validate_move_fully(&self, mv: Move) -> (r: Result<ValidatedMove, MoveError>)
        requires
            self@.wf(),
            self@.checkable(mv),
            move_room(self@),
        ensures
            r == validate_full(self@, mv),
            r is Ok ==> mv.on_board(),
    {
        let v = match self.validate_move(mv) {
            Ok(v) => v,
            Err(e) => {
                return Err(e);
            },
        };
        if v.piece.side() == Side::Defender {
            let mut next = self.duplicate();
            let created = next.apply_validated_move(mv, v);
            if next.repeats_ancestor(&created) {
                return Err(MoveError::DefenderRepetition);
            }
        }
        Ok(v)
    }

    /// Appends the legal spatial moves along direction `d`.
    fn ray_moves(&self, from: Position, d: u8, moves: &mut Vec<Move>)
        requires
            self@.wf(),
            move_room(self@),
            from.square.valid(),
            d < 4,
        ensures
            final(moves)@ == old(moves)@ + ray(self@, from, d as int, 1),
    {
        let ghost start = moves@;
        let mut distance: i32 = 1;
        while distance < 11
            invariant
                1 <= distance <= 11,
                start == old(moves)@,
                self@.wf(),
                move_room(self@),
                from.square.valid(),
                d < 4,
                start + ray(self@, from, d as int, 1) == moves@ + ray(
                    self@,
                    from,
                    d as int,
                    distance as int,
                ),
            decreases 11 - distance,
        {
            let (dx, dy) = step_for(d, distance);
            let Some(square) = from.square.offset(dx, dy) else {
                assert(moves@ + ray(self@, from, d as int, distance as int) =~= moves@);
                return;
            };
            let candidate = Move::new(from, Position::new(from.board, square));
            assert(candidate == ray_move(from, square));
            match self.validate_move_fully(candidate) {
                Ok(_) => {
                    let ghost before = moves@;
                    moves.push(candidate);
                    assert(before + ray(self@, from, d as int, distance as int) =~= moves@ + ray(
                        self@,
                        from,
                        d as int,
                        distance + 1,
                    ));
                },
                Err(e) => {
                    if e != MoveError::RestrictedDestination && e != MoveError::DefenderRepetition {
                        assert(moves@ + ray(self@, from, d as int, distance as int) =~= moves@);
                        return;
                    }
                },
            }
            distance = distance + 1;
        }
        assert(moves@ + ray(self@, from, d as int, distance as int) =~= moves@);
    }

    /// Appends the legal backward moves to boards of timeline `index`,
    /// latest target first.
    fn temporal_moves(&self, from: Position, index: usize, moves: &mut Vec<Move>)
        requires
            self@.wf(),
            move_room(self@),
            from.square.valid(),
            index < self.timelines@.len(),
        ensures
            final(moves)@ == old(moves)@ + temporal(
                self@,
                from,
                self@.timelines[index as int].boards,
                self@.timelines[index as int].boards.len(),
            ),
    {
        let timeline = &self.timelines[index];
        assert(self@.timelines[index as int] == timeline@);
        let ghost boards = timeline@.boards;
        let ghost start = moves@;
        let mut k: usize = timeline.boards.len();
        while k > 0
            invariant
                k <= boards.len(),
                boards == timeline@.boards,
                start == old(moves)@,
                self@.wf(),
                move_room(self@),
                from.square.valid(),
                start + temporal(self@, from, boards, boards.len()) == moves@ + temporal(
                    self@,
                    from,
                    boards,
                    k as nat,
                ),
            decreases k,
        {
            let time = timeline.boards[k - 1].coordinate.time;
            assert(boards[k - 1].coordinate.time == time);
            let candidate = Move::new(
                from,
                Position::new(BoardCoordinate::new(time, from.board.timeline), from.square),
            );
            assert(candidate == back_move(from, time));
            let ghost before = moves@;
            let parity_matches = time < from.board.time && (from.board.time as i64 - time as i64)
                % 2 == 0;
            if parity_matches && self.validate_move_fully(candidate).is_ok() {
                moves.push(candidate);
            }
            assert(before + temporal(self@, from, boards, k as nat) =~= moves@ + temporal(
                self@,
                from,
                boards,
                (k - 1) as nat,
            ));
            k = k - 1;
        }
        assert(moves@ + temporal(self@, from, boards, 0) =~= moves@);
    }

    /// Legal moves of the piece at `from`.
    pub(crate) fn legal_moves_from(&self, from: Position) -> (r: Vec<Move>)
        requires
            self@.wf(),
            move_room(self@),
            from.square.valid() || self@.outcome is Some || !self@.playable(from.board),
        ensures
            r@ == moves_from(self@, from),
    {
        let mut moves: Vec<Move> = Vec::new();
        if self.outcome.is_some() || !self.is_playable_board(from.board) {
            return moves;
        }
        let Some(piece) = self.piece_at(from) else {
            return moves;
        };
        if piece.side() != self.turn {
            return moves;
        }
        self.ray_moves(from, 0, &mut moves);
        self.ray_moves(from, 1, &mut moves);
        self.ray_moves(from, 2, &mut moves);
        self.ray_moves(from, 3, &mut moves);
        assert(moves@ =~= ray(self@, from, 0, 1) + ray(self@, from, 1, 1) + ray(self@, from, 2, 1)
            + ray(self@, from, 3, 1));
        if self.ruleset == Ruleset::Multiverse {
            let Some(index) = self.find_row(from.board.timeline) else {
                return moves;
            };
            self.temporal_moves(from, index, &mut moves);
        }
        moves
    }

    /// Every legal move of the side to move.
    pub(crate) fn legal_moves(&self) -> (r: Vec<Move>)
        requires
            self@.wf(),
            move_room(self@),
        ensures
            r@ == legal_list(self@),
    {
        let coords = self.playable_coordinates();
        let mut moves: Vec<Move> = Vec::new();
        let mut j: usize = 0;
        while j < coords.len()
            invariant
                j <= coords@.len(),
                coords@ == self@.playable_list(),
                self@.wf(),
                move_room(self@),
                moves@ == moves_upto(self@, coords@, j as nat),
            decreases coords@.len() - j,
        {
            let c = coords[j];
            if let Some(snapshot) = self.board(c) {
                let pieces = snapshot.board.pieces();
                proof {
                    lemma_pieces_valid(snapshot.board@, 121);
                }
                let ghost earlier = moves@;
                let mut i: usize = 0;
                while i < pieces.len()
                    invariant
                        i <= pieces@.len(),
                        pieces@ == pieces_upto(snapshot.board@, 121),
                        forall|m: int| 0 <= m < pieces@.len() ==> (#[trigger] pieces@[m]).0.valid(),
                        self@.wf(),
                        move_room(self@),
                        moves@ == earlier + board_moves(self@, c, pieces@, i as nat),
                    decreases pieces@.len() - i,
                {
                    let (square, piece) = pieces[i];
                    if piece.side() == self.turn {
                        let mut more = self.legal_moves_from(Position::new(c, square));
                        let ghost prior = moves@;
                        moves.append(&mut more);
                        assert(moves@ =~= earlier + board_moves(self@, c, pieces@, (i + 1) as nat));
                    }
                    i = i + 1;
                }
            }
            j = j + 1;
        }
        moves
    }

    /// Whether the piece at `from` has some legal move.
    fn has_legal_destination(&self, from: Position) -> (r: bool)
        requires
            self@.wf(),
            move_room(self@),
            from.square.valid(),
        ensures
            r == legal_destination(self@, from),
    {
        let moves = self.legal_moves_from(from);
        moves.len() > 0
    }

    /// Whether some piece of the side to move on a playable board has a
    /// legal destination.
    pub(crate) fn has_any_legal_move(&self) -> (r: bool)
        requires
            self@.wf(),
            move_room(self@),
        ensures
            r == any_legal_move(self@),
    {
        let coords = self.playable_coordinates();
        let mut j: usize = 0;
        while j < coords.len()
            invariant
                j <= coords@.len(),
                coords@ == self@.playable_list(),
                self@.wf(),
                move_room(self@),
                forall|a: int, i: int| 0 <= a < j ==> !#[trigger] piece_can_move(self@, coords@[a], i),
            decreases coords@.len() - j,
        {
            let c = coords[j];
            if let Some(snapshot) = self.board(c) {
                let pieces = snapshot.board.pieces();
                proof {
                    lemma_pieces_valid(snapshot.board@, 121);
                }
                let mut i: usize = 0;
                while i < pieces.len()
                    invariant
                        i <= pieces@.len(),
                        j < coords@.len(),
                        c == coords@[j as int],
                        coords@ == self@.playable_list(),
                        pieces@ == pieces_upto(snapshot.board@, 121),
                        self@.board_at(c) == Some(snapshot@),
                        forall|m: int| 0 <= m < pieces@.len() ==> (#[trigger] pieces@[m]).0.valid(),
                        self@.wf(),
                        move_room(self@),
                        forall|m: int| 0 <= m < i ==> !#[trigger] piece_can_move(self@, c, m),
                    decreases pieces@.len() - i,
                {
                    let (square, piece) = pieces[i];
                    if piece.side() == self.turn && self.has_legal_destination(
                        Position::new(c, square),
                    ) {
                        assert(piece_can_move(self@, coords@[j as int], i as int));
                        return true;
                    }
                    i = i + 1;
                }
                assert forall|m: int| !#[trigger] piece_can_move(self@, c, m) by {
                    if 0 <= m < pieces@.len() {
                    }
                }
            }
            j = j + 1;
        }
        false
    }
}

} // verus!
