//! Properties of the engine that span several operations.

use vstd::prelude::*;
use crate::apply::{lemma_apply_frame, lemma_validated};
use crate::game::{applied, submittable, submitted, undone, GameModel};
use crate::legal::{legal_list, lemma_legal_sound, validate_full};
use crate::model::{side_for_time, BoardCoordinate, GameOutcome, Move, OutcomeReason, Ruleset, Side};
use crate::history::{ancestor, lemma_repeat_has_ancestor, lemma_repeat_of_any_ancestor, repeats, repeats_at};
use crate::player::{GameView, PlayerAction};
use crate::raven::raven_choice;
use crate::rules::{MoveError, MoveKind, StateView};
use crate::turn::{finished, played, to_move_text, turn_completable};

verus! {

/// Checking a move and playing it agree: a move is played exactly when it
/// passes every check, and a refused move is refused for the same reason.
pub proof fn lemma_check_agrees_with_play(s: StateView, mv: Move)
    ensures
        match validate_full(s, mv) {
            Ok(_) => played(s, mv) is Ok,
            Err(e) => played(s, mv) == Err::<StateView, MoveError>(e),
        },
{
    reveal(played);
}

/// Playing a move keeps the rules and the side to move, and leaves the
/// decided outcome decided.
pub proof fn lemma_play_frame(s: StateView, mv: Move)
    requires
        played(s, mv) is Ok,
    ensures
        played(s, mv).unwrap().ruleset == s.ruleset,
        played(s, mv).unwrap().turn == s.turn,
{
    reveal(played);
    let v = s.validate(mv).unwrap();
    lemma_apply_frame(s, mv, v);
}

/// Once the game is decided every move is refused as game over, and the
/// game is left unchanged.
pub proof fn lemma_decided_game_refuses_moves(g: GameModel, mv: Move)
    requires
        g.state.outcome is Some,
    ensures
        validate_full(g.state, mv) == Err::<crate::rules::ValidatedMove, MoveError>(MoveError::GameOver),
        applied(g, mv) == Err::<GameModel, MoveError>(MoveError::GameOver),
{
    reveal(played);
}

/// A move is played only from an active latest board of the side to move:
/// on L0 in classic play, at the Present in multiverse play.
pub proof fn lemma_moves_start_on_playable_boards(s: StateView, mv: Move)
    requires
        validate_full(s, mv) is Ok,
    ensures
        s.outcome is None,
        s.is_active(mv.from.board.timeline as int),
        s.latest_coordinate(mv.from.board.timeline as int) == Some(mv.from.board),
        side_for_time(mv.from.board.time as int) == s.turn,
        s.ruleset == Ruleset::Classic ==> mv.from.board.timeline == 0,
        s.ruleset == Ruleset::Multiverse ==> s.present() == Some(mv.from.board.time),
        s.piece_at(mv.from) is Some && s.piece_at(mv.from).unwrap().owner() == s.turn,
{
    lemma_validated(s, mv);
}

/// Time travel happens only in multiverse play: backward along one
/// timeline by a positive even number of turns, keeping the square, onto a
/// board of the moving side's own parity.
pub proof fn lemma_time_travel_shape(s: StateView, mv: Move)
    requires
        validate_full(s, mv) is Ok,
        validate_full(s, mv).unwrap().kind == MoveKind::Temporal,
    ensures
        s.ruleset == Ruleset::Multiverse,
        mv.to.square == mv.from.square,
        mv.to.board.timeline == mv.from.board.timeline,
        mv.to.board.time < mv.from.board.time,
        (mv.from.board.time - mv.to.board.time) % 2 == 0,
        side_for_time(mv.to.board.time as int) == validate_full(s, mv).unwrap().piece.owner(),
        s.temporal_path_clear(mv),
{
}

/// In classic play a move passes the turn at once and stages nothing.
pub proof fn lemma_classic_move_passes_turn(g: GameModel, mv: Move)
    requires
        g.state.ruleset == Ruleset::Classic,
        applied(g, mv) is Ok,
    ensures
        applied(g, mv).unwrap().state.turn == g.state.turn.other(),
        applied(g, mv).unwrap().staged.len() == 0,
{
    lemma_play_frame(g.state, mv);
}

/// In multiverse play a move is staged: the side to move stays the same
/// and the position before the move is remembered.
pub proof fn lemma_multiverse_move_is_staged(g: GameModel, mv: Move)
    requires
        g.state.ruleset == Ruleset::Multiverse,
        applied(g, mv) is Ok,
    ensures
        applied(g, mv).unwrap().state.turn == g.state.turn,
        applied(g, mv).unwrap().state.ruleset == Ruleset::Multiverse,
        applied(g, mv).unwrap().staged == g.staged.push(g.state),
{
    lemma_play_frame(g.state, mv);
}

/// Undoing a staged multiverse move restores the whole position before
/// it, down to every board, the turn and the outcome; only the status
/// message is rewritten.
pub proof fn lemma_undo_restores_staged_move(g: GameModel, mv: Move)
    requires
        g.state.ruleset == Ruleset::Multiverse,
        applied(g, mv) is Ok,
    ensures
        undone(applied(g, mv).unwrap()) == Ok::<GameModel, MoveError>(
            GameModel {
                state: StateView {
                    message: if g.staged.len() == 0 {
                        to_move_text(g.state.turn)
                    } else {
                        "Undid staged move."@
                    },
                    ..g.state
                },
                staged: g.staged,
            },
        ),
{
    lemma_play_frame(g.state, mv);
    let g2 = applied(g, mv).unwrap();
    assert(g2.staged.drop_last() =~= g.staged);
}

/// Submitting a turn hands play to the side whose boards sit at the
/// Present, and clears the staged moves.
pub proof fn lemma_submit_hands_turn_to_present(g: GameModel)
    requires
        submitted(g) is Ok,
        g.state.outcome is None,
    ensures
        submitted(g).unwrap().state.turn == side_for_time(g.state.present().unwrap() as int),
        submitted(g).unwrap().staged.len() == 0,
        submitted(g).unwrap().state.timelines == g.state.timelines,
{
}

/// A turn can be submitted exactly when submitting it succeeds in a game
/// still running or decided.
pub proof fn lemma_submittable_means_submit_succeeds(g: GameModel)
    requires
        submittable(g),
        g.state.outcome is Some || g.state.present() is Some,
    ensures
        submitted(g) is Ok,
{
}

/// L0, and any timeline nobody created, is always active.
pub proof fn lemma_unowned_timelines_are_active(s: StateView, row: int)
    requires
        s.timeline_at(row) is Some,
        s.timeline_at(row).unwrap().owner is None,
    ensures
        s.is_active(row),
{
}

/// Raven answers from the view of a game with the submission when the turn
/// can be submitted, with a legal move otherwise, and with its refusal only
/// when no legal move exists.
pub proof fn lemma_raven_answers_legally(state: u64, g: GameModel, view: GameView)
    requires
        view.shows(g),
    ensures
        match raven_choice(state, view.can_submit, view.legal_moves@).1 {
            Ok(PlayerAction::SubmitTurn) => submittable(g),
            Ok(PlayerAction::Move { movement }) => movement.on_board() && validate_full(
                g.state,
                movement,
            ) is Ok,
            Err(_) => legal_list(g.state).len() == 0,
        },
{
    lemma_legal_sound(g.state);
    if !view.can_submit && view.legal_moves@.len() > 0 {
        let next = crate::raven::xorshift(state);
        let index = next as int % view.legal_moves@.len() as int;
        assert(0 <= index < view.legal_moves@.len());
        assert(view.legal_moves@[index] == legal_list(g.state)[index]);
    }
}

/// When the turn changes hands in a running game, the side to move loses
/// for want of a legal turn exactly when it cannot complete one; nothing
/// else about the position changes.
pub proof fn lemma_no_legal_turn_loses(s: StateView)
    requires
        s.outcome is None,
    ensures
        finished(s).outcome == (if turn_completable(s) {
            None
        } else {
            Some(GameOutcome { winner: s.turn.other(), reason: OutcomeReason::NoLegalTurn })
        }),
        finished(s).turn == s.turn,
        finished(s).timelines == s.timelines,
        finished(s).ruleset == s.ruleset,
{
}

/// A legal defender move is refused for repetition exactly when one of the
/// boards it creates holds the same placement as a board reached from it
/// through one or more parent links, whatever that board's time or side to
/// move; otherwise it passes. (Every position a move produces is well
/// formed: `State::apply_validated_move` ensures it.)
pub proof fn lemma_defender_repetition_refused(s: StateView, mv: Move)
    requires
        s.validate(mv) is Ok,
        s.validate(mv).unwrap().piece.owner() == Side::Defender,
        s.apply_validated(mv, s.validate(mv).unwrap()).0.wf(),
    ensures
        ({
            let (post, created) = s.apply_validated(mv, s.validate(mv).unwrap());
            (validate_full(s, mv) == Err::<crate::rules::ValidatedMove, MoveError>(MoveError::DefenderRepetition))
                <==> exists|k: int, n: nat, a: BoardCoordinate|
                #![trigger ancestor(post, created[k], n), post.board_at(a)]
                0 <= k < created.len() && n >= 1 && post.board_at(created[k]) is Some && ancestor(
                    post,
                    created[k],
                    n,
                ) == Some(a) && post.board_at(a) is Some && post.board_at(a).unwrap().cells
                    == post.board_at(created[k]).unwrap().cells
        }),
        validate_full(s, mv) is Ok || validate_full(s, mv) == Err::<crate::rules::ValidatedMove, MoveError>(
            MoveError::DefenderRepetition,
        ),
{
    let v = s.validate(mv).unwrap();
    let (post, created) = s.apply_validated(mv, v);
    if repeats(post, created) {
        let k = choose|k: int| 0 <= k < created.len() && #[trigger] repeats_at(post, created[k]);
        lemma_repeat_has_ancestor(post, created[k]);
        let (n, a) = choose|n: nat, a: BoardCoordinate|
            #![trigger ancestor(post, created[k], n), post.board_at(a)]
            n >= 1 && ancestor(post, created[k], n) == Some(a) && post.board_at(a) is Some
                && post.board_at(a).unwrap().cells == post.board_at(created[k]).unwrap().cells;
        assert(post.board_at(created[k]) is Some);
        assert(ancestor(post, created[k], n) == Some(a) && post.board_at(a) is Some);
    }
    if exists|k: int, n: nat, a: BoardCoordinate|
        #![trigger ancestor(post, created[k], n), post.board_at(a)]
        0 <= k < created.len() && n >= 1 && post.board_at(created[k]) is Some && ancestor(post, created[k], n)
            == Some(a) && post.board_at(a) is Some && post.board_at(a).unwrap().cells == post.board_at(
            created[k],
        ).unwrap().cells {
        let (k, n, a) = choose|k: int, n: nat, a: BoardCoordinate|
            #![trigger ancestor(post, created[k], n), post.board_at(a)]
            0 <= k < created.len() && n >= 1 && post.board_at(created[k]) is Some && ancestor(
                post,
                created[k],
                n,
            ) == Some(a) && post.board_at(a) is Some && post.board_at(a).unwrap().cells
                == post.board_at(created[k]).unwrap().cells;
        lemma_repeat_of_any_ancestor(post, created[k], n, a);
        assert(repeats_at(post, created[k]));
    }
}

} // verus!
