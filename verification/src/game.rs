//! The game: a position plus the staged moves of the current multiverse
//! turn, with transactional move application, undo and turn submission.

use vstd::prelude::*;
use crate::branch::{branched_from, keeps_boards, keeps_rows};
use crate::legal::{any_legal_move, legal_list, moves_from, validate_full};
use crate::model::{
    copenhagen_piece, Board, BoardCoordinate, BoardSnapshot, GameOutcome, Move, Piece, Position,
    Ruleset, Side, SnapshotView, Timeline, TimelineView, side_for_time,
};
use crate::rules::{MoveError, StateView, COORDINATE_BOUND};
use crate::player::PlayerAction;
use crate::state::State;
use crate::turn::{finished, played, successor_made, to_move_message, to_move_text, PLAY_BOUND};

verus! {

broadcast use crate::model::lemma_board_cells;

/// The mathematical content of a game: the current position and, oldest
/// first, the positions before each staged move of the turn.
pub struct GameModel {
    pub state: StateView,
    pub staged: Seq<StateView>,
}

impl GameModel {
    /// Every coordinate is small enough for the game to go on.
    pub open spec fn roomy(self) -> bool {
        self.state.bounded_by(PLAY_BOUND as int)
    }

    /// The position and every staged position are well formed.
    pub open spec fn wf(self) -> bool {
        &&& self.state.wf()
        &&& forall|i: int| 0 <= i < self.staged.len() ==> (#[trigger] self.staged[i]).wf()
    }
}

/// The Copenhagen starting placement.
pub open spec fn copenhagen_cells() -> Seq<Option<Piece>> {
    Seq::new(121, |i: int| copenhagen_piece(i % 11, i / 11))
}

/// A game that starts from `cells` on T0L0, or on T1L0 when the defenders
/// are to move.
pub open spec fn origin(ruleset: Ruleset, cells: Seq<Option<Piece>>, side: Side) -> GameModel {
    let c = BoardCoordinate {
        time: if side == Side::Defender {
            1
        } else {
            0
        },
        timeline: 0,
    };
    GameModel {
        state: StateView {
            ruleset,
            turn: side,
            timelines: seq![
                TimelineView {
                    row: 0,
                    owner: None,
                    boards: seq![SnapshotView { coordinate: c, cells, parent: None, created_by: None }],
                },
            ],
            outcome: None,
            message: to_move_text(side),
        },
        staged: Seq::empty(),
    }
}

/// The game after a move: in classic play the turn passes at once; in
/// multiverse play the move is staged.
pub open spec fn applied(g: GameModel, mv: Move) -> Result<GameModel, MoveError> {
    match played(g.state, mv) {
        Err(e) => Err(e),
        Ok(n) => if n.ruleset == Ruleset::Classic {
            Ok(
                GameModel {
                    state: finished(StateView { turn: n.turn.other(), ..n }),
                    staged: Seq::empty(),
                },
            )
        } else {
            Ok(GameModel { state: n, staged: g.staged.push(g.state) })
        },
    }
}

/// The game with its latest staged move taken back.
pub open spec fn undone(g: GameModel) -> Result<GameModel, MoveError> {
    if g.staged.len() == 0 {
        Err(MoveError::NothingToUndo)
    } else {
        let previous = g.staged.last();
        let rest = g.staged.drop_last();
        Ok(
            GameModel {
                state: StateView {
                    message: if rest.len() == 0 {
                        to_move_text(previous.turn)
                    } else {
                        "Undid staged move."@
                    },
                    ..previous
                },
                staged: rest,
            },
        )
    }
}

/// What playing `action` does to a game: a move is applied, a submission
/// commits the turn.
pub open spec fn acted(g: GameModel, action: PlayerAction) -> Result<GameModel, MoveError> {
    match action {
        PlayerAction::Move { movement } => applied(g, movement),
        PlayerAction::SubmitTurn => submitted(g),
    }
}

/// The game after the staged multiverse turn is submitted: play passes to
/// the side the Present names.
pub open spec fn submitted(g: GameModel) -> Result<GameModel, MoveError> {
    if g.state.ruleset == Ruleset::Classic || g.staged.len() == 0 {
        Err(MoveError::NothingToSubmit)
    } else if g.state.pending(g.state.turn) {
        Err(MoveError::PendingPresentBoards)
    } else if g.state.outcome is None {
        match g.state.present() {
            None => Err(MoveError::MissingBoard),
            Some(p) => Ok(
                GameModel {
                    state: finished(StateView { turn: side_for_time(p as int), ..g.state }),
                    staged: Seq::empty(),
                },
            ),
        }
    } else {
        Ok(GameModel { state: g.state, staged: Seq::empty() })
    }
}

/// A staged multiverse turn may be submitted.
pub open spec fn submittable(g: GameModel) -> bool {
    g.state.ruleset == Ruleset::Multiverse && g.staged.len() > 0 && !g.state.pending(g.state.turn)
}

/// A game of Copenhagen hnefatafl, classic or multiverse.
pub struct Game {
    state: State,
    staged: Vec<State>,
}

impl View for Game {
    type V = GameModel;

    closed spec fn view(&self) -> GameModel {
        GameModel { state: self.state@, staged: self.staged@.map_values(|s: State| s@) }
    }
}

impl Game {
    #[verifier::type_invariant]
    closed spec fn inv(self) -> bool {
        self@.wf()
    }

    /// A new game from the Copenhagen starting position, attackers to move.
    pub fn new(ruleset: Ruleset) -> (r: Self)
        ensures
            r@ == origin(ruleset, copenhagen_cells(), Side::Attacker),
    {
        let board = Board::copenhagen();
        assert(board@ =~= copenhagen_cells());
        Self::from_board(ruleset, board, Side::Attacker)
    }

    /// A new game from an arbitrary board with `side` to move.
    pub fn from_board(ruleset: Ruleset, board: Board, side: Side) -> (r: Self)
        ensures
            r@ == origin(ruleset, board@, side),
    {
        let time: i32 = if side == Side::Defender {
            1
        } else {
            0
        };
        let coordinate = BoardCoordinate::new(time, 0);
        let snapshot = BoardSnapshot { coordinate, board, parent: None, created_by: None };
        let mut boards: Vec<BoardSnapshot> = Vec::new();
        boards.push(snapshot);
        let timeline = Timeline { row: 0, owner: None, boards };
        let mut timelines: Vec<Timeline> = Vec::new();
        timelines.push(timeline);
        let state = State {
            ruleset,
            turn: side,
            timelines,
            outcome: None,
            message: to_move_message(side),
        };
        let staged: Vec<State> = Vec::new();
        proof {
            assert(timeline@.boards =~= seq![snapshot@]);
            assert(state@.timelines =~= origin(ruleset, board@, side).state.timelines);
            assert(staged@.map_values(|s: State| s@) =~= Seq::<StateView>::empty());
        }
        Game { state, staged }
    }

    /// A game in a given position with no staged move, when the timelines
    /// are well formed (rows and times strictly increasing, every board on
    /// its own row with its parent earlier in time) and every coordinate is
    /// within the playing bound.
    pub fn from_timelines(ruleset: Ruleset, timelines: Vec<Timeline>, turn: Side) -> (r: Option<Self>)
        ensures
            ({
                let s = StateView {
                    ruleset,
                    turn,
                    timelines: timelines@.map_values(|t: Timeline| t@),
                    outcome: None,
                    message: to_move_text(turn),
                };
                match r {
                    Some(g) => g@ == GameModel { state: s, staged: Seq::empty() } && g@.roomy(),
                    None => !(s.wf() && s.bounded_by(PLAY_BOUND as int)),
                }
            }),
    {
        let state = State {
            ruleset,
            turn,
            timelines,
            outcome: None,
            message: to_move_message(turn),
        };
        if !state.well_formed_within(PLAY_BOUND) {
            return None;
        }
        let staged: Vec<State> = Vec::new();
        assert(staged@.map_values(|s: State| s@) =~= Seq::<StateView>::empty());
        Some(Game { state, staged })
    }

    /// Whether every coordinate is small enough for the game to go on.
    pub fn has_room(&self) -> (r: bool)
        ensures
            r == self@.roomy(),
    {
        proof {
            use_type_invariant(self);
        }
        self.state.well_formed_within(PLAY_BOUND)
    }

    pub fn ruleset(&self) -> (r: Ruleset)
        ensures
            r == self@.state.ruleset,
    {
        self.state.ruleset
    }

    pub fn turn(&self) -> (r: Side)
        ensures
            r == self@.state.turn,
    {
        self.state.turn
    }

    pub fn outcome(&self) -> (r: Option<GameOutcome>)
        ensures
            r == self@.state.outcome,
    {
        self.state.outcome
    }

    /// The latest status message.
    pub fn message(&self) -> (r: &str)
        ensures
            r@ == self@.state.message,
    {
        self.state.message.as_str()
    }

    /// Every timeline, by increasing row.
    pub fn timelines(&self) -> (r: &[Timeline])
        ensures
            r@.map_values(|t: Timeline| t@) == self@.state.timelines,
    {
        self.state.timelines.as_slice()
    }

    /// The timeline on row `row`.
    pub fn timeline(&self, row: i32) -> (r: Option<&Timeline>)
        ensures
            match r {
                Some(t) => self@.state.timeline_at(row as int) == Some(t@),
                None => self@.state.timeline_at(row as int) is None,
            },
    {
        proof {
            use_type_invariant(self);
        }
        match self.state.find_row(row) {
            Some(i) => Some(&self.state.timelines[i]),
            None => None,
        }
    }

    /// The board at a coordinate.
    pub fn board(&self, coordinate: BoardCoordinate) -> (r: Option<&BoardSnapshot>)
        ensures
            match r {
                Some(b) => self@.state.board_at(coordinate) == Some(b@),
                None => self@.state.board_at(coordinate) is None,
            },
    {
        proof {
            use_type_invariant(self);
        }
        self.state.board(coordinate)
    }

    /// The coordinate of the latest board on row `timeline`.
    pub fn latest_coordinate(&self, timeline: i32) -> (r: Option<BoardCoordinate>)
        ensures
            r == self@.state.latest_coordinate(timeline as int),
    {
        proof {
            use_type_invariant(self);
        }
        self.state.latest_coordinate(timeline)
    }

    /// The Present: the lowest time of a latest board on an active timeline.
    pub fn present_time(&self) -> (r: Option<i32>)
        ensures
            r == self@.state.present(),
    {
        proof {
            use_type_invariant(self);
        }
        self.state.present_time()
    }

    pub fn is_active_timeline(&self, timeline: i32) -> (r: bool)
        ensures
            r == self@.state.is_active(timeline as int),
    {
        proof {
            use_type_invariant(self);
        }
        self.state.is_active_timeline(timeline)
    }

    pub fn is_playable_board(&self, coordinate: BoardCoordinate) -> (r: bool)
        ensures
            r == self@.state.playable(coordinate),
    {
        proof {
            use_type_invariant(self);
        }
        self.state.is_playable_board(coordinate)
    }

    /// Every playable board, by increasing row.
    pub fn playable_boards(&self) -> (r: Vec<BoardCoordinate>)
        ensures
            r@ == self@.state.playable_list(),
    {
        proof {
            use_type_invariant(self);
        }
        self.state.playable_coordinates()
    }

    pub fn has_staged_moves(&self) -> (r: bool)
        ensures
            r == (self@.staged.len() > 0),
    {
        self.staged.len() > 0
    }

    /// Whether the staged multiverse turn may be submitted.
    pub fn can_submit(&self) -> (r: bool)
        ensures
            r == submittable(self@),
    {
        proof {
            use_type_invariant(self);
        }
        self.state.ruleset == Ruleset::Multiverse && self.staged.len() > 0
            && !self.state.has_pending_present_board(self.state.turn)
    }

    /// Legal moves of the piece at `from`.
    pub fn legal_moves_from(&self, from: Position) -> (r: Vec<Move>)
        requires
            self@.roomy(),
            from.square.valid() || self@.state.outcome is Some || !self@.state.playable(from.board),
        ensures
            r@ == moves_from(self@.state, from),
            forall|k: int|
                0 <= k < r@.len() ==> (#[trigger] r@[k]).from == from && r@[k].on_board() && validate_full(
                    self@.state,
                    r@[k],
                ) is Ok,
            forall|mv: Move|
                mv.from == from && mv.on_board() && validate_full(self@.state, mv) is Ok ==> #[trigger] r@.contains(
                    mv,
                ),
            r@.no_duplicates(),
    {
        proof {
            use_type_invariant(self);
            crate::branch::lemma_bounded_weaken_pub(self@.state, PLAY_BOUND as int, COORDINATE_BOUND - 16);
            if from.square.valid() {
                crate::legal::lemma_moves_from_exact(self@.state, from);
            }
        }
        self.state.legal_moves_from(from)
    }

    /// Every legal move of the side to move.
    pub fn legal_moves(&self) -> (r: Vec<Move>)
        requires
            self@.roomy(),
        ensures
            r@ == legal_list(self@.state),
            forall|k: int|
                0 <= k < r@.len() ==> (#[trigger] r@[k]).on_board() && validate_full(self@.state, r@[k]) is Ok,
            forall|mv: Move|
                mv.on_board() && validate_full(self@.state, mv) is Ok ==> #[trigger] r@.contains(mv),
            r@.no_duplicates(),
    {
        proof {
            use_type_invariant(self);
            crate::branch::lemma_bounded_weaken_pub(self@.state, PLAY_BOUND as int, COORDINATE_BOUND - 16);
            crate::legal::lemma_legal_sound(self@.state);
            crate::legal::lemma_legal_distinct(self@.state);
            assert forall|mv: Move| mv.on_board() && validate_full(self@.state, mv) is Ok implies #[trigger] legal_list(
                self@.state,
            ).contains(mv) by {
                crate::legal::lemma_legal_complete(self@.state, mv);
            }
        }
        self.state.legal_moves()
    }

    /// Checks a move without changing the game.
    pub fn validate_move(&self, movement: Move) -> (r: Result<(), MoveError>)
        requires
            self@.roomy(),
            self@.state.checkable(movement),
        ensures
            r == match validate_full(self@.state, movement) {
                Ok(_) => Ok::<(), MoveError>(()),
                Err(e) => Err(e),
            },
    {
        proof {
            use_type_invariant(self);
            crate::branch::lemma_bounded_weaken_pub(self@.state, PLAY_BOUND as int, COORDINATE_BOUND - 16);
        }
        match self.state.validate_move_fully(movement) {
            Ok(_) => Ok(()),
            Err(e) => Err(e),
        }
    }

    /// Applies one legal move transactionally; the game is unchanged when
    /// the move is refused.
    pub fn apply_move(&mut self, movement: Move) -> (r: Result<(), MoveError>)
        requires
            old(self)@.roomy(),
            old(self)@.state.checkable(movement),
        ensures
            match applied(old(self)@, movement) {
                Ok(g) => r is Ok && final(self)@ == g,
                Err(e) => r == Err::<(), MoveError>(e) && final(self)@ == old(self)@,
            },
            keeps_boards(old(self)@.state, final(self)@.state),
            keeps_rows(old(self)@.state, final(self)@.state),
            r is Ok ==> successor_made(final(self)@.state, movement),
            r is Ok ==> old(self)@.state.board_at(
                BoardCoordinate {
                    time: (movement.from.board.time + 1) as i32,
                    timeline: movement.from.board.timeline,
                },
            ) is None,
            r is Ok && movement.to.board.time < movement.from.board.time ==> branched_from(
                old(self)@.state,
                final(self)@.state,
                movement.to.board,
                old(self)@.state.turn,
            ),
    {
        proof {
            use_type_invariant(&*self);
            crate::branch::lemma_bounded_weaken_pub(self@.state, PLAY_BOUND as int, COORDINATE_BOUND - 16);
        }
        let before = self.state.duplicate();
        let mut next = self.state.duplicate();
        match next.play(movement) {
            Err(e) => {
                return Err(e);
            },
            Ok(()) => {},
        }
        assert(next@.bounded_by(PLAY_BOUND + 8));
        if next.ruleset == Ruleset::Classic {
            next.turn = next.turn.opponent();
            next.finish_turn_status();
            let staged: Vec<State> = Vec::new();
            proof {
                assert(staged@.map_values(|s: State| s@) =~= Seq::<StateView>::empty());
            }
            self.state = next;
            self.staged = staged;
        } else {
            let ghost old_staged = self@.staged;
            let mut staged: Vec<State> = Vec::new();
            std::mem::swap(&mut staged, &mut self.staged);
            staged.push(before);
            proof {
                assert(staged@.map_values(|s: State| s@) =~= old_staged.push(before@));
            }
            self.state = next;
            self.staged = staged;
        }
        Ok(())
    }

    /// Plays one action through the rules: a move, or the submission of a
    /// completed turn; the game is unchanged when the action is refused.
    pub fn apply_action(&mut self, action: PlayerAction) -> (r: Result<(), MoveError>)
        requires
            old(self)@.roomy(),
            action matches PlayerAction::Move { movement } ==> old(self)@.state.checkable(movement),
        ensures
            match acted(old(self)@, action) {
                Ok(g) => r is Ok && final(self)@ == g,
                Err(e) => r == Err::<(), MoveError>(e) && final(self)@ == old(self)@,
            },
    {
        match action {
            PlayerAction::Move { movement } => self.apply_move(movement),
            PlayerAction::SubmitTurn => self.submit_turn(),
        }
    }

    /// Restores the position before the latest staged multiverse move.
    pub fn undo_staged_move(&mut self) -> (r: Result<(), MoveError>)
        ensures
            match undone(old(self)@) {
                Ok(g) => r is Ok && final(self)@ == g,
                Err(e) => r == Err::<(), MoveError>(e) && final(self)@ == old(self)@,
            },
    {
        proof {
            use_type_invariant(&*self);
        }
        if self.staged.len() == 0 {
            return Err(MoveError::NothingToUndo);
        }
        let ghost old_staged = self@.staged;
        let mut staged: Vec<State> = Vec::new();
        std::mem::swap(&mut staged, &mut self.staged);
        let mut previous = staged.pop().unwrap();
        proof {
            assert(staged@.map_values(|s: State| s@) =~= old_staged.drop_last());
            assert(previous@ == old_staged.last());
        }
        if staged.len() == 0 {
            previous.message = to_move_message(previous.turn);
        } else {
            previous.message = String::from_str("Undid staged move.");
        }
        self.state = previous;
        self.staged = staged;
        Ok(())
    }

    /// Commits a completed multiverse turn and hands play to the side the
    /// new Present names.
    pub fn submit_turn(&mut self) -> (r: Result<(), MoveError>)
        requires
            old(self)@.roomy(),
        ensures
            match submitted(old(self)@) {
                Ok(g) => r is Ok && final(self)@ == g,
                Err(e) => r == Err::<(), MoveError>(e) && final(self)@ == old(self)@,
            },
    {
        proof {
            use_type_invariant(&*self);
            crate::branch::lemma_bounded_weaken_pub(self@.state, PLAY_BOUND as int, PLAY_BOUND + 8);
        }
        if self.state.ruleset == Ruleset::Classic || self.staged.len() == 0 {
            return Err(MoveError::NothingToSubmit);
        }
        if self.state.has_pending_present_board(self.state.turn) {
            return Err(MoveError::PendingPresentBoards);
        }
        let mut next = self.state.duplicate();
        if next.outcome.is_none() {
            let Some(present) = next.present_time() else {
                return Err(MoveError::MissingBoard);
            };
            next.turn = Side::for_time(present);
            next.finish_turn_status();
        }
        let staged: Vec<State> = Vec::new();
        proof {
            assert(staged@.map_values(|s: State| s@) =~= Seq::<StateView>::empty());
        }
        self.state = next;
        self.staged = staged;
        Ok(())
    }

    /// Whether some piece of the side to move has a legal destination.
    pub fn has_any_legal_move(&self) -> (r: bool)
        requires
            self@.roomy(),
        ensures
            r == any_legal_move(self@.state),
    {
        proof {
            use_type_invariant(self);
            crate::branch::lemma_bounded_weaken_pub(self@.state, PLAY_BOUND as int, COORDINATE_BOUND - 16);
        }
        self.state.has_any_legal_move()
    }

    /// Settles the status of the current position as at a change of turn:
    /// reports a decided game, names the side to move, or ends the game when
    /// that side cannot complete a turn.
    pub fn finish_turn_status(&mut self)
        requires
            old(self)@.roomy(),
        ensures
            final(self)@ == (GameModel { state: finished(old(self)@.state), ..old(self)@ }),
    {
        proof {
            use_type_invariant(&*self);
            crate::branch::lemma_bounded_weaken_pub(self@.state, PLAY_BOUND as int, PLAY_BOUND + 8);
        }
        let mut next = self.state.duplicate();
        next.finish_turn_status();
        self.state = next;
    }
}

} // verus!
