//! The read-only view handed to frontends and AI players, and the interface
//! AI players implement.

use vstd::prelude::*;
use crate::game::{submittable, Game, GameModel};
use crate::legal::legal_list;
use crate::model::{BoardCoordinate, GameOutcome, Move, Ruleset, Side, Timeline};
use crate::rules::StateView;

verus! {

/// Rows of the active timelines among the first `n`, by increasing row.
pub open spec fn active_upto(s: StateView, n: nat) -> Seq<i32>
    decreases n,
{
    if n == 0 {
        Seq::empty()
    } else {
        let earlier = active_upto(s, (n - 1) as nat);
        let row = s.timelines[n - 1].row;
        if s.is_active(row as int) {
            earlier.push(row)
        } else {
            earlier
        }
    }
}

/// Rows of every active timeline, by increasing row.
pub open spec fn active_rows(s: StateView) -> Seq<i32> {
    active_upto(s, s.timelines.len())
}

/// Read-only state supplied to human frontends and pluggable AI players.
pub struct GameView {
    pub ruleset: Ruleset,
    pub turn: Side,
    pub outcome: Option<GameOutcome>,
    pub message: String,
    pub timelines: Vec<Timeline>,
    pub legal_moves: Vec<Move>,
    pub can_submit: bool,
    pub has_staged_moves: bool,
    pub present_time: Option<i32>,
    pub active_timelines: Vec<i32>,
    pub playable_boards: Vec<BoardCoordinate>,
}

impl GameView {
    /// The view a game presents: its position, legal moves and turn status.
    pub open spec fn shows(self, g: GameModel) -> bool {
        &&& self.ruleset == g.state.ruleset
        &&& self.turn == g.state.turn
        &&& self.outcome == g.state.outcome
        &&& self.message@ == g.state.message
        &&& self.timelines@.map_values(|t: Timeline| t@) == g.state.timelines
        &&& self.legal_moves@ == legal_list(g.state)
        &&& self.can_submit == submittable(g)
        &&& self.has_staged_moves == (g.staged.len() > 0)
        &&& self.present_time == g.state.present()
        &&& self.active_timelines@ == active_rows(g.state)
        &&& self.playable_boards@ == g.state.playable_list()
    }

    pub fn from_game(game: &Game) -> (r: Self)
        requires
            game@.roomy(),
        ensures
            r.shows(game@),
    {
        let source = game.timelines();
        let mut timelines: Vec<Timeline> = Vec::new();
        let mut active_timelines: Vec<i32> = Vec::new();
        let ghost s = game@.state;
        let mut i: usize = 0;
        while i < source.len()
            invariant
                i <= source@.len(),
                source@.map_values(|t: Timeline| t@) == s.timelines,
                s == game@.state,
                timelines@.len() == i,
                forall|j: int| 0 <= j < i ==> (#[trigger] timelines@[j])@ == source@[j]@,
                active_timelines@ == active_upto(s, i as nat),
            decreases source@.len() - i,
        {
            let timeline = &source[i];
            assert(s.timelines[i as int] == timeline@);
            if game.is_active_timeline(timeline.row) {
                active_timelines.push(timeline.row);
            }
            timelines.push(timeline.duplicate());
            i = i + 1;
        }
        assert(timelines@.map_values(|t: Timeline| t@) =~= s.timelines);
        let message = game.message().to_owned();
        GameView {
            ruleset: game.ruleset(),
            turn: game.turn(),
            outcome: game.outcome(),
            message,
            timelines,
            legal_moves: game.legal_moves(),
            can_submit: game.can_submit(),
            has_staged_moves: game.has_staged_moves(),
            present_time: game.present_time(),
            active_timelines,
            playable_boards: game.playable_boards(),
        }
    }
}

/// Stable account metadata for an AI implementation.
#[derive(Clone, Copy, Debug, PartialEq, Eq)]
pub struct AiProfile {
    pub username: &'static str,
    pub display_name: &'static str,
}

/// An action an AI can request from the authoritative engine.
#[derive(Clone, Copy, Debug, PartialEq, Eq, Structural)]
pub enum PlayerAction {
    Move { movement: Move },
    SubmitTurn,
}

/// Interface implemented by separately packaged AI players.
///
/// The engine stays authoritative: every returned action is validated
/// through [`Game`] before it is committed.
pub trait AiPlayer: Send {
    fn profile(&self) -> AiProfile;

    /// Selects one move or turn submission from a read-only position, or
    /// explains why none can be selected.
    fn choose_action(&mut self, game: &GameView) -> Result<PlayerAction, String>;
}

} // verus!
