//! Raven: a tiny deterministic baseline player for the AI boundary.

use vstd::prelude::*;
use crate::game::{acted, submittable, Game, GameModel};
use crate::legal::{legal_list, lemma_legal_sound};
use crate::model::{Move, Side};
use crate::player::{AiPlayer, AiProfile, GameView, PlayerAction};
use crate::rules::MoveError;

verus! {

/// The seed a default Raven starts from.
pub const RAVEN_SEED: u64 = 0x6875_6769_6e6e;

/// One xorshift step of the generator state.
pub open spec fn xorshift(state: u64) -> u64 {
    let a = state ^ (state << 13u64);
    let b = a ^ (a >> 7u64);
    b ^ (b << 17u64)
}

/// What Raven answers from generator state `state`: the submission when
/// the turn can be submitted, otherwise the move its next number picks.
pub open spec fn raven_choice(state: u64, can_submit: bool, moves: Seq<Move>) -> (
    u64,
    Result<PlayerAction, Seq<char>>,
) {
    if can_submit {
        (state, Ok(PlayerAction::SubmitTurn))
    } else {
        let next = xorshift(state);
        let length = if moves.len() == 0 {
            1
        } else {
            moves.len()
        };
        let index = next as int % length as int;
        if index < moves.len() {
            (next, Ok(PlayerAction::Move { movement: moves[index] }))
        } else {
            (next, Err("no legal action is available"@))
        }
    }
}

/// How many actions Raven takes at most when it is handed the game.
pub const BOT_ACTION_LIMIT: u64 = 512;

/// Why Raven stopped before the game left its hands.
#[derive(Clone, Copy, Debug, PartialEq, Eq, Structural)]
pub enum BotError {
    /// Raven found no action to take.
    NoAction,
    /// The rules refused Raven's action.
    IllegalAction(MoveError),
}

impl BotError {
    pub fn message(self) -> (r: &'static str)
        ensures
            r@ == bot_error_text(self),
    {
        match self {
            BotError::NoAction => "no legal action is available",
            BotError::IllegalAction(_) => "bot returned an illegal action",
        }
    }
}

pub open spec fn bot_error_text(e: BotError) -> Seq<char> {
    match e {
        BotError::NoAction => "no legal action is available"@,
        BotError::IllegalAction(_) => "bot returned an illegal action"@,
    }
}

/// Raven stops acting: the game is decided, the turn is not Raven's, or
/// the game has no room for further boards.
pub open spec fn bot_stops(g: GameModel, side: Option<Side>) -> bool {
    g.state.outcome is Some || side != Some(g.state.turn) || !g.roomy()
}

/// The game, the generator state and the result after Raven, playing
/// `side`, takes up to `fuel` actions from generator state `seed`.
pub open spec fn bot_run(g: GameModel, seed: u64, side: Option<Side>, fuel: nat) -> (
    GameModel,
    u64,
    Result<(), BotError>,
)
    decreases fuel,
{
    if fuel == 0 || bot_stops(g, side) {
        (g, seed, Ok(()))
    } else {
        let (next, answer) = raven_choice(seed, submittable(g), legal_list(g.state));
        match answer {
            Err(_) => (g, next, Err(BotError::NoAction)),
            Ok(action) => match acted(g, action) {
                Err(e) => (g, next, Err(BotError::IllegalAction(e))),
                Ok(h) => bot_run(h, next, side, (fuel - 1) as nat),
            },
        }
    }
}

/// A tiny deterministic baseline used to prove the pluggable-AI boundary.
pub struct RavenBot {
    state: u64,
}

impl RavenBot {
    /// The generator state.
    pub closed spec fn seed(self) -> u64 {
        self.state
    }

    pub fn new(seed: u64) -> (r: Self)
        ensures
            r.seed() == seed,
    {
        RavenBot { state: seed }
    }

    /// Advances the generator and reduces its state modulo `length`.
    fn next_index(&mut self, length: usize) -> (r: usize)
        requires
            length > 0,
        ensures
            final(self).seed() == xorshift(old(self).seed()),
            r == final(self).seed() as int % length as int,
            r < length,
    {
        self.state = self.state ^ (self.state << 13u64);
        self.state = self.state ^ (self.state >> 7u64);
        self.state = self.state ^ (self.state << 17u64);
        (self.state % (length as u64)) as usize
    }
}

impl RavenBot {
    /// Lets Raven, seated on `side`, act while it holds the turn of a
    /// running game, up to `BOT_ACTION_LIMIT` actions.
    pub fn advance(&mut self, game: &mut Game, side: Option<Side>) -> (r: Result<(), BotError>)
        ensures
            ({
                let (g, seed, result) = bot_run(
                    old(game)@,
                    old(self).seed(),
                    side,
                    BOT_ACTION_LIMIT as nat,
                );
                &&& final(game)@ == g
                &&& final(self).seed() == seed
                &&& r == result
            }),
    {
        let ghost g0 = game@;
        let ghost s0 = self.seed();
        let mut steps: u64 = 0;
        while steps < BOT_ACTION_LIMIT
            invariant
                steps <= BOT_ACTION_LIMIT,
                g0 == old(game)@,
                s0 == old(self).seed(),
                bot_run(g0, s0, side, BOT_ACTION_LIMIT as nat) == bot_run(
                    game@,
                    self.seed(),
                    side,
                    (BOT_ACTION_LIMIT - steps) as nat,
                ),
            decreases BOT_ACTION_LIMIT - steps,
        {
            if game.outcome().is_some() || side != Some(game.turn()) || !game.has_room() {
                return Ok(());
            }
            let view = GameView::from_game(game);
            let action = match self.choose_action(&view) {
                Ok(action) => action,
                Err(_) => {
                    return Err(BotError::NoAction);
                },
            };
            proof {
                lemma_legal_sound(game@.state);
            }
            match game.apply_action(action) {
                Ok(()) => {},
                Err(e) => {
                    return Err(BotError::IllegalAction(e));
                },
            }
            steps = steps + 1;
        }
        Ok(())
    }
}

impl Default for RavenBot {
    fn default() -> (r: Self)
        ensures
            r.seed() == RAVEN_SEED,
    {
        RavenBot { state: RAVEN_SEED }
    }
}

impl AiPlayer for RavenBot {
    fn profile(&self) -> (r: AiProfile)
        ensures
            r.username@ == "bot-raven"@,
            r.display_name@ == "Raven (baseline)"@,
    {
        AiProfile { username: "bot-raven", display_name: "Raven (baseline)" }
    }

    fn choose_action(&mut self, game: &GameView) -> (r: Result<PlayerAction, String>)
        ensures
            ({
                let (next, answer) = raven_choice(old(self).seed(), game.can_submit, game.legal_moves@);
                &&& final(self).seed() == next
                &&& match r {
                    Ok(action) => answer == Ok::<PlayerAction, Seq<char>>(action),
                    Err(text) => answer == Err::<PlayerAction, Seq<char>>(text@),
                }
            }),
    {
        if game.can_submit {
            return Ok(PlayerAction::SubmitTurn);
        }
        let length = if game.legal_moves.len() == 0 {
            1
        } else {
            game.legal_moves.len()
        };
        let index = self.next_index(length);
        if index < game.legal_moves.len() {
            Ok(PlayerAction::Move { movement: game.legal_moves[index] })
        } else {
            Err(String::from_str("no legal action is available"))
        }
    }
}

} // verus!
