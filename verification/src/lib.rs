//! Rules engine for Copenhagen hnefatafl and its multiverse variant, with
//! the small pieces of logic that surround it (a baseline bot, network
//! shapes, account validation and training schedules).
//!
//! The engine is UI-independent. Consumers inspect immutable board snapshots,
//! enumerate legal moves, stage moves, and submit complete multiverse turns.

pub mod model;
pub mod rules;
mod state;
mod moves;
pub mod branch;
pub mod capture;
pub mod apply;
pub mod outcome;
pub mod history;
pub mod legal;
pub mod turn;
pub mod game;
pub mod player;
pub mod raven;
pub mod network;
pub mod flat;
pub mod accounts;
pub mod training;
pub mod guarantees;
pub mod balance;
pub mod session;

pub use game::Game;
pub use model::{
    Board, BoardCoordinate, BoardSnapshot, GameOutcome, Move, OutcomeReason, Piece, Position,
    Ruleset, Side, Square, Timeline, BOARD_EDGE, BOARD_SIZE, BOARD_SIZE_U8,
};
pub use outcome::{attackers_encircle_all_defenders, defenders_cannot_escape, is_exit_fort};
pub use player::{AiPlayer, AiProfile, GameView, PlayerAction};
pub use raven::RavenBot;
pub use rules::MoveError;
