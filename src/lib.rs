//! The logical side of a match-3 game: a board of typed gems, match
//! detection, gravity, refill, shuffling and a command/event processor.

pub mod position;
mod gem_map;
pub mod mat;
pub mod model;
pub mod board;
mod random;
pub mod systems;
pub mod config;

pub use position::Position;
pub use mat::{Match, Matches};
pub use board::{lemma_board_move_symmetric, Board, BoardMove, SwapError};
pub use model::BoardModel;
pub use systems::{process_command, read_commands, sort_drops, BoardCommand, BoardCommands, BoardEvent, BoardEvents, Drop, QueueEmpty, QueueError};
pub use config::{ConfigError, Match3Config};
