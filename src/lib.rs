//! A rules engine for the game of Go: board states with capture and
//! legality checks, and a branching history of moves.

pub mod color;
pub mod error;
pub mod game;
pub mod grid;
pub mod model;
pub mod position;
pub mod state;
pub mod token;

pub use crate::color::Color;
pub use crate::error::{BadukError, BadukErrorKind};
pub use crate::game::{GameTree, GameTreeIndex, GameTreeNode};
pub use crate::model::BoardView;
pub use crate::position::Position;
pub use crate::state::{Captures, GameState, GameStateDifference};
pub use crate::token::{SourceNode, SourceTree, Token};
