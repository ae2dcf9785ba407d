//! Core logic of a Minesweeper-style puzzle game: board generation with
//! random mine placement, cell disclosure (flood-fill of zero-adjacency
//! regions and chorded auto-reveal), flag toggling, and win/loss detection.

pub mod counting;
pub mod game;
pub mod props;
pub mod random;

pub use game::{BoardSize, FieldInfo, FieldState, FieldStatus, FieldType, Game, NewGameError, Pos};
pub use random::random_fields;
