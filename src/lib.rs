pub mod board;
pub mod counting;
pub mod direction;
mod random;
pub mod rules;
pub mod sums;
pub mod tile;

pub use board::{BoardState, PlayBoard};
pub use direction::Direction;
pub use rules::{EMPTY, TOP_RANK};
pub use tile::{MovingTile, Tile, MAX_SIDE, STEPS_PER_CELL};
