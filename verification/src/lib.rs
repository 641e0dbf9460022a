//! A grid-based sliding-block puzzle: a board of typed cells, agents that
//! occupy cells, and sliding moves that carry a cell across the grid until
//! something stops it or it leaves the board.

pub mod backend;
pub mod frontend;
pub mod utils_backend;
