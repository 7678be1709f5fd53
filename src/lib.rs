//! Move selection for a turn-based snake game on a square grid.
//!
//! - `grid`: boards, obstacle maps, reachability and flood fill;
//! - `path`: the shortest-path primitive on the 8 x 8 board;
//! - `board`: cells, bodies and food lists read from the raw input;
//! - `session`: state kept across rounds (opponent identities and scores);
//! - `score`: contested-food prediction and the food sub-score;
//! - `engine`: scoring of the four moves and the round driver.
pub mod grid;
pub mod path;
pub mod board;
pub mod session;
pub mod score;
pub mod engine;
