//! A minesweeper engine: a grid of tiles, some of which hide mines, with
//! tile reveal, cascading reveal of empty regions, chording, flag cycling
//! and win detection.

pub mod board;
pub mod flood;
pub mod game;
pub mod grid;
pub mod layout;
pub mod minefield;
pub mod sample;
pub mod tile;

pub use board::Board;
pub use game::{Action, Button, Game, Input};
pub use layout::{Layout, TileRect};
pub use minefield::Minefield;
pub use tile::{Face, Flag, Tile, TileContent};
