//! A Flood-It puzzle: a rectangular grid of colored cells whose flooded region,
//! seeded at the top-left corner, grows each time the player recolors it.

pub mod board;
pub mod color;
pub mod model;

pub use board::{BoardError, Cell, FloodBoard};
pub use color::Color;
