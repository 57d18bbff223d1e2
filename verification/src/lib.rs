//! A solver for the toggle-button puzzle: a rectangular grid of buttons, each
//! with an on/off state and a rule that says which cells a click changes. The
//! crate models the rules mathematically, simulates clicks on a grid, and
//! searches for a sequence of clicks that switches every cell off.

pub mod bit_array;
pub mod board;
pub mod button;
pub mod codec;
pub mod difficulty;
pub mod grid;
pub mod level;
pub mod queue;
pub mod render;
pub mod rules;
pub mod search;
