//! Reconstruction of Go board positions from game records: a parser for the
//! record notation, a replay engine with group capture, a layout model that
//! places the board grid on a square canvas, and the list of drawing
//! instructions for a record.

pub mod types;
pub mod notation;
pub mod board;
pub mod layout;
pub mod scene;
