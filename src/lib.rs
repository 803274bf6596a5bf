//! Small puzzles on grids and text: magic squares (checking and completing
//! them), a flat two-dimensional array and its anti-diagonals, a row of
//! light switches, a text screen driven by editing commands, indentation of
//! block-structured pseudo code, totals of school records, and a timeline
//! of births and deaths.
pub mod buffer;
pub mod flat2d;
pub mod indent;
pub mod presidents;
pub mod room;
pub mod square;
pub mod sums;
pub mod text;
