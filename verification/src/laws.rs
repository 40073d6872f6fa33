//! What the stages promise, said of what goes into them and what comes out.

pub mod bars;
pub mod choices;
pub mod measures;
pub mod melody;
pub mod people;
pub mod phrasing;
pub mod pieces;
pub mod plain;
pub mod players;
pub mod reading;
pub mod rhythm;
pub mod sectioning;
pub mod strokes;
pub mod tables;
pub mod texts;
pub mod tracks;
