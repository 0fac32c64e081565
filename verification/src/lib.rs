//! Dice-notation library: parsing of "NdV" dice descriptions, rolling with a
//! pseudo-random source, and rendering of the results as text.

pub mod dice;
pub mod nums;
pub mod render;
