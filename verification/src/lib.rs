pub mod board;
pub mod laws;
pub mod moves;
pub mod piece;
pub mod push;
pub mod reach;
