pub mod laws;
pub mod piece;
pub mod search;
