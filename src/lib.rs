pub mod address;
pub mod poll;
pub mod tally;
pub mod laws;
