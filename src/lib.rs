pub mod dice;
pub mod laws;
pub mod open5e;
pub mod text;
