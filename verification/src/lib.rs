//! Writing numbers with as few syllables as possible: number words from a
//! dictionary, arithmetic on `i32` with explicit errors, expression trees, and
//! searches for cheaper spoken forms of a number.

pub mod language;
pub mod math;
pub mod syllables;
