//! What holds of the library as a whole, told from the characters, places and
//! numbers that go in and come out: of the spec functions that the contracts
//! speak of, and in [`operations`] of what the public functions give back.

pub mod conformance;
pub mod envelope;
pub mod message;
pub mod operations;
pub mod reading;
pub mod reference;
pub mod segments;
pub mod soundness;
pub mod words;
