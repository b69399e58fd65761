//! Core of a Metamath proof verifier: bit sets, syntax trees, formulas with
//! unification and substitution, and the proof stack machine.

pub mod bitset;
pub mod database;
pub mod formula;
pub mod tree;
pub mod verify;
