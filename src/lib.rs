//! Conway-style games: a verified data model with negation, a restricted
//! order and addition, a parser for set notation, a nimber builder, and
//! sums of p-adic expansions.

pub mod fork;
pub mod frac;
pub mod model;
pub mod notation;
pub mod padic;
pub mod pstar;
pub mod sample;
pub mod surreal;
pub mod text;
