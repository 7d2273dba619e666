//! A propositional-logic toolkit: parsing textual expressions into a tree,
//! simplifying them with classical Boolean-algebra laws while recording each
//! rewrite step, and enumerating full truth tables.
//!
//! The tree and its structural operations live in [`expression`]; the
//! canonical printer in [`render`]; the truth semantics in [`semantics`]; the
//! parser in [`parser`]; the rewrite pipeline in [`simplify`]; the proofs
//! that the pipeline preserves truth values and reaches its partial fixed
//! points in [`laws`]; and the table generator in [`truth_table`].

pub mod array;
pub mod errors;
pub mod expression;
pub mod iterator;
pub mod laws;
pub mod parser;
pub mod render;
pub mod response;
pub mod semantics;
pub mod simplify;
pub mod truth_table;

pub use expression::{BinaryOperator, Expression};
