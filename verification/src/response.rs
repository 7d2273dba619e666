//! The response shapes the library hands its callers, and the languages the
//! surrounding service can answer in.

use vstd::prelude::*;

use crate::expression::Expression;
use crate::simplify::{Operation, SimplifyOptions};
use crate::truth_table::{TruthTable, TruthTableOptions};

verus! {

/// The outcome of a simplification request: the renderings before and after,
/// the ordered log of rewrite steps, the simplified expression, and the
/// truth table when one was asked for.
#[derive(Debug)]
pub struct SimplifyResponse {
    pub before: String,
    pub after: String,
    pub operations: Vec<Operation>,
    pub expression: Expression,
    pub truth_table: Option<TruthTable>,
}

/// The outcome of a truth-table request.
#[derive(Debug)]
pub struct TruthTableResponse {
    pub truth_table: TruthTable,
}

/// The outcome of a validity check.
#[derive(Debug, Copy, Clone, PartialEq, Eq, Structural)]
pub struct IsValidResponse {
    pub is_valid: bool,
}

impl IsValidResponse {
    /// The affirmative answer.
    pub fn valid() -> (r: IsValidResponse)
        ensures
            r.is_valid,
    {
        IsValidResponse { is_valid: true }
    }
}

/// The options of a combined simplify-and-table request.
#[derive(Debug, Copy, Clone)]
pub struct SimplifyAndTableOptions {
    pub simplify_options: SimplifyOptions,
    pub table_options: TruthTableOptions,
}

impl Default for SimplifyAndTableOptions {
    /// The defaults of both option sets.
    fn default() -> (r: SimplifyAndTableOptions)
        ensures
            r.simplify_options.simplify == true,
            r.simplify_options.ignore_case == false,
            r.table_options.sort is Unsorted,
            r.table_options.hide is Off,
            r.table_options.hide_intermediate_steps == false,
    {
        SimplifyAndTableOptions {
            simplify_options: SimplifyOptions { simplify: true, ignore_case: false },
            table_options: TruthTableOptions {
                sort: crate::truth_table::Sort::Unsorted,
                hide: crate::truth_table::Hide::Off,
                hide_intermediate_steps: false,
            },
        }
    }
}

/// The languages the surrounding service can answer in.
#[derive(Debug, Copy, Clone, PartialEq, Eq, Structural)]
pub enum Language {
    En,
    Nb,
}

impl Default for Language {
    /// English by default.
    fn default() -> (r: Language)
        ensures
            r is En,
    {
        Language::En
    }
}

} // verus!
