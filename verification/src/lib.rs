//! Command-line text tools: field cutting, byte-count and size parsing,
//! hex-dump layout, and reading calculator expressions, arguments and
//! history files.
use vstd::prelude::*;
use crate::text::str_eq;

pub mod angle;
pub mod args;
pub mod bounds;
pub mod chars;
pub mod charset;
pub mod cli;
pub mod colors;
pub mod config;
pub mod cut;
pub mod cutter;
pub mod display;
pub mod error;
pub mod engine;
pub mod eval;
pub mod expression;
pub mod format;
pub mod num;
pub mod parse_size;
pub mod parser;
pub mod printer;
pub mod repl;
pub mod session;
pub mod split;
pub mod text;
pub mod units;

verus! {

/// Whether `name` may stand alone in an expression: a function name or one
/// of the constants `e`, `pi` and `_` (the last answer).
pub open spec fn spec_is_valid_ident(name: Seq<char>) -> bool {
    crate::parser::spec_is_function_name(name) || name == "e"@ || name == "pi"@ || name == "_"@
}

/// Whether `name` is a function name or a known constant.
pub fn is_valid_ident(name: &str) -> (r: bool)
    ensures
        r == spec_is_valid_ident(name@),
{
    crate::parser::is_function_name(name) || str_eq(name, "e") || str_eq(name, "pi") || str_eq(
        name,
        "_",
    )
}

} // verus!
