//! Validation of JSON text in two stages: a tokenizer that enforces the
//! lexical grammar, and a stack machine that enforces nesting.

use vstd::prelude::*;

pub mod error;
pub mod grammar;
pub mod laws;
pub mod lexer;
pub mod literals;
pub mod outline;
pub mod parser;
pub mod token;

use crate::error::{Diagnostic, JSONError};
use crate::grammar::is_document;
use crate::lexer::{lex, spec_lex};
use crate::parser::{parse, spec_parse, verdict};

verus! {

/// The verdict on a text: a defect of the lexical grammar comes first,
/// whatever the structure is; a text whose tokens are all well formed is
/// judged by its structure.
pub open spec fn spec_check_valid(input: Seq<char>) -> Result<(), Diagnostic> {
    match spec_lex(input) {
        Ok(tokens) => spec_parse(tokens),
        Err(d) => Err(d),
    }
}

/// Validates a text: accepts it, or reports the first defect with its line.
pub fn check_valid(input: &str) -> (r: Result<(), JSONError>)
    ensures
        verdict(r) == spec_check_valid(input@),
        r is Ok <==> (spec_lex(input@) matches Ok(tokens) && is_document(tokens)),
{
    match lex(input) {
        Ok(tokens) => parse(tokens),
        Err(e) => Err(e),
    }
}

} // verus!
