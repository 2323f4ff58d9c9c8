//! A small interpreted language: a lexer, a Pratt parser and a tree-walking evaluator.
mod text;
pub mod token;
pub mod lexer;
pub mod ast;
pub mod object;
pub mod environment;
pub mod builtins;
pub mod evaluator;
pub mod parser;
pub mod laws;

use vstd::prelude::*;
use crate::environment::fresh_env;
use crate::evaluator::{Evaluator, run_program};
use crate::lexer::Lexer;
use crate::object::ObjectWrapper;
use crate::parser::{ParseError, Parser, parse_text};

verus! {

/// Parses and runs `source` in a fresh environment. A parse error is returned as
/// such; a runtime error comes back as an error value.
pub fn evaluate(source: &str) -> (r: Result<ObjectWrapper, ParseError>)
    ensures
        match parse_text(source@) {
            None => r is Err,
            Some(ss) => r is Ok && r->Ok_0@ == run_program(ss, fresh_env()).0,
        },
{
    let l = Lexer::new(source);
    let mut p = Parser::new(l);
    let program = p.parse_program()?;
    let mut evaluator = Evaluator::new(&program.statements);
    evaluator.eval()
}

} // verus!
