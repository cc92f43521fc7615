//! The whole way from source text to a value.

use crate::interpreter::{eval, runtime_error_text, Interpreter};
use crate::loxerror::{Diagnostics, DiagnosticsModel, LoxError};
use crate::loxvalue::{LoxValue, Value};
use crate::parser::{parse_error_text, parse_expression, parse_reported, Parser};
use crate::scanner::{scan, Scanner};
use crate::token::tokens_view;
use vstd::prelude::*;

verus! {

/// The pipeline: scanner, parser and evaluator, one after the other.
pub struct Lox;

/// What running the source text gives: the value of the expression that
/// its tokens parse to, or the message of the parse failure or of the
/// failed evaluation.
pub open spec fn run_outcome(source: Seq<char>, d: DiagnosticsModel) -> Result<Value, Seq<char>> {
    match parse_expression(scan(source, d).0, 0).outcome {
        Err(e) => Err(parse_error_text(e)),
        Ok(tree) => match eval(tree) {
            Ok(v) => Ok(v),
            Err(f) => Err(runtime_error_text(f)),
        },
    }
}

/// The diagnostics after running the source text: what the scanner
/// reports, and then the parse failure if there is one. A failed
/// evaluation is not reported here and sets no flag.
pub open spec fn run_diagnostics(source: Seq<char>, d: DiagnosticsModel) -> DiagnosticsModel {
    parse_reported(scan(source, d).1, scan(source, d).0, 0, parse_expression(scan(source, d).0, 0))
}

/// The result of a run, as a mathematical value.
pub open spec fn run_view(r: Result<LoxValue, LoxError>) -> Result<Value, Seq<char>> {
    match r {
        Ok(v) => Ok(v@),
        Err(e) => Err(e@),
    }
}

impl Lox {
    /// Scans, parses and evaluates the source text. What the scanner and
    /// the parser report goes to `diagnostics`; a parse failure and a
    /// failed evaluation are returned with their messages.
    pub fn run(source: &str, diagnostics: &mut Diagnostics) -> (r: Result<LoxValue, LoxError>)
        ensures
            final(diagnostics)@ == run_diagnostics(source@, old(diagnostics)@),
            run_view(r) == run_outcome(source@, old(diagnostics)@),
    {
        let scanner = Scanner::new(source);
        proof {
            assert(tokens_view(scanner.tokens@) =~= Seq::empty());
        }
        let tokens = scanner.scan_tokens(diagnostics);
        let mut parser = Parser::new(tokens);
        let expression = match parser.parse(diagnostics) {
            Ok(e) => e,
            Err(e) => {
                return Err(LoxError::from(e));
            },
        };
        let interpreter = Interpreter::new();
        match interpreter.interpret(expression) {
            Ok(value) => Ok(value),
            Err(e) => Err(LoxError::from(e)),
        }
    }
}

} // verus!
