//! A small expression language: source text is scanned into tokens, parsed
//! into an expression tree by recursive descent, and evaluated to a value.
//!
//! The pipeline is `scanner`, `parser`, `interpreter`, one after the other
//! in `lox`; `token`, `expr` and `loxvalue` hold what passes between them,
//! and `loxerror` the errors and what was reported. Each stage has a
//! mathematical statement of what it computes (`scan`, `parse_expression`,
//! `eval`), and its functions are proved to compute exactly that.
//!
//! Numbers are IEEE-754 binary64 values held as bit patterns (`number`).
//! Their arithmetic is carried out exactly on arbitrary-precision naturals
//! (`bignat`) and rounded once, to nearest with ties to even (`double`);
//! `numeral` writes them with the fewest digits that read back.
//!
//! What holds of all inputs is proved beside the stages: the parser finds
//! the tree that the grammar gives, and arithmetic evaluates by precedence
//! (`precedence`); rounding gives the nearest number (`rounding_laws`); a
//! numeral is the shortest that reads back (`numeral_laws`, `readback`);
//! and a printed literal scans and parses to itself (`roundtrip`).

pub mod ast_pretty_printer;
pub mod bignat;
pub mod double;
pub mod expr;
pub mod interpreter;
pub mod lox;
pub mod loxerror;
pub mod loxvalue;
pub mod number;
pub mod numeral;
pub mod numeral_laws;
pub mod parser;
pub mod precedence;
pub mod readback;
pub mod rounding_laws;
pub mod roundtrip;
pub mod scanner;
pub mod text;
pub mod token;
pub mod token_text;
