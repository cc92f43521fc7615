//! What is printed reads back: a literal, written as the pretty printer
//! writes it, scans and parses to the same literal.
//!
//! This holds of literals only. Every other tree is printed with its
//! operator first, or with the word `group`, and that is no expression of
//! the language.

use crate::ast_pretty_printer::prefix_text;
use crate::double::INFINITY_BITS;
use crate::expr::Tree;
use crate::loxerror::DiagnosticsModel;
use crate::loxvalue::Value;
use crate::numeral::display_text;
use crate::readback::law_shown_number_reads_back;
use crate::parser::{parse_expression, Parsed};
use crate::precedence::{law_parse_finds_spelled_tree, literal_of};
use crate::scanner::{
    end_marker, keyword_kind, run_until, scan, scan_from, scan_step, word_run, Step,
};
use crate::token::{Kind, TokenModel};
use vstd::prelude::*;

verus! {

/// Whether the text scans, without a report, to one token of `kind`
/// spelled by the whole text, and the end marker.
pub open spec fn scans_to_one(s: Seq<char>, d: DiagnosticsModel, kind: Kind) -> bool {
    exists|line: usize|
        scan(s, d) == (
            seq![TokenModel { kind, lexeme: s, line }, end_marker(line)],
            d,
        )
}

/// A text whose first step reads one token up to its end scans to that
/// token and the end marker.
proof fn lemma_one_step_scan(s: Seq<char>, d: DiagnosticsModel, kind: Kind, line: usize)
    requires
        s.len() > 0,
        scan_step(s, 0, 1) == (Step {
            next: s.len() as int,
            line,
            token: Some(TokenModel { kind, lexeme: s, line }),
            message: None,
        }),
    ensures
        scans_to_one(s, d, kind),
{
    let token = TokenModel { kind, lexeme: s, line };
    let first = Seq::<TokenModel>::empty().push(token);
    assert(scan_from(s, 0, 1, Seq::empty(), d) == scan_from(s, s.len() as int, line, first, d));
    assert(scan_from(s, s.len() as int, line, first, d) == (first.push(end_marker(line)), d));
    assert(first.push(end_marker(line)) =~= seq![token, end_marker(line)]);
}

/// Tokens of one literal and the end marker parse to the literal.
proof fn lemma_one_literal_parses(s: Seq<char>, d: DiagnosticsModel, kind: Kind, v: Value)
    requires
        scans_to_one(s, d, kind),
        literal_of(kind) == Some(v),
    ensures
        scan(s, d).1 == d,
        parse_expression(scan(s, d).0, 0) == (Parsed { outcome: Ok(Tree::Literal(v)), used: 1 }),
{
    let line = choose|line: usize|
        scan(s, d) == (
            seq![TokenModel { kind, lexeme: s, line }, end_marker(line)],
            d,
        );
    law_parse_finds_spelled_tree(scan(s, d).0, Tree::Literal(v));
}

proof fn lemma_word_scans(s: Seq<char>, d: DiagnosticsModel, kind: Kind)
    requires
        (s == "true"@ && kind == Kind::TRUE) || (s == "false"@ && kind == Kind::FALSE) || (s
            == "nil"@ && kind == Kind::NIL),
    ensures
        scans_to_one(s, d, kind),
{
    reveal_strlit("true");
    reveal_strlit("false");
    reveal_strlit("nil");
    reveal_strlit("and");
    reveal_strlit("class");
    reveal_strlit("else");
    reveal_strlit("for");
    reveal_strlit("fun");
    reveal_strlit("if");
    reveal_strlit("or");
    reveal_strlit("print");
    reveal_strlit("return");
    reveal_strlit("super");
    reveal_strlit("this");
    reveal_strlit("var");
    reveal_strlit("while");
    reveal_with_fuel(word_run, 6);
    assert(s.subrange(0, s.len() as int) =~= s);
    assert(s[0] != "and"@[0]);
    assert(s[0] != "class"@[0]);
    assert(s[0] != "else"@[0]);
    assert(s[0] != "or"@[0]);
    assert(s[0] != "if"@[0]);
    assert(s[0] != "print"@[0]);
    assert(s[0] != "return"@[0]);
    assert(s[0] != "super"@[0]);
    assert(s[0] != "var"@[0]);
    assert(s[0] != "while"@[0]);
    assert(s[1] != "for"@[1]);
    assert(s[1] != "fun"@[1]);
    assert(s[1] != "this"@[1]);
    assert(s.len() != "true"@.len() || s[0] == "true"@[0]);
    assert(keyword_kind(s) == Some(kind));
    lemma_one_step_scan(s, d, kind, 1);
}

/// A string without a double quote, between two double quotes, scans to
/// one string literal that holds it.
proof fn lemma_string_scans(s: Seq<char>, d: DiagnosticsModel)
    requires
        forall|i: int| 0 <= i < s.len() ==> s[i] != '"',
    ensures
        scans_to_one(seq!['"'] + s + seq!['"'], d, Kind::STRING(s)),
{
    let text = seq!['"'] + s + seq!['"'];
    let close: int = 1 + s.len() as int;
    assert(forall|k: int| 1 <= k < close ==> text[k] == s[k - 1]);
    lemma_run_until_before(text, 1, close, '"');
    assert(text.subrange(1, close) =~= s);
    assert(text.subrange(0, close + 1) =~= text);
    let step = scan_step(text, 0, 1);
    lemma_one_step_scan(text, d, Kind::STRING(s), step.line);
}

/// Where `c` stands at `end` and nowhere from `i` to there, `end - i`
/// characters stand before it.
proof fn lemma_run_until_before(s: Seq<char>, i: int, end: int, c: char)
    requires
        0 <= i <= end < s.len(),
        s[end] == c,
        forall|k: int| i <= k < end ==> s[k] != c,
    ensures
        i + run_until(s, i, c) == end,
    decreases end - i,
{
    if i < end {
        lemma_run_until_before(s, i + 1, end, c);
    }
}

proof fn lemma_number_scans(n: u64, d: DiagnosticsModel)
    requires
        n < INFINITY_BITS,
    ensures
        scans_to_one(display_text(n), d, Kind::NUMBER(n)),
{
    let text = display_text(n);
    law_shown_number_reads_back(n);
    assert(text.subrange(0, text.len() as int) =~= text);
    lemma_one_step_scan(text, d, Kind::NUMBER(n), 1);
}

/// Whether the literal, printed, reads back: every literal but a string
/// that holds a double quote, and but a number that is negative, infinite
/// or a NaN. No literal that the parser reads is one of these.
pub open spec fn prints_readably(v: Value) -> bool {
    match v {
        Value::Bool(_) => true,
        Value::Nil => true,
        Value::Text(s) => forall|i: int| 0 <= i < s.len() ==> s[i] != '"',
        Value::Number(n) => n < INFINITY_BITS,
    }
}

/// A printed literal reads back: the text that the pretty printer writes
/// for `true`, `false`, `nil`, a string without a double quote, or a finite
/// number that is not negative scans without a report, and its tokens
/// parse to the same literal.
pub proof fn law_printed_literal_reads_back(v: Value, d: DiagnosticsModel)
    requires
        prints_readably(v),
    ensures
        scan(prefix_text(Tree::Literal(v)), d).1 == d,
        parse_expression(scan(prefix_text(Tree::Literal(v)), d).0, 0).outcome == Ok::<
            Tree,
            Option<TokenModel>,
        >(Tree::Literal(v)),
{
    let text = prefix_text(Tree::Literal(v));
    match v {
        Value::Bool(b) => {
            if b {
                lemma_word_scans(text, d, Kind::TRUE);
                lemma_one_literal_parses(text, d, Kind::TRUE, v);
            } else {
                lemma_word_scans(text, d, Kind::FALSE);
                lemma_one_literal_parses(text, d, Kind::FALSE, v);
            }
        },
        Value::Nil => {
            lemma_word_scans(text, d, Kind::NIL);
            lemma_one_literal_parses(text, d, Kind::NIL, v);
        },
        Value::Text(s) => {
            lemma_string_scans(s, d);
            lemma_one_literal_parses(text, d, Kind::STRING(s), v);
        },
        Value::Number(n) => {
            lemma_number_scans(n, d);
            lemma_one_literal_parses(text, d, Kind::NUMBER(n), v);
        },
    }
}

} // verus!
