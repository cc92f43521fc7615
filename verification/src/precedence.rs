//! The grammar that the parser reads, stated on trees, and its laws: the
//! parser finds the tree that the tokens spell, whatever it reads is
//! spelled by the tokens, and arithmetic evaluates by the four operations
//! of the numbers, in the order that the grammar gives.
//!
//! A tree *fits* a level where no operator in it binds looser than its
//! place allows: the left operand of an operator may be of the operator's
//! own level, the right operand must bind tighter. That is precedence, with
//! operators of one level nesting to the left.

use crate::expr::Tree;
use crate::interpreter::{eval, MINUS_ONE};
use crate::lox::run_outcome;
use crate::loxerror::DiagnosticsModel;
use crate::loxvalue::Value;
use crate::scanner::scan;
use crate::number::{difference_bits, product_bits, quotient_bits, sum_bits};
use crate::parser::{
    is_operator, parse_error_text, parse_expression, parse_level, parse_primary, parse_rest,
    parse_unary, Parsed,
};
use crate::token::{Kind, TokenModel};
use vstd::prelude::*;

verus! {

/// The level at which a token of `kind` joins two operands; 0 where it
/// joins none.
pub open spec fn operator_level(kind: Kind) -> nat {
    if kind is SLASH || kind is STAR {
        1
    } else if kind is MINUS || kind is PLUS {
        2
    } else if kind is GREATER_EQUAL || kind is GREATER || kind is LESS_EQUAL || kind is LESS {
        3
    } else if kind is BANG_EQUAL || kind is EQUAL_EQUAL {
        4
    } else {
        0
    }
}

/// The level of the operator at the root of `a`; 0 where the root is no
/// binary node.
pub open spec fn top_level(a: Tree) -> nat {
    match a {
        Tree::Binary(_, op, _) => operator_level(op.kind),
        _ => 0,
    }
}

/// The level from which reading goes on after the tree `a`.
pub open spec fn resume_level(a: Tree) -> nat {
    if top_level(a) == 0 {
        1
    } else {
        top_level(a)
    }
}

/// How many tokens spell the tree.
pub open spec fn width(a: Tree) -> nat
    decreases a,
{
    match a {
        Tree::Literal(_) => 1,
        Tree::Grouping(e) => 2 + width(*e),
        Tree::Unary(_, e) => 1 + width(*e),
        Tree::Binary(l, _, r) => width(*l) + 1 + width(*r),
    }
}

/// Whether the tree may stand where operators up to `level` are read.
pub open spec fn fits(a: Tree, level: nat) -> bool
    decreases a,
{
    match a {
        Tree::Literal(_) => true,
        Tree::Grouping(e) => fits(*e, 4),
        Tree::Unary(_, e) => fits(*e, 0),
        Tree::Binary(l, op, r) => {
            let k = operator_level(op.kind);
            1 <= k <= level && fits(*l, k) && fits(*r, (k - 1) as nat)
        },
    }
}

/// The literal value that a token of `kind` stands for.
pub open spec fn literal_of(kind: Kind) -> Option<Value> {
    match kind {
        Kind::FALSE => Some(Value::Bool(false)),
        Kind::TRUE => Some(Value::Bool(true)),
        Kind::NIL => Some(Value::Nil),
        Kind::NUMBER(n) => Some(Value::Number(n)),
        Kind::STRING(s) => Some(Value::Text(s)),
        _ => None,
    }
}

/// Whether the tokens from `pos` on spell the tree `a`: its literals and
/// operators in their order, each grouping between its parentheses.
pub open spec fn spells(t: Seq<TokenModel>, pos: nat, a: Tree) -> bool
    decreases a,
{
    pos + width(a) <= t.len() && match a {
        Tree::Literal(v) => literal_of(t[pos as int].kind) == Some(v),
        Tree::Grouping(e) => t[pos as int].kind is LEFT_PAREN && spells(t, pos + 1, *e) && t[(pos
            + 1 + width(*e)) as int].kind is RIGHT_PAREN,
        Tree::Unary(op, e) => t[pos as int] == op && (op.kind is BANG || op.kind is MINUS)
            && spells(t, pos + 1, *e),
        Tree::Binary(l, op, r) => spells(t, pos, *l) && t[(pos + width(*l)) as int] == op && spells(
            t,
            pos + width(*l) + 1,
            *r,
        ),
    }
}

/// `p`, after `n` tokens more were passed before it.
pub open spec fn advanced(n: nat, p: Parsed) -> Parsed {
    Parsed { outcome: p.outcome, used: n + p.used }
}

/// What the levels `from` to `to` read, one after the other, once the
/// operand `left` has been read up to `pos`.
pub open spec fn resume(t: Seq<TokenModel>, pos: nat, from: nat, to: nat, left: Tree) -> Parsed
    decreases to,
{
    if to < from || to == 0 {
        Parsed { outcome: Ok(left), used: 0 }
    } else {
        let inner = resume(t, pos, from, (to - 1) as nat, left);
        match inner.outcome {
            Err(e) => inner,
            Ok(x) => advanced(inner.used, parse_rest(t, pos + inner.used, to, x)),
        }
    }
}

/// `first`, and then the levels `from` to `to`.
pub open spec fn and_then_resume(t: Seq<TokenModel>, pos: nat, first: Parsed, from: nat, to: nat) -> Parsed {
    match first.outcome {
        Err(e) => first,
        Ok(x) => advanced(first.used, resume(t, pos + first.used, from, to, x)),
    }
}

proof fn lemma_fits_looser(a: Tree, k: nat, level: nat)
    requires
        fits(a, k),
        k <= level,
    ensures
        fits(a, level),
{
}

proof fn lemma_fits_top(a: Tree, level: nat)
    requires
        fits(a, level),
    ensures
        top_level(a) <= level,
{
}

/// Where the next token is no operator of the levels `from` to `to`, these
/// levels read nothing.
proof fn lemma_resume_quiet(t: Seq<TokenModel>, pos: nat, from: nat, to: nat, left: Tree)
    requires
        pos < t.len(),
        from >= 1,
        to <= 4,
        operator_level(t[pos as int].kind) < from || operator_level(t[pos as int].kind) > to,
    ensures
        resume(t, pos, from, to, left) == (Parsed { outcome: Ok(left), used: 0 }),
    decreases to,
{
    if !(to < from || to == 0) {
        lemma_resume_quiet(t, pos, from, (to - 1) as nat, left);
    }
}

/// The levels `from` to `to` read what level `from` reads, and then what
/// the levels above it read.
proof fn lemma_resume_front(t: Seq<TokenModel>, pos: nat, from: nat, to: nat, left: Tree)
    requires
        1 <= from <= to,
    ensures
        resume(t, pos, from, to, left) == and_then_resume(
            t,
            pos,
            parse_rest(t, pos, from, left),
            from + 1,
            to,
        ),
    decreases to,
{
    let first = parse_rest(t, pos, from, left);
    if to == from {
        assert(resume(t, pos, from, (to - 1) as nat, left) == (Parsed {
            outcome: Ok(left),
            used: 0,
        }));
    } else {
        lemma_resume_front(t, pos, from, (to - 1) as nat, left);
    }
}

/// Levels below that of the next operator read nothing.
proof fn lemma_resume_skip(t: Seq<TokenModel>, pos: nat, from: nat, k: nat, to: nat, left: Tree)
    requires
        pos < t.len(),
        1 <= from <= k <= to <= 4,
        operator_level(t[pos as int].kind) == k,
    ensures
        resume(t, pos, from, to, left) == resume(t, pos, k, to, left),
    decreases k - from,
{
    if from < k {
        lemma_resume_front(t, pos, from, to, left);
        lemma_resume_skip(t, pos, from + 1, k, to, left);
    }
}

/// A level reads a unary expression, and then what the levels up to it
/// read.
proof fn lemma_level_resumes(t: Seq<TokenModel>, pos: nat, level: nat)
    ensures
        parse_level(t, pos, level) == and_then_resume(t, pos, parse_unary(t, pos), 1, level),
    decreases level,
{
    if level > 0 {
        lemma_level_resumes(t, pos, (level - 1) as nat);
    }
}

/// A tree that spells out from `pos` and is no binary node is what the
/// unary level reads there.
proof fn lemma_spelled_unary(t: Seq<TokenModel>, pos: nat, a: Tree)
    requires
        spells(t, pos, a),
        fits(a, 0),
    ensures
        parse_unary(t, pos) == (Parsed { outcome: Ok(a), used: width(a) }),
    decreases a, 0nat,
{
    match a {
        Tree::Literal(v) => {
            assert(pos < t.len());
            assert(literal_of(t[pos as int].kind) == Some(v));
            assert(parse_unary(t, pos) == parse_primary(t, pos));
        },
        Tree::Grouping(e) => {
            let close = pos + 1 + width(*e);
            lemma_spelled_level(t, pos + 1, *e, 4);
            lemma_resume_quiet(t, close, resume_level(*e), 4, *e);
        },
        Tree::Unary(op, e) => {
            lemma_spelled_unary(t, pos + 1, *e);
        },
        Tree::Binary(l, op, r) => {},
    }
}

/// A tree that spells out from `pos` and fits `level` is what the level
/// reads there, and reading goes on behind it, provided that the token
/// behind it is no operator that binds tighter than the tree's own.
proof fn lemma_spelled_level(t: Seq<TokenModel>, pos: nat, a: Tree, level: nat)
    requires
        level <= 4,
        spells(t, pos, a),
        fits(a, level),
        pos + width(a) < t.len(),
        operator_level(t[(pos + width(a)) as int].kind) == 0 || operator_level(
            t[(pos + width(a)) as int].kind,
        ) >= top_level(a),
    ensures
        parse_level(t, pos, level) == advanced(
            width(a),
            resume(t, pos + width(a), resume_level(a), level, a),
        ),
    decreases a, 1nat,
{
    match a {
        Tree::Binary(l, op, r) => {
            let k = operator_level(op.kind);
            let p = pos + width(*l);
            let end = pos + width(a);
            lemma_fits_looser(*l, k, level);
            lemma_fits_top(*l, k);
            lemma_fits_top(*r, (k - 1) as nat);
            lemma_spelled_level(t, pos, *l, level);
            lemma_resume_skip(t, p, resume_level(*l), k, level, *l);
            lemma_resume_front(t, p, k, level, *l);
            lemma_spelled_level(t, p + 1, *r, (k - 1) as nat);
            lemma_resume_quiet(t, end, resume_level(*r), (k - 1) as nat, *r);
            lemma_resume_front(t, end, k, level, a);
            let right = parse_level(t, p + 1, (k - 1) as nat);
            assert(right == (Parsed { outcome: Ok(*r), used: width(*r) }));
            assert(is_operator(k, t[p as int].kind));
            assert(Tree::Binary(Box::new(*l), t[p as int], Box::new(*r)) == a);
            let more = parse_rest(t, end, k, a);
            assert(parse_rest(t, p, k, *l) == advanced(1 + width(*r), more));
        },
        _ => {
            lemma_spelled_unary(t, pos, a);
            lemma_level_resumes(t, pos, level);
        },
    }
}

/// The parser finds the tree that the tokens spell: where the tokens up
/// to one that is no binary operator (the end marker, for one) spell a
/// tree that fits the grammar, parsing gives that tree and stops there.
pub proof fn law_parse_finds_spelled_tree(t: Seq<TokenModel>, a: Tree)
    requires
        spells(t, 0, a),
        fits(a, 4),
        width(a) < t.len(),
        operator_level(t[width(a) as int].kind) == 0,
    ensures
        parse_expression(t, 0) == (Parsed { outcome: Ok(a), used: width(a) }),
{
    lemma_spelled_level(t, 0, a, 4);
    lemma_resume_quiet(t, width(a), resume_level(a), 4, a);
}

/// Whether the tree holds only number literals, the four arithmetic
/// operators, negation and groupings.
pub open spec fn is_arithmetic(a: Tree) -> bool
    decreases a,
{
    match a {
        Tree::Literal(v) => v is Number,
        Tree::Grouping(e) => is_arithmetic(*e),
        Tree::Unary(op, e) => op.kind is MINUS && is_arithmetic(*e),
        Tree::Binary(l, op, r) => (op.kind is PLUS || op.kind is MINUS || op.kind is STAR
            || op.kind is SLASH) && is_arithmetic(*l) && is_arithmetic(*r),
    }
}

/// The bits of the number that an arithmetic tree denotes: each operator
/// is the operation of the numbers on what its operands denote.
pub open spec fn arithmetic_value(a: Tree) -> u64
    decreases a,
{
    match a {
        Tree::Literal(v) => match v {
            Value::Number(n) => n,
            _ => 0,
        },
        Tree::Grouping(e) => arithmetic_value(*e),
        Tree::Unary(op, e) => product_bits(MINUS_ONE, arithmetic_value(*e)),
        Tree::Binary(l, op, r) => {
            let x = arithmetic_value(*l);
            let y = arithmetic_value(*r);
            if op.kind is PLUS {
                sum_bits(x, y)
            } else if op.kind is MINUS {
                difference_bits(x, y)
            } else if op.kind is STAR {
                product_bits(x, y)
            } else {
                quotient_bits(x, y)
            }
        },
    }
}

/// An arithmetic tree never fails, and evaluates to the number that it
/// denotes.
pub proof fn law_arithmetic_evaluates(a: Tree)
    requires
        is_arithmetic(a),
    ensures
        eval(a) == Ok::<Value, crate::interpreter::Failure>(Value::Number(arithmetic_value(a))),
    decreases a,
{
    match a {
        Tree::Literal(v) => {},
        Tree::Grouping(e) => {
            law_arithmetic_evaluates(*e);
        },
        Tree::Unary(op, e) => {
            law_arithmetic_evaluates(*e);
        },
        Tree::Binary(l, op, r) => {
            law_arithmetic_evaluates(*l);
            law_arithmetic_evaluates(*r);
        },
    }
}

/// Arithmetic follows precedence: where the tokens up to the end marker
/// spell an arithmetic tree that fits the grammar, parsing gives that tree
/// and evaluating it gives the number that the tree denotes, each operator
/// applied to its operands by the rounding arithmetic of the numbers,
/// operators of one level from left to right.
pub proof fn law_arithmetic_follows_precedence(t: Seq<TokenModel>, a: Tree)
    requires
        spells(t, 0, a),
        fits(a, 4),
        is_arithmetic(a),
        width(a) < t.len(),
        t[width(a) as int].kind is EOF,
    ensures
        parse_expression(t, 0).outcome == Ok::<Tree, Option<TokenModel>>(a),
        eval(a) == Ok::<Value, crate::interpreter::Failure>(Value::Number(arithmetic_value(a))),
{
    law_parse_finds_spelled_tree(t, a);
    law_arithmetic_evaluates(a);
}

/// Whether what was read from `start` on, if a tree, is spelled by the
/// tokens that were passed, and fits `level`.
pub open spec fn reads_spelled(t: Seq<TokenModel>, start: nat, level: nat, passed: nat, p: Parsed) -> bool {
    match p.outcome {
        Ok(a) => spells(t, start, a) && fits(a, level) && width(a) == passed + p.used,
        Err(_) => true,
    }
}

/// Every tree that a level reads is spelled by the tokens that it passed,
/// and fits the level.
pub proof fn lemma_level_reads_spelled(t: Seq<TokenModel>, pos: nat, level: nat)
    requires
        level <= 4,
    ensures
        reads_spelled(t, pos, level, 0, parse_level(t, pos, level)),
    decreases crate::parser::remaining(t, pos), 2 * level + 2,
{
    if level == 0 {
        lemma_unary_reads_spelled(t, pos);
    } else {
        let first = parse_level(t, pos, (level - 1) as nat);
        lemma_level_reads_spelled(t, pos, (level - 1) as nat);
        match first.outcome {
            Err(e) => {},
            Ok(left) => {
                lemma_fits_looser(left, (level - 1) as nat, level);
                lemma_rest_reads_spelled(t, pos, pos + first.used, level, left);
            },
        }
    }
}

proof fn lemma_rest_reads_spelled(t: Seq<TokenModel>, start: nat, pos: nat, level: nat, left: Tree)
    requires
        1 <= level <= 4,
        start <= pos,
        spells(t, start, left),
        fits(left, level),
        width(left) == pos - start,
    ensures
        reads_spelled(t, start, level, (pos - start) as nat, parse_rest(t, pos, level, left)),
    decreases crate::parser::remaining(t, pos), 2 * level + 1,
{
    if pos < t.len() && is_operator(level, t[pos as int].kind) {
        let right = parse_level(t, pos + 1, (level - 1) as nat);
        lemma_level_reads_spelled(t, pos + 1, (level - 1) as nat);
        match right.outcome {
            Err(e) => {},
            Ok(tree) => {
                let joined = Tree::Binary(Box::new(left), t[pos as int], Box::new(tree));
                assert(operator_level(t[pos as int].kind) == level);
                assert(spells(t, start, joined));
                assert(fits(joined, level));
                lemma_rest_reads_spelled(t, start, pos + 1 + right.used, level, joined);
            },
        }
    }
}

proof fn lemma_unary_reads_spelled(t: Seq<TokenModel>, pos: nat)
    ensures
        reads_spelled(t, pos, 0, 0, parse_unary(t, pos)),
    decreases crate::parser::remaining(t, pos), 1nat,
{
    if pos < t.len() {
        if t[pos as int].kind is BANG || t[pos as int].kind is MINUS {
            lemma_unary_reads_spelled(t, pos + 1);
        } else {
            lemma_primary_reads_spelled(t, pos);
        }
    }
}

proof fn lemma_primary_reads_spelled(t: Seq<TokenModel>, pos: nat)
    ensures
        reads_spelled(t, pos, 0, 0, parse_primary(t, pos)),
    decreases crate::parser::remaining(t, pos), 0nat,
{
    if pos < t.len() && t[pos as int].kind is LEFT_PAREN {
        lemma_level_reads_spelled(t, pos + 1, 4);
    }
}

/// Whether a token of `kind` is a number, one of the four arithmetic
/// operators, a parenthesis, or the end marker.
pub open spec fn is_arithmetic_kind(kind: Kind) -> bool {
    kind is NUMBER || kind is PLUS || kind is MINUS || kind is STAR || kind is SLASH
        || kind is LEFT_PAREN || kind is RIGHT_PAREN || kind is EOF
}

/// A tree that fits the grammar and is spelled by tokens of arithmetic
/// is arithmetic.
proof fn lemma_spelled_by_arithmetic(t: Seq<TokenModel>, pos: nat, a: Tree, level: nat)
    requires
        spells(t, pos, a),
        fits(a, level),
        forall|i: int| 0 <= i < t.len() ==> is_arithmetic_kind(#[trigger] t[i].kind),
    ensures
        is_arithmetic(a),
    decreases a,
{
    match a {
        Tree::Literal(v) => {
            assert(is_arithmetic_kind(t[pos as int].kind));
        },
        Tree::Grouping(e) => {
            lemma_spelled_by_arithmetic(t, pos + 1, *e, 4);
        },
        Tree::Unary(op, e) => {
            assert(is_arithmetic_kind(t[pos as int].kind));
            lemma_spelled_by_arithmetic(t, pos + 1, *e, 0);
        },
        Tree::Binary(l, op, r) => {
            let k = operator_level(op.kind);
            assert(is_arithmetic_kind(t[(pos + width(*l)) as int].kind));
            lemma_spelled_by_arithmetic(t, pos, *l, k);
            lemma_spelled_by_arithmetic(t, pos + width(*l) + 1, *r, (k - 1) as nat);
        },
    }
}

/// Arithmetic evaluates by precedence: of tokens that are numbers, the
/// four arithmetic operators, parentheses and the end marker only,
/// whatever parses is read as the grammar says, operators of one level
/// from left to right, and evaluates without failure to the number that
/// this reading denotes by the rounding arithmetic of the numbers.
pub proof fn law_arithmetic_input_evaluates(t: Seq<TokenModel>)
    requires
        forall|i: int| 0 <= i < t.len() ==> is_arithmetic_kind(#[trigger] t[i].kind),
    ensures
        parse_expression(t, 0).outcome matches Ok(a) ==> {
            &&& spells(t, 0, a)
            &&& fits(a, 4)
            &&& is_arithmetic(a)
            &&& eval(a) == Ok::<Value, crate::interpreter::Failure>(
                Value::Number(arithmetic_value(a)),
            )
        },
{
    lemma_level_reads_spelled(t, 0, 4);
    match parse_expression(t, 0).outcome {
        Ok(a) => {
            lemma_spelled_by_arithmetic(t, 0, a, 4);
            law_arithmetic_evaluates(a);
        },
        Err(_) => {},
    }
}

/// Running arithmetic gives its number: a source text whose tokens are
/// numbers, the four arithmetic operators, parentheses and the end marker
/// only runs, where it parses, to the number that its reading by the
/// grammar denotes; it never fails in evaluation.
pub proof fn law_arithmetic_source_runs(source: Seq<char>, d: DiagnosticsModel)
    requires
        forall|i: int|
            0 <= i < scan(source, d).0.len() ==> is_arithmetic_kind(
                #[trigger] scan(source, d).0[i].kind,
            ),
    ensures
        match parse_expression(scan(source, d).0, 0).outcome {
            Ok(a) => {
                &&& spells(scan(source, d).0, 0, a)
                &&& fits(a, 4)
                &&& run_outcome(source, d) == Ok::<Value, Seq<char>>(
                    Value::Number(arithmetic_value(a)),
                )
            },
            Err(e) => run_outcome(source, d) == Err::<Value, Seq<char>>(parse_error_text(e)),
        },
{
    law_arithmetic_input_evaluates(scan(source, d).0);
}

} // verus!
