//! The parser: tokens to one expression tree, by recursive descent.
//!
//! The grammar has four levels of binary operators over unary operators
//! over primaries. `parse_level` says what each level reads from a position
//! in a token sequence; the `Parser` computes exactly that.

use crate::expr::{well_formed, BinaryExpr, Expr, GroupingExpr, LiteralExpr, Tree, UnaryExpr};
use crate::loxerror::{report, reported_at, Diagnostics, DiagnosticsModel, LoxError};
use crate::loxvalue::Value;
use crate::text::{decimal_text, push_decimal, push_text};
use crate::token::{tokens_view, Kind, Token, TokenModel, TokenType};
use crate::token_text::{kind_text, push_kind};
use vstd::prelude::*;

verus! {

/// Why a parse failed: the token that could not be read, or nothing where
/// the tokens had ended.
#[derive(Debug, PartialEq)]
pub struct ParserError {
    pub token: Option<Token>,
}

impl View for ParserError {
    type V = Option<TokenModel>;

    open spec fn view(&self) -> Option<TokenModel> {
        match self.token {
            Some(t) => Some(t@),
            None => None,
        }
    }
}

impl ParserError {
    /// The failure at `token`, or at the end of the input.
    pub fn new(token: Option<Token>) -> (r: Self)
        ensures
            r.token == token,
    {
        Self { token }
    }
}

/// The message for a parse failure: the token that could not be read,
/// with its text, its kind and its line, or the end of the input.
pub open spec fn parse_error_text(failure: Option<TokenModel>) -> Seq<char> {
    match failure {
        Some(t) => "Parsing error: Unexpected token '"@ + t.lexeme + "'("@ + kind_text(t.kind)
            + ") at line "@ + decimal_text(t.line as nat),
        None => "Parsing error: unexpectedly reached end of file"@,
    }
}

impl From<ParserError> for LoxError {
    fn from(error: ParserError) -> (r: Self)
        ensures
            r@ == parse_error_text(error@),
    {
        let mut message = String::new();
        match error.token {
            Some(t) => {
                push_text(&mut message, "Parsing error: Unexpected token '");
                push_text(&mut message, t.lexeme.as_str());
                push_text(&mut message, "'(");
                push_kind(&mut message, &t.token_type);
                push_text(&mut message, ") at line ");
                push_decimal(&mut message, t.line as u64);
                proof {
                    assert(message@ =~= "Parsing error: Unexpected token '"@ + t.lexeme@ + "'("@
                        + kind_text(t.token_type@) + ") at line "@ + decimal_text(t.line as nat));
                }
            },
            None => {
                push_text(&mut message, "Parsing error: unexpectedly reached end of file");
                proof {
                    assert(message@ =~= "Parsing error: unexpectedly reached end of file"@);
                }
            },
        }
        LoxError { message }
    }
}

impl vstd::std_specs::convert::FromSpecImpl<ParserError> for LoxError {
    open spec fn obeys_from_spec() -> bool {
        false
    }

    open spec fn from_spec(error: ParserError) -> Self {
        arbitrary()
    }
}

/// The level of the factors, joined by `*` and `/`.
pub const FACTOR: u8 = 1;

/// The level of the terms, joined by `+` and `-`.
pub const TERM: u8 = 2;

/// The level of the comparisons, joined by `>`, `>=`, `<` and `<=`.
pub const COMPARISON: u8 = 3;

/// The level of the equalities, joined by `==` and `!=`.
pub const EQUALITY: u8 = 4;

/// Whether a token of `kind` joins two operands at `level`.
pub open spec fn is_operator(level: nat, kind: Kind) -> bool {
    if level == 1 {
        kind is SLASH || kind is STAR
    } else if level == 2 {
        kind is MINUS || kind is PLUS
    } else if level == 3 {
        kind is GREATER_EQUAL || kind is GREATER || kind is LESS_EQUAL || kind is LESS
    } else if level == 4 {
        kind is BANG_EQUAL || kind is EQUAL_EQUAL
    } else {
        false
    }
}

/// What reading from a position gives: the tree or the failure, and how
/// many tokens were passed.
pub ghost struct Parsed {
    pub outcome: Result<Tree, Option<TokenModel>>,
    pub used: nat,
}

/// How many tokens stand from `pos` on.
pub open spec fn remaining(t: Seq<TokenModel>, pos: nat) -> nat {
    if pos <= t.len() {
        (t.len() - pos) as nat
    } else {
        0
    }
}

/// The failure at `pos`: the token there, or the end of the input where
/// the end marker stands or the tokens have ended.
pub open spec fn failure_at(t: Seq<TokenModel>, pos: nat) -> Option<TokenModel> {
    if pos < t.len() && !(t[pos as int].kind is EOF) {
        Some(t[pos as int])
    } else {
        None
    }
}

/// A literal, or an expression in parentheses.
pub open spec fn parse_primary(t: Seq<TokenModel>, pos: nat) -> Parsed
    decreases remaining(t, pos), 0nat,
{
    if pos < t.len() {
        match t[pos as int].kind {
            Kind::FALSE => Parsed { outcome: Ok(Tree::Literal(Value::Bool(false))), used: 1 },
            Kind::TRUE => Parsed { outcome: Ok(Tree::Literal(Value::Bool(true))), used: 1 },
            Kind::NIL => Parsed { outcome: Ok(Tree::Literal(Value::Nil)), used: 1 },
            Kind::NUMBER(n) => Parsed { outcome: Ok(Tree::Literal(Value::Number(n))), used: 1 },
            Kind::STRING(s) => Parsed { outcome: Ok(Tree::Literal(Value::Text(s))), used: 1 },
            Kind::LEFT_PAREN => {
                let inner = parse_level(t, pos + 1, 4);
                let close = pos + 1 + inner.used;
                match inner.outcome {
                    Err(e) => Parsed { outcome: Err(e), used: 1 + inner.used },
                    Ok(tree) => if close < t.len() && t[close as int].kind is RIGHT_PAREN {
                        Parsed { outcome: Ok(Tree::Grouping(Box::new(tree))), used: 2 + inner.used }
                    } else {
                        Parsed { outcome: Err(failure_at(t, close)), used: 1 + inner.used }
                    },
                }
            },
            _ => Parsed { outcome: Err(failure_at(t, pos)), used: 0 },
        }
    } else {
        Parsed { outcome: Err(None), used: 0 }
    }
}

/// Any number of `!` and `-`, then a primary.
pub open spec fn parse_unary(t: Seq<TokenModel>, pos: nat) -> Parsed
    decreases remaining(t, pos), 1nat,
{
    if pos < t.len() {
        if t[pos as int].kind is BANG || t[pos as int].kind is MINUS {
            let operand = parse_unary(t, pos + 1);
            match operand.outcome {
                Err(e) => Parsed { outcome: Err(e), used: 1 + operand.used },
                Ok(tree) => Parsed {
                    outcome: Ok(Tree::Unary(t[pos as int], Box::new(tree))),
                    used: 1 + operand.used,
                },
            }
        } else {
            parse_primary(t, pos)
        }
    } else {
        Parsed { outcome: Err(None), used: 0 }
    }
}

/// One operand of the next tighter level, then as many operators of this
/// level with a further operand each as follow, nested to the left.
pub open spec fn parse_level(t: Seq<TokenModel>, pos: nat, level: nat) -> Parsed
    decreases remaining(t, pos), 2 * level + 2,
{
    if level == 0 {
        parse_unary(t, pos)
    } else {
        let first = parse_level(t, pos, (level - 1) as nat);
        match first.outcome {
            Err(e) => first,
            Ok(left) => {
                let rest = parse_rest(t, pos + first.used, level, left);
                Parsed { outcome: rest.outcome, used: first.used + rest.used }
            },
        }
    }
}

/// The operators of `level` from `pos` on, each with its right operand,
/// folded around `left`. Where the tokens have ended without an end
/// marker, the failure is the end of the input.
pub open spec fn parse_rest(t: Seq<TokenModel>, pos: nat, level: nat, left: Tree) -> Parsed
    decreases remaining(t, pos), 2 * level + 1,
{
    if pos < t.len() {
        if level > 0 && is_operator(level, t[pos as int].kind) {
            let right = parse_level(t, pos + 1, (level - 1) as nat);
            match right.outcome {
                Err(e) => Parsed { outcome: Err(e), used: 1 + right.used },
                Ok(tree) => {
                    let more = parse_rest(
                        t,
                        pos + 1 + right.used,
                        level,
                        Tree::Binary(Box::new(left), t[pos as int], Box::new(tree)),
                    );
                    Parsed { outcome: more.outcome, used: 1 + right.used + more.used }
                },
            }
        } else {
            Parsed { outcome: Ok(left), used: 0 }
        }
    } else {
        Parsed { outcome: Err(None), used: 0 }
    }
}

/// What parsing the tokens `t` from `pos` gives.
pub open spec fn parse_expression(t: Seq<TokenModel>, pos: nat) -> Parsed {
    parse_level(t, pos, 4)
}

/// Whether what was read, if a tree, holds only operators that its nodes
/// can apply.
pub open spec fn reads_well_formed(p: Parsed) -> bool {
    match p.outcome {
        Ok(tree) => well_formed(tree),
        Err(_) => true,
    }
}

/// Every tree that a level reads is well formed.
pub proof fn lemma_level_well_formed(t: Seq<TokenModel>, pos: nat, level: nat)
    requires
        level <= 4,
    ensures
        reads_well_formed(parse_level(t, pos, level)),
    decreases remaining(t, pos), 2 * level + 2,
{
    if level == 0 {
        lemma_unary_well_formed(t, pos);
    } else {
        let first = parse_level(t, pos, (level - 1) as nat);
        lemma_level_well_formed(t, pos, (level - 1) as nat);
        match first.outcome {
            Err(e) => {},
            Ok(left) => {
                lemma_rest_well_formed(t, pos + first.used, level, left);
            },
        }
    }
}

/// Operators of a level, joined to a well-formed tree, give a well-formed
/// tree.
pub proof fn lemma_rest_well_formed(t: Seq<TokenModel>, pos: nat, level: nat, left: Tree)
    requires
        level <= 4,
        well_formed(left),
    ensures
        reads_well_formed(parse_rest(t, pos, level, left)),
    decreases remaining(t, pos), 2 * level + 1,
{
    if pos < t.len() && level > 0 && is_operator(level, t[pos as int].kind) {
        let right = parse_level(t, pos + 1, (level - 1) as nat);
        lemma_level_well_formed(t, pos + 1, (level - 1) as nat);
        match right.outcome {
            Err(e) => {},
            Ok(tree) => {
                lemma_rest_well_formed(
                    t,
                    pos + 1 + right.used,
                    level,
                    Tree::Binary(Box::new(left), t[pos as int], Box::new(tree)),
                );
            },
        }
    }
}

/// Every tree that the unary level reads is well formed.
pub proof fn lemma_unary_well_formed(t: Seq<TokenModel>, pos: nat)
    ensures
        reads_well_formed(parse_unary(t, pos)),
    decreases remaining(t, pos), 1nat,
{
    if pos < t.len() {
        if t[pos as int].kind is BANG || t[pos as int].kind is MINUS {
            lemma_unary_well_formed(t, pos + 1);
        } else {
            lemma_primary_well_formed(t, pos);
        }
    }
}

/// Every tree that the primary level reads is well formed.
pub proof fn lemma_primary_well_formed(t: Seq<TokenModel>, pos: nat)
    ensures
        reads_well_formed(parse_primary(t, pos)),
    decreases remaining(t, pos), 0nat,
{
    if pos < t.len() && t[pos as int].kind is LEFT_PAREN {
        lemma_level_well_formed(t, pos + 1, 4);
    }
}

/// The result of a parse, as a mathematical value.
pub open spec fn outcome_view(r: Result<Expr, ParserError>) -> Result<Tree, Option<TokenModel>> {
    match r {
        Ok(e) => Ok(e@),
        Err(e) => Err(e@),
    }
}

/// The line for which a failure is reported: that of the token that could
/// not be read; for the end of the input, that of the token at `pos`, where
/// the parser stopped, or else of the last token, or else 0.
pub open spec fn failure_line(t: Seq<TokenModel>, pos: nat, failure: Option<TokenModel>) -> usize {
    match failure {
        Some(token) => token.line,
        None => if pos < t.len() {
            t[pos as int].line
        } else if t.len() > 0 {
            t.last().line
        } else {
            0
        },
    }
}

/// Where a failure is reported to be.
pub open spec fn failure_location(failure: Option<TokenModel>) -> Seq<char> {
    match failure {
        Some(token) => "at '"@ + token.lexeme + "'"@,
        None => "at end"@,
    }
}

/// What a failure is reported as.
pub open spec fn failure_message(failure: Option<TokenModel>) -> Seq<char> {
    match failure {
        Some(token) => "Unexpected token"@,
        None => "unexpectedly reached end of file"@,
    }
}

/// The diagnostics after a parse from `start`: as before where it gave a
/// tree, and with the failure reported where it failed.
pub open spec fn parse_reported(
    d: DiagnosticsModel,
    t: Seq<TokenModel>,
    start: nat,
    p: Parsed,
) -> DiagnosticsModel {
    match p.outcome {
        Ok(_) => d,
        Err(e) => reported_at(
            d,
            failure_line(t, start + p.used, e),
            failure_location(e),
            failure_message(e),
        ),
    }
}

/// Whether `r`, with the parser at `current`, is what `p` says.
pub open spec fn agrees(r: Result<Expr, ParserError>, current: int, start: int, p: Parsed) -> bool {
    outcome_view(r) == p.outcome && current == start + p.used
}

/// The parser: the tokens, and the position of the next one to read.
pub struct Parser {
    pub tokens: Vec<Token>,
    pub current: usize,
}

impl Parser {
    /// A parser at the first of `tokens`.
    pub fn new(tokens: Vec<Token>) -> (r: Self)
        ensures
            r.tokens == tokens,
            r.current == 0,
    {
        Parser { tokens: tokens, current: 0 }
    }

    /// Reads one expression from the current position. On failure nothing
    /// of the expression is returned, and the failure is reported to
    /// `diagnostics`. Either way the parser stands after the last token
    /// that it passed.
    pub fn parse(&mut self, diagnostics: &mut Diagnostics) -> (r: Result<Expr, ParserError>)
        ensures
            final(self).tokens == old(self).tokens,
            agrees(
                r,
                final(self).current as int,
                old(self).current as int,
                parse_expression(tokens_view(old(self).tokens@), old(self).current as nat),
            ),
            r matches Ok(e) ==> well_formed(e@),
            final(diagnostics)@ == parse_reported(
                old(diagnostics)@,
                tokens_view(old(self).tokens@),
                old(self).current as nat,
                parse_expression(tokens_view(old(self).tokens@), old(self).current as nat),
            ),
    {
        proof {
            lemma_level_well_formed(tokens_view(self.tokens@), self.current as nat, 4);
        }
        let r = self.expression();
        match &r {
            Ok(_) => {},
            Err(e) => match &e.token {
                Some(t) => {
                    let mut location = String::new();
                    push_text(&mut location, "at '");
                    push_text(&mut location, t.lexeme.as_str());
                    push_text(&mut location, "'");
                    proof {
                        assert(location@ =~= "at '"@ + t.lexeme@ + "'"@);
                    }
                    report(diagnostics, t.line, location.as_str(), "Unexpected token");
                },
                None => {
                    let line: usize = if self.current < self.tokens.len() {
                        self.tokens[self.current].line
                    } else if self.tokens.len() > 0 {
                        self.tokens[self.tokens.len() - 1].line
                    } else {
                        0
                    };
                    report(diagnostics, line, "at end", "unexpectedly reached end of file");
                },
            },
        }
        r
    }

    fn expression(&mut self) -> (r: Result<Expr, ParserError>)
        ensures
            final(self).tokens == old(self).tokens,
            agrees(
                r,
                final(self).current as int,
                old(self).current as int,
                parse_level(tokens_view(old(self).tokens@), old(self).current as nat, 4),
            ),
        decreases remaining(tokens_view(old(self).tokens@), old(self).current as nat), 10nat,
    {
        self.equality()
    }

    fn equality(&mut self) -> (r: Result<Expr, ParserError>)
        ensures
            final(self).tokens == old(self).tokens,
            agrees(
                r,
                final(self).current as int,
                old(self).current as int,
                parse_level(tokens_view(old(self).tokens@), old(self).current as nat, 4),
            ),
        decreases remaining(tokens_view(old(self).tokens@), old(self).current as nat), 9nat,
    {
        let mut expr = match self.comparison() {
            Ok(e) => e,
            Err(e) => {
                return Err(e);
            },
        };
        let ghost t = tokens_view(self.tokens@);
        let ghost start = old(self).current as nat;
        let ghost whole = parse_level(t, start, 4);
        loop
            invariant
                self.tokens == old(self).tokens,
                t == tokens_view(self.tokens@),
                start == old(self).current,
                start <= self.current,
                whole == parse_level(t, start, 4),
                whole.outcome == parse_rest(t, self.current as nat, 4, expr@).outcome,
                whole.used == self.current - start + parse_rest(
                    t,
                    self.current as nat,
                    4,
                    expr@,
                ).used,
            ensures
                agrees(Ok(expr), self.current as int, start as int, whole),
            decreases remaining(t, self.current as nat),
        {
            match self.current() {
                Some(operator) => {
                    if Parser::joins(EQUALITY, &operator.token_type) {
                        self.advance();
                        let right = match self.comparison() {
                            Ok(e) => e,
                            Err(e) => {
                                return Err(e);
                            },
                        };
                        expr = Expr::Binary(BinaryExpr::new(expr, operator, right));
                    } else {
                        break ;
                    }
                },
                None => {
                    return Err(ParserError::new(None));
                },
            }
        }
        Ok(expr)
    }

    fn comparison(&mut self) -> (r: Result<Expr, ParserError>)
        ensures
            final(self).tokens == old(self).tokens,
            agrees(
                r,
                final(self).current as int,
                old(self).current as int,
                parse_level(tokens_view(old(self).tokens@), old(self).current as nat, 3),
            ),
        decreases remaining(tokens_view(old(self).tokens@), old(self).current as nat), 7nat,
    {
        let mut expr = match self.addition() {
            Ok(e) => e,
            Err(e) => {
                return Err(e);
            },
        };
        let ghost t = tokens_view(self.tokens@);
        let ghost start = old(self).current as nat;
        let ghost whole = parse_level(t, start, 3);
        loop
            invariant
                self.tokens == old(self).tokens,
                t == tokens_view(self.tokens@),
                start == old(self).current,
                start <= self.current,
                whole == parse_level(t, start, 3),
                whole.outcome == parse_rest(t, self.current as nat, 3, expr@).outcome,
                whole.used == self.current - start + parse_rest(
                    t,
                    self.current as nat,
                    3,
                    expr@,
                ).used,
            ensures
                agrees(Ok(expr), self.current as int, start as int, whole),
            decreases remaining(t, self.current as nat),
        {
            match self.current() {
                Some(operator) => {
                    if Parser::joins(COMPARISON, &operator.token_type) {
                        self.advance();
                        let right = match self.addition() {
                            Ok(e) => e,
                            Err(e) => {
                                return Err(e);
                            },
                        };
                        expr = Expr::Binary(BinaryExpr::new(expr, operator, right));
                    } else {
                        break ;
                    }
                },
                None => {
                    return Err(ParserError::new(None));
                },
            }
        }
        Ok(expr)
    }

    fn addition(&mut self) -> (r: Result<Expr, ParserError>)
        ensures
            final(self).tokens == old(self).tokens,
            agrees(
                r,
                final(self).current as int,
                old(self).current as int,
                parse_level(tokens_view(old(self).tokens@), old(self).current as nat, 2),
            ),
        decreases remaining(tokens_view(old(self).tokens@), old(self).current as nat), 5nat,
    {
        let mut expr = match self.multiplication() {
            Ok(e) => e,
            Err(e) => {
                return Err(e);
            },
        };
        let ghost t = tokens_view(self.tokens@);
        let ghost start = old(self).current as nat;
        let ghost whole = parse_level(t, start, 2);
        loop
            invariant
                self.tokens == old(self).tokens,
                t == tokens_view(self.tokens@),
                start == old(self).current,
                start <= self.current,
                whole == parse_level(t, start, 2),
                whole.outcome == parse_rest(t, self.current as nat, 2, expr@).outcome,
                whole.used == self.current - start + parse_rest(
                    t,
                    self.current as nat,
                    2,
                    expr@,
                ).used,
            ensures
                agrees(Ok(expr), self.current as int, start as int, whole),
            decreases remaining(t, self.current as nat),
        {
            match self.current() {
                Some(operator) => {
                    if Parser::joins(TERM, &operator.token_type) {
                        self.advance();
                        let right = match self.multiplication() {
                            Ok(e) => e,
                            Err(e) => {
                                return Err(e);
                            },
                        };
                        expr = Expr::Binary(BinaryExpr::new(expr, operator, right));
                    } else {
                        break ;
                    }
                },
                None => {
                    return Err(ParserError::new(None));
                },
            }
        }
        Ok(expr)
    }

    fn multiplication(&mut self) -> (r: Result<Expr, ParserError>)
        ensures
            final(self).tokens == old(self).tokens,
            agrees(
                r,
                final(self).current as int,
                old(self).current as int,
                parse_level(tokens_view(old(self).tokens@), old(self).current as nat, 1),
            ),
        decreases remaining(tokens_view(old(self).tokens@), old(self).current as nat), 3nat,
    {
        proof {
            assert(parse_level(tokens_view(self.tokens@), self.current as nat, 0) == parse_unary(
                tokens_view(self.tokens@),
                self.current as nat,
            ));
        }
        let mut expr = match self.unary() {
            Ok(e) => e,
            Err(e) => {
                return Err(e);
            },
        };
        let ghost t = tokens_view(self.tokens@);
        let ghost start = old(self).current as nat;
        let ghost whole = parse_level(t, start, 1);
        loop
            invariant
                self.tokens == old(self).tokens,
                t == tokens_view(self.tokens@),
                start == old(self).current,
                start <= self.current,
                whole == parse_level(t, start, 1),
                whole.outcome == parse_rest(t, self.current as nat, 1, expr@).outcome,
                whole.used == self.current - start + parse_rest(
                    t,
                    self.current as nat,
                    1,
                    expr@,
                ).used,
            ensures
                agrees(Ok(expr), self.current as int, start as int, whole),
            decreases remaining(t, self.current as nat),
        {
            match self.current() {
                Some(operator) => {
                    if Parser::joins(FACTOR, &operator.token_type) {
                        self.advance();
                        proof {
                            assert(parse_level(t, self.current as nat, 0) == parse_unary(
                                t,
                                self.current as nat,
                            ));
                        }
                        let right = match self.unary() {
                            Ok(e) => e,
                            Err(e) => {
                                return Err(e);
                            },
                        };
                        expr = Expr::Binary(BinaryExpr::new(expr, operator, right));
                    } else {
                        break ;
                    }
                },
                None => {
                    return Err(ParserError::new(None));
                },
            }
        }
        Ok(expr)
    }

    fn unary(&mut self) -> (r: Result<Expr, ParserError>)
        ensures
            final(self).tokens == old(self).tokens,
            agrees(
                r,
                final(self).current as int,
                old(self).current as int,
                parse_unary(tokens_view(old(self).tokens@), old(self).current as nat),
            ),
        decreases remaining(tokens_view(old(self).tokens@), old(self).current as nat), 1nat,
    {
        match self.current() {
            Some(operator) => {
                if Parser::negates(&operator.token_type) {
                    self.advance();
                    match self.unary() {
                        Ok(right) => Ok(Expr::Unary(UnaryExpr::new(operator, right))),
                        Err(e) => Err(e),
                    }
                } else {
                    self.primary()
                }
            },
            None => Err(ParserError::new(None)),
        }
    }

    fn primary(&mut self) -> (r: Result<Expr, ParserError>)
        ensures
            final(self).tokens == old(self).tokens,
            agrees(
                r,
                final(self).current as int,
                old(self).current as int,
                parse_primary(tokens_view(old(self).tokens@), old(self).current as nat),
            ),
        decreases remaining(tokens_view(old(self).tokens@), old(self).current as nat), 0nat,
    {
        let token = match self.current() {
            Some(t) => t,
            None => {
                return Err(ParserError::new(None));
            },
        };
        match token.token_type {
            TokenType::FALSE => {
                self.advance();
                Ok(Expr::Literal(LiteralExpr::Bool(false)))
            },
            TokenType::TRUE => {
                self.advance();
                Ok(Expr::Literal(LiteralExpr::Bool(true)))
            },
            TokenType::NIL => {
                self.advance();
                Ok(Expr::Literal(LiteralExpr::Nil))
            },
            TokenType::NUMBER(n) => {
                self.advance();
                Ok(Expr::Literal(LiteralExpr::Number(n)))
            },
            TokenType::STRING(s) => {
                self.advance();
                Ok(Expr::Literal(LiteralExpr::String(s)))
            },
            TokenType::LEFT_PAREN => {
                self.advance();
                let expr = match self.expression() {
                    Ok(e) => e,
                    Err(e) => {
                        return Err(e);
                    },
                };
                match self.current() {
                    Some(close) => match close.token_type {
                        TokenType::RIGHT_PAREN => {
                            self.advance();
                            Ok(Expr::Grouping(GroupingExpr::new(expr)))
                        },
                        TokenType::EOF => Err(ParserError::new(None)),
                        _ => Err(ParserError::new(Some(close))),
                    },
                    None => Err(ParserError::new(None)),
                }
            },
            TokenType::EOF => Err(ParserError::new(None)),
            _ => Err(ParserError::new(Some(token))),
        }
    }

    /// Whether a token of this type joins two operands at `level`.
    fn joins(level: u8, token_type: &TokenType) -> (r: bool)
        ensures
            r == is_operator(level as nat, token_type@),
    {
        match token_type {
            TokenType::SLASH | TokenType::STAR => level == FACTOR,
            TokenType::MINUS | TokenType::PLUS => level == TERM,
            TokenType::GREATER_EQUAL
            | TokenType::GREATER
            | TokenType::LESS_EQUAL
            | TokenType::LESS => level == COMPARISON,
            TokenType::BANG_EQUAL | TokenType::EQUAL_EQUAL => level == EQUALITY,
            _ => false,
        }
    }

    /// Whether a token of this type is a unary operator.
    fn negates(token_type: &TokenType) -> (r: bool)
        ensures
            r == (token_type@ is BANG || token_type@ is MINUS),
    {
        match token_type {
            TokenType::BANG | TokenType::MINUS => true,
            _ => false,
        }
    }

    /// Moves one token on, unless the tokens have ended.
    fn advance(&mut self)
        ensures
            final(self).tokens == old(self).tokens,
            final(self).current == if old(self).current < old(self).tokens.len() {
                (old(self).current + 1) as usize
            } else {
                old(self).current
            },
    {
        if self.current < self.tokens.len() {
            self.current += 1;
        }
    }

    /// The token at the current position.
    fn current(&self) -> (r: Option<Token>)
        ensures
            match r {
                Some(t) => self.current < self.tokens.len() && t@ == self.tokens@[self.current as int]@,
                None => self.current >= self.tokens.len(),
            },
    {
        if self.current < self.tokens.len() {
            Some(self.tokens[self.current].clone())
        } else {
            None
        }
    }

    /// The token after the current one.
    fn next(&self) -> (r: Option<Token>)
        ensures
            match r {
                Some(t) => self.current + 1 < self.tokens.len() && t@ == self.tokens[self.current
                    + 1]@,
                None => self.current + 1 >= self.tokens.len(),
            },
    {
        if self.current < self.tokens.len() && self.tokens.len() - self.current > 1 {
            Some(self.tokens[self.current + 1].clone())
        } else {
            None
        }
    }

    /// The token before the current one.
    fn previous(&self) -> (r: Option<Token>)
        ensures
            match r {
                Some(t) => 0 < self.current <= self.tokens.len() && t@ == self.tokens[self.current
                    - 1]@,
                None => self.current == 0 || self.current > self.tokens.len(),
            },
    {
        if 0 < self.current && self.current <= self.tokens.len() {
            Some(self.tokens[self.current - 1].clone())
        } else {
            None
        }
    }
}

} // verus!
