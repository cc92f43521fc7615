//! Expression trees.
//!
//! A tree is finite and owns its children; nothing is shared.

use crate::loxvalue::Value;
use crate::number::Double;
use crate::numeral::{display_text, push_display};
use crate::text::{push_char, push_text};
use crate::token::{Kind, Token, TokenModel, TokenType};
use vstd::prelude::*;

verus! {

/// Whether a token of `kind` is one of the binary operators.
pub open spec fn is_binary_operator(kind: Kind) -> bool {
    kind is PLUS || kind is MINUS || kind is SLASH || kind is STAR || kind is GREATER
        || kind is GREATER_EQUAL || kind is LESS || kind is LESS_EQUAL || kind is EQUAL_EQUAL
        || kind is BANG_EQUAL
}

/// Whether a token of `kind` is one of the unary operators.
pub open spec fn is_unary_operator(kind: Kind) -> bool {
    kind is MINUS || kind is BANG
}

/// Whether every operator of the tree is one that its node can apply.
pub open spec fn well_formed(t: Tree) -> bool
    decreases t,
{
    match t {
        Tree::Binary(l, op, r) => is_binary_operator(op.kind) && well_formed(*l) && well_formed(
            *r,
        ),
        Tree::Unary(op, e) => is_unary_operator(op.kind) && well_formed(*e),
        Tree::Literal(_) => true,
        Tree::Grouping(e) => well_formed(*e),
    }
}

/// A whole parsed expression.
#[derive(Debug, PartialEq)]
pub struct Ast(pub Box<Expr>);

/// An expression: one node of a tree, with the nodes below it.
#[derive(Debug, PartialEq)]
pub enum Expr {
    Binary(BinaryExpr),
    Unary(UnaryExpr),
    Literal(LiteralExpr),
    Grouping(GroupingExpr),
}

/// Two operands and the operator that joins them.
#[derive(Debug, PartialEq)]
pub struct BinaryExpr {
    pub left: Box<Expr>,
    pub operator: Token,
    pub right: Box<Expr>,
}

/// An operand and the operator before it.
#[derive(Debug, PartialEq)]
pub struct UnaryExpr {
    pub operator: Token,
    pub operand: Box<Expr>,
}

/// A value written out.
#[derive(Debug, PartialEq)]
pub enum LiteralExpr {
    Number(Double),
    String(String),
    Bool(bool),
    Nil,
}

/// An expression in parentheses.
#[derive(Debug, PartialEq)]
pub struct GroupingExpr(pub Box<Expr>);

/// What an expression tree is, as a mathematical value.
pub ghost enum Tree {
    Binary(Box<Tree>, TokenModel, Box<Tree>),
    Unary(TokenModel, Box<Tree>),
    Literal(Value),
    Grouping(Box<Tree>),
}

impl View for LiteralExpr {
    type V = Value;

    open spec fn view(&self) -> Value {
        match self {
            LiteralExpr::Number(n) => Value::Number(n.bits),
            LiteralExpr::String(s) => Value::Text(s@),
            LiteralExpr::Bool(b) => Value::Bool(*b),
            LiteralExpr::Nil => Value::Nil,
        }
    }
}

/// The tree that `e` holds.
pub open spec fn tree_of(e: Expr) -> Tree
    decreases e,
{
    match e {
        Expr::Binary(b) => Tree::Binary(
            Box::new(tree_of(*b.left)),
            b.operator@,
            Box::new(tree_of(*b.right)),
        ),
        Expr::Unary(u) => Tree::Unary(u.operator@, Box::new(tree_of(*u.operand))),
        Expr::Literal(l) => Tree::Literal(l@),
        Expr::Grouping(g) => Tree::Grouping(Box::new(tree_of(*g.0))),
    }
}

impl View for Expr {
    type V = Tree;

    open spec fn view(&self) -> Tree {
        tree_of(*self)
    }
}

impl View for BinaryExpr {
    type V = Tree;

    open spec fn view(&self) -> Tree {
        Tree::Binary(Box::new(self.left@), self.operator@, Box::new(self.right@))
    }
}

impl View for UnaryExpr {
    type V = Tree;

    open spec fn view(&self) -> Tree {
        Tree::Unary(self.operator@, Box::new(self.operand@))
    }
}

impl View for GroupingExpr {
    type V = Tree;

    open spec fn view(&self) -> Tree {
        Tree::Grouping(Box::new(self.0@))
    }
}

impl View for Ast {
    type V = Tree;

    open spec fn view(&self) -> Tree {
        self.0@
    }
}

impl BinaryExpr {
    /// The node that joins `left` and `right` by `operator`.
    pub fn new(left: Expr, operator: Token, right: Expr) -> (r: Self)
        ensures
            r@ == Tree::Binary(Box::new(left@), operator@, Box::new(right@)),
    {
        BinaryExpr { left: Box::new(left), operator: operator, right: Box::new(right) }
    }
}

impl UnaryExpr {
    /// The node that applies `operator` to `operand`.
    pub fn new(operator: Token, operand: Expr) -> (r: Self)
        ensures
            r@ == Tree::Unary(operator@, Box::new(operand@)),
    {
        UnaryExpr { operator: operator, operand: Box::new(operand) }
    }
}

impl GroupingExpr {
    /// The node that groups `inner`.
    pub fn new(inner: Expr) -> (r: Self)
        ensures
            r@ == Tree::Grouping(Box::new(inner@)),
    {
        GroupingExpr(Box::new(inner))
    }
}

/// How a literal is written: a string between two of `quote`, a number
/// as it is shown, and `true`, `false` and `nil` as themselves.
pub open spec fn literal_text(v: Value, quote: char) -> Seq<char> {
    match v {
        Value::Bool(b) => if b {
            "true"@
        } else {
            "false"@
        },
        Value::Number(n) => display_text(n),
        Value::Text(s) => seq![quote] + s + seq![quote],
        Value::Nil => "nil"@,
    }
}

/// The tree written with each operator between its operands, every node
/// but a literal in parentheses, a unary operator behind its operand, and
/// strings between single quotes.
pub open spec fn infix_text(t: Tree) -> Seq<char>
    decreases t,
{
    match t {
        Tree::Binary(l, op, r) => seq!['('] + infix_text(*l) + seq![' '] + op.lexeme + seq![' ']
            + infix_text(*r) + seq![')'],
        Tree::Unary(op, e) => seq!['('] + infix_text(*e) + seq![' '] + op.lexeme + seq![')'],
        Tree::Literal(v) => literal_text(v, '\''),
        Tree::Grouping(e) => "(group "@ + infix_text(*e) + seq![')'],
    }
}

/// Appends the literal to `s`, a string between two of `quote`.
pub fn push_literal(s: &mut String, literal: &LiteralExpr, quote: char)
    ensures
        final(s)@ == old(s)@ + literal_text(literal@, quote),
{
    match literal {
        LiteralExpr::Bool(b) => {
            if *b {
                push_text(s, "true");
            } else {
                push_text(s, "false");
            }
        },
        LiteralExpr::Number(n) => {
            push_display(s, *n);
        },
        LiteralExpr::String(text) => {
            push_char(s, quote);
            push_text(s, text.as_str());
            push_char(s, quote);
            proof {
                assert(s@ =~= old(s)@ + (seq![quote] + text@ + seq![quote]));
            }
        },
        LiteralExpr::Nil => {
            push_text(s, "nil");
        },
    }
}

/// Appends the tree to `s`, each operator between its operands.
pub fn push_infix(s: &mut String, expr: &Expr)
    ensures
        final(s)@ == old(s)@ + infix_text(expr@),
    decreases expr,
{
    match expr {
        Expr::Binary(b) => {
            push_char(s, '(');
            push_infix(s, &b.left);
            push_char(s, ' ');
            push_text(s, b.operator.lexeme.as_str());
            push_char(s, ' ');
            push_infix(s, &b.right);
            push_char(s, ')');
            proof {
                assert(s@ =~= old(s)@ + (seq!['('] + infix_text(b.left@) + seq![' ']
                    + b.operator.lexeme@ + seq![' '] + infix_text(b.right@) + seq![')']));
            }
        },
        Expr::Unary(u) => {
            push_char(s, '(');
            push_infix(s, &u.operand);
            push_char(s, ' ');
            push_text(s, u.operator.lexeme.as_str());
            push_char(s, ')');
            proof {
                assert(s@ =~= old(s)@ + (seq!['('] + infix_text(u.operand@) + seq![' ']
                    + u.operator.lexeme@ + seq![')']));
            }
        },
        Expr::Literal(l) => {
            push_literal(s, l, '\'');
        },
        Expr::Grouping(g) => {
            push_text(s, "(group ");
            push_infix(s, &g.0);
            push_char(s, ')');
            proof {
                assert(s@ =~= old(s)@ + ("(group "@ + infix_text(g.0@) + seq![')']));
            }
        },
    }
}

/// Whether a token of this type is one of the binary operators.
pub fn joins_operands(token_type: &TokenType) -> (r: bool)
    ensures
        r == is_binary_operator(token_type@),
{
    match token_type {
        TokenType::PLUS
        | TokenType::MINUS
        | TokenType::SLASH
        | TokenType::STAR
        | TokenType::GREATER
        | TokenType::GREATER_EQUAL
        | TokenType::LESS
        | TokenType::LESS_EQUAL
        | TokenType::EQUAL_EQUAL
        | TokenType::BANG_EQUAL => true,
        _ => false,
    }
}

impl Expr {
    /// Whether every operator of the tree is one that its node can apply:
    /// what evaluation asks of a tree.
    pub fn is_well_formed(&self) -> (r: bool)
        ensures
            r == well_formed(self@),
        decreases self,
    {
        match self {
            Expr::Binary(b) => joins_operands(&b.operator.token_type) && b.left.is_well_formed()
                && b.right.is_well_formed(),
            Expr::Unary(u) => match u.operator.token_type {
                TokenType::MINUS | TokenType::BANG => u.operand.is_well_formed(),
                _ => false,
            },
            Expr::Literal(_) => true,
            Expr::Grouping(g) => g.0.is_well_formed(),
        }
    }

    /// The tree as text, each operator between its operands.
    pub fn to_string(&self) -> (s: String)
        ensures
            s@ == infix_text(self@),
    {
        let mut s = String::new();
        push_infix(&mut s, self);
        proof {
            assert(Seq::<char>::empty() + infix_text(self@) =~= infix_text(self@));
        }
        s
    }
}

impl BinaryExpr {
    /// The node as text, its operator between its operands.
    pub fn to_string(&self) -> (s: String)
        ensures
            s@ == infix_text(self@),
    {
        let mut s = String::new();
        push_char(&mut s, '(');
        push_infix(&mut s, &self.left);
        push_char(&mut s, ' ');
        push_text(&mut s, self.operator.lexeme.as_str());
        push_char(&mut s, ' ');
        push_infix(&mut s, &self.right);
        push_char(&mut s, ')');
        proof {
            assert(s@ =~= seq!['('] + infix_text(self.left@) + seq![' '] + self.operator.lexeme@
                + seq![' '] + infix_text(self.right@) + seq![')']);
        }
        s
    }
}

impl UnaryExpr {
    /// The node as text, its operator behind its operand.
    pub fn to_string(&self) -> (s: String)
        ensures
            s@ == infix_text(self@),
    {
        let mut s = String::new();
        push_char(&mut s, '(');
        push_infix(&mut s, &self.operand);
        push_char(&mut s, ' ');
        push_text(&mut s, self.operator.lexeme.as_str());
        push_char(&mut s, ')');
        proof {
            assert(s@ =~= seq!['('] + infix_text(self.operand@) + seq![' ']
                + self.operator.lexeme@ + seq![')']);
        }
        s
    }
}

impl GroupingExpr {
    /// The node as text.
    pub fn to_string(&self) -> (s: String)
        ensures
            s@ == infix_text(self@),
    {
        let mut s = String::new();
        push_text(&mut s, "(group ");
        push_infix(&mut s, &self.0);
        push_char(&mut s, ')');
        proof {
            assert(s@ =~= "(group "@ + infix_text(self.0@) + seq![')']);
        }
        s
    }
}

impl LiteralExpr {
    /// The literal as text, a string between single quotes.
    pub fn to_string(&self) -> (s: String)
        ensures
            s@ == literal_text(self@, '\''),
    {
        let mut s = String::new();
        push_literal(&mut s, self, '\'');
        proof {
            assert(Seq::<char>::empty() + literal_text(self@, '\'') =~= literal_text(self@, '\''));
        }
        s
    }
}

} // verus!
