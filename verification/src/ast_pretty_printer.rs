//! Expression trees as text, each operator before its operands.

use crate::expr::{
    literal_text, push_literal, BinaryExpr, Expr, GroupingExpr, LiteralExpr, Tree, UnaryExpr,
};
use crate::text::{push_char, push_text};
use vstd::prelude::*;

verus! {

/// The tree written with each operator before its operands, every node
/// but a literal in parentheses, and strings between double quotes.
pub open spec fn prefix_text(t: Tree) -> Seq<char>
    decreases t,
{
    match t {
        Tree::Binary(l, op, r) => seq!['('] + op.lexeme + seq![' '] + prefix_text(*l) + seq![' ']
            + prefix_text(*r) + seq![')'],
        Tree::Unary(op, e) => seq!['('] + op.lexeme + seq![' '] + prefix_text(*e) + seq![')'],
        Tree::Literal(v) => literal_text(v, '"'),
        Tree::Grouping(e) => "(group "@ + prefix_text(*e) + seq![')'],
    }
}

/// Appends the tree to `s`, each operator before its operands.
pub fn push_prefix(s: &mut String, expr: &Expr)
    ensures
        final(s)@ == old(s)@ + prefix_text(expr@),
    decreases expr,
{
    match expr {
        Expr::Binary(b) => {
            push_char(s, '(');
            push_text(s, b.operator.lexeme.as_str());
            push_char(s, ' ');
            push_prefix(s, &b.left);
            push_char(s, ' ');
            push_prefix(s, &b.right);
            push_char(s, ')');
            proof {
                assert(s@ =~= old(s)@ + (seq!['('] + b.operator.lexeme@ + seq![' '] + prefix_text(
                    b.left@,
                ) + seq![' '] + prefix_text(b.right@) + seq![')']));
            }
        },
        Expr::Unary(u) => {
            push_char(s, '(');
            push_text(s, u.operator.lexeme.as_str());
            push_char(s, ' ');
            push_prefix(s, &u.operand);
            push_char(s, ')');
            proof {
                assert(s@ =~= old(s)@ + (seq!['('] + u.operator.lexeme@ + seq![' '] + prefix_text(
                    u.operand@,
                ) + seq![')']));
            }
        },
        Expr::Literal(l) => {
            push_literal(s, l, '"');
        },
        Expr::Grouping(g) => {
            push_text(s, "(group ");
            push_prefix(s, &g.0);
            push_char(s, ')');
            proof {
                assert(s@ =~= old(s)@ + ("(group "@ + prefix_text(g.0@) + seq![')']));
            }
        },
    }
}

/// What can be written as text, each operator before its operands.
pub trait PrettyPrinter {
    /// The tree that `self` stands for.
    spec fn printed(&self) -> Tree;

    fn print(&self) -> (s: String)
        ensures
            s@ == prefix_text(self.printed()),
    ;
}

impl PrettyPrinter for Expr {
    open spec fn printed(&self) -> Tree {
        self@
    }

    fn print(&self) -> (s: String) {
        let mut s = String::new();
        push_prefix(&mut s, self);
        proof {
            assert(Seq::<char>::empty() + prefix_text(self@) =~= prefix_text(self@));
        }
        s
    }
}

impl PrettyPrinter for BinaryExpr {
    open spec fn printed(&self) -> Tree {
        self@
    }

    fn print(&self) -> (s: String) {
        let mut s = String::new();
        push_char(&mut s, '(');
        push_text(&mut s, self.operator.lexeme.as_str());
        push_char(&mut s, ' ');
        push_prefix(&mut s, &self.left);
        push_char(&mut s, ' ');
        push_prefix(&mut s, &self.right);
        push_char(&mut s, ')');
        proof {
            assert(s@ =~= seq!['('] + self.operator.lexeme@ + seq![' '] + prefix_text(self.left@)
                + seq![' '] + prefix_text(self.right@) + seq![')']);
        }
        s
    }
}

impl PrettyPrinter for UnaryExpr {
    open spec fn printed(&self) -> Tree {
        self@
    }

    fn print(&self) -> (s: String) {
        let mut s = String::new();
        push_char(&mut s, '(');
        push_text(&mut s, self.operator.lexeme.as_str());
        push_char(&mut s, ' ');
        push_prefix(&mut s, &self.operand);
        push_char(&mut s, ')');
        proof {
            assert(s@ =~= seq!['('] + self.operator.lexeme@ + seq![' '] + prefix_text(
                self.operand@,
            ) + seq![')']);
        }
        s
    }
}

impl PrettyPrinter for LiteralExpr {
    open spec fn printed(&self) -> Tree {
        Tree::Literal(self@)
    }

    fn print(&self) -> (s: String) {
        let mut s = String::new();
        push_literal(&mut s, self, '"');
        proof {
            assert(Seq::<char>::empty() + literal_text(self@, '"') =~= literal_text(self@, '"'));
        }
        s
    }
}

impl PrettyPrinter for GroupingExpr {
    open spec fn printed(&self) -> Tree {
        self@
    }

    fn print(&self) -> (s: String) {
        let mut s = String::new();
        push_text(&mut s, "(group ");
        push_prefix(&mut s, &self.0);
        push_char(&mut s, ')');
        proof {
            assert(s@ =~= "(group "@ + prefix_text(self.0@) + seq![')']);
        }
        s
    }
}

} // verus!
