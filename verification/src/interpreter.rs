//! The evaluator: an expression tree to one value, by walking the tree.
//!
//! `eval` says what each tree evaluates to; `interpret` computes exactly
//! that. Evaluation reads the tree and changes nothing.

use crate::expr::{well_formed, BinaryExpr, Expr, GroupingExpr, LiteralExpr, Tree, UnaryExpr};
use crate::loxvalue::{LoxValue, Value};
use crate::double::{is_nan, magnitude, scaled, HIDDEN_BIT, INFINITY_BITS};
use crate::number::{
    difference_bits, equal_bits, flipped, less_bits, product_bits, quotient_bits, sum_bits,
    Double,
};
use crate::numeral_laws::lemma_nearest_of_exact;
use crate::readback::lemma_nearest_of_zero;
use crate::loxerror::LoxError;
use crate::text::{decimal_text, push_decimal, push_text};
use crate::token::{Kind, Token, TokenModel, TokenType};
use vstd::prelude::*;

verus! {

/// Why an evaluation failed: the message, and the operator that could not
/// be applied.
#[derive(Debug, PartialEq)]
pub struct RuntimeError {
    pub message: String,
    pub token: Token,
}

/// What a `RuntimeError` is, as a mathematical value.
pub ghost struct Failure {
    pub message: Seq<char>,
    pub token: TokenModel,
}

impl View for RuntimeError {
    type V = Failure;

    open spec fn view(&self) -> Failure {
        Failure { message: self.message@, token: self.token@ }
    }
}

impl RuntimeError {
    /// The failure with the message `msg` at the operator `token`.
    pub fn new(token: Token, msg: &str) -> (r: Self)
        ensures
            r@ == (Failure { message: msg@, token: token@ }),
    {
        let mut message = String::new();
        push_text(&mut message, msg);
        proof {
            assert(Seq::<char>::empty() + msg@ =~= msg@);
        }
        Self { token: token, message: message }
    }
}

/// The message for a failed evaluation: what failed, and on the next line
/// the line of the operator.
pub open spec fn runtime_error_text(failure: Failure) -> Seq<char> {
    failure.message + "\n[line "@ + decimal_text(failure.token.line as nat) + "]"@
}

impl From<RuntimeError> for LoxError {
    fn from(error: RuntimeError) -> (r: Self)
        ensures
            r@ == runtime_error_text(error@),
    {
        let mut message = error.message;
        push_text(&mut message, "\n[line ");
        push_decimal(&mut message, error.token.line as u64);
        push_text(&mut message, "]");
        LoxError { message }
    }
}

impl vstd::std_specs::convert::FromSpecImpl<RuntimeError> for LoxError {
    open spec fn obeys_from_spec() -> bool {
        false
    }

    open spec fn from_spec(error: RuntimeError) -> Self {
        arbitrary()
    }
}

/// The bits of the number -1.
pub const MINUS_ONE: u64 = 0xBFF0_0000_0000_0000;

/// Every value is truthy but nil and false.
pub open spec fn truthy(v: Value) -> bool {
    match v {
        Value::Nil => false,
        Value::Bool(b) => b,
        _ => true,
    }
}

/// Values of one kind are equal where their payloads are, numbers as
/// numbers are; values of two kinds never are.
pub open spec fn values_equal(l: Value, r: Value) -> bool {
    match (l, r) {
        (Value::Nil, Value::Nil) => true,
        (Value::Bool(a), Value::Bool(b)) => a == b,
        (Value::Number(a), Value::Number(b)) => equal_bits(a, b),
        (Value::Text(a), Value::Text(b)) => a == b,
        _ => false,
    }
}

/// The failure with `message` at the operator `op`.
pub open spec fn fails(op: TokenModel, message: Seq<char>) -> Result<Value, Failure> {
    Err(Failure { message, token: op })
}

/// What the unary operator `op` gives for the value `v`.
pub open spec fn apply_unary(op: TokenModel, v: Value) -> Result<Value, Failure> {
    if op.kind is MINUS {
        match v {
            Value::Number(n) => Ok(Value::Number(product_bits(MINUS_ONE, n))),
            _ => fails(op, "Operand must be a number"@),
        }
    } else {
        Ok(Value::Bool(!truthy(v)))
    }
}

/// What an arithmetic or relational operator gives for two numbers.
pub open spec fn apply_numeric(kind: Kind, a: u64, b: u64) -> Value {
    match kind {
        Kind::PLUS => Value::Number(sum_bits(a, b)),
        Kind::MINUS => Value::Number(difference_bits(a, b)),
        Kind::SLASH => Value::Number(quotient_bits(a, b)),
        Kind::STAR => Value::Number(product_bits(a, b)),
        Kind::GREATER => Value::Bool(less_bits(b, a)),
        Kind::GREATER_EQUAL => Value::Bool(less_bits(b, a) || equal_bits(a, b)),
        Kind::LESS => Value::Bool(less_bits(a, b)),
        _ => Value::Bool(less_bits(a, b) || equal_bits(a, b)),
    }
}

/// What the binary operator `op` gives for the values `l` and `r`.
pub open spec fn apply_binary(op: TokenModel, l: Value, r: Value) -> Result<Value, Failure> {
    if op.kind is EQUAL_EQUAL {
        Ok(Value::Bool(values_equal(l, r)))
    } else if op.kind is BANG_EQUAL {
        Ok(Value::Bool(!values_equal(l, r)))
    } else {
        match (l, r) {
            (Value::Number(a), Value::Number(b)) => Ok(apply_numeric(op.kind, a, b)),
            (Value::Text(a), Value::Text(b)) => if op.kind is PLUS {
                Ok(Value::Text(a + b))
            } else {
                fails(op, "Operands must be numbers"@)
            },
            _ => if op.kind is PLUS {
                fails(op, "Operands must be two numbers or two strings"@)
            } else {
                fails(op, "Operands must be numbers"@)
            },
        }
    }
}

/// What the tree evaluates to: operands before their operator, the left
/// one before the right one, and the first failure ends it.
pub open spec fn eval(t: Tree) -> Result<Value, Failure>
    decreases t,
{
    match t {
        Tree::Literal(v) => Ok(v),
        Tree::Grouping(e) => eval(*e),
        Tree::Unary(op, e) => match eval(*e) {
            Ok(v) => apply_unary(op, v),
            Err(f) => Err(f),
        },
        Tree::Binary(l, op, r) => match eval(*l) {
            Ok(a) => match eval(*r) {
                Ok(b) => apply_binary(op, a, b),
                Err(f) => Err(f),
            },
            Err(f) => Err(f),
        },
    }
}

/// Whether the two values are of one kind.
pub open spec fn same_kind(l: Value, r: Value) -> bool {
    match (l, r) {
        (Value::Nil, Value::Nil) => true,
        (Value::Bool(_), Value::Bool(_)) => true,
        (Value::Number(_), Value::Number(_)) => true,
        (Value::Text(_), Value::Text(_)) => true,
        _ => false,
    }
}

/// Equality is decided for every two values: where both operands of `==`
/// or `!=` evaluate, so does the comparison, and for values of two kinds
/// `==` gives false and `!=` gives true.
pub proof fn law_equality_never_fails(l: Tree, op: TokenModel, r: Tree)
    requires
        op.kind is EQUAL_EQUAL || op.kind is BANG_EQUAL,
        eval(l) is Ok,
        eval(r) is Ok,
    ensures
        eval(Tree::Binary(Box::new(l), op, Box::new(r))) is Ok,
        !same_kind(eval(l)->Ok_0, eval(r)->Ok_0) ==> eval(
            Tree::Binary(Box::new(l), op, Box::new(r)),
        ) == Ok::<Value, Failure>(Value::Bool(op.kind is BANG_EQUAL)),
{
}

/// Negation follows truthiness: `!` gives true for nil and for false, and
/// false for every other value, zero and the empty string among them.
pub proof fn law_negation_follows_truthiness(op: TokenModel, e: Tree)
    requires
        op.kind is BANG,
        eval(e) is Ok,
    ensures
        eval(Tree::Unary(op, Box::new(e))) == Ok::<Value, Failure>(
            Value::Bool(eval(e)->Ok_0 is Nil || eval(e)->Ok_0 == Value::Bool(false)),
        ),
{
}

/// Unary minus changes the sign and nothing else: the product of -1 and a
/// number that is no NaN is the number with its sign changed.
pub proof fn law_minus_changes_the_sign(n: u64)
    requires
        !is_nan(n),
    ensures
        product_bits(MINUS_ONE, n) == flipped(n),
{
    let h = HIDDEN_BIT as nat;
    let one = magnitude(MINUS_ONE);
    let m = magnitude(n);
    assert(one == 1023 * h);
    vstd::arithmetic::div_mod::lemma_fundamental_div_mod_converse(
        one as int,
        h as int,
        1023,
        0,
    );
    vstd::arithmetic::power2::lemma2_to64_rest();
    vstd::arithmetic::power2::lemma_pow2_adds(52, 1022);
    assert(scaled(one) == vstd::arithmetic::power2::pow2(1074));
    let d = vstd::arithmetic::power2::pow2(1074);
    vstd::arithmetic::power2::lemma_pow2_pos(1074);
    if m == 0 {
        crate::number::lemma_scaled_zero();
        assert(d * 0 == 0);
        lemma_nearest_of_zero(d);
    } else if m < INFINITY_BITS {
        assert(d * scaled(m) == scaled(m) * d) by (nonlinear_arith);
        lemma_nearest_of_exact(m, d);
    }
}

/// The result of an evaluation, as a mathematical value.
pub open spec fn result_view(r: Result<LoxValue, RuntimeError>) -> Result<Value, Failure> {
    match r {
        Ok(v) => Ok(v@),
        Err(e) => Err(e@),
    }
}

/// The evaluator. It holds no state.
pub struct Interpreter;

impl Interpreter {
    /// An evaluator.
    pub fn new() -> (r: Self) {
        Self {  }
    }

    /// The value of `expr`, or the first failure met.
    pub fn interpret(&self, expr: Expr) -> (r: Result<LoxValue, RuntimeError>)
        requires
            well_formed(expr@),
        ensures
            result_view(r) == eval(expr@),
    {
        expr.interpret()
    }
}

/// What can be evaluated.
pub trait Interpret {
    /// The tree that `self` stands for.
    spec fn tree(&self) -> Tree;

    /// The value of `self`, or the first failure met.
    fn interpret(&self) -> (r: Result<LoxValue, RuntimeError>)
        requires
            well_formed(self.tree()),
        ensures
            result_view(r) == eval(self.tree()),
    ;
}

impl Interpret for Expr {
    open spec fn tree(&self) -> Tree {
        self@
    }

    fn interpret(&self) -> (r: Result<LoxValue, RuntimeError>)
        decreases self, 1nat,
    {
        match self {
            Expr::Unary(u) => u.interpret(),
            Expr::Binary(b) => b.interpret(),
            Expr::Literal(l) => l.interpret(),
            Expr::Grouping(g) => g.interpret(),
        }
    }
}

impl Interpret for LiteralExpr {
    open spec fn tree(&self) -> Tree {
        Tree::Literal(self@)
    }

    fn interpret(&self) -> (r: Result<LoxValue, RuntimeError>) {
        match self {
            LiteralExpr::Nil => Ok(LoxValue::LoxNil),
            LiteralExpr::Bool(b) => Ok(LoxValue::LoxBool(*b)),
            LiteralExpr::Number(n) => Ok(LoxValue::LoxNumber(*n)),
            LiteralExpr::String(s) => Ok(LoxValue::LoxString(s.clone())),
        }
    }
}

impl Interpret for UnaryExpr {
    open spec fn tree(&self) -> Tree {
        self@
    }

    fn interpret(&self) -> (r: Result<LoxValue, RuntimeError>)
        decreases self, 0nat,
    {
        let value = match self.operand.interpret() {
            Ok(v) => v,
            Err(e) => {
                return Err(e);
            },
        };
        match self.operator.token_type {
            TokenType::MINUS => match value {
                LoxValue::LoxNumber(n) => Ok(
                    LoxValue::LoxNumber(Double::from_bits(MINUS_ONE).times(n)),
                ),
                _ => Err(RuntimeError::new(self.operator.clone(), "Operand must be a number")),
            },
            TokenType::BANG => Ok(LoxValue::LoxBool(!is_truthy(value))),
            _ => vstd::pervasive::unreached(),
        }
    }
}

impl Interpret for BinaryExpr {
    open spec fn tree(&self) -> Tree {
        self@
    }

    fn interpret(&self) -> (r: Result<LoxValue, RuntimeError>)
        decreases self, 0nat,
    {
        let left = match self.left.interpret() {
            Ok(v) => v,
            Err(e) => {
                return Err(e);
            },
        };
        let right = match self.right.interpret() {
            Ok(v) => v,
            Err(e) => {
                return Err(e);
            },
        };
        let t = &self.operator;
        match t.token_type {
            TokenType::PLUS => match (left, right) {
                (LoxValue::LoxNumber(l), LoxValue::LoxNumber(r)) => Ok(
                    LoxValue::LoxNumber(l.plus(r)),
                ),
                (LoxValue::LoxString(l), LoxValue::LoxString(r)) => {
                    let mut joined = l;
                    push_text(&mut joined, r.as_str());
                    Ok(LoxValue::LoxString(joined))
                },
                _ => Err(
                    RuntimeError::new(t.clone(), "Operands must be two numbers or two strings"),
                ),
            },
            TokenType::MINUS => match (left, right) {
                (LoxValue::LoxNumber(l), LoxValue::LoxNumber(r)) => Ok(
                    LoxValue::LoxNumber(l.minus(r)),
                ),
                _ => Err(RuntimeError::new(t.clone(), "Operands must be numbers")),
            },
            TokenType::SLASH => match (left, right) {
                (LoxValue::LoxNumber(l), LoxValue::LoxNumber(r)) => Ok(
                    LoxValue::LoxNumber(l.over(r)),
                ),
                _ => Err(RuntimeError::new(t.clone(), "Operands must be numbers")),
            },
            TokenType::STAR => match (left, right) {
                (LoxValue::LoxNumber(l), LoxValue::LoxNumber(r)) => Ok(
                    LoxValue::LoxNumber(l.times(r)),
                ),
                _ => Err(RuntimeError::new(t.clone(), "Operands must be numbers")),
            },
            TokenType::GREATER => match (left, right) {
                (LoxValue::LoxNumber(l), LoxValue::LoxNumber(r)) => Ok(
                    LoxValue::LoxBool(r.is_less_than(l)),
                ),
                _ => Err(RuntimeError::new(t.clone(), "Operands must be numbers")),
            },
            TokenType::GREATER_EQUAL => match (left, right) {
                (LoxValue::LoxNumber(l), LoxValue::LoxNumber(r)) => Ok(
                    LoxValue::LoxBool(r.is_less_than(l) || l.equals(r)),
                ),
                _ => Err(RuntimeError::new(t.clone(), "Operands must be numbers")),
            },
            TokenType::LESS => match (left, right) {
                (LoxValue::LoxNumber(l), LoxValue::LoxNumber(r)) => Ok(
                    LoxValue::LoxBool(l.is_less_than(r)),
                ),
                _ => Err(RuntimeError::new(t.clone(), "Operands must be numbers")),
            },
            TokenType::LESS_EQUAL => match (left, right) {
                (LoxValue::LoxNumber(l), LoxValue::LoxNumber(r)) => Ok(
                    LoxValue::LoxBool(l.is_less_than(r) || l.equals(r)),
                ),
                _ => Err(RuntimeError::new(t.clone(), "Operands must be numbers")),
            },
            TokenType::EQUAL_EQUAL => Ok(LoxValue::LoxBool(is_equal(left, right))),
            TokenType::BANG_EQUAL => Ok(LoxValue::LoxBool(!is_equal(left, right))),
            _ => vstd::pervasive::unreached(),
        }
    }
}

impl Interpret for GroupingExpr {
    open spec fn tree(&self) -> Tree {
        self@
    }

    fn interpret(&self) -> (r: Result<LoxValue, RuntimeError>)
        decreases self, 0nat,
    {
        (*self.0).interpret()
    }
}

/// Whether `v` counts as true.
pub fn is_truthy(v: LoxValue) -> (r: bool)
    ensures
        r == truthy(v@),
{
    match v {
        LoxValue::LoxNil => false,
        LoxValue::LoxBool(b) => b,
        _ => true,
    }
}

/// Whether the two values are equal.
pub fn is_equal(left: LoxValue, right: LoxValue) -> (r: bool)
    ensures
        r == values_equal(left@, right@),
{
    match (left, right) {
        (LoxValue::LoxNil, LoxValue::LoxNil) => true,
        (LoxValue::LoxBool(l), LoxValue::LoxBool(r)) => l == r,
        (LoxValue::LoxNumber(l), LoxValue::LoxNumber(r)) => l.equals(r),
        (LoxValue::LoxString(l), LoxValue::LoxString(r)) => l == r,
        _ => false,
    }
}

} // verus!
