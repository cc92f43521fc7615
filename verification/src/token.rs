//! The vocabulary of lexical units.

use crate::number::Double;
use vstd::prelude::*;

verus! {

/// The kind of a token, with the payload of a literal.
#[allow(non_camel_case_types)]
#[derive(Debug, PartialEq)]
pub enum TokenType {
    LEFT_PAREN,
    RIGHT_PAREN,
    LEFT_BRACE,
    RIGHT_BRACE,
    COMMA,
    DOT,
    MINUS,
    PLUS,
    SEMICOLON,
    SLASH,
    STAR,
    BANG,
    BANG_EQUAL,
    EQUAL,
    EQUAL_EQUAL,
    GREATER,
    GREATER_EQUAL,
    LESS,
    LESS_EQUAL,
    IDENTIFIER,
    STRING(String),
    NUMBER(Double),
    AND,
    CLASS,
    ELSE,
    FALSE,
    FUN,
    FOR,
    IF,
    NIL,
    OR,
    PRINT,
    RETURN,
    SUPER,
    THIS,
    TRUE,
    VAR,
    WHILE,
    EOF,
}

/// What a `TokenType` is, as a mathematical value: a string literal holds
/// its characters, a number literal its IEEE-754 bits.
#[allow(non_camel_case_types)]
pub ghost enum Kind {
    LEFT_PAREN,
    RIGHT_PAREN,
    LEFT_BRACE,
    RIGHT_BRACE,
    COMMA,
    DOT,
    MINUS,
    PLUS,
    SEMICOLON,
    SLASH,
    STAR,
    BANG,
    BANG_EQUAL,
    EQUAL,
    EQUAL_EQUAL,
    GREATER,
    GREATER_EQUAL,
    LESS,
    LESS_EQUAL,
    IDENTIFIER,
    STRING(Seq<char>),
    NUMBER(u64),
    AND,
    CLASS,
    ELSE,
    FALSE,
    FUN,
    FOR,
    IF,
    NIL,
    OR,
    PRINT,
    RETURN,
    SUPER,
    THIS,
    TRUE,
    VAR,
    WHILE,
    EOF,
}

impl View for TokenType {
    type V = Kind;

    open spec fn view(&self) -> Kind {
        match self {
            TokenType::LEFT_PAREN => Kind::LEFT_PAREN,
            TokenType::RIGHT_PAREN => Kind::RIGHT_PAREN,
            TokenType::LEFT_BRACE => Kind::LEFT_BRACE,
            TokenType::RIGHT_BRACE => Kind::RIGHT_BRACE,
            TokenType::COMMA => Kind::COMMA,
            TokenType::DOT => Kind::DOT,
            TokenType::MINUS => Kind::MINUS,
            TokenType::PLUS => Kind::PLUS,
            TokenType::SEMICOLON => Kind::SEMICOLON,
            TokenType::SLASH => Kind::SLASH,
            TokenType::STAR => Kind::STAR,
            TokenType::BANG => Kind::BANG,
            TokenType::BANG_EQUAL => Kind::BANG_EQUAL,
            TokenType::EQUAL => Kind::EQUAL,
            TokenType::EQUAL_EQUAL => Kind::EQUAL_EQUAL,
            TokenType::GREATER => Kind::GREATER,
            TokenType::GREATER_EQUAL => Kind::GREATER_EQUAL,
            TokenType::LESS => Kind::LESS,
            TokenType::LESS_EQUAL => Kind::LESS_EQUAL,
            TokenType::IDENTIFIER => Kind::IDENTIFIER,
            TokenType::STRING(s) => Kind::STRING(s@),
            TokenType::NUMBER(n) => Kind::NUMBER(n.bits),
            TokenType::AND => Kind::AND,
            TokenType::CLASS => Kind::CLASS,
            TokenType::ELSE => Kind::ELSE,
            TokenType::FALSE => Kind::FALSE,
            TokenType::FUN => Kind::FUN,
            TokenType::FOR => Kind::FOR,
            TokenType::IF => Kind::IF,
            TokenType::NIL => Kind::NIL,
            TokenType::OR => Kind::OR,
            TokenType::PRINT => Kind::PRINT,
            TokenType::RETURN => Kind::RETURN,
            TokenType::SUPER => Kind::SUPER,
            TokenType::THIS => Kind::THIS,
            TokenType::TRUE => Kind::TRUE,
            TokenType::VAR => Kind::VAR,
            TokenType::WHILE => Kind::WHILE,
            TokenType::EOF => Kind::EOF,
        }
    }
}

impl Clone for TokenType {
    fn clone(&self) -> (r: Self)
        ensures
            r@ == self@,
    {
        match self {
            TokenType::LEFT_PAREN => TokenType::LEFT_PAREN,
            TokenType::RIGHT_PAREN => TokenType::RIGHT_PAREN,
            TokenType::LEFT_BRACE => TokenType::LEFT_BRACE,
            TokenType::RIGHT_BRACE => TokenType::RIGHT_BRACE,
            TokenType::COMMA => TokenType::COMMA,
            TokenType::DOT => TokenType::DOT,
            TokenType::MINUS => TokenType::MINUS,
            TokenType::PLUS => TokenType::PLUS,
            TokenType::SEMICOLON => TokenType::SEMICOLON,
            TokenType::SLASH => TokenType::SLASH,
            TokenType::STAR => TokenType::STAR,
            TokenType::BANG => TokenType::BANG,
            TokenType::BANG_EQUAL => TokenType::BANG_EQUAL,
            TokenType::EQUAL => TokenType::EQUAL,
            TokenType::EQUAL_EQUAL => TokenType::EQUAL_EQUAL,
            TokenType::GREATER => TokenType::GREATER,
            TokenType::GREATER_EQUAL => TokenType::GREATER_EQUAL,
            TokenType::LESS => TokenType::LESS,
            TokenType::LESS_EQUAL => TokenType::LESS_EQUAL,
            TokenType::IDENTIFIER => TokenType::IDENTIFIER,
            TokenType::STRING(s) => TokenType::STRING(s.clone()),
            TokenType::NUMBER(n) => TokenType::NUMBER(*n),
            TokenType::AND => TokenType::AND,
            TokenType::CLASS => TokenType::CLASS,
            TokenType::ELSE => TokenType::ELSE,
            TokenType::FALSE => TokenType::FALSE,
            TokenType::FUN => TokenType::FUN,
            TokenType::FOR => TokenType::FOR,
            TokenType::IF => TokenType::IF,
            TokenType::NIL => TokenType::NIL,
            TokenType::OR => TokenType::OR,
            TokenType::PRINT => TokenType::PRINT,
            TokenType::RETURN => TokenType::RETURN,
            TokenType::SUPER => TokenType::SUPER,
            TokenType::THIS => TokenType::THIS,
            TokenType::TRUE => TokenType::TRUE,
            TokenType::VAR => TokenType::VAR,
            TokenType::WHILE => TokenType::WHILE,
            TokenType::EOF => TokenType::EOF,
        }
    }
}

/// A lexical unit: its kind, the source text it was read from, and the
/// line on which it ended.
#[derive(Debug, PartialEq)]
pub struct Token {
    pub token_type: TokenType,
    pub lexeme: String,
    pub line: usize,
}

/// What a `Token` is, as a mathematical value.
pub ghost struct TokenModel {
    pub kind: Kind,
    pub lexeme: Seq<char>,
    pub line: usize,
}

impl View for Token {
    type V = TokenModel;

    open spec fn view(&self) -> TokenModel {
        TokenModel { kind: self.token_type@, lexeme: self.lexeme@, line: self.line }
    }
}

impl Clone for Token {
    fn clone(&self) -> (r: Self)
        ensures
            r@ == self@,
    {
        Token {
            token_type: self.token_type.clone(),
            lexeme: self.lexeme.clone(),
            line: self.line,
        }
    }
}

impl Token {
    /// The token of the given type, text and line.
    pub fn new(token_type: TokenType, lexeme: String, line: usize) -> (r: Token)
        ensures
            r@ == (TokenModel { kind: token_type@, lexeme: lexeme@, line }),
    {
        Token { token_type, lexeme, line }
    }
}

/// The tokens of `v`, each as its mathematical value.
pub open spec fn tokens_view(v: Seq<Token>) -> Seq<TokenModel> {
    Seq::new(v.len(), |i: int| v[i]@)
}

/// The values of the tokens with one more are the values with one more.
pub proof fn lemma_tokens_view_push(v: Seq<Token>, t: Token)
    ensures
        tokens_view(v.push(t)) == tokens_view(v).push(t@),
{
    assert(tokens_view(v.push(t)) =~= tokens_view(v).push(t@));
}

} // verus!
