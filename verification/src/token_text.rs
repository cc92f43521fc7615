//! The names of the token kinds, as they are written in messages.

use crate::numeral::{debug_text, push_debug};
use crate::text::{push_text, quote, quoted};
use crate::token::{Kind, TokenType};
use vstd::prelude::*;

verus! {

/// The name of the token kind; behind the name of a literal, in
/// parentheses, `payload` for a string and the number in detail for a
/// number.
pub open spec fn kind_text_with(kind: Kind, payload: Seq<char>) -> Seq<char> {
    match kind {
        Kind::LEFT_PAREN => "LEFT_PAREN"@,
        Kind::RIGHT_PAREN => "RIGHT_PAREN"@,
        Kind::LEFT_BRACE => "LEFT_BRACE"@,
        Kind::RIGHT_BRACE => "RIGHT_BRACE"@,
        Kind::COMMA => "COMMA"@,
        Kind::DOT => "DOT"@,
        Kind::MINUS => "MINUS"@,
        Kind::PLUS => "PLUS"@,
        Kind::SEMICOLON => "SEMICOLON"@,
        Kind::SLASH => "SLASH"@,
        Kind::STAR => "STAR"@,
        Kind::BANG => "BANG"@,
        Kind::BANG_EQUAL => "BANG_EQUAL"@,
        Kind::EQUAL => "EQUAL"@,
        Kind::EQUAL_EQUAL => "EQUAL_EQUAL"@,
        Kind::GREATER => "GREATER"@,
        Kind::GREATER_EQUAL => "GREATER_EQUAL"@,
        Kind::LESS => "LESS"@,
        Kind::LESS_EQUAL => "LESS_EQUAL"@,
        Kind::IDENTIFIER => "IDENTIFIER"@,
        Kind::AND => "AND"@,
        Kind::CLASS => "CLASS"@,
        Kind::ELSE => "ELSE"@,
        Kind::FALSE => "FALSE"@,
        Kind::FUN => "FUN"@,
        Kind::FOR => "FOR"@,
        Kind::IF => "IF"@,
        Kind::NIL => "NIL"@,
        Kind::OR => "OR"@,
        Kind::PRINT => "PRINT"@,
        Kind::RETURN => "RETURN"@,
        Kind::SUPER => "SUPER"@,
        Kind::THIS => "THIS"@,
        Kind::TRUE => "TRUE"@,
        Kind::VAR => "VAR"@,
        Kind::WHILE => "WHILE"@,
        Kind::EOF => "EOF"@,
        Kind::STRING(_) => "STRING("@ + payload + ")"@,
        Kind::NUMBER(n) => "NUMBER("@ + debug_text(n) + ")"@,
    }
}

/// The characters of a string literal, of no other kind.
pub open spec fn string_payload(kind: Kind) -> Seq<char> {
    match kind {
        Kind::STRING(s) => s,
        _ => Seq::empty(),
    }
}

/// The name of the token kind, a string literal with its characters
/// quoted.
pub open spec fn kind_text(kind: Kind) -> Seq<char> {
    kind_text_with(kind, quoted(string_payload(kind)))
}

/// Appends the name of the token type to `s`, with `payload` for the
/// characters of a string literal.
pub fn push_kind_with(s: &mut String, token_type: &TokenType, payload: &str)
    ensures
        final(s)@ == old(s)@ + kind_text_with(token_type@, payload@),
{
    match token_type {
        TokenType::LEFT_PAREN => {
            push_text(s, "LEFT_PAREN");
        },
        TokenType::RIGHT_PAREN => {
            push_text(s, "RIGHT_PAREN");
        },
        TokenType::LEFT_BRACE => {
            push_text(s, "LEFT_BRACE");
        },
        TokenType::RIGHT_BRACE => {
            push_text(s, "RIGHT_BRACE");
        },
        TokenType::COMMA => {
            push_text(s, "COMMA");
        },
        TokenType::DOT => {
            push_text(s, "DOT");
        },
        TokenType::MINUS => {
            push_text(s, "MINUS");
        },
        TokenType::PLUS => {
            push_text(s, "PLUS");
        },
        TokenType::SEMICOLON => {
            push_text(s, "SEMICOLON");
        },
        TokenType::SLASH => {
            push_text(s, "SLASH");
        },
        TokenType::STAR => {
            push_text(s, "STAR");
        },
        TokenType::BANG => {
            push_text(s, "BANG");
        },
        TokenType::BANG_EQUAL => {
            push_text(s, "BANG_EQUAL");
        },
        TokenType::EQUAL => {
            push_text(s, "EQUAL");
        },
        TokenType::EQUAL_EQUAL => {
            push_text(s, "EQUAL_EQUAL");
        },
        TokenType::GREATER => {
            push_text(s, "GREATER");
        },
        TokenType::GREATER_EQUAL => {
            push_text(s, "GREATER_EQUAL");
        },
        TokenType::LESS => {
            push_text(s, "LESS");
        },
        TokenType::LESS_EQUAL => {
            push_text(s, "LESS_EQUAL");
        },
        TokenType::IDENTIFIER => {
            push_text(s, "IDENTIFIER");
        },
        TokenType::AND => {
            push_text(s, "AND");
        },
        TokenType::CLASS => {
            push_text(s, "CLASS");
        },
        TokenType::ELSE => {
            push_text(s, "ELSE");
        },
        TokenType::FALSE => {
            push_text(s, "FALSE");
        },
        TokenType::FUN => {
            push_text(s, "FUN");
        },
        TokenType::FOR => {
            push_text(s, "FOR");
        },
        TokenType::IF => {
            push_text(s, "IF");
        },
        TokenType::NIL => {
            push_text(s, "NIL");
        },
        TokenType::OR => {
            push_text(s, "OR");
        },
        TokenType::PRINT => {
            push_text(s, "PRINT");
        },
        TokenType::RETURN => {
            push_text(s, "RETURN");
        },
        TokenType::SUPER => {
            push_text(s, "SUPER");
        },
        TokenType::THIS => {
            push_text(s, "THIS");
        },
        TokenType::TRUE => {
            push_text(s, "TRUE");
        },
        TokenType::VAR => {
            push_text(s, "VAR");
        },
        TokenType::WHILE => {
            push_text(s, "WHILE");
        },
        TokenType::EOF => {
            push_text(s, "EOF");
        },
        TokenType::STRING(_) => {
            push_text(s, "STRING(");
            push_text(s, payload);
            push_text(s, ")");
            proof {
                assert(s@ =~= old(s)@ + ("STRING("@ + payload@ + ")"@));
            }
        },
        TokenType::NUMBER(n) => {
            push_text(s, "NUMBER(");
            push_debug(s, *n);
            push_text(s, ")");
            proof {
                assert(s@ =~= old(s)@ + ("NUMBER("@ + debug_text(n.bits) + ")"@));
            }
        },
    }
}

/// Appends the name of the token type to `s`.
pub fn push_kind(s: &mut String, token_type: &TokenType)
    ensures
        final(s)@ == old(s)@ + kind_text(token_type@),
{
    match token_type {
        TokenType::STRING(text) => {
            let payload = quote(text.as_str());
            push_kind_with(s, token_type, payload.as_str());
        },
        _ => {
            proof {
                reveal_strlit("");
            }
            push_kind_with(s, token_type, "");
        },
    }
}

} // verus!
