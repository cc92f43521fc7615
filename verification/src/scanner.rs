//! The scanner: source text to tokens.
//!
//! `scan` says what the tokens and reports of a text are: `scan_step` reads
//! one lexeme, a comment or a blank at a position, and `scan_from` repeats
//! it to the end of the text. The `Scanner` computes exactly that.

use crate::loxerror::{error, reported, Diagnostics, DiagnosticsModel};
use crate::number::{decimal_bits, is_digit, Double};
use crate::text::{chars_of, push_char, push_text, string_of};
use crate::token::{lemma_tokens_view_push, tokens_view, Kind, Token, TokenModel, TokenType};
use vstd::prelude::*;

verus! {

/// Whether the character may start a word: a letter or an underscore.
pub open spec fn is_alpha(c: char) -> bool {
    ('a' <= c && c <= 'z') || ('A' <= c && c <= 'Z') || c == '_'
}

/// Whether the character may go on a word: a letter, an underscore or a
/// digit.
pub open spec fn is_alnum(c: char) -> bool {
    is_alpha(c) || is_digit(c)
}

/// The character at `i`, if the text reaches that far.
pub open spec fn char_at(s: Seq<char>, i: int) -> Option<char> {
    if 0 <= i < s.len() {
        Some(s[i])
    } else {
        None
    }
}

/// The line number after one more line break; it stays at the largest
/// number that fits.
pub open spec fn next_line(line: usize) -> usize {
    if line < usize::MAX {
        (line + 1) as usize
    } else {
        line
    }
}

/// The line number after the characters `s[from..to]`, starting at `line`.
pub open spec fn line_after(s: Seq<char>, from: int, to: int, line: usize) -> usize
    decreases to - from,
{
    if to <= from {
        line
    } else if char_at(s, to - 1) == Some('\n') {
        next_line(line_after(s, from, to - 1, line))
    } else {
        line_after(s, from, to - 1, line)
    }
}

/// How many digits stand in a row from position `i` on.
pub open spec fn digit_run(s: Seq<char>, i: int) -> nat
    decreases s.len() - i,
{
    if 0 <= i < s.len() && is_digit(s[i]) {
        1 + digit_run(s, i + 1)
    } else {
        0
    }
}

/// How many letters, digits and underscores stand in a row from `i` on.
pub open spec fn word_run(s: Seq<char>, i: int) -> nat
    decreases s.len() - i,
{
    if 0 <= i < s.len() && is_alnum(s[i]) {
        1 + word_run(s, i + 1)
    } else {
        0
    }
}

/// How many characters stand from `i` on before the first `c`, or before
/// the end of the text.
pub open spec fn run_until(s: Seq<char>, i: int, c: char) -> nat
    decreases s.len() - i,
{
    if 0 <= i < s.len() && s[i] != c {
        1 + run_until(s, i + 1, c)
    } else {
        0
    }
}

/// The keyword that `word` is, if it is one.
pub open spec fn keyword_kind(word: Seq<char>) -> Option<Kind> {
    if word == "and"@ {
        Some(Kind::AND)
    } else if word == "class"@ {
        Some(Kind::CLASS)
    } else if word == "else"@ {
        Some(Kind::ELSE)
    } else if word == "false"@ {
        Some(Kind::FALSE)
    } else if word == "for"@ {
        Some(Kind::FOR)
    } else if word == "fun"@ {
        Some(Kind::FUN)
    } else if word == "if"@ {
        Some(Kind::IF)
    } else if word == "nil"@ {
        Some(Kind::NIL)
    } else if word == "or"@ {
        Some(Kind::OR)
    } else if word == "print"@ {
        Some(Kind::PRINT)
    } else if word == "return"@ {
        Some(Kind::RETURN)
    } else if word == "super"@ {
        Some(Kind::SUPER)
    } else if word == "this"@ {
        Some(Kind::THIS)
    } else if word == "true"@ {
        Some(Kind::TRUE)
    } else if word == "var"@ {
        Some(Kind::VAR)
    } else if word == "while"@ {
        Some(Kind::WHILE)
    } else {
        None
    }
}

/// What reading at one position gives: where reading goes on, the line
/// number there, the token read if any, and the message reported if any.
pub ghost struct Step {
    pub next: int,
    pub line: usize,
    pub token: Option<TokenModel>,
    pub message: Option<Seq<char>>,
}

/// The step that reads the token of `kind` from `s[pos..end]`.
pub open spec fn token_step(s: Seq<char>, pos: int, end: int, line: usize, kind: Kind) -> Step {
    Step {
        next: end,
        line,
        token: Some(TokenModel { kind, lexeme: s.subrange(pos, end), line }),
        message: None,
    }
}

/// The step that reads nothing from `s[pos..end]`.
pub open spec fn skip_step(end: int, line: usize) -> Step {
    Step { next: end, line, token: None, message: None }
}

/// The step for an operator that an `=` may follow.
pub open spec fn pair_step(s: Seq<char>, pos: int, line: usize, single: Kind, double: Kind) -> Step {
    if char_at(s, pos + 1) == Some('=') {
        token_step(s, pos, pos + 2, line, double)
    } else {
        token_step(s, pos, pos + 1, line, single)
    }
}

/// The step at an opening quote: up to the closing quote, or to the end
/// of the text, where the string is reported as unterminated. Line breaks
/// inside count.
pub open spec fn string_step(s: Seq<char>, pos: int, line: usize) -> Step {
    let close = pos + 1 + run_until(s, pos + 1, '"');
    let last_line = line_after(s, pos + 1, close, line);
    if close >= s.len() {
        Step {
            next: s.len() as int,
            line: last_line,
            token: None,
            message: Some("Unterminated string"@),
        }
    } else {
        Step {
            next: close + 1,
            line: last_line,
            token: Some(
                TokenModel {
                    kind: Kind::STRING(s.subrange(pos + 1, close)),
                    lexeme: s.subrange(pos, close + 1),
                    line: last_line,
                },
            ),
            message: None,
        }
    }
}

/// Where the number that starts at `pos` ends: after its digits, and
/// after a point and further digits where a digit follows the point.
pub open spec fn number_end(s: Seq<char>, pos: int) -> int {
    let whole = pos + digit_run(s, pos);
    if char_at(s, whole) == Some('.') && digit_run(s, whole + 1) > 0 {
        whole + 1 + digit_run(s, whole + 1)
    } else {
        whole
    }
}

/// The step at a digit: the number literal from there to its end.
pub open spec fn number_step(s: Seq<char>, pos: int, line: usize) -> Step {
    let end = number_end(s, pos);
    token_step(s, pos, end, line, Kind::NUMBER(decimal_bits(s.subrange(pos, end))))
}

/// The step at a letter or underscore: the word from there to its end, as
/// a keyword where it is one, as an identifier where not.
pub open spec fn word_step(s: Seq<char>, pos: int, line: usize) -> Step {
    let end = pos + word_run(s, pos);
    let kind = match keyword_kind(s.subrange(pos, end)) {
        Some(k) => k,
        None => Kind::IDENTIFIER,
    };
    token_step(s, pos, end, line, kind)
}

/// What reading at `pos`, on line `line`, gives.
pub open spec fn scan_step(s: Seq<char>, pos: int, line: usize) -> Step {
    let c = s[pos];
    if c == '(' {
        token_step(s, pos, pos + 1, line, Kind::LEFT_PAREN)
    } else if c == ')' {
        token_step(s, pos, pos + 1, line, Kind::RIGHT_PAREN)
    } else if c == '{' {
        token_step(s, pos, pos + 1, line, Kind::LEFT_BRACE)
    } else if c == '}' {
        token_step(s, pos, pos + 1, line, Kind::RIGHT_BRACE)
    } else if c == ',' {
        token_step(s, pos, pos + 1, line, Kind::COMMA)
    } else if c == '.' {
        token_step(s, pos, pos + 1, line, Kind::DOT)
    } else if c == '-' {
        token_step(s, pos, pos + 1, line, Kind::MINUS)
    } else if c == '+' {
        token_step(s, pos, pos + 1, line, Kind::PLUS)
    } else if c == ';' {
        token_step(s, pos, pos + 1, line, Kind::SEMICOLON)
    } else if c == '*' {
        token_step(s, pos, pos + 1, line, Kind::STAR)
    } else if c == '!' {
        pair_step(s, pos, line, Kind::BANG, Kind::BANG_EQUAL)
    } else if c == '=' {
        pair_step(s, pos, line, Kind::EQUAL, Kind::EQUAL_EQUAL)
    } else if c == '<' {
        pair_step(s, pos, line, Kind::LESS, Kind::LESS_EQUAL)
    } else if c == '>' {
        pair_step(s, pos, line, Kind::GREATER, Kind::GREATER_EQUAL)
    } else if c == '/' {
        if char_at(s, pos + 1) == Some('/') {
            skip_step(pos + 2 + run_until(s, pos + 2, '\n'), line)
        } else {
            token_step(s, pos, pos + 1, line, Kind::SLASH)
        }
    } else if c == ' ' || c == '\r' || c == '\t' {
        skip_step(pos + 1, line)
    } else if c == '\n' {
        skip_step(pos + 1, next_line(line))
    } else if c == '"' {
        string_step(s, pos, line)
    } else if is_digit(c) {
        number_step(s, pos, line)
    } else if is_alpha(c) {
        word_step(s, pos, line)
    } else {
        Step {
            next: pos + 1,
            line,
            token: None,
            message: Some("Unexpected character: "@.push(c)),
        }
    }
}

/// The tokens with the step's token, if it has one.
pub open spec fn with_token(tokens: Seq<TokenModel>, step: Step) -> Seq<TokenModel> {
    match step.token {
        Some(t) => tokens.push(t),
        None => tokens,
    }
}

/// The diagnostics with the step's message, if it has one, reported for
/// the line on which the step ends.
pub open spec fn with_message(d: DiagnosticsModel, step: Step) -> DiagnosticsModel {
    match step.message {
        Some(m) => reported(d, step.line, m),
        None => d,
    }
}

/// The end marker for a text that ends on `line`.
pub open spec fn end_marker(line: usize) -> TokenModel {
    TokenModel { kind: Kind::EOF, lexeme: Seq::empty(), line }
}

/// The tokens and diagnostics once `s` is read from `pos` to its end,
/// given those gathered before `pos`. Every step moves on within the text
/// (`lemma_step_moves_on`), so the first branch of the inner test is the
/// only one ever taken.
pub open spec fn scan_from(
    s: Seq<char>,
    pos: int,
    line: usize,
    tokens: Seq<TokenModel>,
    d: DiagnosticsModel,
) -> (Seq<TokenModel>, DiagnosticsModel)
    decreases s.len() - pos,
{
    if 0 <= pos < s.len() {
        let step = scan_step(s, pos, line);
        if pos < step.next <= s.len() {
            scan_from(s, step.next, step.line, with_token(tokens, step), with_message(d, step))
        } else {
            (tokens, d)
        }
    } else {
        (tokens.push(end_marker(line)), d)
    }
}

/// The tokens of the text `s`, and the diagnostics `d` with what reading
/// `s` reports.
pub open spec fn scan(s: Seq<char>, d: DiagnosticsModel) -> (Seq<TokenModel>, DiagnosticsModel) {
    scan_from(s, 0, 1, Seq::empty(), d)
}

/// A run of digits ends within the text.
pub proof fn lemma_digit_run_bound(s: Seq<char>, i: int)
    requires
        0 <= i <= s.len(),
    ensures
        i + digit_run(s, i) <= s.len(),
    decreases s.len() - i,
{
    if i < s.len() && is_digit(s[i]) {
        lemma_digit_run_bound(s, i + 1);
    }
}

/// A word ends within the text.
pub proof fn lemma_word_run_bound(s: Seq<char>, i: int)
    requires
        0 <= i <= s.len(),
    ensures
        i + word_run(s, i) <= s.len(),
    decreases s.len() - i,
{
    if i < s.len() && is_alnum(s[i]) {
        lemma_word_run_bound(s, i + 1);
    }
}

/// A run up to `c` ends within the text, and at `c` where it ends before
/// the end.
pub proof fn lemma_run_until_bound(s: Seq<char>, i: int, c: char)
    requires
        0 <= i <= s.len(),
    ensures
        i + run_until(s, i, c) <= s.len(),
        i + run_until(s, i, c) < s.len() ==> s[i + run_until(s, i, c)] == c,
    decreases s.len() - i,
{
    if i < s.len() && s[i] != c {
        lemma_run_until_bound(s, i + 1, c);
    }
}

/// Every step moves on, and stays within the text.
pub proof fn lemma_step_moves_on(s: Seq<char>, pos: int, line: usize)
    requires
        0 <= pos < s.len(),
    ensures
        pos < scan_step(s, pos, line).next <= s.len(),
{
    lemma_run_until_bound(s, pos + 1, '"');
    if pos + 2 <= s.len() {
        lemma_run_until_bound(s, pos + 2, '\n');
    }
    lemma_digit_run_bound(s, pos);
    let whole = pos + digit_run(s, pos);
    if whole + 1 <= s.len() {
        lemma_digit_run_bound(s, whole + 1);
    }
    lemma_word_run_bound(s, pos);
}

/// Whether the tokens end with an end marker, and hold no other.
pub open spec fn ends_with_marker(tokens: Seq<TokenModel>) -> bool {
    &&& tokens.len() >= 1
    &&& tokens.last().kind is EOF
    &&& tokens.last().lexeme == Seq::<char>::empty()
    &&& forall|i: int| 0 <= i < tokens.len() - 1 ==> !(#[trigger] tokens[i].kind is EOF)
}

/// No step reads an end marker.
pub proof fn lemma_step_reads_no_marker(s: Seq<char>, pos: int, line: usize)
    requires
        0 <= pos < s.len(),
    ensures
        scan_step(s, pos, line).token matches Some(t) ==> !(t.kind is EOF),
{
}

/// Reading to the end adds tokens that are no end markers, and then the
/// one end marker.
pub proof fn lemma_scan_from_ends_with_marker(
    s: Seq<char>,
    pos: int,
    line: usize,
    tokens: Seq<TokenModel>,
    d: DiagnosticsModel,
)
    requires
        forall|i: int| 0 <= i < tokens.len() ==> !(#[trigger] tokens[i].kind is EOF),
    ensures
        ends_with_marker(scan_from(s, pos, line, tokens, d).0),
    decreases s.len() - pos,
{
    if 0 <= pos < s.len() {
        let step = scan_step(s, pos, line);
        lemma_step_moves_on(s, pos, line);
        lemma_step_reads_no_marker(s, pos, line);
        lemma_scan_from_ends_with_marker(
            s,
            step.next,
            step.line,
            with_token(tokens, step),
            with_message(d, step),
        );
    }
}

/// The tokens of every text end with exactly one end marker.
pub proof fn law_tokens_end_with_one_marker(s: Seq<char>, d: DiagnosticsModel)
    ensures
        ends_with_marker(scan(s, d).0),
{
    lemma_scan_from_ends_with_marker(s, 0, 1, Seq::empty(), d);
}

/// How many characters stand from `i` on where `c` stands nowhere later.
pub proof fn lemma_run_until_absent(s: Seq<char>, i: int, c: char)
    requires
        0 <= i <= s.len(),
        forall|k: int| i <= k < s.len() ==> s[k] != c,
    ensures
        i + run_until(s, i, c) == s.len(),
    decreases s.len() - i,
{
    if i < s.len() {
        lemma_run_until_absent(s, i + 1, c);
    }
}

/// An unterminated string gives no token: where a quote opens a string
/// and no quote follows before the text ends, the step reports the string
/// as unterminated, reads no token, and ends the text.
pub proof fn law_unterminated_string_gives_no_token(s: Seq<char>, pos: int, line: usize)
    requires
        0 <= pos < s.len(),
        s[pos] == '"',
        forall|k: int| pos < k < s.len() ==> s[k] != '"',
    ensures
        scan_step(s, pos, line).token is None,
        scan_step(s, pos, line).message == Some("Unterminated string"@),
        scan_step(s, pos, line).next == s.len(),
{
    lemma_run_until_absent(s, pos + 1, '"');
}

/// The scanner: the text, the tokens read so far, where the lexeme being
/// read starts, the position of the next character, and the line there.
pub struct Scanner {
    pub chars: Vec<char>,
    pub tokens: Vec<Token>,
    pub start: usize,
    pub current: usize,
    pub line: usize,
}

impl Scanner {
    fn is_digit(c: Option<char>) -> (r: bool)
        ensures
            r == (c is Some && is_digit(c->0)),
    {
        match c {
            Some(e) => '0' <= e && e <= '9',
            None => false,
        }
    }

    fn is_alphabetic(c: Option<char>) -> (r: bool)
        ensures
            r == (c is Some && is_alpha(c->0)),
    {
        match c {
            Some(e) => ('a' <= e && e <= 'z') || ('A' <= e && e <= 'Z') || e == '_',
            None => false,
        }
    }

    fn is_alphanumeric(c: Option<char>) -> (r: bool)
        ensures
            r == (c is Some && is_alnum(c->0)),
    {
        Scanner::is_alphabetic(c) || Scanner::is_digit(c)
    }

    /// A scanner at the start of `source`, on line 1.
    pub fn new(source: &str) -> (r: Self)
        ensures
            r.chars@ == source@,
            r.tokens@.len() == 0,
            r.start == 0,
            r.current == 0,
            r.line == 1,
    {
        Scanner { chars: chars_of(source), tokens: Vec::new(), start: 0, current: 0, line: 1 }
    }

    /// Reads the text to its end. Returns the tokens, the end marker last,
    /// and reports to `diagnostics` each unterminated string and each
    /// character that starts no token.
    pub fn scan_tokens(self, diagnostics: &mut Diagnostics) -> (r: Vec<Token>)
        ensures
            (tokens_view(r@), final(diagnostics)@) == scan_from(
                self.chars@,
                self.current as int,
                self.line,
                tokens_view(self.tokens@),
                old(diagnostics)@,
            ),
    {
        let ghost whole = scan_from(
            self.chars@,
            self.current as int,
            self.line,
            tokens_view(self.tokens@),
            diagnostics@,
        );
        let ghost text = self.chars@;
        let mut scanner = self;
        while scanner.current < scanner.chars.len()
            invariant
                scanner.chars@ == text,
                scan_from(
                    text,
                    scanner.current as int,
                    scanner.line,
                    tokens_view(scanner.tokens@),
                    diagnostics@,
                ) == whole,
            decreases scanner.chars.len() - scanner.current,
        {
            scanner.start = scanner.current;
            proof {
                lemma_step_moves_on(text, scanner.current as int, scanner.line);
            }
            scanner.scan_token(diagnostics);
        }
        let marker = Token::new(TokenType::EOF, String::new(), scanner.line);
        proof {
            lemma_tokens_view_push(scanner.tokens@, marker);
        }
        scanner.tokens.push(marker);
        scanner.tokens
    }

    /// Reads what stands at the current position, and moves past it.
    fn scan_token(&mut self, diagnostics: &mut Diagnostics)
        requires
            old(self).current < old(self).chars.len(),
            old(self).start == old(self).current,
        ensures
            final(self).chars == old(self).chars,
            ({
                let step = scan_step(old(self).chars@, old(self).current as int, old(self).line);
                &&& final(self).current == step.next
                &&& final(self).line == step.line
                &&& tokens_view(final(self).tokens@) == with_token(
                    tokens_view(old(self).tokens@),
                    step,
                )
                &&& final(diagnostics)@ == with_message(old(diagnostics)@, step)
            }),
    {
        let c: char = self.chars[self.current];
        proof {
            lemma_step_moves_on(self.chars@, self.current as int, self.line);
        }
        if c == '(' {
            self.add_token(TokenType::LEFT_PAREN);
        } else if c == ')' {
            self.add_token(TokenType::RIGHT_PAREN);
        } else if c == '{' {
            self.add_token(TokenType::LEFT_BRACE);
        } else if c == '}' {
            self.add_token(TokenType::RIGHT_BRACE);
        } else if c == ',' {
            self.add_token(TokenType::COMMA);
        } else if c == '.' {
            self.add_token(TokenType::DOT);
        } else if c == '-' {
            self.add_token(TokenType::MINUS);
        } else if c == '+' {
            self.add_token(TokenType::PLUS);
        } else if c == ';' {
            self.add_token(TokenType::SEMICOLON);
        } else if c == '*' {
            self.add_token(TokenType::STAR);
        } else if c == '!' {
            let token = if self.try_advance('=') {
                TokenType::BANG_EQUAL
            } else {
                TokenType::BANG
            };
            self.add_token(token);
        } else if c == '=' {
            let token = if self.try_advance('=') {
                TokenType::EQUAL_EQUAL
            } else {
                TokenType::EQUAL
            };
            self.add_token(token);
        } else if c == '<' {
            let token = if self.try_advance('=') {
                TokenType::LESS_EQUAL
            } else {
                TokenType::LESS
            };
            self.add_token(token);
        } else if c == '>' {
            let token = if self.try_advance('=') {
                TokenType::GREATER_EQUAL
            } else {
                TokenType::GREATER
            };
            self.add_token(token);
        } else if c == '/' {
            if self.try_advance('/') {
                self.skip_line();
            } else {
                self.add_token(TokenType::SLASH);
            }
        } else if c == ' ' || c == '\r' || c == '\t' {
        } else if c == '\n' {
            self.count_line();
        } else if c == '"' {
            self.handle_string(diagnostics);
        } else if '0' <= c && c <= '9' {
            self.handle_number();
        } else if Scanner::is_alphabetic(Some(c)) {
            self.handle_identifier();
        } else {
            let mut message = String::new();
            push_text(&mut message, "Unexpected character: ");
            push_char(&mut message, c);
            proof {
                assert(Seq::<char>::empty() + "Unexpected character: "@
                    =~= "Unexpected character: "@);
            }
            error(diagnostics, self.line, message.as_str());
        }
        self.advance();
    }

    /// Counts one line break.
    fn count_line(&mut self)
        ensures
            *final(self) == (Scanner { line: next_line(old(self).line), ..*old(self) }),
    {
        if self.line < usize::MAX {
            self.line += 1;
        }
    }

    /// Moves to the last character of the line, from the second slash of
    /// a comment.
    fn skip_line(&mut self)
        requires
            old(self).current < old(self).chars.len(),
        ensures
            final(self).current + 1 == old(self).current + 1 + run_until(
                old(self).chars@,
                old(self).current + 1,
                '\n',
            ),
            *final(self) == (Scanner { current: final(self).current, ..*old(self) }),
    {
        let ghost first = self.current;
        proof {
            lemma_run_until_bound(self.chars@, first + 1, '\n');
        }
        loop
            invariant
                self.chars == old(self).chars,
                self.tokens == old(self).tokens,
                self.start == old(self).start,
                self.line == old(self).line,
                first <= self.current < self.chars.len(),
                first == old(self).current,
                self.current + run_until(self.chars@, self.current + 1, '\n') == first
                    + run_until(self.chars@, first + 1, '\n'),
            ensures
                run_until(self.chars@, self.current + 1, '\n') == 0,
            decreases self.chars.len() - self.current,
        {
            match self.next(1) {
                Some(c) => {
                    if c == '\n' {
                        break ;
                    }
                },
                None => {
                    break ;
                },
            }
            self.advance();
        }
    }

    /// Moves one character on, unless the text has ended.
    fn advance(&mut self)
        ensures
            *final(self) == (Scanner {
                current: if old(self).current < old(self).chars.len() {
                    (old(self).current + 1) as usize
                } else {
                    old(self).current
                },
                ..*old(self)
            }),
    {
        if self.current < self.chars.len() {
            self.current += 1;
        }
    }

    /// Moves one character on if `expected` comes next.
    fn try_advance(&mut self, expected: char) -> (r: bool)
        ensures
            r == (char_at(old(self).chars@, old(self).current + 1) == Some(expected)),
            *final(self) == (Scanner {
                current: if r {
                    (old(self).current + 1) as usize
                } else {
                    old(self).current
                },
                ..*old(self)
            }),
    {
        match self.next(1) {
            Some(c) => {
                if c == expected {
                    self.advance();
                    true
                } else {
                    false
                }
            },
            None => false,
        }
    }

    fn current(&self) -> (r: Option<char>)
        ensures
            r == char_at(self.chars@, self.current as int),
    {
        if self.current < self.chars.len() {
            Some(self.chars[self.current])
        } else {
            None
        }
    }

    /// The character `i` places after the current one.
    fn next(&self, i: usize) -> (r: Option<char>)
        ensures
            r == char_at(self.chars@, self.current + i),
    {
        if self.current < self.chars.len() && i < self.chars.len() - self.current {
            Some(self.chars[self.current + i])
        } else {
            None
        }
    }

    /// Adds the token of the given kind for the text from `start` to the
    /// current character.
    fn add_token(&mut self, token_type: TokenType)
        requires
            old(self).start <= old(self).current < old(self).chars.len(),
        ensures
            tokens_view(final(self).tokens@) == tokens_view(old(self).tokens@).push(
                TokenModel {
                    kind: token_type@,
                    lexeme: old(self).chars@.subrange(
                        old(self).start as int,
                        old(self).current + 1,
                    ),
                    line: old(self).line,
                },
            ),
            final(self).chars == old(self).chars,
            final(self).start == old(self).start,
            final(self).current == old(self).current,
            final(self).line == old(self).line,
    {
        let lexeme = string_of(&self.chars, self.start, self.current + 1);
        let token = Token::new(token_type, lexeme, self.line);
        proof {
            lemma_tokens_view_push(self.tokens@, token);
        }
        self.tokens.push(token);
    }

    /// Reads a string from its opening quote, to its closing quote or to
    /// the last character of the text.
    fn handle_string(&mut self, diagnostics: &mut Diagnostics)
        requires
            old(self).start == old(self).current,
            old(self).current < old(self).chars.len(),
            old(self).chars@[old(self).current as int] == '"',
        ensures
            final(self).chars == old(self).chars,
            ({
                let step = string_step(old(self).chars@, old(self).current as int, old(self).line);
                &&& final(self).current + 1 == step.next
                &&& final(self).line == step.line
                &&& tokens_view(final(self).tokens@) == with_token(
                    tokens_view(old(self).tokens@),
                    step,
                )
                &&& final(diagnostics)@ == with_message(old(diagnostics)@, step)
            }),
    {
        let ghost s = self.chars@;
        let ghost first = self.current as int;
        proof {
            lemma_run_until_bound(s, first + 1, '"');
        }
        loop
            invariant
                self.chars@ == s,
                self.chars == old(self).chars,
                self.tokens == old(self).tokens,
                self.start == first,
                first == old(self).current,
                first <= self.current < s.len(),
                self.current + run_until(s, self.current + 1, '"') == first + run_until(
                    s,
                    first + 1,
                    '"',
                ),
                self.line == line_after(s, first + 1, self.current + 1, old(self).line),
            ensures
                run_until(s, self.current + 1, '"') == 0,
            decreases s.len() - self.current,
        {
            match self.next(1) {
                Some(c) => {
                    if c == '"' {
                        break ;
                    }
                    if c == '\n' {
                        self.count_line();
                    }
                },
                None => {
                    break ;
                },
            }
            self.advance();
        }
        if self.next(1).is_none() {
            error(diagnostics, self.line, "Unterminated string");
            return ;
        }
        self.advance();
        let val = string_of(&self.chars, self.start + 1, self.current);
        self.add_token(TokenType::STRING(val));
    }

    /// Reads a number from its first digit to its last.
    fn handle_number(&mut self)
        requires
            old(self).start == old(self).current,
            old(self).current < old(self).chars.len(),
            is_digit(old(self).chars@[old(self).current as int]),
        ensures
            final(self).chars == old(self).chars,
            ({
                let step = number_step(old(self).chars@, old(self).current as int, old(self).line);
                &&& final(self).current + 1 == step.next
                &&& final(self).line == step.line
                &&& tokens_view(final(self).tokens@) == with_token(
                    tokens_view(old(self).tokens@),
                    step,
                )
            }),
    {
        let ghost s = self.chars@;
        let ghost first = self.current as int;
        proof {
            lemma_digit_run_bound(s, first);
        }
        self.skip_digits();
        if self.next(1) == Some('.') && Scanner::is_digit(self.next(2)) {
            proof {
                lemma_digit_run_bound(s, self.current + 2);
            }
            self.advance();
            self.skip_digits();
        }
        let val = Double::from_decimal(&self.chars, self.start, self.current + 1);
        self.add_token(TokenType::NUMBER(val));
    }

    /// Moves to the last of the digits that follow the current character.
    fn skip_digits(&mut self)
        requires
            old(self).current < old(self).chars.len(),
        ensures
            final(self).current == old(self).current + digit_run(
                old(self).chars@,
                old(self).current + 1,
            ),
            final(self).current < old(self).chars.len(),
            *final(self) == (Scanner { current: final(self).current, ..*old(self) }),
    {
        let ghost first = self.current as int;
        while Scanner::is_digit(self.next(1))
            invariant
                self.chars == old(self).chars,
                self.tokens == old(self).tokens,
                self.start == old(self).start,
                self.line == old(self).line,
                first == old(self).current,
                first <= self.current < self.chars.len(),
                self.current + digit_run(self.chars@, self.current + 1) == first + digit_run(
                    self.chars@,
                    first + 1,
                ),
            decreases self.chars.len() - self.current,
        {
            self.advance();
        }
    }

    /// Reads a word from its first character to its last, as a keyword or
    /// as an identifier.
    fn handle_identifier(&mut self)
        requires
            old(self).start == old(self).current,
            old(self).current < old(self).chars.len(),
            is_alpha(old(self).chars@[old(self).current as int]),
        ensures
            final(self).chars == old(self).chars,
            ({
                let step = word_step(old(self).chars@, old(self).current as int, old(self).line);
                &&& final(self).current + 1 == step.next
                &&& final(self).line == step.line
                &&& tokens_view(final(self).tokens@) == with_token(
                    tokens_view(old(self).tokens@),
                    step,
                )
            }),
    {
        let ghost first = self.current as int;
        while Scanner::is_alphanumeric(self.next(1))
            invariant
                self.chars == old(self).chars,
                self.tokens == old(self).tokens,
                self.start == old(self).start,
                self.line == old(self).line,
                first == old(self).current,
                first <= self.current < self.chars.len(),
                self.current + word_run(self.chars@, self.current + 1) == first + word_run(
                    self.chars@,
                    first + 1,
                ),
            decreases self.chars.len() - self.current,
        {
            self.advance();
        }
        let token_type = match keyword(&self.chars, self.start, self.current + 1) {
            Some(k) => k,
            None => TokenType::IDENTIFIER,
        };
        self.add_token(token_type);
    }
}

/// Whether `chars[from..to]` is the text `word`.
fn range_is(chars: &Vec<char>, from: usize, to: usize, word: &str) -> (r: bool)
    requires
        from <= to <= chars.len(),
    ensures
        r == (chars@.subrange(from as int, to as int) == word@),
{
    let w = chars_of(word);
    if w.len() != to - from {
        return false;
    }
    let mut i: usize = 0;
    while i < w.len()
        invariant
            from <= to <= chars.len(),
            w.len() == to - from,
            w@ == word@,
            i <= w.len(),
            forall|j: int| 0 <= j < i ==> chars@[from + j] == w@[j],
        decreases w.len() - i,
    {
        if chars[from + i] != w[i] {
            proof {
                assert(chars@.subrange(from as int, to as int)[i as int] != w@[i as int]);
            }
            return false;
        }
        i += 1;
    }
    proof {
        assert(chars@.subrange(from as int, to as int) =~= w@);
    }
    true
}

/// The keyword that `chars[from..to]` is, if it is one.
fn keyword(chars: &Vec<char>, from: usize, to: usize) -> (r: Option<TokenType>)
    requires
        from <= to <= chars.len(),
    ensures
        match r {
            Some(k) => keyword_kind(chars@.subrange(from as int, to as int)) == Some(k@),
            None => keyword_kind(chars@.subrange(from as int, to as int)) is None,
        },
{
    if range_is(chars, from, to, "and") {
        Some(TokenType::AND)
    } else if range_is(chars, from, to, "class") {
        Some(TokenType::CLASS)
    } else if range_is(chars, from, to, "else") {
        Some(TokenType::ELSE)
    } else if range_is(chars, from, to, "false") {
        Some(TokenType::FALSE)
    } else if range_is(chars, from, to, "for") {
        Some(TokenType::FOR)
    } else if range_is(chars, from, to, "fun") {
        Some(TokenType::FUN)
    } else if range_is(chars, from, to, "if") {
        Some(TokenType::IF)
    } else if range_is(chars, from, to, "nil") {
        Some(TokenType::NIL)
    } else if range_is(chars, from, to, "or") {
        Some(TokenType::OR)
    } else if range_is(chars, from, to, "print") {
        Some(TokenType::PRINT)
    } else if range_is(chars, from, to, "return") {
        Some(TokenType::RETURN)
    } else if range_is(chars, from, to, "super") {
        Some(TokenType::SUPER)
    } else if range_is(chars, from, to, "this") {
        Some(TokenType::THIS)
    } else if range_is(chars, from, to, "true") {
        Some(TokenType::TRUE)
    } else if range_is(chars, from, to, "var") {
        Some(TokenType::VAR)
    } else if range_is(chars, from, to, "while") {
        Some(TokenType::WHILE)
    } else {
        None
    }
}

} // verus!
