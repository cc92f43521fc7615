use rlox::ast_pretty_printer::PrettyPrinter;
use rlox::expr::{BinaryExpr, Expr, GroupingExpr, LiteralExpr, UnaryExpr};
use rlox::interpreter::{is_equal, is_truthy, Interpret, Interpreter, RuntimeError};
use rlox::lox::Lox;
use rlox::loxerror::{
    error, get_error, get_runtime_error, report, report_line, set_error, set_runtime_error,
    Diagnostics, LoxError,
};
use rlox::loxvalue::LoxValue;
use rlox::number::Double;
use rlox::parser::{Parser, ParserError};
use rlox::scanner::Scanner;
use rlox::token::{Token, TokenType};

fn number(x: f64) -> Double {
    Double::from_bits(x.to_bits())
}

fn tokens_of(source: &str) -> (Vec<Token>, Diagnostics) {
    let mut diagnostics = Diagnostics::new();
    let tokens = Scanner::new(source).scan_tokens(&mut diagnostics);
    (tokens, diagnostics)
}

fn kinds_of(source: &str) -> Vec<TokenType> {
    tokens_of(source).0.into_iter().map(|t| t.token_type).collect()
}

fn parse(source: &str) -> Result<Expr, ParserError> {
    let (tokens, mut diagnostics) = tokens_of(source);
    Parser::new(tokens).parse(&mut diagnostics)
}

fn evaluate(source: &str) -> Result<LoxValue, RuntimeError> {
    let expr = parse(source).unwrap();
    Interpreter::new().interpret(expr)
}

fn run(source: &str) -> (Result<LoxValue, LoxError>, Diagnostics) {
    let mut diagnostics = Diagnostics::new();
    let outcome = Lox::run(source, &mut diagnostics);
    (outcome, diagnostics)
}

fn literal(x: f64) -> Expr {
    Expr::Literal(LiteralExpr::Number(number(x)))
}

fn token(token_type: TokenType, lexeme: &str, line: usize) -> Token {
    Token::new(token_type, String::from(lexeme), line)
}

#[test]
fn product_binds_tighter_than_sum() {
    let tree = parse("1 + 2 * 3").unwrap();
    let expected = Expr::Binary(BinaryExpr::new(
        literal(1.0),
        token(TokenType::PLUS, "+", 1),
        Expr::Binary(BinaryExpr::new(literal(2.0), token(TokenType::STAR, "*", 1), literal(3.0))),
    ));
    assert_eq!(tree, expected);
    assert_eq!(tree.print(), "(+ 1 (* 2 3))");
    assert_eq!(tree.interpret().unwrap(), LoxValue::LoxNumber(number(7.0)));
    assert_eq!(evaluate("1 + 2 * 3").unwrap(), LoxValue::LoxNumber(number(7.0)));
    assert_eq!(run("1 + 2 * 3").0.unwrap(), LoxValue::LoxNumber(number(7.0)));
}

#[test]
fn parentheses_bind_first() {
    assert_eq!(evaluate("(1 + 2) * 3").unwrap(), LoxValue::LoxNumber(number(9.0)));
    assert_eq!(parse("(1 + 2) * 3").unwrap().print(), "(* (group (+ 1 2)) 3)");
}

#[test]
fn operators_of_one_level_nest_to_the_left() {
    assert_eq!(parse("10 - 4 - 3").unwrap().print(), "(- (- 10 4) 3)");
    assert_eq!(evaluate("10 - 4 - 3").unwrap(), LoxValue::LoxNumber(number(3.0)));
    assert_eq!(evaluate("64 / 4 / 2").unwrap(), LoxValue::LoxNumber(number(8.0)));
    assert_eq!(evaluate("2 * 3 + 4 * 5 - 6 / 3").unwrap(), LoxValue::LoxNumber(number(24.0)));
    assert_eq!(evaluate("0.1 + 0.2").unwrap(), LoxValue::LoxNumber(number(0.1 + 0.2)));
    assert_eq!(evaluate("1 / 3 * 3 - 0.5").unwrap(), LoxValue::LoxNumber(number(1.0 / 3.0 * 3.0 - 0.5)));
}

#[test]
fn the_levels_from_loosest_to_tightest() {
    assert_eq!(
        parse("1 == 2 < 3 + 4 * -5").unwrap().print(),
        "(== 1 (< 2 (+ 3 (* 4 (- 5)))))"
    );
    assert_eq!(parse("!!true").unwrap().print(), "(! (! true))");
    assert_eq!(parse("1 < 2 == 3 >= 4").unwrap().print(), "(== (< 1 2) (>= 3 4))");
    assert_eq!(parse("1 != 2 != 3").unwrap().print(), "(!= (!= 1 2) 3)");
}

#[test]
fn arithmetic_on_numbers() {
    assert_eq!(evaluate("7 - 10").unwrap(), LoxValue::LoxNumber(number(-3.0)));
    assert_eq!(evaluate("-(2 + 3)").unwrap(), LoxValue::LoxNumber(number(-5.0)));
    assert_eq!(evaluate("--4").unwrap(), LoxValue::LoxNumber(number(4.0)));
    assert_eq!(evaluate("-0").unwrap(), LoxValue::LoxNumber(number(-0.0)));
    assert_eq!(evaluate("1.5 * 4").unwrap(), LoxValue::LoxNumber(number(6.0)));
    assert_eq!(evaluate("1 / 0").unwrap(), LoxValue::LoxNumber(number(f64::INFINITY)));
    assert_eq!(evaluate("-1 / 0").unwrap(), LoxValue::LoxNumber(number(f64::NEG_INFINITY)));
    match evaluate("0 / 0").unwrap() {
        LoxValue::LoxNumber(n) => assert!(n.is_nan()),
        other => panic!("{:?}", other),
    }
}

#[test]
fn comparison_of_numbers() {
    assert_eq!(evaluate("1 < 2").unwrap(), LoxValue::LoxBool(true));
    assert_eq!(evaluate("2 < 2").unwrap(), LoxValue::LoxBool(false));
    assert_eq!(evaluate("2 <= 2").unwrap(), LoxValue::LoxBool(true));
    assert_eq!(evaluate("3 > 2").unwrap(), LoxValue::LoxBool(true));
    assert_eq!(evaluate("2 >= 3").unwrap(), LoxValue::LoxBool(false));
    assert_eq!(evaluate("3 >= 3").unwrap(), LoxValue::LoxBool(true));
    assert_eq!(evaluate("0 / 0 == 0 / 0").unwrap(), LoxValue::LoxBool(false));
    assert_eq!(evaluate("0 / 0 <= 0 / 0").unwrap(), LoxValue::LoxBool(false));
    assert_eq!(evaluate("0 == -0").unwrap(), LoxValue::LoxBool(true));
}

#[test]
fn strings_are_joined() {
    assert_eq!(
        evaluate("\"ab\" + \"cd\"").unwrap(),
        LoxValue::LoxString(String::from("abcd"))
    );
    assert_eq!(evaluate("\"\" + \"\"").unwrap(), LoxValue::LoxString(String::new()));
}

#[test]
fn a_string_plus_a_number_fails() {
    let failure = evaluate("\"a\" + 1").unwrap_err();
    assert_eq!(failure.message, "Operands must be two numbers or two strings");
    assert_eq!(failure.token, token(TokenType::PLUS, "+", 1));
    assert_eq!(
        LoxError::from(failure).to_string(),
        "Operands must be two numbers or two strings\n[line 1]"
    );
}

#[test]
fn operands_of_the_wrong_kind_fail() {
    for source in ["1 - \"a\"", "\"a\" * 2", "nil / 2", "true < 1", "1 <= \"a\"", "\"a\" > \"b\"", "nil >= nil", "\"a\" - \"b\""] {
        let failure = evaluate(source).unwrap_err();
        assert_eq!(failure.message, "Operands must be numbers", "{}", source);
    }
    let failure = evaluate("-\"a\"").unwrap_err();
    assert_eq!(failure.message, "Operand must be a number");
    assert_eq!(failure.token, token(TokenType::MINUS, "-", 1));
    let failure = evaluate("1 + nil").unwrap_err();
    assert_eq!(failure.message, "Operands must be two numbers or two strings");
}

#[test]
fn the_left_operand_fails_first() {
    let failure = evaluate("(1 - nil) + (2 * \"a\")").unwrap_err();
    assert_eq!(failure.token, token(TokenType::MINUS, "-", 1));
    let failure = evaluate("1 +\n(2 * \"a\")").unwrap_err();
    assert_eq!(failure.token, token(TokenType::STAR, "*", 2));
    assert_eq!(LoxError::from(failure).to_string(), "Operands must be numbers\n[line 2]");
}

#[test]
fn a_missing_operand_is_the_end_of_the_input() {
    assert_eq!(parse("1 +").unwrap_err(), ParserError::new(None));
    assert_eq!(
        LoxError::from(parse("1 +").unwrap_err()).to_string(),
        "Parsing error: unexpectedly reached end of file"
    );
    let (outcome, diagnostics) = run("1 +");
    assert_eq!(
        outcome.unwrap_err().to_string(),
        "Parsing error: unexpectedly reached end of file"
    );
    assert!(diagnostics.had_error);
    assert_eq!(
        diagnostics.reports,
        vec![String::from("[line 1] Error at end: unexpectedly reached end of file")]
    );
}

#[test]
fn parse_failures_name_the_token() {
    assert_eq!(parse("").unwrap_err(), ParserError::new(None));
    assert_eq!(parse("(1 + 2").unwrap_err(), ParserError::new(None));
    assert_eq!(parse("(").unwrap_err(), ParserError::new(None));
    assert_eq!(
        parse("(1 2").unwrap_err(),
        ParserError::new(Some(token(TokenType::NUMBER(number(2.0)), "2", 1)))
    );
    assert_eq!(
        parse("* 2").unwrap_err(),
        ParserError::new(Some(token(TokenType::STAR, "*", 1)))
    );
    assert_eq!(
        parse("1 + foo").unwrap_err(),
        ParserError::new(Some(token(TokenType::IDENTIFIER, "foo", 1)))
    );
    assert_eq!(
        LoxError::from(parse("(1 2.50").unwrap_err()).to_string(),
        "Parsing error: Unexpected token '2.50'(NUMBER(2.5)) at line 1"
    );
    assert_eq!(
        LoxError::from(parse("(1 \"a\\b\"").unwrap_err()).to_string(),
        "Parsing error: Unexpected token '\"a\\b\"'(STRING(\"a\\\\b\")) at line 1"
    );
    assert_eq!(
        LoxError::from(parse("\n\n)").unwrap_err()).to_string(),
        "Parsing error: Unexpected token ')'(RIGHT_PAREN) at line 3"
    );
    let (outcome, diagnostics) = run("1 +\n while");
    assert_eq!(
        outcome.unwrap_err().to_string(),
        "Parsing error: Unexpected token 'while'(WHILE) at line 2"
    );
    assert_eq!(
        diagnostics.reports,
        vec![String::from("[line 2] Error at 'while': Unexpected token")]
    );
}

#[test]
fn tokens_after_the_expression_are_left_alone() {
    let (tokens, mut diagnostics) = tokens_of("1 2");
    let mut parser = Parser::new(tokens);
    assert_eq!(parser.parse(&mut diagnostics).unwrap(), literal(1.0));
    assert_eq!(parser.current, 1);
    assert_eq!(parser.parse(&mut diagnostics).unwrap(), literal(2.0));
    assert_eq!(parser.current, 2);
    assert!(!diagnostics.had_error);
}

#[test]
fn tokens_without_an_end_marker_end_the_input() {
    let tokens = vec![token(TokenType::NUMBER(number(1.0)), "1", 1)];
    let mut diagnostics = Diagnostics::new();
    assert_eq!(
        Parser::new(tokens).parse(&mut diagnostics).unwrap_err(),
        ParserError::new(None)
    );
    assert_eq!(
        diagnostics.reports,
        vec![String::from("[line 1] Error at end: unexpectedly reached end of file")]
    );
    let mut diagnostics = Diagnostics::new();
    assert_eq!(
        Parser::new(Vec::new()).parse(&mut diagnostics).unwrap_err(),
        ParserError::new(None)
    );
    assert_eq!(
        diagnostics.reports,
        vec![String::from("[line 0] Error at end: unexpectedly reached end of file")]
    );
}

#[test]
fn an_unterminated_string_is_reported_and_gives_no_token() {
    let (tokens, diagnostics) = tokens_of("1 + \"abc");
    assert_eq!(
        tokens,
        vec![
            token(TokenType::NUMBER(number(1.0)), "1", 1),
            token(TokenType::PLUS, "+", 1),
            token(TokenType::EOF, "", 1),
        ]
    );
    assert!(diagnostics.had_error);
    assert_eq!(diagnostics.reports, vec![String::from("[line 1] Error : Unterminated string")]);
    let (tokens, diagnostics) = tokens_of("\"a\nb\nc");
    assert_eq!(tokens, vec![token(TokenType::EOF, "", 3)]);
    assert_eq!(diagnostics.reports, vec![String::from("[line 3] Error : Unterminated string")]);
    let (tokens, diagnostics) = tokens_of("\"");
    assert_eq!(tokens, vec![token(TokenType::EOF, "", 1)]);
    assert_eq!(diagnostics.reports.len(), 1);
}

#[test]
fn a_character_that_starts_no_token_is_reported_and_passed() {
    let (tokens, diagnostics) = tokens_of("1 @ 2\n#");
    assert_eq!(
        tokens,
        vec![
            token(TokenType::NUMBER(number(1.0)), "1", 1),
            token(TokenType::NUMBER(number(2.0)), "2", 1),
            token(TokenType::EOF, "", 2),
        ]
    );
    assert!(diagnostics.had_error);
    assert_eq!(
        diagnostics.reports,
        vec![
            String::from("[line 1] Error : Unexpected character: @"),
            String::from("[line 2] Error : Unexpected character: #"),
        ]
    );
}

#[test]
fn the_single_and_double_character_tokens() {
    assert_eq!(
        kinds_of("(){},.-+;*/ ! != = == < <= > >="),
        vec![
            TokenType::LEFT_PAREN,
            TokenType::RIGHT_PAREN,
            TokenType::LEFT_BRACE,
            TokenType::RIGHT_BRACE,
            TokenType::COMMA,
            TokenType::DOT,
            TokenType::MINUS,
            TokenType::PLUS,
            TokenType::SEMICOLON,
            TokenType::STAR,
            TokenType::SLASH,
            TokenType::BANG,
            TokenType::BANG_EQUAL,
            TokenType::EQUAL,
            TokenType::EQUAL_EQUAL,
            TokenType::LESS,
            TokenType::LESS_EQUAL,
            TokenType::GREATER,
            TokenType::GREATER_EQUAL,
            TokenType::EOF,
        ]
    );
    assert_eq!(
        kinds_of("!==<==>="),
        vec![
            TokenType::BANG_EQUAL,
            TokenType::EQUAL,
            TokenType::LESS_EQUAL,
            TokenType::EQUAL,
            TokenType::GREATER_EQUAL,
            TokenType::EOF,
        ]
    );
}

#[test]
fn the_keywords_and_identifiers() {
    assert_eq!(
        kinds_of("and class else false for fun if nil or print return super this true var while"),
        vec![
            TokenType::AND,
            TokenType::CLASS,
            TokenType::ELSE,
            TokenType::FALSE,
            TokenType::FOR,
            TokenType::FUN,
            TokenType::IF,
            TokenType::NIL,
            TokenType::OR,
            TokenType::PRINT,
            TokenType::RETURN,
            TokenType::SUPER,
            TokenType::THIS,
            TokenType::TRUE,
            TokenType::VAR,
            TokenType::WHILE,
            TokenType::EOF,
        ]
    );
    assert_eq!(
        tokens_of("andy _x1 While nil_").0,
        vec![
            token(TokenType::IDENTIFIER, "andy", 1),
            token(TokenType::IDENTIFIER, "_x1", 1),
            token(TokenType::IDENTIFIER, "While", 1),
            token(TokenType::IDENTIFIER, "nil_", 1),
            token(TokenType::EOF, "", 1),
        ]
    );
}

#[test]
fn numbers_with_and_without_a_fraction() {
    assert_eq!(
        tokens_of("12 3.5 7. .5 1.2.3").0,
        vec![
            token(TokenType::NUMBER(number(12.0)), "12", 1),
            token(TokenType::NUMBER(number(3.5)), "3.5", 1),
            token(TokenType::NUMBER(number(7.0)), "7", 1),
            token(TokenType::DOT, ".", 1),
            token(TokenType::DOT, ".", 1),
            token(TokenType::NUMBER(number(5.0)), "5", 1),
            token(TokenType::NUMBER(number(1.2)), "1.2", 1),
            token(TokenType::DOT, ".", 1),
            token(TokenType::NUMBER(number(3.0)), "3", 1),
            token(TokenType::EOF, "", 1),
        ]
    );
    assert_eq!(
        tokens_of("45.67").0[0],
        token(TokenType::NUMBER(number(45.67)), "45.67", 1)
    );
}

#[test]
fn strings_keep_their_text_and_count_their_lines() {
    assert_eq!(
        tokens_of("\"a b\" \"x\ny\" 1").0,
        vec![
            token(TokenType::STRING(String::from("a b")), "\"a b\"", 1),
            token(TokenType::STRING(String::from("x\ny")), "\"x\ny\"", 2),
            token(TokenType::NUMBER(number(1.0)), "1", 2),
            token(TokenType::EOF, "", 2),
        ]
    );
    assert_eq!(
        tokens_of("\"\"").0,
        vec![token(TokenType::STRING(String::new()), "\"\"", 1), token(TokenType::EOF, "", 1)]
    );
}

#[test]
fn comments_and_blanks_give_no_token() {
    assert_eq!(
        tokens_of("1 // two three\n\t4 \r\n// five").0,
        vec![
            token(TokenType::NUMBER(number(1.0)), "1", 1),
            token(TokenType::NUMBER(number(4.0)), "4", 2),
            token(TokenType::EOF, "", 3),
        ]
    );
    assert_eq!(tokens_of("//").0, vec![token(TokenType::EOF, "", 1)]);
    assert_eq!(tokens_of("").0, vec![token(TokenType::EOF, "", 1)]);
    assert_eq!(
        tokens_of("1 / 2").0[1],
        token(TokenType::SLASH, "/", 1)
    );
}

#[test]
fn negation_follows_truthiness() {
    assert_eq!(evaluate("!nil").unwrap(), LoxValue::LoxBool(true));
    assert_eq!(evaluate("!false").unwrap(), LoxValue::LoxBool(true));
    assert_eq!(evaluate("!true").unwrap(), LoxValue::LoxBool(false));
    assert_eq!(evaluate("!0").unwrap(), LoxValue::LoxBool(false));
    assert_eq!(evaluate("!\"\"").unwrap(), LoxValue::LoxBool(false));
    assert!(!is_truthy(LoxValue::LoxNil));
    assert!(!is_truthy(LoxValue::LoxBool(false)));
    assert!(is_truthy(LoxValue::LoxBool(true)));
    assert!(is_truthy(LoxValue::LoxNumber(number(0.0))));
    assert!(is_truthy(LoxValue::LoxString(String::new())));
}

#[test]
fn values_of_two_kinds_are_never_equal() {
    assert_eq!(evaluate("1 == \"1\"").unwrap(), LoxValue::LoxBool(false));
    assert_eq!(evaluate("1 != \"1\"").unwrap(), LoxValue::LoxBool(true));
    assert_eq!(evaluate("nil == false").unwrap(), LoxValue::LoxBool(false));
    assert_eq!(evaluate("nil == nil").unwrap(), LoxValue::LoxBool(true));
    assert_eq!(evaluate("\"a\" == \"a\"").unwrap(), LoxValue::LoxBool(true));
    assert_eq!(evaluate("\"a\" != \"b\"").unwrap(), LoxValue::LoxBool(true));
    assert_eq!(evaluate("true == 1").unwrap(), LoxValue::LoxBool(false));
    assert_eq!(evaluate("2 == 2").unwrap(), LoxValue::LoxBool(true));
    assert_eq!(evaluate("true == true").unwrap(), LoxValue::LoxBool(true));
    assert!(!is_equal(LoxValue::LoxNil, LoxValue::LoxBool(false)));
    assert!(!is_equal(LoxValue::LoxNumber(number(0.0)), LoxValue::LoxString(String::from("0"))));
    assert!(is_equal(LoxValue::LoxNumber(number(0.0)), LoxValue::LoxNumber(number(-0.0))));
}

#[test]
fn trees_as_text() {
    let tree = Expr::Binary(BinaryExpr::new(
        Expr::Unary(UnaryExpr::new(token(TokenType::MINUS, "-", 1), literal(123.0))),
        token(TokenType::STAR, "*", 1),
        Expr::Grouping(GroupingExpr::new(literal(45.67))),
    ));
    assert_eq!(tree.print(), "(* (- 123) (group 45.67))");
    assert_eq!(tree.to_string(), "((123 -) * (group 45.67))");
    let sum = parse("1 + 2").unwrap();
    assert_eq!(sum.print(), "(+ 1 2)");
    assert_eq!(sum.to_string(), "(1 + 2)");
    assert_eq!(parse("\"a\" == nil").unwrap().print(), "(== \"a\" nil)");
    assert_eq!(parse("\"a\" == nil").unwrap().to_string(), "('a' == nil)");
    assert_eq!(LiteralExpr::Bool(true).print(), "true");
    assert_eq!(LiteralExpr::Nil.print(), "nil");
    assert_eq!(LiteralExpr::String(String::from("x")).print(), "\"x\"");
    assert_eq!(LiteralExpr::String(String::from("x")).to_string(), "'x'");
    assert_eq!(GroupingExpr::new(literal(1.5)).print(), "(group 1.5)");
    assert_eq!(UnaryExpr::new(token(TokenType::BANG, "!", 1), literal(0.0)).print(), "(! 0)");
    assert_eq!(
        BinaryExpr::new(literal(1.0), token(TokenType::SLASH, "/", 1), literal(4.0)).print(),
        "(/ 1 4)"
    );
}

#[test]
fn a_printed_literal_reads_back() {
    for source in ["true", "false", "nil", "\"a b\"", "12.5", "0.1", "100", "\"\""] {
        let tree = parse(source).unwrap();
        assert_eq!(parse(&tree.print()).unwrap(), tree, "{}", source);
    }
}

#[test]
fn well_formed_trees_are_told_apart() {
    assert!(parse("1 + 2 * -(3)").unwrap().is_well_formed());
    assert!(literal(1.0).is_well_formed());
    let odd = Expr::Binary(BinaryExpr::new(
        literal(1.0),
        token(TokenType::COMMA, ",", 1),
        literal(2.0),
    ));
    assert!(!odd.is_well_formed());
    let nested = Expr::Grouping(GroupingExpr::new(Expr::Unary(UnaryExpr::new(
        token(TokenType::PLUS, "+", 1),
        literal(2.0),
    ))));
    assert!(!nested.is_well_formed());
    let fine = Expr::Unary(UnaryExpr::new(token(TokenType::BANG, "!", 1), literal(2.0)));
    assert!(fine.is_well_formed());
}

#[test]
fn nodes_as_text() {
    assert_eq!(
        BinaryExpr::new(literal(1.0), token(TokenType::SLASH, "/", 1), literal(4.0)).to_string(),
        "(1 / 4)"
    );
    assert_eq!(
        UnaryExpr::new(token(TokenType::BANG, "!", 1), literal(0.0)).to_string(),
        "(0 !)"
    );
    assert_eq!(GroupingExpr::new(literal(1.5)).to_string(), "(group 1.5)");
    assert_eq!(LiteralExpr::Nil.to_string(), "nil");
    assert_eq!(LiteralExpr::Bool(false).to_string(), "false");
    assert_eq!(LiteralExpr::Number(number(-2.5)).to_string(), "-2.5");
}

#[test]
fn values_as_text() {
    assert_eq!(LoxValue::LoxNil.to_string(), "nil");
    assert_eq!(LoxValue::LoxBool(true).to_string(), "true");
    assert_eq!(LoxValue::LoxBool(false).to_string(), "false");
    assert_eq!(LoxValue::LoxNumber(number(7.0)).to_string(), "7");
    assert_eq!(LoxValue::LoxNumber(number(0.1 + 0.2)).to_string(), "0.30000000000000004");
    assert_eq!(LoxValue::LoxString(String::from("a b")).to_string(), "a b");
    assert_eq!(run("(1 + 2) * 3").0.unwrap().to_string(), "9");
}

#[test]
fn diagnostics_keep_what_was_reported() {
    let mut diagnostics = Diagnostics::new();
    assert!(!get_error(&diagnostics));
    assert!(!get_runtime_error(&diagnostics));
    error(&mut diagnostics, 12, "Unterminated string");
    assert!(get_error(&diagnostics));
    assert!(!get_runtime_error(&diagnostics));
    assert_eq!(diagnostics.reports, vec![String::from("[line 12] Error : Unterminated string")]);
    set_error(&mut diagnostics, false);
    assert!(!get_error(&diagnostics));
    set_runtime_error(&mut diagnostics, true);
    assert!(get_runtime_error(&diagnostics));
    assert_eq!(diagnostics.reports.len(), 1);
    assert_eq!(
        report_line(3, "at end", "Expect expression"),
        "[line 3] Error at end: Expect expression"
    );
    assert_eq!(report_line(0, "", ""), "[line 0] Error : ");
    assert_eq!(report_line(18446744073709551615, "", "x"), "[line 18446744073709551615] Error : x");
    assert_eq!(LoxError::new("broken").to_string(), "broken");
    let mut other = Diagnostics::new();
    report(&mut other, 7, "at 'x'", "Unexpected token");
    assert!(get_error(&other));
    assert_eq!(other.reports, vec![String::from("[line 7] Error at 'x': Unexpected token")]);
}

#[test]
fn a_failed_evaluation_sets_no_flag() {
    let (outcome, diagnostics) = run("1 + nil");
    assert_eq!(
        outcome.unwrap_err().to_string(),
        "Operands must be two numbers or two strings\n[line 1]"
    );
    assert!(!diagnostics.had_error);
    assert!(!diagnostics.had_runtime_error);
    assert!(diagnostics.reports.is_empty());
}

#[test]
fn what_the_scanner_reports_does_not_stop_the_run() {
    let (outcome, diagnostics) = run("1 + @ 2");
    assert_eq!(outcome.unwrap(), LoxValue::LoxNumber(number(3.0)));
    assert!(diagnostics.had_error);
    assert_eq!(diagnostics.reports, vec![String::from("[line 1] Error : Unexpected character: @")]);
}
