use json_validator::error::JSONError;
use json_validator::lexer::lex;
use json_validator::token::Token;

/// A token with the value of its literal: a number by the value that its
/// text denotes.
#[derive(PartialEq, Debug)]
enum Valued {
    OpenBrace,
    ClosedBrace,
    OpenBracket,
    ClosedBracket,
    NewLine,
    Column,
    Comma,
    StringLiteral(String),
    Number(f64),
    BoolTrue,
    BoolFalse,
    Null,
}

fn valued(token: &Token) -> Valued {
    match token {
        Token::OpenBrace => Valued::OpenBrace,
        Token::ClosedBrace => Valued::ClosedBrace,
        Token::OpenBracket => Valued::OpenBracket,
        Token::ClosedBracket => Valued::ClosedBracket,
        Token::NewLine => Valued::NewLine,
        Token::Column => Valued::Column,
        Token::Comma => Valued::Comma,
        Token::StringLiteral(text) => Valued::StringLiteral(text.clone()),
        Token::Number(text) => Valued::Number(text.parse().unwrap()),
        Token::BoolTrue => Valued::BoolTrue,
        Token::BoolFalse => Valued::BoolFalse,
        Token::Null => Valued::Null,
    }
}

fn run_test_case_with(input_str: &str, expected_tokens: Vec<Valued>) {
    let found_tokens: Vec<Valued> = lex(input_str).unwrap().iter().map(valued).collect();
    assert_eq!(found_tokens, expected_tokens);
}

fn run_expected_error_test_case_with(input_str: &str, expected_error: JSONError) {
    let found_tokens = lex(input_str).unwrap_err();
    assert_eq!(found_tokens, expected_error);
}

#[test]
fn should_lex_with_open_brace() {
    run_test_case_with("{", Vec::from([Valued::OpenBrace]));
}

#[test]
fn should_lex_with_open_closed_brace() {
    run_test_case_with("{}", Vec::from([Valued::OpenBrace, Valued::ClosedBrace]));
}

#[test]
fn should_lex_emoji() {
    run_test_case_with(
        "{\"😊\":\"\"}",
        Vec::from([
            Valued::OpenBrace,
            Valued::StringLiteral("😊".to_string()),
            Valued::Column,
            Valued::StringLiteral("".to_string()),
            Valued::ClosedBrace,
        ]),
    );
}

#[test]
fn should_report_err_lex_normal_text() {
    run_expected_error_test_case_with("hello", JSONError::new(format!("Unexpected 'h'"), 1));
}

#[test]
fn should_lex_column() {
    run_test_case_with(":", Vec::from([Valued::Column]));
}

#[test]
fn should_ignore_tokens_when_in_string_literal() {
    run_test_case_with(
        "{\"{:\":\"\"",
        Vec::from([
            Valued::OpenBrace,
            Valued::StringLiteral("{:".to_string()),
            Valued::Column,
            Valued::StringLiteral("".to_string()),
        ]),
    )
}

#[test]
fn should_ignore_escaped_double_quotes() {
    run_test_case_with(
        "{\"ab\\\"c\":\"\"",
        Vec::from([
            Valued::OpenBrace,
            Valued::StringLiteral("ab\"c".to_string()),
            Valued::Column,
            Valued::StringLiteral("".to_string()),
        ]),
    )
}

#[test]
fn should_include_escape_char_when_itself_escaped() {
    run_test_case_with(
        "{\"ab\\\\c\":\"\"",
        Vec::from([
            Valued::OpenBrace,
            Valued::StringLiteral("ab\\c".to_string()),
            Valued::Column,
            Valued::StringLiteral("".to_string()),
        ]),
    )
}

#[test]
fn shuold_not_allow_escaping_unallowed_chars() {
    run_expected_error_test_case_with(
        "{\"ab\\c\":\"\"",
        JSONError::new(format!("Unexpected 'c'"), 1),
    )
}

#[test]
fn should_lex_comma_correctly() {
    run_test_case_with(
        "{\"key\":\"val\",\"key2\":\"val\"}",
        Vec::from([
            Valued::OpenBrace,
            Valued::StringLiteral("key".to_string()),
            Valued::Column,
            Valued::StringLiteral("val".to_string()),
            Valued::Comma,
            Valued::StringLiteral("key2".to_string()),
            Valued::Column,
            Valued::StringLiteral("val".to_string()),
            Valued::ClosedBrace,
        ]),
    )
}

#[test]
fn should_ignore_spaces_outside_string_literals() {
    run_test_case_with(
        "{  \"key\":\"val\",\n  \"key2\":\"val\"}",
        Vec::from([
            Valued::OpenBrace,
            Valued::StringLiteral("key".to_string()),
            Valued::Column,
            Valued::StringLiteral("val".to_string()),
            Valued::Comma,
            Valued::NewLine,
            Valued::StringLiteral("key2".to_string()),
            Valued::Column,
            Valued::StringLiteral("val".to_string()),
            Valued::ClosedBrace,
        ]),
    )
}

#[test]
fn should_consider_spaces_in_string_literals() {
    run_test_case_with(
        "{  \"key\":\"va l\",\n  \"ke y2\":\"val\"}",
        Vec::from([
            Valued::OpenBrace,
            Valued::StringLiteral("key".to_string()),
            Valued::Column,
            Valued::StringLiteral("va l".to_string()),
            Valued::Comma,
            Valued::NewLine,
            Valued::StringLiteral("ke y2".to_string()),
            Valued::Column,
            Valued::StringLiteral("val".to_string()),
            Valued::ClosedBrace,
        ]),
    )
}

#[test]
fn should_lex_a_number() {
    run_test_case_with(
        "{ \"key\": 123456789}",
        Vec::from([
            Valued::OpenBrace,
            Valued::StringLiteral("key".to_string()),
            Valued::Column,
            Valued::Number(123456789.),
            Valued::ClosedBrace,
        ]),
    )
}

#[test]
fn should_lex_a_number_before_new_line() {
    run_test_case_with(
        "{ \"key\": 123456789\n}",
        Vec::from([
            Valued::OpenBrace,
            Valued::StringLiteral("key".to_string()),
            Valued::Column,
            Valued::Number(123456789.),
            Valued::NewLine,
            Valued::ClosedBrace,
        ]),
    )
}

#[test]
fn should_lex_a_number_before_comma() {
    run_test_case_with(
        "{ \"key\": 1234567890, \"key2\":\"\"}",
        Vec::from([
            Valued::OpenBrace,
            Valued::StringLiteral("key".to_string()),
            Valued::Column,
            Valued::Number(1234567890.),
            Valued::Comma,
            Valued::StringLiteral("key2".to_string()),
            Valued::Column,
            Valued::StringLiteral("".to_string()),
            Valued::ClosedBrace,
        ]),
    )
}

#[test]
fn should_lex_true() {
    run_test_case_with(
        "{ \"key\": true}",
        Vec::from([
            Valued::OpenBrace,
            Valued::StringLiteral("key".to_string()),
            Valued::Column,
            Valued::BoolTrue,
            Valued::ClosedBrace,
        ]),
    )
}

#[test]
fn should_lex_true_before_new_line() {
    run_test_case_with(
        "{ \"key\": true\n}",
        Vec::from([
            Valued::OpenBrace,
            Valued::StringLiteral("key".to_string()),
            Valued::Column,
            Valued::BoolTrue,
            Valued::NewLine,
            Valued::ClosedBrace,
        ]),
    )
}

#[test]
fn should_lex_true_before_comma() {
    run_test_case_with(
        "{ \"key\": true, \"key2\":\"\"}",
        Vec::from([
            Valued::OpenBrace,
            Valued::StringLiteral("key".to_string()),
            Valued::Column,
            Valued::BoolTrue,
            Valued::Comma,
            Valued::StringLiteral("key2".to_string()),
            Valued::Column,
            Valued::StringLiteral("".to_string()),
            Valued::ClosedBrace,
        ]),
    )
}

#[test]
fn should_lex_false() {
    run_test_case_with(
        "{ \"key\": false}",
        Vec::from([
            Valued::OpenBrace,
            Valued::StringLiteral("key".to_string()),
            Valued::Column,
            Valued::BoolFalse,
            Valued::ClosedBrace,
        ]),
    )
}

#[test]
fn should_not_lex_misspelled_false() {
    run_expected_error_test_case_with(
        "{ \"key\": fsale}",
        JSONError::new(format!("Unexpected 's'"), 1),
    )
}

#[test]
fn should_lex_false_before_comma() {
    run_test_case_with(
        "{ \"key\": false, \"key2\":\"\"}",
        Vec::from([
            Valued::OpenBrace,
            Valued::StringLiteral("key".to_string()),
            Valued::Column,
            Valued::BoolFalse,
            Valued::Comma,
            Valued::StringLiteral("key2".to_string()),
            Valued::Column,
            Valued::StringLiteral("".to_string()),
            Valued::ClosedBrace,
        ]),
    )
}

#[test]
fn should_not_lex_misspelled_true() {
    run_expected_error_test_case_with(
        "{ \"key\": ture}",
        JSONError::new(format!("Unexpected 'u'"), 1),
    )
}

#[test]
fn should_lex_null() {
    run_test_case_with(
        "{ \"key\": null}",
        Vec::from([
            Valued::OpenBrace,
            Valued::StringLiteral("key".to_string()),
            Valued::Column,
            Valued::Null,
            Valued::ClosedBrace,
        ]),
    )
}

#[test]
fn should_lex_empty_obj_val() {
    run_test_case_with(
        "{ \"key\": {}}",
        Vec::from([
            Valued::OpenBrace,
            Valued::StringLiteral("key".to_string()),
            Valued::Column,
            Valued::OpenBrace,
            Valued::ClosedBrace,
            Valued::ClosedBrace,
        ]),
    )
}

#[test]
fn should_lex_empty_array_val() {
    run_test_case_with(
        "{ \"key\": []}",
        Vec::from([
            Valued::OpenBrace,
            Valued::StringLiteral("key".to_string()),
            Valued::Column,
            Valued::OpenBracket,
            Valued::ClosedBracket,
            Valued::ClosedBrace,
        ]),
    )
}

#[test]
fn should_lex_array_with_inner_value() {
    run_test_case_with(
        "{ \"key\": [\"val\"]}",
        Vec::from([
            Valued::OpenBrace,
            Valued::StringLiteral("key".to_string()),
            Valued::Column,
            Valued::OpenBracket,
            Valued::StringLiteral("val".to_string()),
            Valued::ClosedBracket,
            Valued::ClosedBrace,
        ]),
    )
}

#[test]
fn should_lex_obj_with_inner_value() {
    run_test_case_with(
        "{ \"key\": {\"inner_key\":\"inner_val\"}}",
        Vec::from([
            Valued::OpenBrace,
            Valued::StringLiteral("key".to_string()),
            Valued::Column,
            Valued::OpenBrace,
            Valued::StringLiteral("inner_key".to_string()),
            Valued::Column,
            Valued::StringLiteral("inner_val".to_string()),
            Valued::ClosedBrace,
            Valued::ClosedBrace,
        ]),
    )
}

#[test]
fn should_lex_obj_with_inner_value_new_line() {
    run_test_case_with(
        "{ \"key\": {\n\"inner_key\":\"inner_val\"\n}\n}",
        Vec::from([
            Valued::OpenBrace,
            Valued::StringLiteral("key".to_string()),
            Valued::Column,
            Valued::OpenBrace,
            Valued::NewLine,
            Valued::StringLiteral("inner_key".to_string()),
            Valued::Column,
            Valued::StringLiteral("inner_val".to_string()),
            Valued::NewLine,
            Valued::ClosedBrace,
            Valued::NewLine,
            Valued::ClosedBrace,
        ]),
    )
}

#[test]
fn should_lex_error_when_null_interrupted_by_space() {
    run_expected_error_test_case_with(
        "{ \"key\": nu ll}",
        JSONError::new(format!("Unexpected ' '"), 1),
    )
}

#[test]
fn should_lex_error_when_true_interrupted_by_space() {
    run_expected_error_test_case_with(
        "{ \"key\": t  rue}",
        JSONError::new(format!("Unexpected ' '"), 1),
    )
}

#[test]
fn should_lex_error_when_number_starts_with_zero() {
    run_expected_error_test_case_with(
        "{ \"key\": 011}",
        JSONError::new(format!("Unexpected '1'"), 1),
    )
}

#[test]
fn should_lex_correctly_when_number_is_zero() {
    run_test_case_with(
        "{ \"key\": 0}",
        Vec::from([
            Valued::OpenBrace,
            Valued::StringLiteral("key".to_string()),
            Valued::Column,
            Valued::Number(0.),
            Valued::ClosedBrace,
        ]),
    )
}

#[test]
fn should_lex_correctly_decimal_number() {
    run_test_case_with(
        "{ \"key\": 1.5}",
        Vec::from([
            Valued::OpenBrace,
            Valued::StringLiteral("key".to_string()),
            Valued::Column,
            Valued::Number(1.5),
            Valued::ClosedBrace,
        ]),
    )
}

#[test]
fn should_lex_correctly_decimal_number_with_leading_zero() {
    run_test_case_with(
        "{ \"key\": 0.2}",
        Vec::from([
            Valued::OpenBrace,
            Valued::StringLiteral("key".to_string()),
            Valued::Column,
            Valued::Number(0.2),
            Valued::ClosedBrace,
        ]),
    )
}

#[test]
fn should_lex_error_with_decimal_with_multiple_points() {
    run_expected_error_test_case_with(
        "{ \"key\": 0.1.1}",
        JSONError::new(format!("Unexpected '.'"), 1),
    )
}

#[test]
fn should_lex_error_with_decimal_with_multiple_consecutive_points() {
    run_expected_error_test_case_with(
        "{ \"key\": 0..1}",
        JSONError::new(format!("Unexpected '.'"), 1),
    )
}

#[test]
fn should_lex_error_with_zero_followed_by_null() {
    run_expected_error_test_case_with(
        "{ \"key\": 0null}",
        JSONError::new(format!("Unexpected 'n'"), 1),
    )
}

#[test]
fn should_lex_error_with_zero_followed_by_true() {
    run_expected_error_test_case_with(
        "{ \"key\": 0true}",
        JSONError::new(format!("Unexpected 't'"), 1),
    )
}

#[test]
fn should_lex_error_with_zero_followed_by_false() {
    run_expected_error_test_case_with(
        "{ \"key\": 0false}",
        JSONError::new(format!("Unexpected 'f'"), 1),
    )
}

#[test]
fn should_lex_error_with_zero_followed_by_open_bracket() {
    run_expected_error_test_case_with(
        "{ \"key\": 0[}",
        JSONError::new(format!("Unexpected '['"), 1),
    )
}

#[test]
fn should_lex_correctly_negative_number_leading_zero() {
    run_test_case_with(
        "{ \"key\": -0.2}",
        Vec::from([
            Valued::OpenBrace,
            Valued::StringLiteral("key".to_string()),
            Valued::Column,
            Valued::Number(-0.2),
            Valued::ClosedBrace,
        ]),
    )
}

#[test]
fn should_lex_correctly_decimal_space_bracket() {
    run_test_case_with(
        "{ \"key\": -0.2 }",
        Vec::from([
            Valued::OpenBrace,
            Valued::StringLiteral("key".to_string()),
            Valued::Column,
            Valued::Number(-0.2),
            Valued::ClosedBrace,
        ]),
    )
}

#[test]
fn should_lex_correctly_integer_spaces_bracket() {
    run_test_case_with(
        "{ \"key\": 5  }",
        Vec::from([
            Valued::OpenBrace,
            Valued::StringLiteral("key".to_string()),
            Valued::Column,
            Valued::Number(5.),
            Valued::ClosedBrace,
        ]),
    )
}

#[test]
fn should_lex_correctly_exponential_spaces_bracket() {
    run_test_case_with(
        "{ \"key\": 5e10  }",
        Vec::from([
            Valued::OpenBrace,
            Valued::StringLiteral("key".to_string()),
            Valued::Column,
            Valued::Number(5e10),
            Valued::ClosedBrace,
        ]),
    )
}

#[test]
fn should_lex_correctly_negative_number() {
    run_test_case_with(
        "{ \"key\": -1.2}",
        Vec::from([
            Valued::OpenBrace,
            Valued::StringLiteral("key".to_string()),
            Valued::Column,
            Valued::Number(-1.2),
            Valued::ClosedBrace,
        ]),
    )
}

#[test]
fn should_lex_correctly_whitespaces_before_column() {
    run_test_case_with(
        "{ \"key\"  : -1.2}",
        Vec::from([
            Valued::OpenBrace,
            Valued::StringLiteral("key".to_string()),
            Valued::Column,
            Valued::Number(-1.2),
            Valued::ClosedBrace,
        ]),
    )
}

#[test]
fn should_lex_correctly_plus_number() {
    run_test_case_with(
        "{ \"key\": +1.2}",
        Vec::from([
            Valued::OpenBrace,
            Valued::StringLiteral("key".to_string()),
            Valued::Column,
            Valued::Number(1.2),
            Valued::ClosedBrace,
        ]),
    )
}

#[test]
fn should_lex_correctly_plus_number_before_zero() {
    run_test_case_with(
        "{ \"key\": +0}",
        Vec::from([
            Valued::OpenBrace,
            Valued::StringLiteral("key".to_string()),
            Valued::Column,
            Valued::Number(0.),
            Valued::ClosedBrace,
        ]),
    )
}

#[test]
fn should_lex_correctly_exponential_e_after_zero() {
    run_test_case_with(
        "{ \"key\": 0e0}",
        Vec::from([
            Valued::OpenBrace,
            Valued::StringLiteral("key".to_string()),
            Valued::Column,
            Valued::Number(0.),
            Valued::ClosedBrace,
        ]),
    )
}

#[test]
fn should_lex_correctly_exponential_capital_e_after_zero() {
    run_test_case_with(
        "{ \"key\": 0E0}",
        Vec::from([
            Valued::OpenBrace,
            Valued::StringLiteral("key".to_string()),
            Valued::Column,
            Valued::Number(0.),
            Valued::ClosedBrace,
        ]),
    )
}

#[test]
fn should_lex_correctly_exponential_e_after_int() {
    run_test_case_with(
        "{ \"key\": 1e0}",
        Vec::from([
            Valued::OpenBrace,
            Valued::StringLiteral("key".to_string()),
            Valued::Column,
            Valued::Number(1e0),
            Valued::ClosedBrace,
        ]),
    )
}

#[test]
fn should_lex_correctly_exponential_e_after_decimal() {
    run_test_case_with(
        "{ \"key\": 1.2e0}",
        Vec::from([
            Valued::OpenBrace,
            Valued::StringLiteral("key".to_string()),
            Valued::Column,
            Valued::Number(1.2e0),
            Valued::ClosedBrace,
        ]),
    )
}

#[test]
fn should_lex_correctly_exponential_non_zero_exp() {
    run_test_case_with(
        "{ \"key\": 1.2E2}",
        Vec::from([
            Valued::OpenBrace,
            Valued::StringLiteral("key".to_string()),
            Valued::Column,
            Valued::Number(1.2e2),
            Valued::ClosedBrace,
        ]),
    )
}

#[test]
fn should_lex_correctly_exponential_with_plus() {
    run_test_case_with(
        "{ \"key\": 1.2e+2}",
        Vec::from([
            Valued::OpenBrace,
            Valued::StringLiteral("key".to_string()),
            Valued::Column,
            Valued::Number(1.2e2),
            Valued::ClosedBrace,
        ]),
    )
}

#[test]
fn should_lex_correctly_exponential_with_minus() {
    run_test_case_with(
        "{ \"key\": 1.2e-10}",
        Vec::from([
            Valued::OpenBrace,
            Valued::StringLiteral("key".to_string()),
            Valued::Column,
            Valued::Number(1.2e-10),
            Valued::ClosedBrace,
        ]),
    )
}

#[test]
fn should_lex_error_exponential_decimal_exp_with_sign() {
    run_expected_error_test_case_with(
        "{ \"key\": 1.2E+1.2}",
        JSONError::new("Unexpected '.'".to_string(), 1),
    )
}

#[test]
fn should_lex_error_exponential_decimal_exp_leading_zero_with_sign() {
    run_expected_error_test_case_with(
        "{ \"key\": 1.2E-0.2}",
        JSONError::new("Unexpected '.'".to_string(), 1),
    )
}

#[test]
fn should_lex_error_exponential_decimal_exp_leading_zero_double_zero() {
    run_expected_error_test_case_with(
        "{ \"key\": 1.2E-00}",
        JSONError::new("Unexpected '0'".to_string(), 1),
    )
}

#[test]
fn should_lex_error_exponential_decimal_exp_leading_zero() {
    run_expected_error_test_case_with(
        "{ \"key\": 1.2E0.2}",
        JSONError::new("Unexpected '.'".to_string(), 1),
    )
}

#[test]
fn should_lex_error_exponential_decimal_exp() {
    run_expected_error_test_case_with(
        "{ \"key\": 1.2e2.4}",
        JSONError::new("Unexpected '.'".to_string(), 1),
    )
}

#[test]
fn should_lex_error_with_repeated_exp() {
    run_expected_error_test_case_with(
        "{ \"key\": 1e0e0}",
        JSONError::new("Unexpected 'e'".to_string(), 1),
    )
}

#[test]
fn should_lex_error_with_plus_followed_by_brace() {
    run_expected_error_test_case_with(
        "{ \"key\": +}",
        JSONError::new("Unexpected '}'".to_string(), 1),
    )
}

#[test]
fn should_lex_error_with_minus_followed_by_brace() {
    run_expected_error_test_case_with(
        "{ \"key\": -}",
        JSONError::new("Unexpected '}'".to_string(), 1),
    )
}
#[test]
fn should_lex_error_with_plus_followed_by_comma() {
    run_expected_error_test_case_with(
        "{ \"key\": +,\"\":0}",
        JSONError::new("Unexpected ','".to_string(), 1),
    )
}

#[test]
fn should_lex_error_with_minus_followed_by_newline() {
    run_expected_error_test_case_with(
        "{ \"key\": -\n}",
        JSONError::new("Unexpected '\n'".to_string(), 1),
    )
}
#[test]
fn should_lex_error_with_plus_followed_by_newline() {
    run_expected_error_test_case_with(
        "{ \"key\": +\n}",
        JSONError::new("Unexpected '\n'".to_string(), 1),
    )
}

#[test]
fn should_lex_error_with_minus_followed_by_comma() {
    run_expected_error_test_case_with(
        "{ \"key\": -,\"\":0}",
        JSONError::new("Unexpected ','".to_string(), 1),
    )
}

#[test]
fn should_lex_error_with_e_followed_by_brace() {
    run_expected_error_test_case_with(
        "{ \"key\": 0e}",
        JSONError::new("Unexpected '}'".to_string(), 1),
    )
}

#[test]
fn should_lex_error_with_capital_e_followed_by_brace() {
    run_expected_error_test_case_with(
        "{ \"key\": 0E}",
        JSONError::new("Unexpected '}'".to_string(), 1),
    )
}

#[test]
fn should_lex_error_with_point_followed_by_brace() {
    run_expected_error_test_case_with(
        "{ \"key\": 0.}",
        JSONError::new("Unexpected '}'".to_string(), 1),
    )
}

#[test]
fn should_lex_error_with_point_followed_by_comma() {
    run_expected_error_test_case_with(
        "{ \"key\": 0.,\"\":0}",
        JSONError::new("Unexpected ','".to_string(), 1),
    )
}

#[test]
fn should_lex_error_with_point_followed_by_return() {
    run_expected_error_test_case_with(
        "{ \"key\": 0.\n,\"\":0}",
        JSONError::new("Unexpected '\n'".to_string(), 1),
    )
}

#[test]
fn should_lex_error_with_exp_followed_by_comma() {
    run_expected_error_test_case_with(
        "{ \"key\": 0e,\"\":0}",
        JSONError::new("Unexpected ','".to_string(), 1),
    )
}

#[test]
fn should_lex_error_with_exp_followed_by_return() {
    run_expected_error_test_case_with(
        "{ \"key\": 0e\n,\"\":0}",
        JSONError::new("Unexpected '\n'".to_string(), 1),
    )
}

#[test]
fn should_lex_correctly_array_with_zero() {
    run_test_case_with(
        "[0]",
        Vec::from([Valued::OpenBracket, Valued::Number(0.), Valued::ClosedBracket]),
    )
}

#[test]
fn should_lex_correctly_array_with_one() {
    run_test_case_with(
        "[1]",
        Vec::from([Valued::OpenBracket, Valued::Number(1.), Valued::ClosedBracket]),
    )
}

#[test]
fn should_lex_correctly_array_with_decimal() {
    run_test_case_with(
        "[1,2.6]",
        Vec::from([
            Valued::OpenBracket,
            Valued::Number(1.),
            Valued::Comma,
            Valued::Number(2.6),
            Valued::ClosedBracket,
        ]),
    )
}

#[test]
fn should_lex_correctly_array_with_exp() {
    run_test_case_with(
        "[1,2.6e9]",
        Vec::from([
            Valued::OpenBracket,
            Valued::Number(1.),
            Valued::Comma,
            Valued::Number(2.6e9),
            Valued::ClosedBracket,
        ]),
    )
}

#[test]
fn should_lex_correctly_array_with_zero_exp() {
    run_test_case_with(
        "[1,2.6e0]",
        Vec::from([
            Valued::OpenBracket,
            Valued::Number(1.0),
            Valued::Comma,
            Valued::Number(2.6e0),
            Valued::ClosedBracket,
        ]),
    )
}

#[test]
fn should_lex_correctly_very_big_number_as_infinity() {
    run_test_case_with(
        "[1,2.6e1111]",
        Vec::from([
            Valued::OpenBracket,
            Valued::Number(1.0),
            Valued::Comma,
            Valued::Number(f64::INFINITY),
            Valued::ClosedBracket,
        ]),
    )
}

#[test]
fn should_lex_correctly_very_big_negative_number_as_neg_infinity() {
    run_test_case_with(
        "[1,-2.6e1111]",
        Vec::from([
            Valued::OpenBracket,
            Valued::Number(1.0),
            Valued::Comma,
            Valued::Number(f64::NEG_INFINITY),
            Valued::ClosedBracket,
        ]),
    )
}

#[test]
fn should_error_on_unescaped_tab() {
    run_expected_error_test_case_with(
        "[\"\t\"]",
        JSONError::new("Unexpected <tab>".to_string(), 1),
    )
}

#[test]
fn should_lex_correctly_string_with_escape_b() {
    run_test_case_with(
        "[\"\\b\"]",
        Vec::from([
            Valued::OpenBracket,
            Valued::StringLiteral("\\b".to_string()),
            Valued::ClosedBracket,
        ]),
    )
}

#[test]
fn should_lex_correctly_string_with_escape_f() {
    run_test_case_with(
        "[\"\\f\"]",
        Vec::from([
            Valued::OpenBracket,
            Valued::StringLiteral("\\f".to_string()),
            Valued::ClosedBracket,
        ]),
    )
}

#[test]
fn should_lex_correctly_string_with_escape_n() {
    run_test_case_with(
        "[\"\\n\"]",
        Vec::from([
            Valued::OpenBracket,
            Valued::StringLiteral("\\n".to_string()),
            Valued::ClosedBracket,
        ]),
    )
}

#[test]
fn should_lex_correctly_string_with_escape_r() {
    run_test_case_with(
        "[\"\\r\"]",
        Vec::from([
            Valued::OpenBracket,
            Valued::StringLiteral("\\r".to_string()),
            Valued::ClosedBracket,
        ]),
    )
}

#[test]
fn should_lex_correctly_string_with_escape_t() {
    run_test_case_with(
        "[\"\\t\"]",
        Vec::from([
            Valued::OpenBracket,
            Valued::StringLiteral("\\t".to_string()),
            Valued::ClosedBracket,
        ]),
    )
}

#[test]
fn should_lex_correctly_string_with_escape_slash() {
    run_test_case_with(
        "[\"\\/\"]",
        Vec::from([
            Valued::OpenBracket,
            Valued::StringLiteral("\\/".to_string()),
            Valued::ClosedBracket,
        ]),
    )
}

#[test]
fn should_lex_hex() {
    run_test_case_with(
        "[\"\\u0123\"]",
        Vec::from([
            Valued::OpenBracket,
            Valued::StringLiteral("\\u0123".to_string()),
            Valued::ClosedBracket,
        ]),
    )
}

#[test]
fn should_lex_hex_letters() {
    run_test_case_with(
        "[\"\\u12aB\"]",
        Vec::from([
            Valued::OpenBracket,
            Valued::StringLiteral("\\u12aB".to_string()),
            Valued::ClosedBracket,
        ]),
    )
}

#[test]
fn should_error_on_invalid_hex() {
    run_expected_error_test_case_with(
        "[\"\\u123z\"]",
        JSONError::new("Unexpected 'z'".to_string(), 1),
    )
}

#[test]
fn should_error_on_invalid_hex_capital() {
    run_expected_error_test_case_with(
        "[\"\\u123Z\"]",
        JSONError::new("Unexpected 'Z'".to_string(), 1),
    )
}
