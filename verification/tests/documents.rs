use json_validator::check_valid;
use json_validator::lexer::lex;
use json_validator::token::Token;

fn message(input: &str) -> String {
    check_valid(input).unwrap_err().to_string()
}

fn number_values(input: &str) -> Vec<f64> {
    let mut values = Vec::new();
    for token in lex(input).unwrap() {
        if let Token::Number(text) = token {
            values.push(text.parse().unwrap());
        }
    }
    values
}

#[test]
fn empty_object_is_valid() {
    assert_eq!(check_valid("{}"), Ok(()));
}

#[test]
fn open_brace_alone_is_cut_short() {
    assert_eq!(message("{"), "Unexpected EOF: at line 1");
}

#[test]
fn closed_brace_alone_is_unexpected() {
    assert_eq!(message("}"), "Unexpected '}': at line 1");
}

#[test]
fn number_with_negative_exponent_is_valid() {
    let input = "{\"key\": 1.2e-10}";
    assert_eq!(check_valid(input), Ok(()));
    assert_eq!(number_values(input), vec![1.2e-10]);
}

#[test]
fn number_beyond_the_range_is_valid_and_infinite() {
    let input = "[1,2.6e1111]";
    assert_eq!(check_valid(input), Ok(()));
    assert_eq!(number_values(input), vec![1.0, f64::INFINITY]);
}

#[test]
fn negative_number_beyond_the_range_is_negative_infinity() {
    let input = "[-2.6e1111, -1e400, 1e400]";
    assert_eq!(check_valid(input), Ok(()));
    assert_eq!(
        number_values(input),
        vec![f64::NEG_INFINITY, f64::NEG_INFINITY, f64::INFINITY]
    );
}

#[test]
fn number_of_many_digits_is_one_token() {
    let digits = "9".repeat(400);
    let input = format!("[{}]", digits);
    assert_eq!(
        lex(&input).unwrap(),
        vec![
            Token::OpenBracket,
            Token::Number(digits),
            Token::ClosedBracket
        ]
    );
    assert_eq!(number_values(&input), vec![f64::INFINITY]);
    assert_eq!(check_valid(&input), Ok(()));
}

#[test]
fn second_decimal_point_is_unexpected() {
    assert_eq!(message("{ \"key\": 0.1.1}"), "Unexpected '.': at line 1");
}

#[test]
fn trailing_comma_in_array_is_rejected() {
    assert_eq!(message("[\"hello\",]"), "Unexpected ']': at line 1");
    assert_eq!(message("[\"a\",]"), "Unexpected ']': at line 1");
    assert_eq!(message("[1,\n]"), "Unexpected ']': at line 2");
}

#[test]
fn trailing_comma_in_object_is_rejected() {
    assert_eq!(message("{\"a\":\"b\",}"), "Unexpected '}': at line 1");
    assert_eq!(message("{\"a\":{\"b\":[]},\n\n}"), "Unexpected '}': at line 3");
}

#[test]
fn unclosed_containers_are_cut_short() {
    for input in [
        "[",
        "{",
        "{\"a\":",
        "{\"a\"",
        "{\"a\":[1,2",
        "[[[]]",
        "[{\"a\":{}}",
        "{\"a\":1,",
        "[1,",
        "{\"a\":tru",
        "[\"abc",
    ] {
        assert_eq!(message(input), "Unexpected EOF: at line 1", "{}", input);
    }
    assert_eq!(message("{\n\"a\": [\n"), "Unexpected EOF: at line 3");
}

#[test]
fn empty_text_is_cut_short() {
    assert_eq!(message(""), "Unexpected EOF: at line 1");
    assert_eq!(message("  \n "), "Unexpected EOF: at line 2");
}

#[test]
fn illegal_escape_is_found_before_any_structure() {
    assert_eq!(message("{\"ab\\c\":\"\"}"), "Unexpected 'c': at line 1");
    assert_eq!(message("}]{\"\\q\""), "Unexpected 'q': at line 1");
    assert_eq!(message("[\"\\u12g4\"]"), "Unexpected 'g': at line 1");
    assert_eq!(message("[\"\\\n\"]"), "Unexpected '\n': at line 1");
}

#[test]
fn nothing_but_a_point_an_exponent_or_an_end_follows_a_leading_zero() {
    assert_eq!(message("[011]"), "Unexpected '1': at line 1");
    assert_eq!(message("[0true]"), "Unexpected 't': at line 1");
    assert_eq!(message("[0null]"), "Unexpected 'n': at line 1");
    assert_eq!(message("[0[]"), "Unexpected '[': at line 1");
    assert_eq!(message("[00]"), "Unexpected '0': at line 1");
    assert_eq!(message("[-01]"), "Unexpected '1': at line 1");
    assert_eq!(message("[0:]"), "Unexpected ':': at line 1");
    assert_eq!(message("011"), "Unexpected '1': at line 1");
    assert_eq!(check_valid("[0, 0.5, 0e1, 0E1, -0]"), Ok(()));
}

#[test]
fn exponent_that_begins_with_zero_has_one_digit() {
    assert_eq!(check_valid("[1e0, 1e-0, 1E+0]"), Ok(()));
    assert_eq!(message("[1e00]"), "Unexpected '0': at line 1");
    assert_eq!(message("[1e-02]"), "Unexpected '2': at line 1");
    assert_eq!(check_valid("[1e20, 1e-200]"), Ok(()));
}

#[test]
fn nested_documents_are_valid() {
    for input in [
        "[]",
        "[[]]",
        "[{}]",
        "[{},{}]",
        "[[],[]]",
        "{\"a\":[]}",
        "{\"a\":[],\"b\":1}",
        "{\"a\":{},\"b\":{\"c\":[{}]}}",
        "[[],{},[{\"a\":[1,2,{\"b\":null}]}]]",
        "[1,[2,[3,[4,[5]]]],6]",
        "{\"a\":[1,{\"b\":[true,false,null,\"x\"]},-2.5e+3],\"c\":\"d\"}",
        " [ 1 , 2 ] ",
        "\n{\n  \"a\" : [\n    1,\n    2\n  ]\n}\n\n",
        "[\"\\\"\\\\\\/\\b\\f\\n\\r\\t\\u00e9\"]",
        "[0, -0, 1, -1, 10, 0.5, -0.5, 12.050, 1e5, 1E5, 1e+5, 1e-5, 1.5e10, 0e0, 0.0e-0]",
        "[+1, +0.5]",
        "[\"a\nb\"]",
    ] {
        assert_eq!(check_valid(input), Ok(()), "{}", input);
    }
}

#[test]
fn mismatched_closers_are_unexpected() {
    assert_eq!(message("[}"), "Unexpected '}': at line 1");
    assert_eq!(message("{]"), "Unexpected ']': at line 1");
    assert_eq!(message("[1}"), "Unexpected '}': at line 1");
    assert_eq!(message("{\"a\":1]"), "Unexpected ']': at line 1");
    assert_eq!(message("{\"a\":[1}}"), "Unexpected '}': at line 1");
    assert_eq!(message("[{\"a\":1]]"), "Unexpected ']': at line 1");
    assert_eq!(message("]"), "Unexpected ']': at line 1");
}

#[test]
fn content_after_the_root_is_unexpected() {
    assert_eq!(message("{}{}"), "Unexpected '{': at line 1");
    assert_eq!(message("[]\n[]"), "Unexpected '[': at line 2");
    assert_eq!(message("{} ,"), "Unexpected ',': at line 1");
    assert_eq!(message("{}1"), "Unexpected '<number>': at line 1");
    assert_eq!(message("[]\"a\""), "Unexpected '<string literal>': at line 1");
    assert_eq!(message("[]null"), "Unexpected '<null>': at line 1");
    assert_eq!(check_valid("{}\n\n  \n"), Ok(()));
}

#[test]
fn scalar_at_the_root_is_unexpected() {
    assert_eq!(message("1"), "Unexpected '<number>': at line 1");
    assert_eq!(message("\"a\""), "Unexpected '<string literal>': at line 1");
    assert_eq!(message("true"), "Unexpected '<boolean>': at line 1");
    assert_eq!(message("false"), "Unexpected '<boolean>': at line 1");
    assert_eq!(message("null"), "Unexpected '<null>': at line 1");
    assert_eq!(message(":"), "Unexpected ':': at line 1");
    assert_eq!(message(","), "Unexpected ',': at line 1");
}

#[test]
fn object_grammar_is_enforced() {
    assert_eq!(message("{1 :2}"), "Unexpected '<number>': at line 1");
    assert_eq!(message("{1:2}"), "Unexpected ':': at line 1");
    assert_eq!(message("{true:2}"), "Unexpected '<boolean>': at line 1");
    assert_eq!(message("{\"a\" 1}"), "Unexpected '<number>': at line 1");
    assert_eq!(message("{\"a\":}"), "Unexpected '}': at line 1");
    assert_eq!(message("{\"a\"::1}"), "Unexpected ':': at line 1");
    assert_eq!(message("{\"a\":1 \"b\":2}"), "Unexpected '<string literal>': at line 1");
    assert_eq!(message("{\"a\":1,,\"b\":2}"), "Unexpected ',': at line 1");
    assert_eq!(message("{,}"), "Unexpected ',': at line 1");
    assert_eq!(message("{\"a\":1,[]}"), "Unexpected '[': at line 1");
}

#[test]
fn array_grammar_is_enforced() {
    assert_eq!(message("[1 2]"), "Unexpected '<number>': at line 1");
    assert_eq!(message("[,1]"), "Unexpected ',': at line 1");
    assert_eq!(message("[1,,2]"), "Unexpected ',': at line 1");
    assert_eq!(message("[\"a\":1]"), "Unexpected ':': at line 1");
    assert_eq!(message("[[] []]"), "Unexpected '[': at line 1");
    assert_eq!(message("[{} {}]"), "Unexpected '{': at line 1");
}

#[test]
fn lines_are_counted_from_one() {
    assert_eq!(message("{\n  x"), "Unexpected 'x': at line 2");
    assert_eq!(message("{\n\"a\":1,\n}"), "Unexpected '}': at line 3");
    assert_eq!(message("{\n"), "Unexpected EOF: at line 2");
    assert_eq!(message("\n\n\n\n\n\n\n\n\n\n\n]"), "Unexpected ']': at line 12");
    assert_eq!(message("[\"a\nb\" x"), "Unexpected 'x': at line 2");
    assert_eq!(message("[1\n,2\n,\t]"), "Unexpected '\t': at line 3");
}

#[test]
fn characters_outside_the_grammar_are_unexpected() {
    assert_eq!(message("{a"), "Unexpected 'a': at line 1");
    assert_eq!(message("[\t]"), "Unexpected '\t': at line 1");
    assert_eq!(message("[\r\n]"), "Unexpected '\r': at line 1");
    assert_eq!(message("[é]"), "Unexpected 'é': at line 1");
    assert_eq!(message("['a']"), "Unexpected ''': at line 1");
    assert_eq!(message("[\"\t\"]"), "Unexpected <tab>: at line 1");
    assert_eq!(message("[tRue]"), "Unexpected 'R': at line 1");
    assert_eq!(message("[nul]"), "Unexpected ']': at line 1");
    assert_eq!(message("[.5]"), "Unexpected '.': at line 1");
    assert_eq!(message("[1.e5]"), "Unexpected 'e': at line 1");
    assert_eq!(message("[1e+]"), "Unexpected ']': at line 1");
    assert_eq!(message("[--1]"), "Unexpected '-': at line 1");
    assert_eq!(message("[1-]"), "Unexpected '-': at line 1");
    assert_eq!(message("[1:]"), "Unexpected ':': at line 1");
    assert_eq!(message("[1\"a\"]"), "Unexpected '\"': at line 1");
}
