//! The tokens that the tokenizer hands to the validator.

use vstd::prelude::*;
use vstd::string::StringExecFns;

verus! {

/// A token as contracts speak of it. Literals carry their text as a sequence
/// of characters.
pub enum Lexeme {
    OpenBrace,
    ClosedBrace,
    OpenBracket,
    ClosedBracket,
    NewLine,
    Column,
    Comma,
    StringLiteral(Seq<char>),
    Number(Seq<char>),
    BoolTrue,
    BoolFalse,
    Null,
}

/// One lexical unit of a document.
///
/// A string literal carries its text with `\"` and `\\` resolved to the
/// character they stand for; the other escapes keep their backslash. A number
/// carries its literal in normal form: a leading `+` and a `+` in the
/// exponent are dropped and the exponent marker is a lower-case `e`.
#[derive(PartialEq, Eq, Clone, Debug)]
pub enum Token {
    OpenBrace,
    ClosedBrace,
    OpenBracket,
    ClosedBracket,
    NewLine,
    Column,
    Comma,
    StringLiteral(String),
    Number(String),
    BoolTrue,
    BoolFalse,
    Null,
}

impl View for Token {
    type V = Lexeme;

    open spec fn view(&self) -> Lexeme {
        match self {
            Token::OpenBrace => Lexeme::OpenBrace,
            Token::ClosedBrace => Lexeme::ClosedBrace,
            Token::OpenBracket => Lexeme::OpenBracket,
            Token::ClosedBracket => Lexeme::ClosedBracket,
            Token::NewLine => Lexeme::NewLine,
            Token::Column => Lexeme::Column,
            Token::Comma => Lexeme::Comma,
            Token::StringLiteral(text) => Lexeme::StringLiteral(text@),
            Token::Number(text) => Lexeme::Number(text@),
            Token::BoolTrue => Lexeme::BoolTrue,
            Token::BoolFalse => Lexeme::BoolFalse,
            Token::Null => Lexeme::Null,
        }
    }
}

/// The tokens of a vector, each by its view.
pub open spec fn lexemes(tokens: Seq<Token>) -> Seq<Lexeme> {
    Seq::new(tokens.len(), |i: int| tokens[i]@)
}

impl Lexeme {
    /// A string, a number, a boolean or null: a value that is no container.
    pub open spec fn is_scalar(self) -> bool {
        self is StringLiteral || self is Number || self is BoolTrue || self is BoolFalse
            || self is Null
    }

    /// How a diagnostic names the token, between single quotes: punctuation
    /// by its character, a literal by its category.
    pub open spec fn rendering(self) -> Seq<char> {
        match self {
            Lexeme::OpenBrace => "'{'"@,
            Lexeme::ClosedBrace => "'}'"@,
            Lexeme::OpenBracket => "'['"@,
            Lexeme::ClosedBracket => "']'"@,
            Lexeme::NewLine => "'\n'"@,
            Lexeme::Column => "':'"@,
            Lexeme::Comma => "','"@,
            Lexeme::StringLiteral(_) => "'<string literal>'"@,
            Lexeme::Number(_) => "'<number>'"@,
            Lexeme::BoolTrue => "'<boolean>'"@,
            Lexeme::BoolFalse => "'<boolean>'"@,
            Lexeme::Null => "'<null>'"@,
        }
    }
}

impl Token {
    /// The token's name in a diagnostic.
    pub fn to_string(&self) -> (s: String)
        ensures
            s@ == self@.rendering(),
    {
        match self {
            Token::OpenBrace => String::from_str("'{'"),
            Token::ClosedBrace => String::from_str("'}'"),
            Token::OpenBracket => String::from_str("'['"),
            Token::ClosedBracket => String::from_str("']'"),
            Token::NewLine => String::from_str("'\n'"),
            Token::Column => String::from_str("':'"),
            Token::Comma => String::from_str("','"),
            Token::StringLiteral(_) => String::from_str("'<string literal>'"),
            Token::Number(_) => String::from_str("'<number>'"),
            Token::BoolTrue => String::from_str("'<boolean>'"),
            Token::BoolFalse => String::from_str("'<boolean>'"),
            Token::Null => String::from_str("'<null>'"),
        }
    }

    /// Whether the token is a value that is no container.
    pub fn is_scalar(&self) -> (b: bool)
        ensures
            b == self@.is_scalar(),
    {
        match self {
            Token::StringLiteral(_) | Token::Number(_) | Token::BoolTrue | Token::BoolFalse
            | Token::Null => true,
            _ => false,
        }
    }
}

} // verus!
