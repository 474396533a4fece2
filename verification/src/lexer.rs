//! The tokenizer: a state machine over characters that enforces the lexical
//! grammar of strings, numbers and the three literal words.

use vstd::prelude::*;
use vstd::std_specs::iter::IteratorSpec;
use vstd::string::StringExecFns;
use crate::error::{following_line, next_line, Diagnostic, JSONError};
use crate::token::{lexemes, Lexeme, Token};

verus! {

/// How far a number has come.
#[derive(Debug, PartialEq, Eq, Clone, Copy, Structural)]
pub enum NumberState {
    /// A sign, and no digit yet.
    Sign,
    /// An exponent marker, and neither sign nor digit after it.
    Exp,
    /// A decimal point, and no digit after it.
    Point,
    /// The sign of the exponent, and no digit after it.
    ExpSign,
    /// An integer part that is the single digit `0`.
    LeadingZero,
    /// An integer part that starts with a digit other than `0`.
    Integer,
    /// At least one digit after the decimal point.
    Decimal,
    /// An exponent that is the single digit `0`.
    ExpLeadingZero,
    /// An exponent that starts with a digit other than `0`.
    ExpInteger,
}

impl NumberState {
    /// The states in which a number may end.
    pub open spec fn spec_is_final(self) -> bool {
        self is LeadingZero || self is Integer || self is Decimal || self is ExpLeadingZero
            || self is ExpInteger
    }

    #[verifier::when_used_as_spec(spec_is_final)]
    pub fn is_final(self) -> (b: bool)
        ensures
            b == self.spec_is_final(),
    {
        match self {
            Self::LeadingZero
            | Self::Integer
            | Self::Decimal
            | Self::ExpLeadingZero
            | Self::ExpInteger => true,
            _ => false,
        }
    }

    /// The final states of the exponent.
    pub open spec fn spec_is_exp(self) -> bool {
        self is ExpLeadingZero || self is ExpInteger
    }

    #[verifier::when_used_as_spec(spec_is_exp)]
    pub fn is_exp(self) -> (b: bool)
        ensures
            b == self.spec_is_exp(),
    {
        self == Self::ExpLeadingZero || self == Self::ExpInteger
    }

    /// The states after a single `0` that no digit may follow.
    pub open spec fn spec_is_leading_zero(self) -> bool {
        self is LeadingZero || self is ExpLeadingZero
    }

    #[verifier::when_used_as_spec(spec_is_leading_zero)]
    pub fn is_leading_zero(self) -> (b: bool)
        ensures
            b == self.spec_is_leading_zero(),
    {
        self == Self::LeadingZero || self == Self::ExpLeadingZero
    }

    /// How a number begins: the state that its first character leads to,
    /// or nothing where the character begins no number.
    pub open spec fn spec_start(c: char) -> Option<NumberState> {
        if c == '+' || c == '-' {
            Some(Self::Sign)
        } else if c == '0' {
            Some(Self::LeadingZero)
        } else if is_digit(c) {
            Some(Self::Integer)
        } else {
            None
        }
    }

    /// The executable form of [`NumberState::spec_start`].
    #[verifier::when_used_as_spec(spec_start)]
    pub fn start(c: char) -> (r: Option<NumberState>)
        ensures
            r == Self::spec_start(c),
    {
        if c == '0' {
            Some(Self::LeadingZero)
        } else if is_digit(c) {
            Some(Self::Integer)
        } else if c == '+' || c == '-' {
            Some(Self::Sign)
        } else {
            None
        }
    }

    /// The number grammar: the state that `c` leads to from `self`, or
    /// nothing where `c` may not stand here.
    pub open spec fn spec_next(self, c: char) -> Option<NumberState> {
        if is_digit(c) {
            match self {
                Self::Sign => Some(
                    if c == '0' {
                        Self::LeadingZero
                    } else {
                        Self::Integer
                    },
                ),
                Self::Exp | Self::ExpSign => Some(
                    if c == '0' {
                        Self::ExpLeadingZero
                    } else {
                        Self::ExpInteger
                    },
                ),
                Self::Point => Some(Self::Decimal),
                Self::LeadingZero | Self::ExpLeadingZero => None,
                Self::Integer | Self::Decimal | Self::ExpInteger => Some(self),
            }
        } else if c == '.' {
            if self is Integer || self is LeadingZero {
                Some(Self::Point)
            } else {
                None
            }
        } else if c == 'e' || c == 'E' {
            if self.is_final() && !self.is_exp() {
                Some(Self::Exp)
            } else {
                None
            }
        } else if c == '+' || c == '-' {
            if self is Exp {
                Some(Self::ExpSign)
            } else {
                None
            }
        } else {
            None
        }
    }

    /// The executable form of the number grammar.
    #[verifier::when_used_as_spec(spec_next)]
    pub fn next(self, c: char) -> (r: Option<NumberState>)
        ensures
            r == self.spec_next(c),
    {
        match self {
            Self::Sign => if c == '0' {
                Some(Self::LeadingZero)
            } else if is_digit(c) {
                Some(Self::Integer)
            } else {
                None
            },
            Self::Exp => if c == '+' || c == '-' {
                Some(Self::ExpSign)
            } else if c == '0' {
                Some(Self::ExpLeadingZero)
            } else if is_digit(c) {
                Some(Self::ExpInteger)
            } else {
                None
            },
            Self::ExpSign => if c == '0' {
                Some(Self::ExpLeadingZero)
            } else if is_digit(c) {
                Some(Self::ExpInteger)
            } else {
                None
            },
            Self::Point => if is_digit(c) {
                Some(Self::Decimal)
            } else {
                None
            },
            Self::LeadingZero => if c == '.' {
                Some(Self::Point)
            } else if c == 'e' || c == 'E' {
                Some(Self::Exp)
            } else {
                None
            },
            Self::Integer => if is_digit(c) {
                Some(Self::Integer)
            } else if c == '.' {
                Some(Self::Point)
            } else if c == 'e' || c == 'E' {
                Some(Self::Exp)
            } else {
                None
            },
            Self::Decimal => if is_digit(c) {
                Some(Self::Decimal)
            } else if c == 'e' || c == 'E' {
                Some(Self::Exp)
            } else {
                None
            },
            Self::ExpLeadingZero => None,
            Self::ExpInteger => if is_digit(c) {
                Some(Self::ExpInteger)
            } else {
                None
            },
        }
    }
}

/// One of the ten decimal digits.
pub open spec fn spec_is_digit(c: char) -> bool {
    '0' <= c <= '9'
}

#[verifier::when_used_as_spec(spec_is_digit)]
pub fn is_digit(c: char) -> (b: bool)
    ensures
        b == spec_is_digit(c),
{
    '0' <= c && c <= '9'
}

/// A hexadecimal digit, in either case.
pub open spec fn spec_is_hex_digit(c: char) -> bool {
    '0' <= c <= '9' || 'A' <= c <= 'F' || 'a' <= c <= 'f'
}

#[verifier::when_used_as_spec(spec_is_hex_digit)]
pub fn is_hex_digit(c: char) -> (b: bool)
    ensures
        b == spec_is_hex_digit(c),
{
    ('0' <= c && c <= '9') || ('A' <= c && c <= 'F') || ('a' <= c && c <= 'f')
}

/// A character that may follow a number directly.
pub open spec fn spec_is_terminator(c: char) -> bool {
    c == '}' || c == ']' || c == ',' || c == '\n' || c == ' '
}

#[verifier::when_used_as_spec(spec_is_terminator)]
pub fn is_terminator(c: char) -> (b: bool)
    ensures
        b == spec_is_terminator(c),
{
    c == '}' || c == ']' || c == ',' || c == '\n' || c == ' '
}

/// The state of the tokenizer between two characters.
#[derive(Debug, PartialEq, Eq, Clone, Copy, Structural)]
pub enum State {
    /// Between tokens.
    Normal,
    /// Inside a number.
    ValueNumber(NumberState),
    /// Inside `true`, with the count of its characters that were read.
    ValueTrue(u8),
    /// Inside `false`, with the count of its characters that were read.
    ValueFalse(u8),
    /// Inside `null`, with the count of its characters that were read.
    ValueNull(u8),
    /// Inside a string literal.
    ValueStringLiteral,
    /// After a backslash inside a string literal.
    Escaping,
    /// Inside a `\u` escape, with the count of its digits that were read.
    Hex(u16),
}

/// The tokenizer as contracts speak of it.
pub struct Scan {
    pub state: State,
    /// The tokens that are complete.
    pub tokens: Seq<Lexeme>,
    /// The text of the string or number that is being read.
    pub text: Seq<char>,
    /// One more than the number of line feeds that were read.
    pub line: int,
}

/// The message for a character that has no transition.
pub open spec fn unexpected_char(c: char, line: int) -> Diagnostic {
    Diagnostic { message: "Unexpected '"@ + seq![c] + "'"@, line }
}

/// The message for a tab that stands unescaped in a string literal.
pub open spec fn unexpected_tab(line: int) -> Diagnostic {
    Diagnostic { message: "Unexpected <tab>"@, line }
}

/// The characters of the word `true`.
pub open spec fn true_word() -> Seq<char> {
    seq!['t', 'r', 'u', 'e']
}

/// The characters of the word `false`.
pub open spec fn false_word() -> Seq<char> {
    seq!['f', 'a', 'l', 's', 'e']
}

/// The characters of the word `null`.
pub open spec fn null_word() -> Seq<char> {
    seq!['n', 'u', 'l', 'l']
}

impl Scan {
    /// The tokenizer before the first character.
    pub open spec fn initial() -> Scan {
        Scan { state: State::Normal, tokens: Seq::empty(), text: Seq::empty(), line: 1 }
    }

    /// A token is complete: it joins the tokens, and the tokenizer stands
    /// between tokens with no text pending.
    pub open spec fn emit(self, token: Lexeme) -> Scan {
        Scan {
            state: State::Normal,
            tokens: self.tokens.push(token),
            text: Seq::empty(),
            line: self.line,
        }
    }

    /// The tokenizer moves to `state` with `text` pending.
    pub open spec fn go(self, state: State, text: Seq<char>) -> Scan {
        Scan { state, text, ..self }
    }

    /// What a character of a number adds to the number's text: itself, but
    /// nothing for `+`, and `e` for `E`.
    pub open spec fn number_text(text: Seq<char>, c: char) -> Seq<char> {
        if c == '+' {
            text
        } else if c == 'E' {
            text.push('e')
        } else {
            text.push(c)
        }
    }

    /// Between tokens: punctuation is a token of its own, a space is
    /// dropped, and a quote, the first letter of a word or the first
    /// character of a number begins a literal.
    pub open spec fn step_normal(self, c: char) -> Result<Scan, Diagnostic> {
        if c == '{' {
            Ok(self.emit(Lexeme::OpenBrace))
        } else if c == '}' {
            Ok(self.emit(Lexeme::ClosedBrace))
        } else if c == '[' {
            Ok(self.emit(Lexeme::OpenBracket))
        } else if c == ']' {
            Ok(self.emit(Lexeme::ClosedBracket))
        } else if c == ':' {
            Ok(self.emit(Lexeme::Column))
        } else if c == ',' {
            Ok(self.emit(Lexeme::Comma))
        } else if c == '\n' {
            Ok(self.emit(Lexeme::NewLine))
        } else if c == ' ' {
            Ok(self.go(State::Normal, Seq::empty()))
        } else if c == '"' {
            Ok(self.go(State::ValueStringLiteral, Seq::empty()))
        } else if c == 't' {
            Ok(self.go(State::ValueTrue(1), Seq::empty()))
        } else if c == 'f' {
            Ok(self.go(State::ValueFalse(1), Seq::empty()))
        } else if c == 'n' {
            Ok(self.go(State::ValueNull(1), Seq::empty()))
        } else {
            match NumberState::start(c) {
                Some(n) => Ok(
                    self.go(State::ValueNumber(n), Self::number_text(Seq::empty(), c)),
                ),
                None => Err(unexpected_char(c, self.line)),
            }
        }
    }

    /// Inside a number in state `n`: a terminator ends the number, if it may
    /// end here, and is then read as between tokens; any other character
    /// must continue the number.
    pub open spec fn step_number(self, n: NumberState, c: char) -> Result<Scan, Diagnostic> {
        if is_terminator(c) {
            if n.is_final() {
                self.emit(Lexeme::Number(self.text)).step_normal(c)
            } else {
                Err(unexpected_char(c, self.line))
            }
        } else {
            match n.next(c) {
                Some(next) => Ok(
                    self.go(State::ValueNumber(next), Self::number_text(self.text, c)),
                ),
                None => Err(unexpected_char(c, self.line)),
            }
        }
    }

    /// Inside a string literal: a quote ends it, a backslash begins an
    /// escape, a tab is refused, and any other character joins the text.
    pub open spec fn step_string(self, c: char) -> Result<Scan, Diagnostic> {
        if c == '\\' {
            Ok(self.go(State::Escaping, self.text))
        } else if c == '\t' {
            Err(unexpected_tab(self.line))
        } else if c == '"' {
            Ok(self.emit(Lexeme::StringLiteral(self.text)))
        } else {
            Ok(self.go(State::ValueStringLiteral, self.text.push(c)))
        }
    }

    /// After a backslash: a quote or a backslash joins the text alone; one of
    /// `b f n r t /` joins it behind its backslash; `u` begins four
    /// hexadecimal digits.
    pub open spec fn step_escape(self, c: char) -> Result<Scan, Diagnostic> {
        if c == '"' || c == '\\' {
            Ok(self.go(State::ValueStringLiteral, self.text.push(c)))
        } else if c == 'b' || c == 'f' || c == 'n' || c == 'r' || c == 't' || c == '/' {
            Ok(self.go(State::ValueStringLiteral, self.text.push('\\').push(c)))
        } else if c == 'u' {
            Ok(self.go(State::Hex(0), self.text.push('\\').push('u')))
        } else {
            Err(unexpected_char(c, self.line))
        }
    }

    /// Inside a `\u` escape of which `count` digits were read: a
    /// hexadecimal digit joins the text, and the fourth ends the escape.
    pub open spec fn step_hex(self, count: u16, c: char) -> Result<Scan, Diagnostic> {
        if is_hex_digit(c) && count < 4 {
            Ok(
                self.go(
                    if count == 3 {
                        State::ValueStringLiteral
                    } else {
                        State::Hex((count + 1) as u16)
                    },
                    self.text.push(c),
                ),
            )
        } else {
            Err(unexpected_char(c, self.line))
        }
    }

    /// Inside one of the three words, of which `count` characters were
    /// read: only the word's next character may follow. With its last
    /// character the word's token is complete.
    pub open spec fn step_word(
        self,
        word: Seq<char>,
        count: u8,
        token: Lexeme,
        inside: spec_fn(u8) -> State,
        c: char,
    ) -> Result<Scan, Diagnostic> {
        if 0 < count < word.len() && c == word[count as int] {
            if count + 1 == word.len() {
                Ok(self.emit(token))
            } else {
                Ok(self.go(inside((count + 1) as u8), Seq::empty()))
            }
        } else {
            Err(unexpected_char(c, self.line))
        }
    }

    /// One character is read. A line feed that is read moves the line count
    /// on, whatever state it was read in.
    pub open spec fn step(self, c: char) -> Result<Scan, Diagnostic> {
        let moved = match self.state {
            State::Normal => self.step_normal(c),
            State::ValueNumber(n) => self.step_number(n, c),
            State::ValueStringLiteral => self.step_string(c),
            State::Escaping => self.step_escape(c),
            State::Hex(count) => self.step_hex(count, c),
            State::ValueTrue(count) => self.step_word(
                true_word(),
                count,
                Lexeme::BoolTrue,
                |k: u8| State::ValueTrue(k),
                c,
            ),
            State::ValueFalse(count) => self.step_word(
                false_word(),
                count,
                Lexeme::BoolFalse,
                |k: u8| State::ValueFalse(k),
                c,
            ),
            State::ValueNull(count) => self.step_word(
                null_word(),
                count,
                Lexeme::Null,
                |k: u8| State::ValueNull(k),
                c,
            ),
        };
        match moved {
            Ok(next) => Ok(
                if c == '\n' {
                    Scan { line: next_line(next.line), ..next }
                } else {
                    next
                },
            ),
            Err(d) => Err(d),
        }
    }

    /// The characters are read from left to right, up to the first that has
    /// no transition.
    pub open spec fn run(self, input: Seq<char>) -> Result<Scan, Diagnostic>
        decreases input.len(),
    {
        if input.len() == 0 {
            Ok(self)
        } else {
            match self.run(input.drop_last()) {
                Ok(before) => before.step(input.last()),
                Err(d) => Err(d),
            }
        }
    }

    /// The tokens once the input has ended: a number that may end here is
    /// complete; any other literal that was begun is dropped.
    pub open spec fn finish(self) -> Seq<Lexeme> {
        match self.state {
            State::ValueNumber(n) => if n.is_final() {
                self.tokens.push(Lexeme::Number(self.text))
            } else {
                self.tokens
            },
            _ => self.tokens,
        }
    }
}

/// The tokens of a text, or the first character that has no transition.
pub open spec fn spec_lex(input: Seq<char>) -> Result<Seq<Lexeme>, Diagnostic> {
    match Scan::initial().run(input) {
        Ok(end) => Ok(end.finish()),
        Err(d) => Err(d),
    }
}

/// The tokenizer: its state, the tokens that are complete, the text of the
/// literal that is being read, and the line it is on.
#[derive(Debug)]
pub struct Lexer {
    state: State,
    tokens: Vec<Token>,
    text: String,
    line: i64,
}

impl View for Lexer {
    type V = Scan;

    closed spec fn view(&self) -> Scan {
        Scan {
            state: self.state,
            tokens: lexemes(self.tokens@),
            text: self.text@,
            line: self.line as int,
        }
    }
}

/// What a step of the tokenizer gave, as contracts speak of it.
pub open spec fn scanned(r: Result<Lexer, JSONError>) -> Result<Scan, Diagnostic> {
    match r {
        Ok(lexer) => Ok(lexer@),
        Err(e) => Err(e@),
    }
}

/// What the tokenizer gave, as contracts speak of it.
pub open spec fn tokenized(r: Result<Vec<Token>, JSONError>) -> Result<Seq<Lexeme>, Diagnostic> {
    match r {
        Ok(tokens) => Ok(lexemes(tokens@)),
        Err(e) => Err(e@),
    }
}

fn unexpected(c: char, line: i64) -> (e: JSONError)
    ensures
        e@ == unexpected_char(c, line as int),
{
    let mut message = String::from_str("Unexpected '");
    message.push(c);
    message.append("'");
    proof {
        assert(("Unexpected '"@ + seq![c]) =~= "Unexpected '"@.push(c));
    }
    JSONError::new(message, line)
}

impl Lexer {
    pub fn new() -> (lexer: Lexer)
        ensures
            lexer@ == Scan::initial(),
    {
        proof {
            assert(lexemes(Seq::<Token>::empty()) =~= Seq::<Lexeme>::empty());
        }
        Lexer { state: State::Normal, tokens: Vec::new(), text: String::new(), line: 1 }
    }

    /// The state the tokenizer is in.
    pub fn state(&self) -> (state: State)
        ensures
            state == self@.state,
    {
        self.state
    }

    fn emit(self, token: Token) -> (lexer: Lexer)
        ensures
            lexer@ == self@.emit(token@),
    {
        let Lexer { state: _, mut tokens, text: _, line } = self;
        proof {
            assert(lexemes(tokens@.push(token)) =~= lexemes(tokens@).push(token@));
        }
        tokens.push(token);
        Lexer { state: State::Normal, tokens, text: String::new(), line }
    }

    fn go(self, state: State) -> (lexer: Lexer)
        ensures
            lexer@ == self@.go(state, self@.text),
    {
        let Lexer { state: _, tokens, text, line } = self;
        Lexer { state, tokens, text, line }
    }

    fn begin(self, state: State) -> (lexer: Lexer)
        ensures
            lexer@ == self@.go(state, Seq::empty()),
    {
        let Lexer { state: _, tokens, text: _, line } = self;
        Lexer { state, tokens, text: String::new(), line }
    }

    fn begin_with(self, state: State, c: char) -> (lexer: Lexer)
        ensures
            lexer@ == self@.go(state, Seq::empty().push(c)),
    {
        let Lexer { state: _, tokens, text: _, line } = self;
        let mut text = String::new();
        text.push(c);
        Lexer { state, tokens, text, line }
    }

    fn go_with(self, state: State, c: char) -> (lexer: Lexer)
        ensures
            lexer@ == self@.go(state, self@.text.push(c)),
    {
        let Lexer { state: _, tokens, mut text, line } = self;
        text.push(c);
        Lexer { state, tokens, text, line }
    }

    fn emit_text(self, number: bool) -> (lexer: Lexer)
        ensures
            lexer@ == self@.emit(
                if number {
                    Lexeme::Number(self@.text)
                } else {
                    Lexeme::StringLiteral(self@.text)
                },
            ),
    {
        let Lexer { state: _, mut tokens, text, line } = self;
        let token = if number {
            Token::Number(text)
        } else {
            Token::StringLiteral(text)
        };
        proof {
            assert(lexemes(tokens@.push(token)) =~= lexemes(tokens@).push(token@));
        }
        tokens.push(token);
        Lexer { state: State::Normal, tokens, text: String::new(), line }
    }

    fn step_normal(self, c: char) -> (r: Result<Lexer, JSONError>)
        ensures
            scanned(r) == self@.step_normal(c),
    {
        if c == '{' {
            Ok(self.emit(Token::OpenBrace))
        } else if c == '}' {
            Ok(self.emit(Token::ClosedBrace))
        } else if c == '[' {
            Ok(self.emit(Token::OpenBracket))
        } else if c == ']' {
            Ok(self.emit(Token::ClosedBracket))
        } else if c == ':' {
            Ok(self.emit(Token::Column))
        } else if c == ',' {
            Ok(self.emit(Token::Comma))
        } else if c == '\n' {
            Ok(self.emit(Token::NewLine))
        } else if c == ' ' {
            Ok(self.begin(State::Normal))
        } else if c == '"' {
            Ok(self.begin(State::ValueStringLiteral))
        } else if c == '-' {
            Ok(self.begin_with(State::ValueNumber(NumberState::Sign), c))
        } else if c == '+' {
            Ok(self.begin(State::ValueNumber(NumberState::Sign)))
        } else if c == '0' {
            Ok(self.begin_with(State::ValueNumber(NumberState::LeadingZero), c))
        } else if is_digit(c) {
            Ok(self.begin_with(State::ValueNumber(NumberState::Integer), c))
        } else if c == 't' {
            Ok(self.begin(State::ValueTrue(1)))
        } else if c == 'f' {
            Ok(self.begin(State::ValueFalse(1)))
        } else if c == 'n' {
            Ok(self.begin(State::ValueNull(1)))
        } else {
            Err(unexpected(c, self.line))
        }
    }

    fn step_number(self, n: NumberState, c: char) -> (r: Result<Lexer, JSONError>)
        ensures
            scanned(r) == self@.step_number(n, c),
    {
        if is_terminator(c) {
            if n.is_final() {
                self.emit_text(true).step_normal(c)
            } else {
                Err(unexpected(c, self.line))
            }
        } else {
            match n.next(c) {
                Some(next) => {
                    if c == '+' {
                        Ok(self.go(State::ValueNumber(next)))
                    } else if c == 'E' {
                        Ok(self.go_with(State::ValueNumber(next), 'e'))
                    } else {
                        Ok(self.go_with(State::ValueNumber(next), c))
                    }
                },
                None => Err(unexpected(c, self.line)),
            }
        }
    }

    fn step_string(self, c: char) -> (r: Result<Lexer, JSONError>)
        ensures
            scanned(r) == self@.step_string(c),
    {
        if c == '\\' {
            Ok(self.go(State::Escaping))
        } else if c == '\t' {
            Err(JSONError::new(String::from_str("Unexpected <tab>"), self.line))
        } else if c == '"' {
            Ok(self.emit_text(false))
        } else {
            Ok(self.go_with(State::ValueStringLiteral, c))
        }
    }

    fn step_escape(self, c: char) -> (r: Result<Lexer, JSONError>)
        ensures
            scanned(r) == self@.step_escape(c),
    {
        if c == '"' || c == '\\' {
            Ok(self.go_with(State::ValueStringLiteral, c))
        } else if c == 'b' || c == 'f' || c == 'n' || c == 'r' || c == 't' || c == '/' {
            Ok(self.go_with(State::ValueStringLiteral, '\\').go_with(State::ValueStringLiteral, c))
        } else if c == 'u' {
            Ok(self.go_with(State::Hex(0), '\\').go_with(State::Hex(0), c))
        } else {
            Err(unexpected(c, self.line))
        }
    }

    fn step_hex(self, count: u16, c: char) -> (r: Result<Lexer, JSONError>)
        ensures
            scanned(r) == self@.step_hex(count, c),
    {
        if is_hex_digit(c) && count < 4 {
            if count == 3 {
                Ok(self.go_with(State::ValueStringLiteral, c))
            } else {
                Ok(self.go_with(State::Hex(count + 1), c))
            }
        } else {
            Err(unexpected(c, self.line))
        }
    }

    /// Reads one character.
    pub fn step(self, c: char) -> (r: Result<Lexer, JSONError>)
        ensures
            scanned(r) == self@.step(c),
    {
        let moved = match self.state {
            State::Normal => self.step_normal(c),
            State::ValueNumber(n) => self.step_number(n, c),
            State::ValueStringLiteral => self.step_string(c),
            State::Escaping => self.step_escape(c),
            State::Hex(count) => self.step_hex(count, c),
            State::ValueTrue(1) if c == 'r' => Ok(self.begin(State::ValueTrue(2))),
            State::ValueTrue(2) if c == 'u' => Ok(self.begin(State::ValueTrue(3))),
            State::ValueTrue(3) if c == 'e' => Ok(self.emit(Token::BoolTrue)),
            State::ValueFalse(1) if c == 'a' => Ok(self.begin(State::ValueFalse(2))),
            State::ValueFalse(2) if c == 'l' => Ok(self.begin(State::ValueFalse(3))),
            State::ValueFalse(3) if c == 's' => Ok(self.begin(State::ValueFalse(4))),
            State::ValueFalse(4) if c == 'e' => Ok(self.emit(Token::BoolFalse)),
            State::ValueNull(1) if c == 'u' => Ok(self.begin(State::ValueNull(2))),
            State::ValueNull(2) if c == 'l' => Ok(self.begin(State::ValueNull(3))),
            State::ValueNull(3) if c == 'l' => Ok(self.emit(Token::Null)),
            _ => Err(unexpected(c, self.line)),
        };
        match moved {
            Ok(next) => {
                if c == '\n' {
                    let Lexer { state, tokens, text, line } = next;
                    Ok(Lexer { state, tokens, text, line: following_line(line) })
                } else {
                    Ok(next)
                }
            },
            Err(e) => Err(e),
        }
    }

    /// Ends the input and hands out the tokens.
    pub fn finish(self) -> (tokens: Vec<Token>)
        ensures
            lexemes(tokens@) == self@.finish(),
    {
        match self.state {
            State::ValueNumber(n) => {
                if n.is_final() {
                    let Lexer { state: _, tokens, text: _, line: _ } = self.emit_text(true);
                    tokens
                } else {
                    self.tokens
                }
            },
            _ => self.tokens,
        }
    }
}

/// Turns a text into its tokens, or reports the first character that has no
/// transition.
pub fn lex(input: &str) -> (r: Result<Vec<Token>, JSONError>)
    ensures
        tokenized(r) == spec_lex(input@),
{
    let mut lexer = Lexer::new();
    let mut chars = input.chars();
    let ghost mut read: int = 0;
    loop
        invariant
            0 <= read <= input@.len(),
            chars.remaining() == input@.skip(read),
            Scan::initial().run(input@.take(read)) == Ok::<Scan, Diagnostic>(lexer@),
        decreases input@.len() - read,
    {
        match chars.next() {
            None => {
                proof {
                    assert(input@.take(read) =~= input@);
                }
                return Ok(lexer.finish());
            },
            Some(c) => {
                proof {
                    assert(input@.take(read + 1).drop_last() =~= input@.take(read));
                    assert(input@.take(read + 1).last() == c);
                    assert(input@.skip(read).drop_first() =~= input@.skip(read + 1));
                }
                match lexer.step(c) {
                    Ok(next) => {
                        lexer = next;
                    },
                    Err(e) => {
                        proof {
                            lemma_run_stops(Scan::initial(), input@, read + 1);
                        }
                        return Err(e);
                    },
                }
                proof {
                    read = read + 1;
                }
            },
        }
    }
}

/// A run that fails on a prefix of the input fails in the same way on all of
/// it: the first defect decides.
pub proof fn lemma_run_stops(start: Scan, input: Seq<char>, n: int)
    requires
        0 <= n <= input.len(),
        start.run(input.take(n)) is Err,
    ensures
        start.run(input) == start.run(input.take(n)),
    decreases input.len(),
{
    if n < input.len() {
        assert(input.drop_last().take(n) =~= input.take(n));
        lemma_run_stops(start, input.drop_last(), n);
    } else {
        assert(input.take(n) =~= input);
    }
}

/// Reading two texts one after the other is reading their concatenation.
pub proof fn lemma_run_concat(start: Scan, first: Seq<char>, second: Seq<char>)
    ensures
        start.run(first + second) == match start.run(first) {
            Ok(middle) => middle.run(second),
            Err(d) => Err(d),
        },
    decreases second.len(),
{
    if second.len() == 0 {
        assert(first + second =~= first);
    } else {
        assert((first + second).drop_last() =~= first + second.drop_last());
        assert((first + second).last() == second.last());
        lemma_run_concat(start, first, second.drop_last());
    }
}

/// Reading a single character is one step.
pub proof fn lemma_run_one(start: Scan, c: char)
    ensures
        start.run(seq![c]) == start.step(c),
{
    assert(seq![c].drop_last() =~= Seq::<char>::empty());
    assert(start.run(Seq::<char>::empty()) == Ok::<Scan, Diagnostic>(start));
}

/// The first character without a transition decides: whatever follows it,
/// the text is refused with that character's diagnostic.
pub proof fn lemma_first_defect_decides(before: Seq<char>, c: char, after: Seq<char>)
    requires
        Scan::initial().run(before) matches Ok(scan) && scan.step(c) is Err,
    ensures
        spec_lex(before + seq![c] + after) == Err::<Seq<Lexeme>, Diagnostic>(
            Scan::initial().run(before)->Ok_0.step(c)->Err_0,
        ),
{
    let start = Scan::initial();
    lemma_run_concat(start, before, seq![c]);
    lemma_run_one(start.run(before)->Ok_0, c);
    lemma_run_concat(start, before + seq![c], after);
}

} // verus!
