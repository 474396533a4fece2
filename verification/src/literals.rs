//! The grammar of literals over characters, and the proof that the
//! tokenizer reads every literal of it.

use vstd::prelude::*;
use crate::error::Diagnostic;
use crate::lexer::{
    is_digit, is_hex_digit, is_terminator, lemma_run_concat, lemma_run_one, NumberState, Scan,
    State,
};
use crate::token::Lexeme;

verus! {

/// One unit of the source of a string literal.
pub enum Unit {
    /// A character that stands for itself.
    Plain(char),
    /// A backslash and the character behind it.
    Escape(char),
    /// A backslash, `u` and four hexadecimal digits.
    Unicode(char, char, char, char),
}

impl Unit {
    /// A plain character is neither a quote, a backslash nor a tab; an
    /// escape is one of `\" \\ \/ \b \f \n \r \t`; the digits of a `\u`
    /// escape are hexadecimal.
    pub open spec fn wf(self) -> bool {
        match self {
            Unit::Plain(c) => c != '"' && c != '\\' && c != '\t',
            Unit::Escape(c) => c == '"' || c == '\\' || c == '/' || c == 'b' || c == 'f' || c
                == 'n' || c == 'r' || c == 't',
            Unit::Unicode(a, b, c, d) => is_hex_digit(a) && is_hex_digit(b) && is_hex_digit(c)
                && is_hex_digit(d),
        }
    }

    /// The characters that write the unit.
    pub open spec fn source(self) -> Seq<char> {
        match self {
            Unit::Plain(c) => seq![c],
            Unit::Escape(c) => seq!['\\', c],
            Unit::Unicode(a, b, c, d) => seq!['\\', 'u', a, b, c, d],
        }
    }

    /// What the token keeps of the unit: an escaped quote or backslash
    /// without its backslash, every other unit as it was written.
    pub open spec fn text(self) -> Seq<char> {
        match self {
            Unit::Escape(c) => if c == '"' || c == '\\' {
                seq![c]
            } else {
                seq!['\\', c]
            },
            _ => self.source(),
        }
    }
}

/// The characters that write the units, one after the other.
pub open spec fn units_source(units: Seq<Unit>) -> Seq<char>
    decreases units.len(),
{
    if units.len() == 0 {
        Seq::empty()
    } else {
        units_source(units.drop_last()) + units.last().source()
    }
}

/// What the token keeps of the units.
pub open spec fn units_text(units: Seq<Unit>) -> Seq<char>
    decreases units.len(),
{
    if units.len() == 0 {
        Seq::empty()
    } else {
        units_text(units.drop_last()) + units.last().text()
    }
}

/// Digits only.
pub open spec fn all_digits(digits: Seq<char>) -> bool {
    forall|i: int| 0 <= i < digits.len() ==> is_digit(#[trigger] digits[i])
}

/// A whole number as the grammar writes it: the single digit `0`, or digits
/// of which the first is not `0`.
pub open spec fn is_whole(digits: Seq<char>) -> bool {
    digits.len() > 0 && all_digits(digits) && (digits[0] == '0' ==> digits.len() == 1)
}

/// The exponent of a number.
pub struct Exponent {
    /// `e` or `E`.
    pub marker: char,
    /// `+`, `-` or nothing.
    pub sign: Option<char>,
    pub digits: Seq<char>,
}

/// A number as it is written.
pub struct Numeral {
    /// `+`, `-` or nothing.
    pub sign: Option<char>,
    pub integer: Seq<char>,
    /// The digits behind the decimal point, if there is one.
    pub fraction: Option<Seq<char>>,
    pub exponent: Option<Exponent>,
}

/// A sign as it is written.
pub open spec fn sign_source(sign: Option<char>) -> Seq<char> {
    match sign {
        Some(c) => seq![c],
        None => Seq::empty(),
    }
}

/// What the token keeps of a sign: the minus, and nothing of a plus.
pub open spec fn sign_text(sign: Option<char>) -> Seq<char> {
    if sign == Some('-') {
        seq!['-']
    } else {
        Seq::empty()
    }
}

/// A sign is a plus, a minus or nothing.
pub open spec fn is_sign(sign: Option<char>) -> bool {
    sign is None || sign == Some('+') || sign == Some('-')
}

impl Exponent {
    /// The exponent is a whole number behind its marker and sign. After a
    /// first digit `0` it has no further digit.
    pub open spec fn wf(self) -> bool {
        (self.marker == 'e' || self.marker == 'E') && is_sign(self.sign) && is_whole(self.digits)
    }

    pub open spec fn source(self) -> Seq<char> {
        seq![self.marker] + sign_source(self.sign) + self.digits
    }

    /// What the token keeps: a lower-case marker, a minus if there is one,
    /// and the digits.
    pub open spec fn text(self) -> Seq<char> {
        seq!['e'] + sign_text(self.sign) + self.digits
    }
}

impl Numeral {
    /// The integer part is a whole number, and a fraction has at least one
    /// digit.
    pub open spec fn wf(self) -> bool {
        &&& is_sign(self.sign)
        &&& is_whole(self.integer)
        &&& self.fraction matches Some(digits) ==> digits.len() > 0 && all_digits(digits)
        &&& self.exponent matches Some(exponent) ==> exponent.wf()
    }

    /// The sign and the integer part as written.
    pub open spec fn head_source(self) -> Seq<char> {
        sign_source(self.sign) + self.integer
    }

    /// The decimal point and the digits behind it as written.
    pub open spec fn fraction_source(self) -> Seq<char> {
        match self.fraction {
            Some(digits) => seq!['.'] + digits,
            None => Seq::empty(),
        }
    }

    pub open spec fn exponent_source(self) -> Seq<char> {
        match self.exponent {
            Some(exponent) => exponent.source(),
            None => Seq::empty(),
        }
    }

    pub open spec fn exponent_text(self) -> Seq<char> {
        match self.exponent {
            Some(exponent) => exponent.text(),
            None => Seq::empty(),
        }
    }

    /// The characters that write the number.
    pub open spec fn source(self) -> Seq<char> {
        self.head_source() + self.fraction_source() + self.exponent_source()
    }

    /// What the token keeps of the number.
    pub open spec fn text(self) -> Seq<char> {
        sign_text(self.sign) + self.integer + self.fraction_source() + self.exponent_text()
    }

    /// The state of the number grammar after the integer part.
    pub open spec fn integer_state(self) -> NumberState {
        if self.integer[0] == '0' {
            NumberState::LeadingZero
        } else {
            NumberState::Integer
        }
    }

    /// The state of the number grammar after the fraction.
    pub open spec fn fraction_state(self) -> NumberState {
        if self.fraction is Some {
            NumberState::Decimal
        } else {
            self.integer_state()
        }
    }

    /// The state of the number grammar after the number.
    pub open spec fn end_state(self) -> NumberState {
        match self.exponent {
            Some(exponent) => if exponent.digits[0] == '0' {
                NumberState::ExpLeadingZero
            } else {
                NumberState::ExpInteger
            },
            None => self.fraction_state(),
        }
    }
}

/// Reading a character and then a text is reading the text behind the
/// character.
pub proof fn lemma_run_first(start: Scan, c: char, rest: Seq<char>)
    ensures
        start.run(seq![c] + rest) == match start.step(c) {
            Ok(next) => next.run(rest),
            Err(d) => Err(d),
        },
{
    lemma_run_one(start, c);
    lemma_run_concat(start, seq![c], rest);
}

/// Inside a number, in a state that digits do not leave, digits join the
/// text and change nothing else.
proof fn lemma_digits_are_read(scan: Scan, n: NumberState, digits: Seq<char>)
    requires
        scan.state == State::ValueNumber(n),
        n is Integer || n is Decimal || n is ExpInteger,
        all_digits(digits),
    ensures
        scan.run(digits) == Ok::<Scan, Diagnostic>(scan.go(scan.state, scan.text + digits)),
    decreases digits.len(),
{
    if digits.len() == 0 {
        assert(scan.text + digits =~= scan.text);
    } else {
        lemma_digits_are_read(scan, n, digits.drop_last());
        assert(is_digit(digits[digits.len() - 1]));
        assert((scan.text + digits.drop_last()).push(digits.last()) =~= scan.text + digits);
    }
}

/// A whole number is read from where its first digit leads: to the state for
/// a single `0`, or to the state for a digit other than `0`, which further
/// digits do not leave.
proof fn lemma_whole_is_read(
    scan: Scan,
    digits: Seq<char>,
    zero: NumberState,
    other: NumberState,
    kept: Seq<char>,
)
    requires
        is_whole(digits),
        other is Integer || other is ExpInteger,
        scan.step(digits[0]) == Ok::<Scan, Diagnostic>(
            scan.go(
                State::ValueNumber(
                    if digits[0] == '0' {
                        zero
                    } else {
                        other
                    },
                ),
                kept.push(digits[0]),
            ),
        ),
    ensures
        scan.run(digits) == Ok::<Scan, Diagnostic>(
            scan.go(
                State::ValueNumber(
                    if digits[0] == '0' {
                        zero
                    } else {
                        other
                    },
                ),
                kept + digits,
            ),
        ),
{
    let rest = digits.skip(1);
    let first = scan.step(digits[0])->Ok_0;
    assert(seq![digits[0]] + rest =~= digits);
    lemma_run_first(scan, digits[0], rest);
    if digits[0] == '0' {
        assert(first.run(rest) == Ok::<Scan, Diagnostic>(first));
        assert(kept.push(digits[0]) =~= kept + digits);
    } else {
        assert(all_digits(rest)) by {
            assert forall|i: int| 0 <= i < rest.len() implies is_digit(#[trigger] rest[i]) by {
                assert(rest[i] == digits[i + 1]);
            }
        }
        lemma_digits_are_read(first, other, rest);
        assert(kept.push(digits[0]) + rest =~= kept + digits);
    }
}

/// Between tokens, the sign and the integer part of a number lead into the
/// number, with the token's text begun.
proof fn lemma_head_is_read(scan: Scan, n: Numeral)
    requires
        scan.state is Normal,
        n.wf(),
    ensures
        scan.run(n.head_source()) == Ok::<Scan, Diagnostic>(
            scan.go(State::ValueNumber(n.integer_state()), sign_text(n.sign) + n.integer),
        ),
{
    let first = n.integer[0];
    assert(is_digit(first));
    match n.sign {
        None => {
            assert(Seq::<char>::empty().push(first) =~= seq![first]);
            lemma_whole_is_read(
                scan,
                n.integer,
                NumberState::LeadingZero,
                NumberState::Integer,
                Seq::empty(),
            );
            assert(n.head_source() =~= n.integer);
        },
        Some(c) => {
            let signed = scan.go(State::ValueNumber(NumberState::Sign), sign_text(n.sign));
            lemma_run_first(scan, c, n.integer);
            lemma_whole_is_read(
                signed,
                n.integer,
                NumberState::LeadingZero,
                NumberState::Integer,
                sign_text(n.sign),
            );
        },
    }
}

/// After the integer part, a decimal point and the digits behind it join
/// the text.
proof fn lemma_fraction_is_read(scan: Scan, n: Numeral)
    requires
        scan.state == State::ValueNumber(n.integer_state()),
        n.wf(),
    ensures
        scan.run(n.fraction_source()) == Ok::<Scan, Diagnostic>(
            scan.go(State::ValueNumber(n.fraction_state()), scan.text + n.fraction_source()),
        ),
{
    match n.fraction {
        None => {
            assert(scan.text + n.fraction_source() =~= scan.text);
        },
        Some(digits) => {
            let pointed = scan.go(State::ValueNumber(NumberState::Point), scan.text.push('.'));
            let first = pointed.go(
                State::ValueNumber(NumberState::Decimal),
                pointed.text.push(digits[0]),
            );
            let rest = digits.skip(1);
            assert(is_digit(digits[0]));
            assert(all_digits(rest)) by {
                assert forall|i: int| 0 <= i < rest.len() implies is_digit(#[trigger] rest[i]) by {
                    assert(rest[i] == digits[i + 1]);
                }
            }
            lemma_run_first(scan, '.', digits);
            assert(seq![digits[0]] + rest =~= digits);
            lemma_run_first(pointed, digits[0], rest);
            lemma_digits_are_read(first, NumberState::Decimal, rest);
            assert(first.text + rest =~= scan.text + n.fraction_source());
        },
    }
}

/// After the integer part or the fraction, an exponent joins the text, with
/// a lower-case marker and without a plus.
proof fn lemma_exponent_is_read(scan: Scan, n: Numeral)
    requires
        scan.state == State::ValueNumber(n.fraction_state()),
        n.wf(),
    ensures
        scan.run(n.exponent_source()) == Ok::<Scan, Diagnostic>(
            scan.go(State::ValueNumber(n.end_state()), scan.text + n.exponent_text()),
        ),
{
    match n.exponent {
        None => {
            assert(scan.text + n.exponent_text() =~= scan.text);
        },
        Some(exponent) => {
            let marked = scan.go(State::ValueNumber(NumberState::Exp), scan.text.push('e'));
            let tail = sign_source(exponent.sign) + exponent.digits;
            assert(exponent.source() =~= seq![exponent.marker] + tail);
            lemma_run_first(scan, exponent.marker, tail);
            assert(is_digit(exponent.digits[0]));
            let signed = match exponent.sign {
                None => marked,
                Some(c) => marked.go(
                    State::ValueNumber(NumberState::ExpSign),
                    marked.text + sign_text(exponent.sign),
                ),
            };
            match exponent.sign {
                None => {
                    assert(tail =~= exponent.digits);
                },
                Some(c) => {
                    lemma_run_first(marked, c, exponent.digits);
                    assert(marked.text.push('-') =~= marked.text + seq!['-']);
                    assert(marked.text + Seq::<char>::empty() =~= marked.text);
                },
            }
            lemma_whole_is_read(
                signed,
                exponent.digits,
                NumberState::ExpLeadingZero,
                NumberState::ExpInteger,
                signed.text,
            );
            assert(signed.text + exponent.digits =~= scan.text + n.exponent_text());
        },
    }
}

/// Between tokens, a number in any legal shape is read to its end, however
/// many digits it has: the tokenizer then stands in a state in which the
/// number may end, and holds the number's text.
pub proof fn lemma_numeral_is_read(scan: Scan, n: Numeral)
    requires
        scan.state is Normal,
        n.wf(),
    ensures
        n.end_state().is_final(),
        scan.run(n.source()) == Ok::<Scan, Diagnostic>(
            scan.go(State::ValueNumber(n.end_state()), n.text()),
        ),
{
    let head = scan.go(State::ValueNumber(n.integer_state()), sign_text(n.sign) + n.integer);
    let fraction = head.go(
        State::ValueNumber(n.fraction_state()),
        head.text + n.fraction_source(),
    );
    lemma_head_is_read(scan, n);
    lemma_fraction_is_read(head, n);
    lemma_exponent_is_read(fraction, n);
    lemma_run_concat(scan, n.head_source(), n.fraction_source());
    lemma_run_concat(scan, n.head_source() + n.fraction_source(), n.exponent_source());
    assert(fraction.text + n.exponent_text() =~= n.text());
}

/// Reading `input` from `scan` succeeds and ends in `state`, with `tokens`
/// complete and `text` pending. The line is left open.
pub open spec fn leads(
    scan: Scan,
    input: Seq<char>,
    state: State,
    tokens: Seq<Lexeme>,
    text: Seq<char>,
) -> bool {
    scan.run(input) matches Ok(end) && end.state == state && end.tokens == tokens && end.text
        == text
}

/// Inside a string literal, a unit joins the text as the token keeps it.
proof fn lemma_unit_is_read(scan: Scan, unit: Unit)
    requires
        scan.state is ValueStringLiteral,
        unit.wf(),
    ensures
        leads(
            scan,
            unit.source(),
            State::ValueStringLiteral,
            scan.tokens,
            scan.text + unit.text(),
        ),
{
    match unit {
        Unit::Plain(c) => {
            lemma_run_one(scan, c);
            assert(scan.text.push(c) =~= scan.text + unit.text());
        },
        Unit::Escape(c) => {
            let escaping = scan.go(State::Escaping, scan.text);
            assert(unit.source() =~= seq!['\\'] + seq![c]);
            lemma_run_first(scan, '\\', seq![c]);
            lemma_run_one(escaping, c);
            assert(scan.text.push(c) =~= scan.text + seq![c]);
            assert(scan.text.push('\\').push(c) =~= scan.text + seq!['\\', c]);
        },
        Unit::Unicode(a, b, c, d) => {
            let escaping = scan.go(State::Escaping, scan.text);
            let zero = scan.go(State::Hex(0), scan.text.push('\\').push('u'));
            let one = scan.go(State::Hex(1), zero.text.push(a));
            let two = scan.go(State::Hex(2), one.text.push(b));
            let three = scan.go(State::Hex(3), two.text.push(c));
            assert(unit.source() =~= seq!['\\'] + seq!['u', a, b, c, d]);
            assert(seq!['u', a, b, c, d] =~= seq!['u'] + seq![a, b, c, d]);
            assert(seq![a, b, c, d] =~= seq![a] + seq![b, c, d]);
            assert(seq![b, c, d] =~= seq![b] + seq![c, d]);
            assert(seq![c, d] =~= seq![c] + seq![d]);
            lemma_run_first(scan, '\\', seq!['u', a, b, c, d]);
            lemma_run_first(escaping, 'u', seq![a, b, c, d]);
            lemma_run_first(zero, a, seq![b, c, d]);
            lemma_run_first(one, b, seq![c, d]);
            lemma_run_first(two, c, seq![d]);
            lemma_run_one(three, d);
            assert(three.text.push(d) =~= scan.text + unit.text());
        },
    }
}

/// Between tokens, a quote and the units of a string literal lead into the
/// literal, with the text that the token keeps of them pending.
proof fn lemma_units_are_read(scan: Scan, units: Seq<Unit>)
    requires
        scan.state is Normal,
        forall|i: int| 0 <= i < units.len() ==> (#[trigger] units[i]).wf(),
    ensures
        leads(
            scan,
            seq!['"'] + units_source(units),
            State::ValueStringLiteral,
            scan.tokens,
            units_text(units),
        ),
    decreases units.len(),
{
    if units.len() == 0 {
        lemma_run_one(scan, '"');
        assert(seq!['"'] + units_source(units) =~= seq!['"']);
    } else {
        let before = units.drop_last();
        assert forall|i: int| 0 <= i < before.len() implies (#[trigger] before[i]).wf() by {
            assert(before[i] == units[i]);
        }
        lemma_units_are_read(scan, before);
        let middle = scan.run(seq!['"'] + units_source(before))->Ok_0;
        lemma_unit_is_read(middle, units.last());
        lemma_run_concat(scan, seq!['"'] + units_source(before), units.last().source());
        assert((seq!['"'] + units_source(before)) + units.last().source() =~= seq!['"']
            + units_source(units));
    }
}

/// One lexical item of a text: a space, or what writes one token.
pub enum Item {
    Space,
    /// A brace, a bracket, a colon, a comma or a line feed.
    Symbol(char),
    /// A string literal: its units between two quotes.
    Text(Seq<Unit>),
    Number(Numeral),
    /// The word `true` or `false`.
    Bool(bool),
    /// The word `null`.
    Null,
}

impl Item {
    pub open spec fn wf(self) -> bool {
        match self {
            Item::Symbol(c) => c == '{' || c == '}' || c == '[' || c == ']' || c == ':' || c
                == ',' || c == '\n',
            Item::Text(units) => forall|i: int|
                0 <= i < units.len() ==> (#[trigger] units[i]).wf(),
            Item::Number(n) => n.wf(),
            _ => true,
        }
    }

    /// The characters that write the item.
    pub open spec fn source(self) -> Seq<char> {
        match self {
            Item::Space => seq![' '],
            Item::Symbol(c) => seq![c],
            Item::Text(units) => seq!['"'] + units_source(units) + seq!['"'],
            Item::Number(n) => n.source(),
            Item::Bool(b) => if b {
                seq!['t', 'r', 'u', 'e']
            } else {
                seq!['f', 'a', 'l', 's', 'e']
            },
            Item::Null => seq!['n', 'u', 'l', 'l'],
        }
    }

    /// The token that the item writes; a space writes none.
    pub open spec fn token(self) -> Option<Lexeme> {
        match self {
            Item::Space => None,
            Item::Symbol(c) => Some(
                if c == '{' {
                    Lexeme::OpenBrace
                } else if c == '}' {
                    Lexeme::ClosedBrace
                } else if c == '[' {
                    Lexeme::OpenBracket
                } else if c == ']' {
                    Lexeme::ClosedBracket
                } else if c == ':' {
                    Lexeme::Column
                } else if c == ',' {
                    Lexeme::Comma
                } else {
                    Lexeme::NewLine
                },
            ),
            Item::Text(units) => Some(Lexeme::StringLiteral(units_text(units))),
            Item::Number(n) => Some(Lexeme::Number(n.text())),
            Item::Bool(b) => Some(
                if b {
                    Lexeme::BoolTrue
                } else {
                    Lexeme::BoolFalse
                },
            ),
            Item::Null => Some(Lexeme::Null),
        }
    }

    /// The item's token, as a sequence of one token or none.
    pub open spec fn tokens(self) -> Seq<Lexeme> {
        match self.token() {
            Some(token) => seq![token],
            None => Seq::empty(),
        }
    }
}

/// The characters that write the items, one after the other.
pub open spec fn items_source(items: Seq<Item>) -> Seq<char>
    decreases items.len(),
{
    if items.len() == 0 {
        Seq::empty()
    } else {
        items_source(items.drop_last()) + items.last().source()
    }
}

/// The tokens that the items write.
pub open spec fn items_tokens(items: Seq<Item>) -> Seq<Lexeme>
    decreases items.len(),
{
    if items.len() == 0 {
        Seq::empty()
    } else {
        items_tokens(items.drop_last()) + items.last().tokens()
    }
}

/// Between tokens, an item is read whole. A number is then pending, in a
/// state in which it may end; after any other item the tokenizer stands
/// between tokens again, and the item's token, if it has one, is complete.
pub proof fn lemma_item_is_read(scan: Scan, item: Item)
    requires
        scan.state is Normal,
        item.wf(),
    ensures
        item matches Item::Number(n) ==> n.end_state().is_final() && leads(
            scan,
            item.source(),
            State::ValueNumber(n.end_state()),
            scan.tokens,
            n.text(),
        ),
        !(item is Number) ==> leads(
            scan,
            item.source(),
            State::Normal,
            scan.tokens + item.tokens(),
            Seq::empty(),
        ),
{
    match item {
        Item::Space => {
            lemma_run_one(scan, ' ');
            assert(scan.tokens + item.tokens() =~= scan.tokens);
        },
        Item::Symbol(c) => {
            lemma_run_one(scan, c);
            assert(scan.tokens + item.tokens() =~= scan.tokens.push(item.token()->0));
        },
        Item::Text(units) => {
            lemma_units_are_read(scan, units);
            let inside = scan.run(seq!['"'] + units_source(units))->Ok_0;
            lemma_run_one(inside, '"');
            lemma_run_concat(scan, seq!['"'] + units_source(units), seq!['"']);
            assert(scan.tokens + item.tokens() =~= scan.tokens.push(item.token()->0));
        },
        Item::Number(n) => {
            lemma_numeral_is_read(scan, n);
        },
        Item::Bool(b) => {
            if b {
                let one = scan.go(State::ValueTrue(1), Seq::empty());
                let two = scan.go(State::ValueTrue(2), Seq::empty());
                let three = scan.go(State::ValueTrue(3), Seq::empty());
                assert(item.source() =~= seq!['t'] + seq!['r', 'u', 'e']);
                assert(seq!['r', 'u', 'e'] =~= seq!['r'] + seq!['u', 'e']);
                assert(seq!['u', 'e'] =~= seq!['u'] + seq!['e']);
                lemma_run_first(scan, 't', seq!['r', 'u', 'e']);
                lemma_run_first(one, 'r', seq!['u', 'e']);
                lemma_run_first(two, 'u', seq!['e']);
                lemma_run_one(three, 'e');
            } else {
                let one = scan.go(State::ValueFalse(1), Seq::empty());
                let two = scan.go(State::ValueFalse(2), Seq::empty());
                let three = scan.go(State::ValueFalse(3), Seq::empty());
                let four = scan.go(State::ValueFalse(4), Seq::empty());
                assert(item.source() =~= seq!['f'] + seq!['a', 'l', 's', 'e']);
                assert(seq!['a', 'l', 's', 'e'] =~= seq!['a'] + seq!['l', 's', 'e']);
                assert(seq!['l', 's', 'e'] =~= seq!['l'] + seq!['s', 'e']);
                assert(seq!['s', 'e'] =~= seq!['s'] + seq!['e']);
                lemma_run_first(scan, 'f', seq!['a', 'l', 's', 'e']);
                lemma_run_first(one, 'a', seq!['l', 's', 'e']);
                lemma_run_first(two, 'l', seq!['s', 'e']);
                lemma_run_first(three, 's', seq!['e']);
                lemma_run_one(four, 'e');
            }
            assert(scan.tokens + item.tokens() =~= scan.tokens.push(item.token()->0));
        },
        Item::Null => {
            let one = scan.go(State::ValueNull(1), Seq::empty());
            let two = scan.go(State::ValueNull(2), Seq::empty());
            let three = scan.go(State::ValueNull(3), Seq::empty());
            assert(item.source() =~= seq!['n'] + seq!['u', 'l', 'l']);
            assert(seq!['u', 'l', 'l'] =~= seq!['u'] + seq!['l', 'l']);
            assert(seq!['l', 'l'] =~= seq!['l'] + seq!['l']);
            lemma_run_first(scan, 'n', seq!['u', 'l', 'l']);
            lemma_run_first(one, 'u', seq!['l', 'l']);
            lemma_run_first(two, 'l', seq!['l']);
            lemma_run_one(three, 'l');
            assert(scan.tokens + item.tokens() =~= scan.tokens.push(item.token()->0));
        },
    }
}

/// A space, or a symbol that may follow a number directly, ends a number
/// that is pending and may end: the number's token is complete, and then
/// the symbol's.
pub proof fn lemma_number_is_ended(scan: Scan, item: Item)
    requires
        scan.state matches State::ValueNumber(n) && n.is_final(),
        item is Space || item is Symbol,
        item.wf(),
        is_terminator(item.source()[0]),
    ensures
        leads(
            scan,
            item.source(),
            State::Normal,
            scan.tokens.push(Lexeme::Number(scan.text)) + item.tokens(),
            Seq::empty(),
        ),
{
    let c = item.source()[0];
    let ended = scan.emit(Lexeme::Number(scan.text));
    lemma_run_one(scan, c);
    assert(item.source() =~= seq![c]);
    if item is Space {
        assert(ended.tokens + item.tokens() =~= ended.tokens);
    } else {
        assert(ended.tokens + item.tokens() =~= ended.tokens.push(item.token()->0));
    }
}

/// The state of the number grammar after `text`, read as a number from its
/// first character on; nothing where one of the characters may not stand.
pub open spec fn number_state(text: Seq<char>) -> Option<NumberState>
    decreases text.len(),
{
    if text.len() == 0 {
        None
    } else if text.len() == 1 {
        NumberState::spec_start(text[0])
    } else {
        match number_state(text.drop_last()) {
            Some(n) => n.spec_next(text.last()),
            None => None,
        }
    }
}

/// The number grammar reads `text` to a state in which a number may end.
pub open spec fn is_number(text: Seq<char>) -> bool {
    number_state(text) matches Some(n) && n.is_final()
}

/// Digits of which the first is not `0`.
pub open spec fn is_led_by_nonzero(digits: Seq<char>) -> bool {
    digits.len() > 0 && all_digits(digits) && digits[0] != '0'
}

/// The number `p` is written as far as the state `n` says: the parts before
/// the one that is being read are complete, and those behind it are absent.
pub open spec fn fits(p: Numeral, n: NumberState) -> bool {
    &&& is_sign(p.sign)
    &&& match n {
        NumberState::Sign => p.sign is Some && p.integer.len() == 0,
        NumberState::LeadingZero => p.integer.len() == 1 && p.integer[0] == '0',
        NumberState::Integer => is_led_by_nonzero(p.integer),
        _ => is_whole(p.integer),
    }
    &&& match n {
        NumberState::Sign | NumberState::LeadingZero | NumberState::Integer => p.fraction is None,
        NumberState::Point => p.fraction matches Some(digits) && digits.len() == 0,
        NumberState::Decimal => p.fraction matches Some(digits) && digits.len() > 0 && all_digits(
            digits,
        ),
        _ => p.fraction matches Some(digits) ==> digits.len() > 0 && all_digits(digits),
    }
    &&& match n {
        NumberState::Exp => p.exponent matches Some(e) && (e.marker == 'e' || e.marker == 'E')
            && e.sign is None && e.digits.len() == 0,
        NumberState::ExpSign => p.exponent matches Some(e) && (e.marker == 'e' || e.marker
            == 'E') && (e.sign == Some('+') || e.sign == Some('-')) && e.digits.len() == 0,
        NumberState::ExpLeadingZero => p.exponent matches Some(e) && (e.marker == 'e'
            || e.marker == 'E') && is_sign(e.sign) && e.digits.len() == 1 && e.digits[0] == '0',
        NumberState::ExpInteger => p.exponent matches Some(e) && (e.marker == 'e' || e.marker
            == 'E') && is_sign(e.sign) && is_led_by_nonzero(e.digits),
        _ => p.exponent is None,
    }
}

/// The number that a first character begins.
pub open spec fn begun(c: char) -> Numeral {
    if is_digit(c) {
        Numeral { sign: None, integer: seq![c], fraction: None, exponent: None }
    } else {
        Numeral { sign: Some(c), integer: Seq::empty(), fraction: None, exponent: None }
    }
}

/// The number `p`, written as far as the state `n` says, with one character
/// more.
pub open spec fn extended(p: Numeral, n: NumberState, c: char) -> Numeral {
    if is_digit(c) {
        match n {
            NumberState::Sign | NumberState::Integer => Numeral {
                integer: p.integer.push(c),
                ..p
            },
            NumberState::Point | NumberState::Decimal => Numeral {
                fraction: Some(p.fraction->0.push(c)),
                ..p
            },
            _ => Numeral {
                exponent: Some(
                    Exponent { digits: p.exponent->0.digits.push(c), ..p.exponent->0 },
                ),
                ..p
            },
        }
    } else if c == '.' {
        Numeral { fraction: Some(Seq::empty()), ..p }
    } else if c == 'e' || c == 'E' {
        Numeral {
            exponent: Some(Exponent { marker: c, sign: None, digits: Seq::empty() }),
            ..p
        }
    } else {
        Numeral { exponent: Some(Exponent { sign: Some(c), ..p.exponent->0 }), ..p }
    }
}

/// A character that the number grammar takes adds itself to what is written
/// of the number.
proof fn lemma_number_extends(p: Numeral, n: NumberState, c: char)
    requires
        fits(p, n),
        n.spec_next(c) is Some,
    ensures
        fits(extended(p, n, c), n.spec_next(c)->0),
        extended(p, n, c).source() == p.source().push(c),
{
    let q = extended(p, n, c);
    if is_digit(c) {
        match n {
            NumberState::Sign | NumberState::Integer => {
                assert(all_digits(q.integer)) by {
                    assert forall|i: int| 0 <= i < q.integer.len() implies is_digit(
                        #[trigger] q.integer[i],
                    ) by {
                        if i < p.integer.len() {
                            assert(q.integer[i] == p.integer[i]);
                        }
                    }
                }
            },
            NumberState::Point | NumberState::Decimal => {
                let digits = q.fraction->0;
                assert(all_digits(digits)) by {
                    assert forall|i: int| 0 <= i < digits.len() implies is_digit(
                        #[trigger] digits[i],
                    ) by {
                        if i < digits.len() - 1 {
                            assert(digits[i] == p.fraction->0[i]);
                        }
                    }
                }
            },
            _ => {
                let digits = q.exponent->0.digits;
                assert(all_digits(digits)) by {
                    assert forall|i: int| 0 <= i < digits.len() implies is_digit(
                        #[trigger] digits[i],
                    ) by {
                        if i < digits.len() - 1 {
                            assert(digits[i] == p.exponent->0.digits[i]);
                        }
                    }
                }
            },
        }
    }
    assert(q.source() =~= p.source().push(c));
}

/// A text that the number grammar reads is what is written of a number, as
/// far as the state that was reached says.
proof fn lemma_number_has_shape(text: Seq<char>) -> (p: Numeral)
    requires
        number_state(text) is Some,
    ensures
        fits(p, number_state(text)->0),
        p.source() == text,
    decreases text.len(),
{
    if text.len() == 1 {
        let p = begun(text[0]);
        assert(p.source() =~= text);
        p
    } else {
        let before = lemma_number_has_shape(text.drop_last());
        lemma_number_extends(before, number_state(text.drop_last())->0, text.last());
        assert(text.drop_last().push(text.last()) =~= text);
        extended(before, number_state(text.drop_last())->0, text.last())
    }
}

/// A character of which numbers are made.
pub open spec fn is_number_char(c: char) -> bool {
    is_digit(c) || c == '.' || c == 'e' || c == 'E' || c == '+' || c == '-'
}

/// A number is written with the characters of numbers, and begins with a
/// sign or a digit.
proof fn lemma_numeral_chars(n: Numeral)
    requires
        n.wf(),
    ensures
        n.source().len() > 0,
        NumberState::spec_start(n.source()[0]) is Some,
        forall|i: int| 0 <= i < n.source().len() ==> is_number_char(#[trigger] n.source()[i]),
{
    let head = n.head_source();
    let fraction = n.fraction_source();
    let exponent = n.exponent_source();
    assert(is_digit(n.integer[0]));
    assert(forall|i: int| 0 <= i < head.len() ==> is_number_char(#[trigger] head[i]));
    assert(forall|i: int| 0 <= i < fraction.len() ==> is_number_char(#[trigger] fraction[i]));
    assert forall|i: int| 0 <= i < exponent.len() implies is_number_char(
        #[trigger] exponent[i],
    ) by {
        let e = n.exponent->0;
        let front = seq![e.marker] + sign_source(e.sign);
        assert(exponent == front + e.digits);
        if i < front.len() {
            assert(exponent[i] == front[i]);
        } else {
            assert(exponent[i] == e.digits[i - front.len()]);
        }
    }
    assert(n.source()[0] == head[0]);
}

/// Between tokens, a text of number characters that is read without a
/// defect is read by the number grammar alone.
proof fn lemma_run_is_number(scan: Scan, text: Seq<char>)
    requires
        scan.state is Normal,
        text.len() > 0,
        NumberState::spec_start(text[0]) is Some,
        forall|i: int| 0 <= i < text.len() ==> is_number_char(#[trigger] text[i]),
        scan.run(text) is Ok,
    ensures
        scan.run(text)->Ok_0.state matches State::ValueNumber(n) && number_state(text) == Some(n),
    decreases text.len(),
{
    if text.len() == 1 {
        lemma_run_one(scan, text[0]);
        assert(text =~= seq![text[0]]);
    } else {
        let before = text.drop_last();
        assert forall|i: int| 0 <= i < before.len() implies is_number_char(
            #[trigger] before[i],
        ) by {
            assert(before[i] == text[i]);
        }
        assert(before[0] == text[0]);
        lemma_run_is_number(scan, before);
        assert(is_number_char(text[text.len() - 1]));
    }
}

/// The number grammar reads exactly the numbers: a text leads it to a state
/// in which a number may end if and only if the text is a sign or none, a
/// whole number, a fraction or none, and an exponent or none.
pub proof fn numbers_are_the_numerals(text: Seq<char>)
    ensures
        is_number(text) <==> exists|n: Numeral| n.wf() && n.source() == text,
{
    if is_number(text) {
        let n = lemma_number_has_shape(text);
        assert(n.wf() && n.source() == text);
    }
    if exists|n: Numeral| n.wf() && n.source() == text {
        let n = choose|n: Numeral| n.wf() && n.source() == text;
        lemma_numeral_is_read(Scan::initial(), n);
        lemma_numeral_chars(n);
        lemma_run_is_number(Scan::initial(), text);
    }
}

} // verus!
