//! What holds of every text: which defects are found, and where.

use vstd::prelude::*;
use crate::error::Diagnostic;
use crate::grammar::{document_is_accepted, is_document};
use crate::lexer::{
    is_terminator, lemma_first_defect_decides, lemma_run_concat, spec_lex, unexpected_char,
    NumberState, Scan, State,
};
use crate::literals::{
    items_source, items_tokens, lemma_item_is_read, lemma_number_is_ended, lemma_numeral_is_read,
    Item, Numeral,
};
use crate::parser::{
    lemma_trailing_comma_is_rejected, lemma_unclosed_is_cut_short, unexpected_eof,
    unexpected_token, Machine,
};
use crate::spec_check_valid;
use crate::token::Lexeme;

verus! {

/// The characters that may follow a backslash inside a string literal.
pub open spec fn is_escape(c: char) -> bool {
    c == '"' || c == '\\' || c == '/' || c == 'b' || c == 'f' || c == 'n' || c == 'r' || c == 't'
        || c == 'u'
}

/// A backslash inside a string literal that no legal escape follows makes
/// the text invalid, with the character after the backslash reported,
/// whatever braces and brackets stand around the literal: the structure is
/// never looked at.
pub proof fn illegal_escape_is_lexical(before: Seq<char>, c: char, after: Seq<char>)
    requires
        Scan::initial().run(before) matches Ok(scan) && scan.state is Escaping,
        !is_escape(c),
    ensures
        spec_check_valid(before + seq![c] + after) == Err::<(), Diagnostic>(
            unexpected_char(c, Scan::initial().run(before)->Ok_0.line),
        ),
{
    lemma_first_defect_decides(before, c, after);
}

/// After an integer part or an exponent that is the single digit `0`, a
/// character is refused unless it ends the number or, after the integer
/// part, begins a fraction or an exponent. No digit, letter or opening
/// bracket can follow the zero.
pub proof fn leading_zero_stands_alone(before: Seq<char>, c: char, after: Seq<char>)
    requires
        Scan::initial().run(before) matches Ok(scan) && (scan.state == State::ValueNumber(
            NumberState::LeadingZero,
        ) && c != '.' && c != 'e' && c != 'E' || scan.state == State::ValueNumber(
            NumberState::ExpLeadingZero,
        )),
        !is_terminator(c),
    ensures
        spec_check_valid(before + seq![c] + after) == Err::<(), Diagnostic>(
            unexpected_char(c, Scan::initial().run(before)->Ok_0.line),
        ),
{
    lemma_first_defect_decides(before, c, after);
}

/// A number in any legal shape is one token, whatever its magnitude: no
/// count of digits and no size of exponent makes the tokenizer refuse it.
/// The token carries the number's text; what value the text denotes is not
/// the tokenizer's matter.
pub proof fn number_of_any_magnitude_is_one_token(n: Numeral)
    requires
        n.wf(),
    ensures
        spec_lex(n.source()) == Ok::<Seq<Lexeme>, Diagnostic>(seq![Lexeme::Number(n.text())]),
{
    lemma_numeral_is_read(Scan::initial(), n);
    assert(Seq::<Lexeme>::empty().push(Lexeme::Number(n.text())) =~= seq![
        Lexeme::Number(n.text()),
    ]);
}

/// A text whose tokens all have their transitions, but which ends while a
/// container is still open, is reported as cut short, at its last line.
pub proof fn unclosed_container_is_cut_short(input: Seq<char>)
    requires
        spec_lex(input) matches Ok(tokens) && Machine::initial().run(tokens) matches Ok(end)
            && end.stack.len() > 0,
    ensures
        spec_check_valid(input) == Err::<(), Diagnostic>(
            unexpected_eof(Machine::initial().run(spec_lex(input)->Ok_0)->Ok_0.line),
        ),
{
    lemma_unclosed_is_cut_short(spec_lex(input)->Ok_0);
}

/// A text in which a comma is followed by a closing brace or bracket, with
/// nothing but line breaks between the two tokens, is never valid. Where its
/// tokens up to the closing one have their transitions, the closing token is
/// what is reported.
pub proof fn trailing_comma_is_rejected(input: Seq<char>, comma: int, closer: int)
    requires
        spec_lex(input) matches Ok(tokens) && {
            &&& 0 <= comma < closer < tokens.len()
            &&& tokens[comma] is Comma
            &&& tokens[closer] is ClosedBrace || tokens[closer] is ClosedBracket
            &&& forall|i: int| comma < i < closer ==> tokens[i] is NewLine
        },
    ensures
        spec_check_valid(input) is Err,
        Machine::initial().run(spec_lex(input)->Ok_0.take(closer)) matches Ok(before)
            ==> spec_check_valid(input) == Err::<(), Diagnostic>(
            unexpected_token(spec_lex(input)->Ok_0[closer], before.line),
        ),
{
    lemma_trailing_comma_is_rejected(spec_lex(input)->Ok_0, comma, closer);
}

/// The tokenizer has read the items: their tokens are complete, but for a
/// number that stands last, which is pending and may end.
pub open spec fn settled(scan: Scan, items: Seq<Item>) -> bool {
    &&& scan.finish() == items_tokens(items)
    &&& if items.len() > 0 && items.last() is Number {
        scan.state matches State::ValueNumber(n) && n.is_final()
    } else {
        scan.state is Normal
    }
}

/// Items whose tokens all have their transitions in the validator are read
/// by the tokenizer one by one. What follows a number then always ends it:
/// the validator has a transition for nothing else there.
proof fn lemma_items_are_read(items: Seq<Item>)
    requires
        forall|i: int| 0 <= i < items.len() ==> (#[trigger] items[i]).wf(),
        Machine::initial().run(items_tokens(items)) is Ok,
    ensures
        Scan::initial().run(items_source(items)) matches Ok(scan) && settled(scan, items),
    decreases items.len(),
{
    if items.len() > 0 {
        let before = items.drop_last();
        let item = items.last();
        assert(item.wf());
        assert forall|i: int| 0 <= i < before.len() implies (#[trigger] before[i]).wf() by {
            assert(before[i] == items[i]);
        }
        crate::parser::lemma_run_concat(Machine::initial(), items_tokens(before), item.tokens());
        lemma_items_are_read(before);
        let scan = Scan::initial().run(items_source(before))->Ok_0;
        let machine = Machine::initial().run(items_tokens(before))->Ok_0;
        lemma_run_concat(Scan::initial(), items_source(before), item.source());
        if before.len() > 0 && before.last() is Number {
            // The validator stands behind a number.
            let earlier = items_tokens(before.drop_last());
            let number = before.last().token()->0;
            assert(items_tokens(before) =~= earlier.push(number));
            assert(items_tokens(before).drop_last() =~= earlier);
            assert(machine.kind is AfterObjVal || machine.kind is ArrVal);
            if item is Space {
                lemma_number_is_ended(scan, item);
            } else {
                crate::parser::lemma_run_one(machine, item.token()->0);
                assert(machine.advance(item.token()->0) is Ok);
                lemma_number_is_ended(scan, item);
            }
        } else {
            assert(scan.finish() == scan.tokens);
            lemma_item_is_read(scan, item);
            if item is Number {
                assert(scan.tokens.push(item.token()->0) =~= scan.tokens + item.tokens());
            }
        }
    }
}

/// Every well-formed document is valid. A document is a text made of
/// well-formed items (spaces, symbols, string literals with legal escapes,
/// numbers in every legal shape and the three words) whose tokens, read
/// without the line breaks, write one array or object of any nesting.
pub proof fn well_formed_document_is_valid(items: Seq<Item>)
    requires
        forall|i: int| 0 <= i < items.len() ==> (#[trigger] items[i]).wf(),
        is_document(items_tokens(items)),
    ensures
        spec_lex(items_source(items)) == Ok::<Seq<Lexeme>, Diagnostic>(items_tokens(items)),
        spec_check_valid(items_source(items)) == Ok::<(), Diagnostic>(()),
{
    document_is_accepted(items_tokens(items));
    lemma_items_are_read(items);
}

} // verus!
