//! The grammar of documents over tokens, and the proof that the validator
//! accepts every document of it.

use vstd::prelude::*;
use crate::error::Diagnostic;
use crate::parser::{
    lemma_advance_keeps_wf, lemma_run_concat, lemma_run_one, spec_parse, Machine, StateKind,
};
use crate::token::Lexeme;

verus! {

/// A value as the grammar builds it. Numbers and strings carry the text of
/// their token; an object carries its members in order, each a key and a
/// value.
pub enum Value {
    Null,
    Bool(bool),
    Number(Seq<char>),
    Text(Seq<char>),
    Array(Seq<Value>),
    Object(Seq<(Seq<char>, Value)>),
}

/// The parts, with a comma between each two of them.
pub open spec fn separated(parts: Seq<Seq<Lexeme>>) -> Seq<Lexeme>
    decreases parts.len(),
{
    if parts.len() == 0 {
        Seq::empty()
    } else if parts.len() == 1 {
        parts[0]
    } else {
        separated(parts.drop_last()) + seq![Lexeme::Comma] + parts.last()
    }
}

impl Value {
    /// An array or an object.
    pub open spec fn is_container(self) -> bool {
        self is Array || self is Object
    }

    /// The tokens of each element of an array, or of each member of an
    /// object: its key, a colon and its value.
    pub open spec fn parts(self) -> Seq<Seq<Lexeme>>
        decreases self, 0nat,
    {
        match self {
            Value::Array(items) => Seq::new(
                items.len(),
                |i: int|
                    if 0 <= i < items.len() {
                        items[i].tokens()
                    } else {
                        Seq::empty()
                    },
            ),
            Value::Object(members) => Seq::new(
                members.len(),
                |i: int|
                    if 0 <= i < members.len() {
                        seq![Lexeme::StringLiteral(members[i].0), Lexeme::Column]
                            + members[i].1.tokens()
                    } else {
                        Seq::empty()
                    },
            ),
            _ => Seq::empty(),
        }
    }

    /// The tokens that write the value: a scalar is its one token; an array
    /// is its elements between brackets, an object its members between
    /// braces, with commas between them.
    pub open spec fn tokens(self) -> Seq<Lexeme>
        decreases self, 1nat,
    {
        match self {
            Value::Null => seq![Lexeme::Null],
            Value::Bool(b) => seq![
                if b {
                    Lexeme::BoolTrue
                } else {
                    Lexeme::BoolFalse
                },
            ],
            Value::Number(text) => seq![Lexeme::Number(text)],
            Value::Text(text) => seq![Lexeme::StringLiteral(text)],
            Value::Array(_) => seq![Lexeme::OpenBracket] + separated(self.parts()) + seq![
                Lexeme::ClosedBracket,
            ],
            Value::Object(_) => seq![Lexeme::OpenBrace] + separated(self.parts()) + seq![
                Lexeme::ClosedBrace,
            ],
        }
    }
}

/// The tokens without the line breaks among them.
pub open spec fn without_line_breaks(tokens: Seq<Lexeme>) -> Seq<Lexeme>
    decreases tokens.len(),
{
    if tokens.len() == 0 {
        Seq::empty()
    } else if tokens.last() is NewLine {
        without_line_breaks(tokens.drop_last())
    } else {
        without_line_breaks(tokens.drop_last()).push(tokens.last())
    }
}

/// The tokens, read without their line breaks, write one array or object.
pub open spec fn is_document(tokens: Seq<Lexeme>) -> bool {
    exists|root: Value| root.is_container() && without_line_breaks(tokens) == root.tokens()
}

/// The machine stands where the value may begin: at a member's value, at an
/// element of an array, or, for an array or an object, at the very start.
pub open spec fn awaits(m: Machine, value: Value) -> bool {
    &&& m.wf()
    &&& m.kind is ObjVal || m.kind is OpenArr || m.kind is ArrValAfterComma || (m.kind is Initial
        && value.is_container())
}

/// The machine once the value that it waited for is complete.
pub open spec fn completed(m: Machine) -> Machine {
    m.at(Machine::after_value(m.stack))
}

/// Where the machine waits for a value, the tokens of any value lead it to
/// the position after that value, with the same containers open.
pub proof fn lemma_value_is_read(m: Machine, value: Value)
    requires
        awaits(m, value),
    ensures
        m.run(value.tokens()) == Ok::<Machine, Diagnostic>(completed(m)),
    decreases value, 1nat, 0nat,
{
    if value.is_container() {
        let object = value is Object;
        let (opener, closer) = if object {
            (Lexeme::OpenBrace, Lexeme::ClosedBrace)
        } else {
            (Lexeme::OpenBracket, Lexeme::ClosedBracket)
        };
        let opened = m.open(object);
        let inner = separated(value.parts());
        lemma_run_one(m, opener);
        lemma_advance_keeps_wf(m, opener);
        assert(opened.stack.drop_last() =~= m.stack);
        let filled = if value.parts().len() == 0 {
            opened
        } else {
            opened.at(
                if object {
                    StateKind::AfterObjVal
                } else {
                    StateKind::ArrVal
                },
            )
        };
        if value.parts().len() > 0 {
            lemma_parts_are_read(opened, value, value.parts().len() as int);
            assert(value.parts().take(value.parts().len() as int) =~= value.parts());
        }
        assert(opened.run(inner) == Ok::<Machine, Diagnostic>(filled));
        lemma_run_one(filled, closer);
        assert(filled.run(seq![closer]) == Ok::<Machine, Diagnostic>(completed(m)));
        lemma_run_concat(m, seq![opener], inner);
        lemma_run_concat(m, seq![opener] + inner, seq![closer]);
    } else {
        lemma_run_one(m, value.tokens()[0]);
        assert(value.tokens() =~= seq![value.tokens()[0]]);
    }
}

/// Inside a container that has just opened, the first `count` elements or
/// members, with commas between them, lead to the position after a value of
/// that container.
proof fn lemma_parts_are_read(opened: Machine, value: Value, count: int)
    requires
        value.is_container(),
        opened.wf(),
        opened.kind == (if value is Object {
            StateKind::OpenObj
        } else {
            StateKind::OpenArr
        }),
        1 <= count <= value.parts().len(),
    ensures
        opened.run(separated(value.parts().take(count))) == Ok::<Machine, Diagnostic>(
            opened.at(
                if value is Object {
                    StateKind::AfterObjVal
                } else {
                    StateKind::ArrVal
                },
            ),
        ),
    decreases value, 0nat, count,
{
    let parts = value.parts().take(count);
    let part = value.parts()[count - 1];
    let done = opened.at(
        if value is Object {
            StateKind::AfterObjVal
        } else {
            StateKind::ArrVal
        },
    );
    // Where the part begins: in the fresh container, or after a comma.
    let begun = if count == 1 {
        opened
    } else {
        opened.at(
            if value is Object {
                StateKind::ObjComma
            } else {
                StateKind::ArrValAfterComma
            },
        )
    };
    if count == 1 {
        assert(separated(parts) == part);
    } else {
        assert(parts.drop_last() =~= value.parts().take(count - 1));
        lemma_parts_are_read(opened, value, count - 1);
        lemma_run_one(done, Lexeme::Comma);
        lemma_run_concat(opened, separated(parts.drop_last()), seq![Lexeme::Comma]);
        lemma_run_concat(opened, separated(parts.drop_last()) + seq![Lexeme::Comma], part);
        assert(opened.run(separated(parts.drop_last()) + seq![Lexeme::Comma]) == Ok::<
            Machine,
            Diagnostic,
        >(begun));
    }
    // The part itself leads from there to the position after a value.
    match value {
        Value::Array(items) => {
            lemma_value_is_read(begun, items[count - 1]);
        },
        Value::Object(members) => {
            let key = seq![Lexeme::StringLiteral(members[count - 1].0), Lexeme::Column];
            let at_value = opened.at(StateKind::ObjVal);
            lemma_run_one(begun, key[0]);
            lemma_run_one(opened.at(StateKind::ObjKey), key[1]);
            lemma_run_concat(begun, seq![key[0]], seq![key[1]]);
            assert(seq![key[0]] + seq![key[1]] =~= key);
            lemma_value_is_read(at_value, members[count - 1].1);
            lemma_run_concat(begun, key, members[count - 1].1.tokens());
        },
        _ => {},
    }
    assert(begun.run(part) == Ok::<Machine, Diagnostic>(done));
}

/// Line breaks change the line and nothing else: where the tokens without
/// their line breaks have their transitions, the tokens with them reach the
/// same position with the same containers open.
pub proof fn lemma_line_breaks_are_skipped(with: Machine, without: Machine, tokens: Seq<Lexeme>)
    requires
        with.kind == without.kind,
        with.stack == without.stack,
        without.run(without_line_breaks(tokens)) is Ok,
    ensures
        with.run(tokens) matches Ok(end) && end.kind == without.run(
            without_line_breaks(tokens),
        )->Ok_0.kind && end.stack == without.run(without_line_breaks(tokens))->Ok_0.stack,
    decreases tokens.len(),
{
    if tokens.len() > 0 {
        if !(tokens.last() is NewLine) {
            assert(without_line_breaks(tokens).drop_last() =~= without_line_breaks(
                tokens.drop_last(),
            ));
        }
        lemma_line_breaks_are_skipped(with, without, tokens.drop_last());
    }
}

/// Every document is accepted: tokens that, read without their line breaks,
/// write one array or object are valid.
pub proof fn document_is_accepted(tokens: Seq<Lexeme>)
    requires
        is_document(tokens),
    ensures
        spec_parse(tokens) == Ok::<(), Diagnostic>(()),
{
    let root = choose|root: Value|
        root.is_container() && without_line_breaks(tokens) == root.tokens();
    lemma_value_is_read(Machine::initial(), root);
    lemma_line_breaks_are_skipped(Machine::initial(), Machine::initial(), tokens);
}

} // verus!
