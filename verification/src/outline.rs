//! The proof that the validator accepts nothing but documents: from the
//! tokens that were accepted so far, the part of the document that they
//! write can be told.

use vstd::prelude::*;
use crate::error::Diagnostic;
use crate::grammar::{
    document_is_accepted, is_document, separated, without_line_breaks, Value,
};
use crate::parser::{lemma_run_keeps_wf, spec_parse, Machine, StateKind};
use crate::token::Lexeme;

verus! {

/// A container that is open, with what has been read of it.
pub struct Frame {
    pub object: bool,
    /// The position inside the container.
    pub kind: StateKind,
    /// The elements that are complete, if it is an array.
    pub items: Seq<Value>,
    /// The members that are complete, if it is an object.
    pub members: Seq<(Seq<char>, Value)>,
    /// The key that was read last, if it is an object.
    pub key: Seq<char>,
}

/// The value that a scalar token writes.
pub open spec fn scalar(token: Lexeme) -> Value {
    match token {
        Lexeme::StringLiteral(text) => Value::Text(text),
        Lexeme::Number(text) => Value::Number(text),
        Lexeme::BoolTrue => Value::Bool(true),
        Lexeme::BoolFalse => Value::Bool(false),
        _ => Value::Null,
    }
}

impl Frame {
    /// A container that has just opened.
    pub open spec fn fresh(object: bool) -> Frame {
        Frame {
            object,
            kind: if object {
                StateKind::OpenObj
            } else {
                StateKind::OpenArr
            },
            items: Seq::empty(),
            members: Seq::empty(),
            key: Seq::empty(),
        }
    }

    /// The container with the parts that are complete, as if it closed here.
    pub open spec fn value(self) -> Value {
        if self.object {
            Value::Object(self.members)
        } else {
            Value::Array(self.items)
        }
    }

    /// At least one part is complete.
    pub open spec fn filled(self) -> bool {
        self.value().parts().len() > 0
    }

    pub open spec fn opener(self) -> Lexeme {
        if self.object {
            Lexeme::OpenBrace
        } else {
            Lexeme::OpenBracket
        }
    }

    pub open spec fn closer(self) -> Lexeme {
        if self.object {
            Lexeme::ClosedBrace
        } else {
            Lexeme::ClosedBracket
        }
    }

    /// The comma that stands before a part that is not the first.
    pub open spec fn lead(self) -> Seq<Lexeme> {
        if self.filled() {
            seq![Lexeme::Comma]
        } else {
            Seq::empty()
        }
    }

    /// What was read behind the last complete part.
    pub open spec fn tail(self) -> Seq<Lexeme> {
        match self.kind {
            StateKind::ObjKey => self.lead() + seq![Lexeme::StringLiteral(self.key)],
            StateKind::ObjVal => self.lead() + seq![
                Lexeme::StringLiteral(self.key),
                Lexeme::Column,
            ],
            StateKind::ObjComma | StateKind::ArrValAfterComma => seq![Lexeme::Comma],
            _ => Seq::empty(),
        }
    }

    /// The tokens that were read of the container.
    pub open spec fn tokens(self) -> Seq<Lexeme> {
        seq![self.opener()] + separated(self.value().parts()) + self.tail()
    }

    /// The position lies in the container's kind, and says rightly whether a
    /// part is complete.
    pub open spec fn wf(self) -> bool {
        &&& if self.object {
            self.kind.in_object()
        } else {
            self.kind.in_array()
        }
        &&& self.kind is OpenObj || self.kind is OpenArr ==> !self.filled()
        &&& self.kind is AfterObjVal || self.kind is ArrVal || self.kind is ObjComma
            || self.kind is ArrValAfterComma ==> self.filled()
    }

    /// The position is one at which a value begins.
    pub open spec fn awaits_value(self) -> bool {
        self.kind is ObjVal || self.kind is OpenArr || self.kind is ArrValAfterComma
    }

    /// The container once the value that it waited for is complete.
    pub open spec fn with_value(self, value: Value) -> Frame {
        if self.object {
            Frame {
                kind: StateKind::AfterObjVal,
                members: self.members.push((self.key, value)),
                ..self
            }
        } else {
            Frame { kind: StateKind::ArrVal, items: self.items.push(value), ..self }
        }
    }

    /// The same container at another position.
    pub open spec fn at(self, kind: StateKind) -> Frame {
        Frame { kind, ..self }
    }
}

/// The tokens that were read of the containers, outermost first.
pub open spec fn frames_tokens(frames: Seq<Frame>) -> Seq<Lexeme>
    decreases frames.len(),
{
    if frames.len() == 0 {
        Seq::empty()
    } else {
        frames_tokens(frames.drop_last()) + frames.last().tokens()
    }
}

/// What the tokens read so far write: the containers that are open, or the
/// root once it has closed.
pub struct Outline {
    pub frames: Seq<Frame>,
    pub root: Option<Value>,
}

/// The frames are well formed, each is of the kind that the machine's stack
/// says, and all but the innermost wait for a value.
pub open spec fn frames_fit(frames: Seq<Frame>, m: Machine) -> bool {
    forall|i: int|
        0 <= i < frames.len() ==> {
            &&& (#[trigger] frames[i]).wf()
            &&& frames[i].object == m.stack[i].is_object()
            &&& i < frames.len() - 1 ==> frames[i].awaits_value()
        }
}

/// The outline tells what `tokens` write, and the machine `m` stands where
/// the outline says.
pub open spec fn outlines(m: Machine, outline: Outline, tokens: Seq<Lexeme>) -> bool {
    if m.kind is Initial {
        tokens.len() == 0 && outline.frames.len() == 0
    } else if m.kind is End {
        outline.root matches Some(root) && root.is_container() && tokens == root.tokens()
    } else {
        &&& outline.frames.len() == m.stack.len()
        &&& outline.frames.len() > 0
        &&& outline.frames.last().kind == m.kind
        &&& tokens == frames_tokens(outline.frames)
        &&& frames_fit(outline.frames, m)
    }
}

/// A container that waits for a value has, once the value is complete, read
/// the value's tokens behind its own.
proof fn lemma_frame_takes_value(frame: Frame, value: Value)
    requires
        frame.wf(),
        frame.awaits_value(),
    ensures
        frame.with_value(value).wf(),
        frame.with_value(value).tokens() == frame.tokens() + value.tokens(),
{
    let after = frame.with_value(value);
    let parts = frame.value().parts();
    let part = after.value().parts().last();
    assert(after.value().parts().drop_last() =~= parts);
    assert(after.value().parts().len() == parts.len() + 1);
    if frame.object {
        assert(part =~= seq![Lexeme::StringLiteral(frame.key), Lexeme::Column] + value.tokens());
    } else {
        assert(part =~= value.tokens());
    }
    if parts.len() == 0 {
        assert(separated(parts) =~= Seq::<Lexeme>::empty());
        assert(separated(after.value().parts()) == part);
    }
    assert(after.tokens() =~= frame.tokens() + value.tokens());
}

/// A container that closes where it may has written its value.
proof fn lemma_frame_closes(frame: Frame)
    requires
        frame.wf(),
        frame.kind is OpenObj || frame.kind is OpenArr || frame.kind is AfterObjVal
            || frame.kind is ArrVal,
    ensures
        frame.value().is_container(),
        frame.value().tokens() == frame.tokens().push(frame.closer()),
{
    assert(frame.value().tokens() =~= frame.tokens().push(frame.closer()));
}

/// A scalar token writes its value.
proof fn lemma_scalar_tokens(token: Lexeme)
    requires
        token.is_scalar(),
    ensures
        scalar(token).tokens() == seq![token],
{
}

/// The innermost container changes, and the others stay.
proof fn lemma_top_changes(frames: Seq<Frame>, top: Frame)
    requires
        frames.len() > 0,
    ensures
        frames_tokens(frames.drop_last().push(top)) == frames_tokens(frames.drop_last())
            + top.tokens(),
{
    assert(frames.drop_last().push(top).drop_last() =~= frames.drop_last());
}

/// A token that opens a container keeps the outline in step with the
/// machine.
proof fn lemma_outline_opens(m: Machine, outline: Outline, tokens: Seq<Lexeme>, token: Lexeme)
    -> (next: Outline)
    requires
        m.wf(),
        outlines(m, outline, tokens),
        token is OpenBrace || token is OpenBracket,
        m.advance(token) is Ok,
    ensures
        outlines(m.advance(token)->Ok_0, next, tokens.push(token)),
{
    let after = m.advance(token)->Ok_0;
    let frames = if m.kind is Initial {
        Seq::<Frame>::empty()
    } else {
        outline.frames
    };
    let fresh = Frame::fresh(token is OpenBrace);
    let next = Outline { frames: frames.push(fresh), root: None };
    assert(after == m.open(token is OpenBrace));
    assert(next.frames.drop_last() =~= frames);
    assert(separated(fresh.value().parts()) =~= Seq::<Lexeme>::empty());
    assert(fresh.tokens() =~= seq![token]);
    assert(frames_tokens(next.frames) == frames_tokens(frames) + fresh.tokens());
    assert(tokens =~= frames_tokens(frames));
    assert(frames_tokens(next.frames) =~= tokens.push(token));
    assert(frames_fit(next.frames, after)) by {
        assert forall|i: int| 0 <= i < next.frames.len() implies {
            &&& (#[trigger] next.frames[i]).wf()
            &&& next.frames[i].object == after.stack[i].is_object()
            &&& i < next.frames.len() - 1 ==> next.frames[i].awaits_value()
        } by {
            if i < frames.len() {
                assert(next.frames[i] == frames[i]);
                assert(after.stack[i] == m.stack[i]);
                if i == frames.len() - 1 {
                    assert(frames[i] == frames.last());
                }
            }
        }
    }
    next
}

/// A token that closes the innermost container keeps the outline in step
/// with the machine.
proof fn lemma_outline_closes(m: Machine, outline: Outline, tokens: Seq<Lexeme>, token: Lexeme)
    -> (next: Outline)
    requires
        m.wf(),
        outlines(m, outline, tokens),
        token is ClosedBrace || token is ClosedBracket,
        m.advance(token) is Ok,
    ensures
        outlines(m.advance(token)->Ok_0, next, tokens.push(token)),
{
    let after = m.advance(token)->Ok_0;
    let frames = outline.frames;
    let depth = frames.len() as int;
    let top = frames.last();
    let value = top.value();
    assert(after == m.close(token is ClosedBrace)->0);
    assert(top == frames[depth - 1]);
    assert(top.wf());
    assert(m.stack.last() == m.stack[depth - 1]);
    assert(token == top.closer());
    lemma_frame_closes(top);
    if depth == 1 {
        assert(frames_tokens(frames.drop_last()) =~= Seq::<Lexeme>::empty());
        assert(frames_tokens(frames) =~= top.tokens());
        assert(m.stack[0].is_root());
        Outline { frames: Seq::empty(), root: Some(value) }
    } else {
        let rest = frames.drop_last();
        let around = frames[depth - 2];
        assert(rest.last() == around);
        assert(around.wf() && around.awaits_value());
        assert(!m.stack[depth - 1].is_root());
        assert(after.stack.last() == m.stack[depth - 2]);
        lemma_frame_takes_value(around, value);
        let next = Outline { frames: rest.drop_last().push(around.with_value(value)), root: None };
        lemma_top_changes(rest, around.with_value(value));
        assert(frames_tokens(frames) == frames_tokens(rest) + top.tokens());
        assert(frames_tokens(rest) == frames_tokens(rest.drop_last()) + around.tokens());
        assert(frames_tokens(next.frames) =~= tokens.push(token));
        assert(frames_fit(next.frames, after)) by {
            assert forall|i: int| 0 <= i < next.frames.len() implies {
                &&& (#[trigger] next.frames[i]).wf()
                &&& next.frames[i].object == after.stack[i].is_object()
                &&& i < next.frames.len() - 1 ==> next.frames[i].awaits_value()
            } by {
                assert(after.stack[i] == m.stack[i]);
                if i < next.frames.len() - 1 {
                    assert(next.frames[i] == frames[i]);
                }
            }
        }
        next
    }
}

/// A token that moves the position inside the innermost container keeps the
/// outline in step with the machine.
proof fn lemma_outline_moves(m: Machine, outline: Outline, tokens: Seq<Lexeme>, token: Lexeme)
    -> (next: Outline)
    requires
        m.wf(),
        outlines(m, outline, tokens),
        token.is_scalar() || token is Column || token is Comma,
        m.advance(token) is Ok,
    ensures
        outlines(m.advance(token)->Ok_0, next, tokens.push(token)),
{
    let after = m.advance(token)->Ok_0;
    let frames = outline.frames;
    let top = frames.last();
    assert(top == frames[frames.len() - 1]);
    assert(top.wf());
    assert(after == m.at(after.kind));
    let moved = if token.is_scalar() && top.awaits_value() {
        top.with_value(scalar(token))
    } else if token is StringLiteral {
        Frame { kind: after.kind, key: token->StringLiteral_0, ..top }
    } else {
        top.at(after.kind)
    };
    if token.is_scalar() && top.awaits_value() {
        lemma_frame_takes_value(top, scalar(token));
        lemma_scalar_tokens(token);
    }
    assert(moved.value().parts() =~= top.value().parts() || (token.is_scalar()
        && top.awaits_value()));
    assert(moved.wf());
    assert(moved.tokens() =~= top.tokens().push(token));
    let next = Outline { frames: frames.drop_last().push(moved), root: None };
    lemma_top_changes(frames, moved);
    assert(frames_tokens(frames) == frames_tokens(frames.drop_last()) + top.tokens());
    assert(frames_tokens(next.frames) =~= tokens.push(token));
    assert(frames_fit(next.frames, after)) by {
        assert forall|i: int| 0 <= i < next.frames.len() implies {
            &&& (#[trigger] next.frames[i]).wf()
            &&& next.frames[i].object == after.stack[i].is_object()
            &&& i < next.frames.len() - 1 ==> next.frames[i].awaits_value()
        } by {
            if i < next.frames.len() - 1 {
                assert(next.frames[i] == frames[i]);
            }
        }
    }
    next
}

/// One more token that has its transition keeps the outline in step with
/// the machine.
proof fn lemma_outline_step(m: Machine, outline: Outline, tokens: Seq<Lexeme>, token: Lexeme)
    -> (next: Outline)
    requires
        m.wf(),
        outlines(m, outline, tokens),
        !(token is NewLine),
        m.advance(token) is Ok,
    ensures
        outlines(m.advance(token)->Ok_0, next, tokens.push(token)),
{
    if token is OpenBrace || token is OpenBracket {
        lemma_outline_opens(m, outline, tokens, token)
    } else if token is ClosedBrace || token is ClosedBracket {
        lemma_outline_closes(m, outline, tokens, token)
    } else {
        lemma_outline_moves(m, outline, tokens, token)
    }
}

/// Tokens without line breaks that all have their transitions write what an
/// outline tells.
proof fn lemma_outline(tokens: Seq<Lexeme>) -> (outline: Outline)
    requires
        forall|i: int| 0 <= i < tokens.len() ==> !((#[trigger] tokens[i]) is NewLine),
        Machine::initial().run(tokens) is Ok,
    ensures
        outlines(Machine::initial().run(tokens)->Ok_0, outline, tokens),
    decreases tokens.len(),
{
    if tokens.len() == 0 {
        Outline { frames: Seq::empty(), root: None }
    } else {
        let before = tokens.drop_last();
        assert forall|i: int| 0 <= i < before.len() implies !((#[trigger] before[i]) is NewLine) by {
            assert(before[i] == tokens[i]);
        }
        let earlier = lemma_outline(before);
        lemma_run_keeps_wf(Machine::initial(), before);
        assert(before.push(tokens.last()) =~= tokens);
        lemma_outline_step(Machine::initial().run(before)->Ok_0, earlier, before, tokens.last())
    }
}

/// No line break is left among the tokens without line breaks.
proof fn lemma_no_line_break_is_left(tokens: Seq<Lexeme>)
    ensures
        forall|i: int|
            0 <= i < without_line_breaks(tokens).len() ==> !((
            #[trigger] without_line_breaks(tokens)[i]) is NewLine),
    decreases tokens.len(),
{
    if tokens.len() > 0 {
        lemma_no_line_break_is_left(tokens.drop_last());
    }
}

/// Tokens that have their transitions have them without their line breaks
/// too, and reach the same position with the same containers open.
proof fn lemma_line_breaks_may_go(m: Machine, tokens: Seq<Lexeme>)
    requires
        m.run(tokens) is Ok,
    ensures
        m.run(without_line_breaks(tokens)) matches Ok(end) && end.kind == m.run(tokens)->Ok_0.kind
            && end.stack == m.run(tokens)->Ok_0.stack,
    decreases tokens.len(),
{
    if tokens.len() > 0 {
        lemma_line_breaks_may_go(m, tokens.drop_last());
        if !(tokens.last() is NewLine) {
            assert(without_line_breaks(tokens).drop_last() =~= without_line_breaks(
                tokens.drop_last(),
            ));
        }
    }
}

/// The validator accepts the documents and nothing else: tokens are valid
/// if and only if, read without their line breaks, they write one array or
/// object.
pub proof fn accepted_is_document(tokens: Seq<Lexeme>)
    ensures
        spec_parse(tokens) == Ok::<(), Diagnostic>(()) <==> is_document(tokens),
{
    if is_document(tokens) {
        document_is_accepted(tokens);
    }
    if spec_parse(tokens) == Ok::<(), Diagnostic>(()) {
        let bare = without_line_breaks(tokens);
        lemma_line_breaks_may_go(Machine::initial(), tokens);
        lemma_no_line_break_is_left(tokens);
        let outline = lemma_outline(bare);
        let root = outline.root->0;
        assert(root.is_container() && bare == root.tokens());
    }
}

} // verus!
