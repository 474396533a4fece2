//! The structural validator: a stack machine over tokens that enforces
//! nesting, the alternation of keys and values, and the placing of commas.

use vstd::prelude::*;
use vstd::string::StringExecFns;
use crate::error::{following_line, next_line, Diagnostic, JSONError};
use crate::grammar::is_document;
use crate::outline::accepted_is_document;
use crate::token::{lexemes, Lexeme, Token};

verus! {

/// A container that is open: an object or an array, at the root or nested.
#[derive(Debug, PartialEq, Eq, Clone, Copy, Structural)]
pub enum ObjArr {
    RootArr,
    RootObj,
    Object,
    Array,
}

impl ObjArr {
    pub open spec fn is_object(self) -> bool {
        self is RootObj || self is Object
    }

    pub open spec fn is_root(self) -> bool {
        self is RootObj || self is RootArr
    }

    /// The marker for a container that opens while `depth` others are open.
    pub open spec fn marker(object: bool, depth: nat) -> ObjArr {
        if depth == 0 {
            if object {
                ObjArr::RootObj
            } else {
                ObjArr::RootArr
            }
        } else {
            if object {
                ObjArr::Object
            } else {
                ObjArr::Array
            }
        }
    }
}

/// The grammatical position of the validator.
#[derive(Debug, PartialEq, Eq, Clone, Copy, Structural)]
pub enum StateKind {
    Initial,
    OpenObj,
    OpenArr,
    ObjKey,
    ObjVal,
    AfterObjVal,
    ObjComma,
    ArrVal,
    ArrValAfterComma,
    End,
}

impl StateKind {
    /// The positions that lie inside an object.
    pub open spec fn in_object(self) -> bool {
        self is OpenObj || self is ObjKey || self is ObjVal || self is AfterObjVal
            || self is ObjComma
    }

    /// The positions that lie inside an array.
    pub open spec fn in_array(self) -> bool {
        self is OpenArr || self is ArrVal || self is ArrValAfterComma
    }
}

/// The validator as contracts speak of it: the position, the containers that
/// are open, outermost first, and the line of the next token.
pub struct Machine {
    pub kind: StateKind,
    pub stack: Seq<ObjArr>,
    pub line: int,
}

/// The message for a token that has no transition.
pub open spec fn unexpected_token(token: Lexeme, line: int) -> Diagnostic {
    Diagnostic { message: "Unexpected "@ + token.rendering(), line }
}

/// The message for a document that ends before its root container closed.
pub open spec fn unexpected_eof(line: int) -> Diagnostic {
    Diagnostic { message: "Unexpected EOF"@, line }
}

impl Machine {
    /// The validator before the first token.
    pub open spec fn initial() -> Machine {
        Machine { kind: StateKind::Initial, stack: Seq::empty(), line: 1 }
    }

    /// The stack holds one root marker, at the bottom, and the position lies
    /// in the kind of container that is innermost. Before the root opens and
    /// after it closed, nothing is open.
    pub open spec fn wf(self) -> bool {
        &&& forall|i: int| 0 <= i < self.stack.len() ==> (#[trigger] self.stack[i]).is_root() == (i == 0)
        &&& self.kind is Initial || self.kind is End ==> self.stack.len() == 0
        &&& self.kind.in_object() ==> self.stack.len() > 0 && self.stack.last().is_object()
        &&& self.kind.in_array() ==> self.stack.len() > 0 && !self.stack.last().is_object()
    }

    /// The position after a value is complete, inside the innermost of the
    /// containers of `stack`; the end where none is open.
    pub open spec fn after_value(stack: Seq<ObjArr>) -> StateKind {
        if stack.len() == 0 {
            StateKind::End
        } else if stack.last().is_object() {
            StateKind::AfterObjVal
        } else {
            StateKind::ArrVal
        }
    }

    /// A container opens: its marker goes on the stack.
    pub open spec fn open(self, object: bool) -> Machine {
        Machine {
            kind: if object {
                StateKind::OpenObj
            } else {
                StateKind::OpenArr
            },
            stack: self.stack.push(ObjArr::marker(object, self.stack.len())),
            line: self.line,
        }
    }

    /// The innermost container closes, if one is open and it is of the kind
    /// that the closing token names. A root marker leads to the end; a nested
    /// one leads back into the container around it.
    pub open spec fn close(self, object: bool) -> Option<Machine> {
        if self.stack.len() > 0 && self.stack.last().is_object() == object {
            Some(
                Machine {
                    kind: if self.stack.last().is_root() {
                        StateKind::End
                    } else {
                        Self::after_value(self.stack.drop_last())
                    },
                    stack: self.stack.drop_last(),
                    line: self.line,
                },
            )
        } else {
            None
        }
    }

    /// The same machine at another position.
    pub open spec fn at(self, kind: StateKind) -> Machine {
        Machine { kind, ..self }
    }

    /// What a token other than a line break leads to: the next machine, or
    /// nothing if the token has no transition from here.
    pub open spec fn transition(self, token: Lexeme) -> Option<Machine> {
        match self.kind {
            StateKind::Initial => match token {
                Lexeme::OpenBrace => Some(self.open(true)),
                Lexeme::OpenBracket => Some(self.open(false)),
                _ => None,
            },
            StateKind::OpenObj => match token {
                Lexeme::StringLiteral(_) => Some(self.at(StateKind::ObjKey)),
                Lexeme::ClosedBrace => self.close(true),
                _ => None,
            },
            StateKind::ObjKey => match token {
                Lexeme::Column => Some(self.at(StateKind::ObjVal)),
                _ => None,
            },
            StateKind::ObjVal => match token {
                Lexeme::OpenBrace => Some(self.open(true)),
                Lexeme::OpenBracket => Some(self.open(false)),
                _ => if token.is_scalar() {
                    Some(self.at(StateKind::AfterObjVal))
                } else {
                    None
                },
            },
            StateKind::AfterObjVal => match token {
                Lexeme::ClosedBrace => self.close(true),
                Lexeme::Comma => Some(self.at(StateKind::ObjComma)),
                _ => None,
            },
            StateKind::ObjComma => match token {
                Lexeme::StringLiteral(_) => Some(self.at(StateKind::ObjKey)),
                _ => None,
            },
            StateKind::OpenArr => match token {
                Lexeme::OpenBrace => Some(self.open(true)),
                Lexeme::OpenBracket => Some(self.open(false)),
                Lexeme::ClosedBracket => self.close(false),
                _ => if token.is_scalar() {
                    Some(self.at(StateKind::ArrVal))
                } else {
                    None
                },
            },
            StateKind::ArrValAfterComma => match token {
                Lexeme::OpenBrace => Some(self.open(true)),
                Lexeme::OpenBracket => Some(self.open(false)),
                _ => if token.is_scalar() {
                    Some(self.at(StateKind::ArrVal))
                } else {
                    None
                },
            },
            StateKind::ArrVal => match token {
                Lexeme::ClosedBracket => self.close(false),
                Lexeme::ClosedBrace => self.close(true),
                Lexeme::Comma => Some(self.at(StateKind::ArrValAfterComma)),
                _ => None,
            },
            StateKind::End => None,
        }
    }

    /// One token is consumed. A line break moves to the next line and
    /// changes nothing else; a token without a transition is reported at the
    /// line the machine is on.
    pub open spec fn advance(self, token: Lexeme) -> Result<Machine, Diagnostic> {
        if token is NewLine {
            Ok(Machine { line: next_line(self.line), ..self })
        } else {
            match self.transition(token) {
                Some(next) => Ok(next),
                None => Err(unexpected_token(token, self.line)),
            }
        }
    }

    /// The tokens are consumed from left to right, up to the first that has
    /// no transition.
    pub open spec fn run(self, tokens: Seq<Lexeme>) -> Result<Machine, Diagnostic>
        decreases tokens.len(),
    {
        if tokens.len() == 0 {
            Ok(self)
        } else {
            match self.run(tokens.drop_last()) {
                Ok(before) => before.advance(tokens.last()),
                Err(d) => Err(d),
            }
        }
    }
}

/// The verdict on a sequence of tokens: the first token without a transition
/// is reported; tokens that end anywhere but after the root container closed
/// are reported as cut short; everything else is accepted.
pub open spec fn spec_parse(tokens: Seq<Lexeme>) -> Result<(), Diagnostic> {
    match Machine::initial().run(tokens) {
        Ok(end) => if end.kind is End {
            Ok(())
        } else {
            Err(unexpected_eof(end.line))
        },
        Err(d) => Err(d),
    }
}

/// A verdict as contracts speak of it.
pub open spec fn verdict(r: Result<(), JSONError>) -> Result<(), Diagnostic> {
    match r {
        Ok(_) => Ok(()),
        Err(e) => Err(e@),
    }
}

/// The validator: a position, the stack of open containers, and the line of
/// the next token.
#[derive(Debug)]
pub struct State {
    state_kind: StateKind,
    obj_arr_stack: Vec<ObjArr>,
    line: i64,
}

impl View for State {
    type V = Machine;

    closed spec fn view(&self) -> Machine {
        Machine { kind: self.state_kind, stack: self.obj_arr_stack@, line: self.line as int }
    }
}

fn unexpected(token: &Token, line: i64) -> (e: JSONError)
    ensures
        e@ == unexpected_token(token@, line as int),
{
    let mut message = String::from_str("Unexpected ");
    let name = token.to_string();
    message.append(name.as_str());
    JSONError::new(message, line)
}

impl State {
    pub fn new() -> (state: State)
        ensures
            state@ == Machine::initial(),
            state@.wf(),
    {
        State { state_kind: StateKind::Initial, obj_arr_stack: Vec::new(), line: 1 }
    }

    /// The position the validator is at.
    pub fn kind(&self) -> (kind: StateKind)
        ensures
            kind == self@.kind,
    {
        self.state_kind
    }

    /// The number of containers that are open.
    pub fn depth(&self) -> (depth: usize)
        ensures
            depth == self@.stack.len(),
    {
        self.obj_arr_stack.len()
    }

    /// The line of the next token.
    pub fn line(&self) -> (line: i64)
        ensures
            line == self@.line,
    {
        self.line
    }

    pub fn open_obj(&mut self)
        ensures
            final(self)@ == old(self)@.open(true),
            old(self)@.wf() ==> final(self)@.wf(),
    {
        proof {
            lemma_open_keeps_wf(self@, true);
        }
        let marker = if self.obj_arr_stack.len() > 0 {
            ObjArr::Object
        } else {
            ObjArr::RootObj
        };
        self.state_kind = StateKind::OpenObj;
        self.obj_arr_stack.push(marker);
    }

    pub fn open_arr(&mut self)
        ensures
            final(self)@ == old(self)@.open(false),
            old(self)@.wf() ==> final(self)@.wf(),
    {
        proof {
            lemma_open_keeps_wf(self@, false);
        }
        let marker = if self.obj_arr_stack.len() > 0 {
            ObjArr::Array
        } else {
            ObjArr::RootArr
        };
        self.state_kind = StateKind::OpenArr;
        self.obj_arr_stack.push(marker);
    }

    /// Where the validator stands once a nested container has closed.
    fn resume(&self) -> (kind: StateKind)
        ensures
            kind == Machine::after_value(self@.stack),
    {
        let depth = self.obj_arr_stack.len();
        if depth == 0 {
            StateKind::End
        } else {
            match self.obj_arr_stack[depth - 1] {
                ObjArr::RootObj | ObjArr::Object => StateKind::AfterObjVal,
                ObjArr::RootArr | ObjArr::Array => StateKind::ArrVal,
            }
        }
    }

    /// Closes the innermost container on `}`. Where none is open, or the
    /// innermost is an array, the brace is reported and nothing changes.
    pub fn close_obj(&mut self) -> (r: Result<(), JSONError>)
        ensures
            match r {
                Ok(_) => old(self)@.close(true) == Some(final(self)@),
                Err(e) => old(self)@.close(true) is None && *final(self) == *old(self) && e@
                    == unexpected_token(Lexeme::ClosedBrace, old(self)@.line),
            },
            old(self)@.wf() ==> final(self)@.wf(),
    {
        proof {
            lemma_close_keeps_wf(self@, true);
        }
        let depth = self.obj_arr_stack.len();
        if depth == 0 {
            return Err(unexpected(&Token::ClosedBrace, self.line));
        }
        match self.obj_arr_stack[depth - 1] {
            ObjArr::RootObj => {
                self.obj_arr_stack.pop();
                self.state_kind = StateKind::End;
            },
            ObjArr::Object => {
                self.obj_arr_stack.pop();
                self.state_kind = self.resume();
            },
            _ => {
                return Err(unexpected(&Token::ClosedBrace, self.line));
            },
        }
        Ok(())
    }

    /// Closes the innermost container on `]`. Where none is open, or the
    /// innermost is an object, the bracket is reported and nothing changes.
    pub fn close_arr(&mut self) -> (r: Result<(), JSONError>)
        ensures
            match r {
                Ok(_) => old(self)@.close(false) == Some(final(self)@),
                Err(e) => old(self)@.close(false) is None && *final(self) == *old(self) && e@
                    == unexpected_token(Lexeme::ClosedBracket, old(self)@.line),
            },
            old(self)@.wf() ==> final(self)@.wf(),
    {
        proof {
            lemma_close_keeps_wf(self@, false);
        }
        let depth = self.obj_arr_stack.len();
        if depth == 0 {
            return Err(unexpected(&Token::ClosedBracket, self.line));
        }
        match self.obj_arr_stack[depth - 1] {
            ObjArr::RootArr => {
                self.obj_arr_stack.pop();
                self.state_kind = StateKind::End;
            },
            ObjArr::Array => {
                self.obj_arr_stack.pop();
                self.state_kind = self.resume();
            },
            _ => {
                return Err(unexpected(&Token::ClosedBracket, self.line));
            },
        }
        Ok(())
    }

    /// Consumes one token. A token without a transition is reported and
    /// leaves the validator as it was.
    pub fn advance(&mut self, token: &Token) -> (r: Result<(), JSONError>)
        ensures
            match r {
                Ok(_) => old(self)@.advance(token@) == Ok::<Machine, Diagnostic>(final(self)@),
                Err(e) => old(self)@.advance(token@) == Err::<Machine, Diagnostic>(e@)
                    && *final(self) == *old(self),
            },
            old(self)@.wf() ==> final(self)@.wf(),
    {
        proof {
            lemma_advance_keeps_wf(self@, token@);
        }
        match (self.state_kind, token) {
            (_, Token::NewLine) => {
                self.line = following_line(self.line);
            },
            (StateKind::Initial, Token::OpenBrace) => {
                self.open_obj();
            },
            (StateKind::Initial, Token::OpenBracket) => {
                self.open_arr();
            },
            (StateKind::OpenObj, Token::StringLiteral(_)) => {
                self.state_kind = StateKind::ObjKey;
            },
            (StateKind::OpenObj, Token::ClosedBrace) => {
                return self.close_obj();
            },
            (StateKind::OpenArr, Token::ClosedBracket) => {
                return self.close_arr();
            },
            (
                StateKind::OpenArr | StateKind::ArrValAfterComma | StateKind::ObjVal,
                Token::OpenBrace,
            ) => {
                self.open_obj();
            },
            (
                StateKind::OpenArr | StateKind::ArrValAfterComma | StateKind::ObjVal,
                Token::OpenBracket,
            ) => {
                self.open_arr();
            },
            (
                StateKind::OpenArr | StateKind::ArrValAfterComma,
                Token::StringLiteral(_)
                | Token::BoolFalse
                | Token::BoolTrue
                | Token::Null
                | Token::Number(_),
            ) => {
                self.state_kind = StateKind::ArrVal;
            },
            (StateKind::ObjKey, Token::Column) => {
                self.state_kind = StateKind::ObjVal;
            },
            (StateKind::ArrVal, Token::ClosedBracket) => {
                return self.close_arr();
            },
            (StateKind::ArrVal, Token::ClosedBrace) => {
                return self.close_obj();
            },
            (StateKind::ArrVal, Token::Comma) => {
                self.state_kind = StateKind::ArrValAfterComma;
            },
            (
                StateKind::ObjVal,
                Token::StringLiteral(_)
                | Token::BoolFalse
                | Token::BoolTrue
                | Token::Null
                | Token::Number(_),
            ) => {
                self.state_kind = StateKind::AfterObjVal;
            },
            (StateKind::AfterObjVal, Token::ClosedBrace) => {
                return self.close_obj();
            },
            (StateKind::AfterObjVal, Token::Comma) => {
                self.state_kind = StateKind::ObjComma;
            },
            (StateKind::ObjComma, Token::StringLiteral(_)) => {
                self.state_kind = StateKind::ObjKey;
            },
            (_, token) => {
                return Err(unexpected(token, self.line));
            },
        }
        Ok(())
    }
}

/// Validates the structure of a sequence of tokens: one root object or
/// array, properly nested, and nothing but line breaks after it.
pub fn parse(tokens: Vec<Token>) -> (r: Result<(), JSONError>)
    ensures
        verdict(r) == spec_parse(lexemes(tokens@)),
        r is Ok <==> is_document(lexemes(tokens@)),
{
    let mut state = State::new();
    let mut i: usize = 0;
    while i < tokens.len()
        invariant
            0 <= i <= tokens.len(),
            Machine::initial().run(lexemes(tokens@).take(i as int)) == Ok::<Machine, Diagnostic>(
                state@,
            ),
        decreases tokens.len() - i,
    {
        proof {
            let all = lexemes(tokens@);
            assert(all.take(i + 1).drop_last() =~= all.take(i as int));
            assert(all.take(i + 1).last() == tokens@[i as int]@);
        }
        match state.advance(&tokens[i]) {
            Ok(_) => {},
            Err(e) => {
                proof {
                    lemma_run_stops(Machine::initial(), lexemes(tokens@), i + 1);
                    accepted_is_document(lexemes(tokens@));
                }
                return Err(e);
            },
        }
        i = i + 1;
    }
    proof {
        assert(lexemes(tokens@).take(i as int) =~= lexemes(tokens@));
        accepted_is_document(lexemes(tokens@));
    }
    if state.kind() != StateKind::End {
        return Err(JSONError::new(String::from_str("Unexpected EOF"), state.line()));
    }
    Ok(())
}

/// A run that fails on a prefix of the tokens fails in the same way on all of
/// them: the first defect decides.
pub proof fn lemma_run_stops(start: Machine, tokens: Seq<Lexeme>, n: int)
    requires
        0 <= n <= tokens.len(),
        start.run(tokens.take(n)) is Err,
    ensures
        start.run(tokens) == start.run(tokens.take(n)),
    decreases tokens.len(),
{
    if n < tokens.len() {
        assert(tokens.drop_last().take(n) =~= tokens.take(n));
        lemma_run_stops(start, tokens.drop_last(), n);
    } else {
        assert(tokens.take(n) =~= tokens);
    }
}

/// Running two sequences of tokens one after the other is running their
/// concatenation.
pub proof fn lemma_run_concat(start: Machine, first: Seq<Lexeme>, second: Seq<Lexeme>)
    ensures
        start.run(first + second) == match start.run(first) {
            Ok(middle) => middle.run(second),
            Err(d) => Err(d),
        },
    decreases second.len(),
{
    if second.len() == 0 {
        assert(first + second =~= first);
    } else {
        assert((first + second).drop_last() =~= first + second.drop_last());
        assert((first + second).last() == second.last());
        lemma_run_concat(start, first, second.drop_last());
    }
}

/// Running a single token is one step.
pub proof fn lemma_run_one(start: Machine, token: Lexeme)
    ensures
        start.run(seq![token]) == start.advance(token),
{
    assert(seq![token].drop_last() =~= Seq::<Lexeme>::empty());
    assert(start.run(Seq::<Lexeme>::empty()) == Ok::<Machine, Diagnostic>(start));
}

/// A container that opens keeps the machine well formed.
pub proof fn lemma_open_keeps_wf(m: Machine, object: bool)
    ensures
        m.wf() ==> m.open(object).wf(),
{
    let next = m.open(object);
    if m.wf() {
        assert forall|i: int| 0 <= i < next.stack.len() implies (#[trigger] next.stack[i]).is_root()
            == (i == 0) by {
            if i < m.stack.len() {
                assert(next.stack[i] == m.stack[i]);
            }
        }
    }
}

/// A container that closes keeps the machine well formed.
pub proof fn lemma_close_keeps_wf(m: Machine, object: bool)
    ensures
        m.wf() ==> (m.close(object) matches Some(next) ==> next.wf()),
{
    if m.wf() {
        if let Some(next) = m.close(object) {
            assert forall|i: int| 0 <= i < next.stack.len() implies (
            #[trigger] next.stack[i]).is_root() == (i == 0) by {
                assert(next.stack[i] == m.stack[i]);
            }
            assert(m.stack.last() == m.stack[m.stack.len() - 1]);
        }
    }
}

/// A step keeps the machine well formed.
pub proof fn lemma_advance_keeps_wf(m: Machine, token: Lexeme)
    ensures
        m.wf() ==> (m.advance(token) matches Ok(next) ==> next.wf()),
{
    lemma_open_keeps_wf(m, true);
    lemma_open_keeps_wf(m, false);
    lemma_close_keeps_wf(m, true);
    lemma_close_keeps_wf(m, false);
}

/// A run keeps the machine well formed.
pub proof fn lemma_run_keeps_wf(start: Machine, tokens: Seq<Lexeme>)
    requires
        start.wf(),
    ensures
        start.run(tokens) matches Ok(end) ==> end.wf(),
    decreases tokens.len(),
{
    if tokens.len() > 0 {
        lemma_run_keeps_wf(start, tokens.drop_last());
        if let Ok(before) = start.run(tokens.drop_last()) {
            lemma_advance_keeps_wf(before, tokens.last());
        }
    }
}

/// Tokens that end while a container is still open are reported as cut
/// short, at the line they end on.
pub proof fn lemma_unclosed_is_cut_short(tokens: Seq<Lexeme>)
    requires
        Machine::initial().run(tokens) matches Ok(end) && end.stack.len() > 0,
    ensures
        spec_parse(tokens) == Err::<(), Diagnostic>(
            unexpected_eof(Machine::initial().run(tokens)->Ok_0.line),
        ),
{
    lemma_run_keeps_wf(Machine::initial(), tokens);
}

/// A comma that a closing brace or bracket follows, with nothing but line
/// breaks between them, is never accepted: if the tokens up to the comma
/// have their transitions, the closing token is reported, at its line;
/// otherwise the first of them that has none is.
pub proof fn lemma_trailing_comma_is_rejected(tokens: Seq<Lexeme>, comma: int, closer: int)
    requires
        0 <= comma < closer < tokens.len(),
        tokens[comma] is Comma,
        tokens[closer] is ClosedBrace || tokens[closer] is ClosedBracket,
        forall|i: int| comma < i < closer ==> tokens[i] is NewLine,
    ensures
        spec_parse(tokens) is Err,
        Machine::initial().run(tokens.take(closer)) matches Ok(before) ==> spec_parse(tokens)
            == Err::<(), Diagnostic>(unexpected_token(tokens[closer], before.line)),
{
    lemma_after_comma(tokens, comma, closer);
    assert(tokens.take(closer + 1).drop_last() =~= tokens.take(closer));
    match Machine::initial().run(tokens.take(closer)) {
        Ok(before) => {
            assert(Machine::initial().run(tokens.take(closer + 1)) is Err);
            lemma_run_stops(Machine::initial(), tokens, closer + 1);
        },
        Err(_) => {
            lemma_run_stops(Machine::initial(), tokens, closer);
        },
    }
}

/// After a comma and any number of line breaks, the machine waits for the
/// next key or the next element.
proof fn lemma_after_comma(tokens: Seq<Lexeme>, comma: int, upto: int)
    requires
        0 <= comma < upto <= tokens.len(),
        tokens[comma] is Comma,
        forall|i: int| comma < i < upto ==> tokens[i] is NewLine,
    ensures
        Machine::initial().run(tokens.take(upto)) matches Ok(m) ==> m.kind is ObjComma
            || m.kind is ArrValAfterComma,
    decreases upto - comma,
{
    assert(tokens.take(upto).drop_last() =~= tokens.take(upto - 1));
    if upto - 1 > comma {
        lemma_after_comma(tokens, comma, upto - 1);
    }
}

} // verus!
