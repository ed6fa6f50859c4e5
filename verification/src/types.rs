//! The data that every parser shares: the state threaded through a parse, the
//! error a failed parse reports, and what it means for a parser to conform.

use crate::chars::EOT;
use std::rc::Rc;
use vstd::prelude::*;

verus! {

/// A cursor into a symbol sequence together with the caller's accumulator.
///
/// A state is never changed in place: a parser that advances hands back a new
/// state over the same symbol sequence.
#[derive(Debug)]
pub struct State<T> {
    /// Names the source of the text, for diagnostics.
    pub file: Rc<String>,
    /// The symbols being parsed, closed by the end-of-text marker.
    pub text: Rc<Vec<char>>,
    /// Position of the next symbol to read.
    pub index: usize,
    /// Line on which that symbol stands.
    pub line: usize,
    /// The caller's accumulator.
    pub value: T,
}

/// What a failed parse reports.
#[derive(Debug)]
pub struct ParseError<T> {
    /// The state the failing parser was started on: the anchor of the error.
    pub output: State<T>,
    /// The furthest position that any attempt of the failed parse reached.
    pub max_index: usize,
    /// What was expected.
    pub mesg: String,
}

/// The outcome of one parser invocation.
pub type Status<T> = Result<State<T>, ParseError<T>>;

/// Hands out another handle on shared data.
///
/// Trusted: `Rc::clone` is taken to return a handle on the very value that
/// `rc` points to.
#[verifier::external_body]
pub(crate) fn share<A>(rc: &Rc<A>) -> (res: Rc<A>)
    ensures
        res == *rc,
{
    Rc::clone(rc)
}

impl<T: Copy> State<T> {
    /// The cursor stands on a symbol of a sequence that the end-of-text marker
    /// closes, and the line count does not run ahead of the cursor.
    pub open spec fn wf(&self) -> bool {
        &&& self.index < self.text@.len()
        &&& self.text@.last() == EOT
        &&& self.line <= self.index + 1
    }

    /// The symbol under the cursor.
    pub open spec fn current(&self) -> char {
        self.text@[self.index as int]
    }

    /// The state that differs from this one in the cursor and the line only.
    pub open spec fn moved_to(&self, index: usize, line: usize) -> Self {
        State { file: self.file, text: self.text, index, line, value: self.value }
    }

    /// The state that differs from this one in the accumulator only.
    pub open spec fn with_value(&self, value: T) -> Self {
        State { file: self.file, text: self.text, index: self.index, line: self.line, value }
    }

    /// Whether this state is well-formed.
    pub fn is_wf(&self) -> (ok: bool)
        ensures
            ok == self.wf(),
    {
        let len = self.text.len();
        self.index < len && self.text[len - 1] == EOT && self.line <= self.index + 1
    }

    /// The state at the start of `text`, on line 1.
    pub fn new(file: String, text: Vec<char>, value: T) -> (state: Self)
        ensures
            state.file@ == file@,
            state.text@ == text@,
            state.index == 0,
            state.line == 1,
            state.value == value,
    {
        State { file: Rc::new(file), text: Rc::new(text), index: 0, line: 1, value }
    }

    /// A second copy of this state, over the same symbol sequence.
    pub fn copy(&self) -> (state: Self)
        ensures
            state == *self,
    {
        State {
            file: share(&self.file),
            text: share(&self.text),
            index: self.index,
            line: self.line,
            value: self.value,
        }
    }

    /// This state with the cursor and the line replaced.
    pub fn at(self, index: usize, line: usize) -> (state: Self)
        ensures
            state == self.moved_to(index, line),
    {
        State { file: self.file, text: self.text, index, line, value: self.value }
    }

    /// This state with the accumulator replaced.
    pub fn holding(self, value: T) -> (state: Self)
        ensures
            state == self.with_value(value),
    {
        State { file: self.file, text: self.text, index: self.index, line: self.line, value }
    }

    /// The symbol at `i`, if that is a symbol of the text proper: neither the
    /// closing marker nor beyond it.
    pub fn symbol(&self, i: usize) -> (ch: Option<char>)
        ensures
            ch == self.spec_symbol(i as int),
    {
        if i < self.text.len() && i + 1 < self.text.len() {
            Some(self.text[i])
        } else {
            None
        }
    }

    /// The symbol of the text proper at `i`, if there is one.
    pub open spec fn spec_symbol(&self, i: int) -> Option<char> {
        if 0 <= i < self.text@.len() - 1 {
            Some(self.text@[i])
        } else {
            None
        }
    }
}

/// `error` as it is reported by a parser that was started on `input`.
pub open spec fn anchored<T: Copy>(input: State<T>, error: ParseError<T>) -> ParseError<T> {
    ParseError { output: input, max_index: error.max_index, mesg: error.mesg }
}

/// The failure `error`, anchored at `input`.
pub open spec fn failed<T: Copy>(input: State<T>, error: ParseError<T>) -> Status<T> {
    Err(anchored(input, error))
}

/// Moves the anchor of `error` to `input`, keeping how far it reached and
/// what it expected.
pub fn reanchor<T: Copy>(input: State<T>, error: ParseError<T>) -> (anchored_error: ParseError<T>)
    ensures
        anchored_error == anchored(input, error),
{
    ParseError { output: input, max_index: error.max_index, mesg: error.mesg }
}

/// The law that every parser obeys: a success neither goes backwards nor
/// leaves the symbol sequence, and a failure is anchored where the parser was
/// started.
pub open spec fn conforms<T: Copy>(input: State<T>, result: Status<T>) -> bool {
    match result {
        Ok(out) => out.wf() && out.text@ == input.text@ && out.index >= input.index,
        Err(error) => error.output.index == input.index,
    }
}

/// Whether two symbol sequences are the same.
pub fn same_text(first: &Vec<char>, second: &Vec<char>) -> (same: bool)
    ensures
        same == (first@ == second@),
{
    if first.len() != second.len() {
        return false;
    }
    let mut i: usize = 0;
    while i < first.len()
        invariant
            i <= first.len(),
            first.len() == second.len(),
            forall|k: int| 0 <= k < i ==> first@[k] == second@[k],
        decreases first.len() - i,
    {
        if first[i] != second[i] {
            return false;
        }
        i += 1;
    }
    assert(first@ =~= second@);
    true
}

/// Whether `result` is an outcome that a parser started on `input` may have:
/// the test of the law that every parser obeys.
pub fn obeys<T: Copy>(input: &State<T>, result: &Status<T>) -> (ok: bool)
    ensures
        ok == conforms(*input, *result),
{
    match result {
        Ok(out) => out.is_wf() && out.index >= input.index && same_text(&out.text, &input.text),
        Err(error) => error.output.index == input.index,
    }
}

/// `parser` can be run on every well-formed state, and each outcome conforms.
pub open spec fn is_parser<T: Copy, P: Fn(State<T>) -> Status<T>>(parser: P) -> bool {
    &&& forall|s: State<T>| s.wf() ==> #[trigger] call_requires(parser, (s,))
    &&& forall|s: State<T>, r: Status<T>|
        s.wf() && #[trigger] call_ensures(parser, (s,), r) ==> conforms(s, r)
}

/// `parser` is a parser whose every success consumes at least one symbol.
pub open spec fn makes_progress<T: Copy, P: Fn(State<T>) -> Status<T>>(parser: P) -> bool {
    &&& is_parser(parser)
    &&& forall|s: State<T>, out: State<T>|
        s.wf() && #[trigger] call_ensures(parser, (s,), Ok(out)) ==> out.index > s.index
}

} // verus!
