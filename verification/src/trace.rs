//! The diagnostic hook: what a parser's outcome looks like in a trace. The
//! hook only describes; writing the description anywhere is the caller's
//! business.

use crate::chars::{munge_chars, munge_range, repeat_char, shown};
use crate::types::{conforms, State, Status};
use vstd::prelude::*;
use vstd::string::StringExecFns;

verus! {

/// How much a line of a trace matters.
#[derive(Debug, Clone, Copy, PartialEq, Eq, Structural)]
pub enum Level {
    /// A parser consumed text.
    Info,
    /// A parser passed without consuming, or failed.
    Debug,
}

/// The two lines that describe one outcome of a parser.
#[derive(Debug)]
pub struct Trace {
    /// How much the lines matter.
    pub level: Level,
    /// The text being parsed, one character for each symbol.
    pub text: String,
    /// A marker that points below the text at the place the outcome speaks
    /// of, and says what the parser did there.
    pub marker: String,
}

/// `count` copies of `ch`.
pub open spec fn fill(ch: char, count: usize) -> Seq<char> {
    Seq::new(count as nat, |i: int| ch)
}

/// The text of `input` as a trace shows it.
pub open spec fn shown_text<T: Copy>(input: State<T>) -> Seq<char> {
    input.text@.map_values(|ch: char| shown(ch))
}

/// The level at which `output` is traced: a success that consumed text is
/// information, anything else is for debugging.
pub open spec fn level_of<T: Copy>(input: State<T>, output: Status<T>) -> Level {
    match output {
        Ok(answer) => if answer.index > input.index {
            Level::Info
        } else {
            Level::Debug
        },
        Err(_) => Level::Debug,
    }
}

/// The marker line for `output`. A success is marked by blanks up to where
/// it ended and a caret, with the text it consumed if it consumed any; a
/// failure by dashes up to where it began and a caret.
pub open spec fn marker_of<T: Copy>(fun: Seq<char>, input: State<T>, output: Status<T>) -> Seq<char> {
    match output {
        Ok(answer) => if answer.index > input.index {
            fill(' ', answer.index) + "^ "@ + fun + " parsed \'"@ + shown_text(input).subrange(
                input.index as int,
                answer.index as int,
            ) + "\'"@
        } else {
            fill(' ', answer.index) + "^ "@ + fun + " passed"@
        },
        Err(_) => fill('-', input.index) + "^ "@ + fun + " failed"@,
    }
}

/// Describes the outcome `output` of the parser named `fun` on `input`.
pub fn trace<T: Copy>(fun: &str, input: &State<T>, output: &Status<T>) -> (lines: Trace)
    requires
        conforms(*input, *output),
    ensures
        lines.level == level_of(*input, *output),
        lines.text@ == shown_text(*input),
        lines.marker@ == marker_of(fun@, *input, *output),
{
    let text = munge_chars(&input.text);
    match output {
        Ok(answer) => {
            let mut marker = repeat_char(' ', answer.index);
            marker.append("^ ");
            marker.append(fun);
            if answer.index > input.index {
                assert(input.text@.subrange(input.index as int, answer.index as int).map_values(
                    |ch: char| shown(ch),
                ) =~= shown_text(*input).subrange(input.index as int, answer.index as int));
                marker.append(" parsed \'");
                marker.append(munge_range(&input.text, input.index, answer.index).as_str());
                marker.append("\'");
                Trace { level: Level::Info, text, marker }
            } else {
                marker.append(" passed");
                Trace { level: Level::Debug, text, marker }
            }
        },
        Err(_) => {
            let mut marker = repeat_char('-', input.index);
            marker.append("^ ");
            marker.append(fun);
            marker.append(" failed");
            Trace { level: Level::Debug, text, marker }
        },
    }
}

/// The hook through which a parser hands back its outcome. It holds the
/// outcome to the law of parsers and returns it unchanged.
pub fn plog<T: Copy>(fun: &str, input: &State<T>, output: Status<T>) -> (result: Status<T>)
    requires
        conforms(*input, output),
    ensures
        result == output,
{
    output
}

} // verus!
