//! Parsers made from plain values: each function here returns a parser.

use crate::leaf::{expected, expected_message, match_len, scan_literal};
use crate::types::{conforms, is_parser, ParseError, State, Status};
use vstd::prelude::*;

verus! {

/// What the parser that `litv` makes returns on `input`: where `text` stands
/// at the cursor, the state behind it with `value` for the accumulator;
/// otherwise a failure that reached the first symbol that differs.
pub open spec fn litv_outcome<T: Copy>(
    input: State<T>,
    text: Seq<char>,
    value: T,
    result: Status<T>,
) -> bool {
    let k = match_len(input, text);
    if k < text.len() {
        result matches Err(error) && error.output == input && error.max_index == input.index + k
            && error.mesg@ == expected(text)
    } else {
        result == Ok::<State<T>, ParseError<T>>(
            input.moved_to((input.index + k) as usize, input.line).with_value(value),
        )
    }
}

/// A parser that matches `text` and, where it stands at the cursor, leaves
/// `value` as the accumulator.
pub fn litv<T: Copy>(text: String, value: T) -> (parser: impl Fn(State<T>) -> Status<T>)
    ensures
        is_parser(parser),
        forall|s: State<T>, r: Status<T>|
            s.wf() && #[trigger] call_ensures(parser, (s,), r) ==> litv_outcome(s, text@, value, r),
{
    move |input: State<T>| -> (result: Status<T>)
        requires
            input.wf(),
        ensures
            conforms(input, result),
            litv_outcome(input, text@, value, result),
        {
            match scan_literal(&input, text.as_str()) {
                Ok(end) => {
                    let line = input.line;
                    Ok(input.at(end, line).holding(value))
                },
                Err(at) => Err(
                    ParseError {
                        output: input,
                        max_index: at,
                        mesg: expected_message(text.as_str()),
                    },
                ),
            }
        }
}

/// What the parser that `fails` makes returns on `input`: a failure with the
/// message `mesg` that reached no further than `input`.
pub open spec fn fails_outcome<T: Copy>(input: State<T>, mesg: Seq<char>, result: Status<T>) -> bool {
    result matches Err(error) && error.output == input && error.max_index == input.index
        && error.mesg@ == mesg
}

/// A parser that always fails, with the message `mesg`.
pub fn fails<T: Copy>(mesg: String) -> (parser: impl Fn(State<T>) -> Status<T>)
    ensures
        is_parser(parser),
        forall|s: State<T>, r: Status<T>| #[trigger]
            call_ensures(parser, (s,), r) ==> fails_outcome(s, mesg@, r),
{
    move |input: State<T>| -> (result: Status<T>)
        ensures
            conforms(input, result),
            fails_outcome(input, mesg@, result),
        {
            let max_index = input.index;
            Err(ParseError { output: input, max_index, mesg: mesg.clone() })
        }
}

/// A parser that always succeeds without consuming anything, leaving `value`
/// as the accumulator.
pub fn return_value<T: Copy>(value: T) -> (parser: impl Fn(State<T>) -> Status<T>)
    ensures
        is_parser(parser),
        forall|s: State<T>, r: Status<T>| #[trigger]
            call_ensures(parser, (s,), r) ==> r == Ok::<State<T>, ParseError<T>>(s.with_value(value)),
{
    move |input: State<T>| -> (result: Status<T>)
        requires
            input.wf(),
        ensures
            conforms(input, result),
            result == Ok::<State<T>, ParseError<T>>(input.with_value(value)),
        { Ok(input.holding(value)) }
}

} // verus!
