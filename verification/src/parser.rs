//! Combinators that run other parsers in sequence, as alternatives or
//! repeatedly, and the two functions that start a parse.

use crate::chars::{chars_with_eot, EOT};
use crate::leaf::{eot, expected_eot, trailer};
use crate::tally::{tally_message, tally_of, Attempt, Tally};
use crate::types::{
    conforms, failed, is_parser, makes_progress, reanchor, ParseError, State, Status,
};
use vstd::prelude::*;

verus! {

/// What a combinator returns once its parsers have brought it to `out` and
/// its callback has given `verdict`: the callback's value in `out`, or the
/// callback's message as a failure that is anchored at `input` and reached
/// as far as `out`.
pub open spec fn concluded<T: Copy>(
    input: State<T>,
    out: State<T>,
    verdict: Result<T, String>,
) -> Status<T> {
    match verdict {
        Ok(value) => Ok(out.with_value(value)),
        Err(mesg) => Err(ParseError { output: input, max_index: out.index, mesg }),
    }
}

/// Turns the verdict of a callback into the outcome of the combinator that
/// asked for it.
pub fn conclude<T: Copy>(input: State<T>, out: State<T>, verdict: Result<T, String>) -> (result:
    Status<T>)
    ensures
        result == concluded(input, out, verdict),
{
    match verdict {
        Ok(value) => Ok(out.holding(value)),
        Err(mesg) => {
            let max_index = out.index;
            Err(ParseError { output: input, max_index, mesg })
        },
    }
}

/// `states` begins a run of `parsers` one after the other: each state but the
/// first is what the parser before it made of the state before it.
pub open spec fn threaded<T: Copy, P: Fn(State<T>) -> Status<T>>(
    parsers: Seq<P>,
    states: Seq<State<T>>,
) -> bool {
    &&& 1 <= states.len() <= parsers.len() + 1
    &&& forall|i: int|
        0 <= i < states.len() - 1 ==> call_ensures(
            #[trigger] parsers[i],
            (states[i],),
            Ok(states[i + 1]),
        )
}

/// The accumulators that a run of parsers left, in order.
pub open spec fn values_of<T: Copy>(states: Seq<State<T>>) -> Seq<T> {
    Seq::new((states.len() - 1) as nat, |i: int| states[i + 1].value)
}

/// How `sequence` ends after the run `states`: if every parser succeeded, as
/// the callback decides on the collected values; otherwise with the failure
/// of the parser that stopped the run, anchored at `input`.
pub open spec fn sequence_outcome<
    T: Copy,
    P: Fn(State<T>) -> Status<T>,
    E: Fn(Vec<T>) -> Result<T, String>,
>(input: State<T>, parsers: Seq<P>, eval: E, states: Seq<State<T>>, result: Status<T>) -> bool {
    if states.len() == parsers.len() + 1 {
        exists|values: Vec<T>, verdict: Result<T, String>|
            values@ == values_of(states) && #[trigger] call_ensures(eval, (values,), verdict)
                && result == concluded(input, states.last(), verdict)
    } else {
        exists|error: ParseError<T>| #[trigger]
            call_ensures(parsers[states.len() - 1], (states.last(),), Err(error)) && result
                == failed(input, error)
    }
}

/// sequence := e1 e2 e3...
///
/// Runs the parsers in order, each on the state the one before it left, and
/// hands the accumulators they leave to `eval`. The callback's value becomes
/// the accumulator of the final state; its message, or the failure of any
/// parser, becomes a failure anchored at `input`.
pub fn sequence<T: Copy, P: Fn(State<T>) -> Status<T>, E: Fn(Vec<T>) -> Result<T, String>>(
    input: State<T>,
    parsers: &Vec<P>,
    eval: E,
) -> (result: Status<T>)
    requires
        input.wf(),
        forall|i: int| 0 <= i < parsers.len() ==> is_parser(#[trigger] parsers[i]),
        forall|values: Vec<T>| call_requires(eval, (values,)),
    ensures
        conforms(input, result),
        result matches Err(error) ==> error.output == input,
        exists|states: Seq<State<T>>|
            states[0] == input && #[trigger] threaded(parsers@, states) && sequence_outcome(
                input,
                parsers@,
                eval,
                states,
                result,
            ),
{
    let mut values: Vec<T> = Vec::with_capacity(parsers.len());
    let mut out = input.copy();
    let ghost mut states: Seq<State<T>> = seq![input];
    let mut i: usize = 0;
    while i < parsers.len()
        invariant
            i <= parsers.len(),
            input.wf(),
            forall|k: int| 0 <= k < parsers.len() ==> is_parser(#[trigger] parsers[k]),
            states.len() == i + 1,
            states[0] == input,
            states.last() == out,
            threaded(parsers@, states),
            values@ == values_of(states),
            out.wf(),
            out.text@ == input.text@,
            out.index >= input.index,
        decreases parsers.len() - i,
    {
        let parser = &parsers[i];
        match parser(out) {
            Ok(answer) => {
                values.push(answer.value);
                proof {
                    let extended = states.push(answer);
                    assert forall|k: int| 0 <= k < extended.len() - 1 implies call_ensures(
                        #[trigger] parsers@[k],
                        (extended[k],),
                        Ok(extended[k + 1]),
                    ) by {
                        if k < states.len() - 1 {
                            assert(extended[k] == states[k]);
                            assert(extended[k + 1] == states[k + 1]);
                        }
                    }
                    assert(values@ =~= values_of(extended));
                    states = extended;
                }
                out = answer;
            },
            Err(error) => {
                return Err(reanchor(input, error));
            },
        }
        i += 1;
    }
    let verdict = eval(values);
    conclude(input, out, verdict)
}

/// What the failed attempts reported, in order, without their states.
pub open spec fn attempts_of<T: Copy>(errors: Seq<ParseError<T>>) -> Seq<Attempt> {
    Seq::new(errors.len(), |i: int| Attempt { max_index: errors[i].max_index, mesg: errors[i].mesg@ })
}

/// `errors` are failures of the first parsers, each run on `input`.
pub open spec fn all_failed<T: Copy, P: Fn(State<T>) -> Status<T>>(
    input: State<T>,
    parsers: Seq<P>,
    errors: Seq<ParseError<T>>,
) -> bool {
    &&& errors.len() <= parsers.len()
    &&& forall|i: int|
        0 <= i < errors.len() ==> call_ensures(#[trigger] parsers[i], (input,), Err(errors[i]))
}

/// How `alternative` ends after the failures `errors`: with the success of
/// the next parser if there is one, otherwise with a failure anchored at
/// `input` that reports what the tally of the failures stands for.
pub open spec fn alternative_outcome<T: Copy, P: Fn(State<T>) -> Status<T>>(
    input: State<T>,
    parsers: Seq<P>,
    errors: Seq<ParseError<T>>,
    result: Status<T>,
) -> bool {
    if errors.len() == parsers.len() {
        let tally = tally_of(input.index, attempts_of(errors));
        result matches Err(error) && error.output == input && error.max_index == tally.max_index
            && error.mesg@ == tally_message(tally)
    } else {
        result is Ok && call_ensures(parsers[errors.len() as int], (input,), result)
    }
}

/// alternative := e1 | e2 | e3...
///
/// Tries the parsers in order, each on `input`, and returns the first
/// success. If all fail, the failure is anchored at `input`, reaches as far
/// as the furthest attempt, and carries the message of the first attempt that
/// got there, or, if that message is empty, the distinct messages of the
/// attempts that did not get further than those before them, joined by
/// " or ".
pub fn alternative<T: Copy, P: Fn(State<T>) -> Status<T>>(input: State<T>, parsers: &Vec<P>) -> (result:
    Status<T>)
    requires
        input.wf(),
        forall|i: int| 0 <= i < parsers.len() ==> is_parser(#[trigger] parsers[i]),
    ensures
        conforms(input, result),
        exists|errors: Seq<ParseError<T>>| #[trigger]
            all_failed(input, parsers@, errors) && alternative_outcome(
                input,
                parsers@,
                errors,
                result,
            ),
{
    let mut tally = Tally::new(input.index);
    let ghost mut errors: Seq<ParseError<T>> = Seq::empty();
    let mut i: usize = 0;
    while i < parsers.len()
        invariant
            i <= parsers.len(),
            input.wf(),
            forall|k: int| 0 <= k < parsers.len() ==> is_parser(#[trigger] parsers[k]),
            errors.len() == i,
            all_failed(input, parsers@, errors),
            tally@ == tally_of(input.index, attempts_of(errors)),
        decreases parsers.len() - i,
    {
        let parser = &parsers[i];
        match parser(input.copy()) {
            Ok(answer) => {
                return Ok(answer);
            },
            Err(error) => {
                proof {
                    let extended = errors.push(error);
                    assert(attempts_of(extended).drop_last() =~= attempts_of(errors));
                    assert(attempts_of(extended).last() == Attempt {
                        max_index: error.max_index,
                        mesg: error.mesg@,
                    });
                    errors = extended;
                }
                tally.add(error.max_index, error.mesg);
            },
        }
        i += 1;
    }
    let max_index = tally.max_index;
    let mesg = tally.message();
    Err(ParseError { output: input, max_index, mesg })
}

/// `states` is a run of one parser applied again and again: each state but
/// the first is what the parser made of the state before it, and lies beyond
/// it.
pub open spec fn repeated<T: Copy, P: Fn(State<T>) -> Status<T>>(
    parser: P,
    states: Seq<State<T>>,
) -> bool {
    &&& states.len() >= 1
    &&& forall|i: int|
        0 <= i < states.len() - 1 ==> call_ensures(parser, (#[trigger] states[i],), Ok(states[i + 1]))
            && states[i + 1].index > states[i].index
}

/// `parser` matches nothing more at `state`: it fails there, or it succeeds
/// without getting beyond `state`, which counts as no match.
pub open spec fn stalls<T: Copy, P: Fn(State<T>) -> Status<T>>(parser: P, state: State<T>) -> bool {
    exists|outcome: Status<T>| #[trigger]
        call_ensures(parser, (state,), outcome) && (outcome matches Ok(out) ==> out.index
            <= state.index)
}

/// How a repetition ends after the run `states`: the parser matches nothing
/// more at the last state, and the callback decides on the collected values.
pub open spec fn repeat_outcome<
    T: Copy,
    P: Fn(State<T>) -> Status<T>,
    E: Fn(Vec<T>) -> Result<T, String>,
>(input: State<T>, parser: P, eval: E, states: Seq<State<T>>, result: Status<T>) -> bool {
    &&& stalls(parser, states.last())
    &&& exists|values: Vec<T>, verdict: Result<T, String>|
        values@ == values_of(states) && #[trigger] call_ensures(eval, (values,), verdict) && result
            == concluded(input, states.last(), verdict)
}

/// zero_or_more := e*
///
/// Runs `parser` again and again, each time on the state it left, for as
/// long as it matches and gets further, and hands the accumulators it left
/// to `eval`. The callback's value becomes the accumulator of the last state
/// reached; its message becomes a failure anchored at `input`. Matching
/// nothing is no failure. A success of `parser` that consumes nothing ends
/// the repetition as a failure would, so the repetition ends within the text
/// that is left, whatever `parser` does.
pub fn repeat_zero_or_more<
    T: Copy,
    P: Fn(State<T>) -> Status<T>,
    E: Fn(Vec<T>) -> Result<T, String>,
>(input: State<T>, parser: P, eval: E) -> (result: Status<T>)
    requires
        input.wf(),
        is_parser(parser),
        forall|values: Vec<T>| call_requires(eval, (values,)),
    ensures
        conforms(input, result),
        result matches Err(error) ==> error.output == input,
        exists|states: Seq<State<T>>|
            states[0] == input && #[trigger] repeated(parser, states) && repeat_outcome(
                input,
                parser,
                eval,
                states,
                result,
            ),
{
    let mut out = input.copy();
    let mut values: Vec<T> = Vec::new();
    let ghost mut states: Seq<State<T>> = seq![input];
    loop
        invariant
            input.wf(),
            is_parser(parser),
            forall|values: Vec<T>| call_requires(eval, (values,)),
            states[0] == input,
            states.last() == out,
            repeated(parser, states),
            values@ == values_of(states),
            out.wf(),
            out.text@ == input.text@,
            out.index >= input.index,
        decreases out.text@.len() - out.index,
    {
        let outcome = parser(out.copy());
        let ghost tried = outcome;
        match outcome {
            Ok(answer) if answer.index > out.index => {
                values.push(answer.value);
                proof {
                    let extended = states.push(answer);
                    assert forall|k: int| 0 <= k < extended.len() - 1 implies call_ensures(
                        parser,
                        (#[trigger] extended[k],),
                        Ok(extended[k + 1]),
                    ) && extended[k + 1].index > extended[k].index by {
                        if k < states.len() - 1 {
                            assert(extended[k] == states[k]);
                            assert(extended[k + 1] == states[k + 1]);
                        }
                    }
                    assert(values@ =~= values_of(extended));
                    states = extended;
                }
                out = answer;
            },
            _ => {
                assert(call_ensures(parser, (out,), tried));
                let verdict = eval(values);
                return conclude(input, out, verdict);
            },
        }
    }
}

/// What a repetition that must match at least once makes of the outcome
/// `inner` of the repetition itself: a success that did not get past `input`
/// becomes a failure with the message `mesg`.
pub open spec fn at_least_once<T: Copy>(
    input: State<T>,
    inner: Status<T>,
    mesg: Seq<char>,
    result: Status<T>,
) -> bool {
    match inner {
        Ok(out) => if out.index > input.index {
            result == inner
        } else {
            result matches Err(error) && error.output == input && error.max_index == out.index
                && error.mesg@ == mesg
        },
        Err(_) => result == inner,
    }
}

/// one_or_more := e+
///
/// As `repeat_zero_or_more`, but fails with `err_mesg`, anchored at `input`,
/// if the repetition ends where it began.
pub fn repeat_one_or_more<
    T: Copy,
    P: Fn(State<T>) -> Status<T>,
    E: Fn(Vec<T>) -> Result<T, String>,
>(input: State<T>, parser: P, eval: E, err_mesg: &str) -> (result: Status<T>)
    requires
        input.wf(),
        is_parser(parser),
        forall|values: Vec<T>| call_requires(eval, (values,)),
    ensures
        conforms(input, result),
        result matches Err(error) ==> error.output == input,
        exists|states: Seq<State<T>>, inner: Status<T>|
            #![trigger repeated(parser, states), repeat_outcome(input, parser, eval, states, inner)]
            states[0] == input && repeated(parser, states) && repeat_outcome(
                input,
                parser,
                eval,
                states,
                inner,
            ) && at_least_once(input, inner, err_mesg@, result),
{
    let start = input.index;
    match repeat_zero_or_more(input.copy(), parser, eval) {
        Ok(out) => {
            if out.index > start {
                Ok(out)
            } else {
                let max_index = out.index;
                Err(ParseError { output: input, max_index, mesg: err_mesg.to_string() })
            }
        },
        Err(error) => Err(error),
    }
}

/// optional := e?
///
/// Runs `parser` as often as it matches, as `repeat_zero_or_more` does: the
/// repetition is not cut short after the first match.
pub fn optional<T: Copy, P: Fn(State<T>) -> Status<T>, E: Fn(Vec<T>) -> Result<T, String>>(
    input: State<T>,
    parser: P,
    eval: E,
) -> (result: Status<T>)
    requires
        input.wf(),
        is_parser(parser),
        forall|values: Vec<T>| call_requires(eval, (values,)),
    ensures
        conforms(input, result),
        result matches Err(error) ==> error.output == input,
        exists|states: Seq<State<T>>|
            states[0] == input && #[trigger] repeated(parser, states) && repeat_outcome(
                input,
                parser,
                eval,
                states,
                result,
            ),
{
    repeat_zero_or_more(input, parser, eval)
}

/// Parses with a parser that is reached through a reference, so that a rule
/// of a grammar can name a parser that is defined after it, itself included.
pub fn forward_ref<T: Copy, P: Fn(State<T>) -> Status<T>>(input: State<T>, parser: &P) -> (result:
    Status<T>)
    requires
        input.wf(),
        is_parser(*parser),
    ensures
        conforms(input, result),
        call_ensures(*parser, (input,), result),
{
    parser(input)
}

/// `input` is the state in which a parse of `text` begins: at its first
/// symbol, on line 1, over the symbols of `text` closed by the end-of-text
/// marker, with `seed` for the accumulator.
pub open spec fn begins<T: Copy>(
    input: State<T>,
    file: Seq<char>,
    seed: T,
    text: Seq<char>,
) -> bool {
    &&& input.file@ == file
    &&& input.text@ == text.push(EOT)
    &&& input.index == 0
    &&& input.line == 1
    &&& input.value == seed
}

/// The state in which a parse of `text` begins.
pub fn begin<T: Copy>(file: &str, seed: T, text: &str) -> (input: State<T>)
    ensures
        begins(input, file@, seed, text@),
        input.wf(),
{
    State::new(file.to_string(), chars_with_eot(text), seed)
}

/// Parses `text` with `parser`. Text that `parser` leaves unread is no
/// failure.
pub fn just<T: Copy, P: Fn(State<T>) -> Status<T>>(file: &str, parser: P, seed: T, text: &str) -> (result:
    Status<T>)
    requires
        is_parser(parser),
    ensures
        exists|input: State<T>| #[trigger]
            begins(input, file@, seed, text@) && call_ensures(parser, (input,), result) && conforms(
                input,
                result,
            ),
{
    let input = begin(file, seed, text);
    parser(input)
}

/// How the end of the text is required at `last`, for a parse that began at
/// `input`: reaching it succeeds with `last`; anything else fails, anchored
/// at `input`, quoting what follows.
pub open spec fn ended<T: Copy>(input: State<T>, last: State<T>, result: Status<T>) -> bool {
    if last.current() == EOT {
        result == Ok::<State<T>, ParseError<T>>(last)
    } else {
        result matches Err(error) && error.output == input && error.max_index == last.index
            && error.mesg@ == expected_eot(trailer(last))
    }
}

/// How `everything` ends on `input`: as the sequence of `space`, `parser`
/// and the end of the text does, with the accumulator that `parser` left.
pub open spec fn everything_outcome<
    T: Copy,
    P: Fn(State<T>) -> Status<T>,
    S: Fn(State<T>) -> Status<T>,
>(input: State<T>, parser: P, space: S, result: Status<T>) -> bool {
    exists|spaced: Status<T>| #[trigger]
        call_ensures(space, (input,), spaced) && match spaced {
            Err(error) => result == failed(input, error),
            Ok(first) => exists|parsed: Status<T>| #[trigger]
                call_ensures(parser, (first,), parsed) && match parsed {
                    Err(error) => result == failed(input, error),
                    Ok(last) => ended(input, last, result),
                },
        }
}

/// Parses `text` with `parser`, after `space` has taken what leads it, and
/// fails unless `parser` reads the text to its end.
pub fn everything<T: Copy, P: Fn(State<T>) -> Status<T>, S: Fn(State<T>) -> Status<T>>(
    file: &str,
    parser: P,
    space: S,
    seed: T,
    text: &str,
) -> (result: Status<T>)
    requires
        is_parser(parser),
        is_parser(space),
    ensures
        exists|input: State<T>| #[trigger]
            begins(input, file@, seed, text@) && everything_outcome(input, parser, space, result)
                && conforms(input, result),
{
    let input = begin(file, seed, text);
    let spaced = space(input.copy());
    match spaced {
        Ok(first) => {
            let ghost first_state = first;
            let parsed = parser(first);
            match parsed {
                Ok(last) => {
                    let result = match eot(last) {
                        Ok(end) => Ok(end),
                        Err(error) => Err(reanchor(input, error)),
                    };
                    proof {
                        assert(call_ensures(space, (input,), spaced));
                        assert(call_ensures(parser, (first_state,), parsed));
                    }
                    result
                },
                Err(error) => {
                    proof {
                        assert(call_ensures(space, (input,), spaced));
                        assert(call_ensures(parser, (first_state,), parsed));
                    }
                    Err(reanchor(input, error))
                },
            }
        },
        Err(error) => {
            proof {
                assert(call_ensures(space, (input,), spaced));
            }
            Err(reanchor(input, error))
        },
    }
}

/// Every repetition ends. Each state of a run of a parser is well-formed,
/// over the same text, and at least one symbol further than the state before
/// it, so the run has no more states than there were symbols left when it
/// began.
pub proof fn lemma_repeated_is_bounded<T: Copy, P: Fn(State<T>) -> Status<T>>(
    parser: P,
    states: Seq<State<T>>,
)
    requires
        is_parser(parser),
        repeated(parser, states),
        states[0].wf(),
    ensures
        forall|i: int|
            0 <= i < states.len() ==> (#[trigger] states[i]).wf() && states[i].text@
                == states[0].text@ && states[i].index >= states[0].index + i,
        states.len() <= states[0].text@.len() - states[0].index,
    decreases states.len(),
{
    if states.len() > 1 {
        let front = states.drop_last();
        assert forall|i: int| 0 <= i < front.len() - 1 implies call_ensures(
            parser,
            (#[trigger] front[i],),
            Ok(front[i + 1]),
        ) && front[i + 1].index > front[i].index by {
            assert(front[i] == states[i]);
            assert(front[i + 1] == states[i + 1]);
        }
        lemma_repeated_is_bounded(parser, front);
        let n = states.len() - 2;
        assert(front[n] == states[n]);
        assert(front[0] == states[0]);
        assert(call_ensures(parser, (states[n],), Ok(states[n + 1])));
        assert(conforms(states[n], Ok(states[n + 1])));
        assert forall|i: int| 0 <= i < states.len() implies (#[trigger] states[i]).wf()
            && states[i].text@ == states[0].text@ && states[i].index >= states[0].index + i by {
            if i < front.len() {
                assert(front[i] == states[i]);
            }
        }
        assert(states[n + 1].index < states[0].text@.len());
    }
}

/// For a parser that makes progress, a repetition ends only where the parser
/// fails.
pub proof fn lemma_progress_stalls_by_failure<T: Copy, P: Fn(State<T>) -> Status<T>>(
    parser: P,
    state: State<T>,
)
    requires
        makes_progress(parser),
        state.wf(),
        stalls(parser, state),
    ensures
        exists|error: ParseError<T>| #[trigger] call_ensures(parser, (state,), Err(error)),
{
    let outcome = choose|outcome: Status<T>| #[trigger]
        call_ensures(parser, (state,), outcome) && (outcome matches Ok(out) ==> out.index
            <= state.index);
    match outcome {
        Ok(out) => {
            assert(call_ensures(parser, (state,), Ok(out)));
        },
        Err(error) => {
            assert(call_ensures(parser, (state,), Err(error)));
        },
    }
}

} // verus!
