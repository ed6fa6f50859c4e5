//! The operator chain: a left-hand side followed by any number of operators
//! with their right-hand sides, combined from the left.

use crate::types::{conforms, failed, is_parser, reanchor, ParseError, State, Status};
use vstd::prelude::*;

verus! {

/// The greater of two positions.
pub open spec fn spec_max(a: usize, b: usize) -> usize {
    if a >= b {
        a
    } else {
        b
    }
}

/// The furthest of `index` and the positions `reached`.
pub open spec fn furthest(index: usize, reached: Seq<usize>) -> usize
    decreases reached.len(),
{
    if reached.len() == 0 {
        index
    } else {
        spec_max(furthest(index, reached.drop_last()), reached.last())
    }
}

/// What the furthest position is: no less than `index` and than each of the
/// positions `reached`, and one of them.
pub proof fn lemma_furthest(index: usize, reached: Seq<usize>)
    ensures
        furthest(index, reached) >= index,
        forall|i: int| 0 <= i < reached.len() ==> furthest(index, reached) >= #[trigger] reached[i],
        furthest(index, reached) == index || exists|i: int|
            0 <= i < reached.len() && furthest(index, reached) == #[trigger] reached[i],
    decreases reached.len(),
{
    if reached.len() > 0 {
        let front = reached.drop_last();
        lemma_furthest(index, front);
        assert forall|i: int| 0 <= i < reached.len() implies furthest(index, reached)
            >= #[trigger] reached[i] by {
            if i < front.len() {
                assert(front[i] == reached[i]);
            }
        }
        if furthest(index, reached) != index {
            if furthest(index, reached) == reached.last() {
                assert(reached[reached.len() - 1] == furthest(index, reached));
            } else {
                let i = choose|i: int|
                    0 <= i < front.len() && furthest(index, front) == #[trigger] front[i];
                assert(reached[i] == front[i]);
            }
        }
    }
}

/// What holds of the parts of an arm wherever it is tried: its operator and
/// its right-hand side are parsers, and its combiner takes any two values.
pub open spec fn is_arm<
    T: Copy,
    P: Fn(State<T>) -> Status<T>,
    Q: Fn(State<T>) -> Status<T>,
    C: Fn(T, T) -> Result<T, String>,
>(arm: (P, Q, C)) -> bool {
    &&& is_parser(arm.0)
    &&& is_parser(arm.1)
    &&& forall|a: T, b: T| call_requires(arm.2, (a, b))
}

/// The operator of the arm followed by its right-hand side consumes at least
/// one symbol whenever both succeed.
pub open spec fn arm_makes_progress<
    T: Copy,
    P: Fn(State<T>) -> Status<T>,
    Q: Fn(State<T>) -> Status<T>,
    C: Fn(T, T) -> Result<T, String>,
>(arm: (P, Q, C)) -> bool {
    forall|s: State<T>, mid: State<T>, out: State<T>|
        s.wf() && #[trigger] call_ensures(arm.0, (s,), Ok(mid)) && #[trigger] call_ensures(
            arm.1,
            (mid,),
            Ok(out),
        ) ==> out.index > s.index
}

/// The arm does not match at `input`: its operator fails there, or its
/// right-hand side fails behind the operator; the failure reached `reach`.
pub open spec fn arm_failed<
    T: Copy,
    P: Fn(State<T>) -> Status<T>,
    Q: Fn(State<T>) -> Status<T>,
    C: Fn(T, T) -> Result<T, String>,
>(input: State<T>, arm: (P, Q, C), reach: usize) -> bool {
    ||| exists|error: ParseError<T>| #[trigger]
        call_ensures(arm.0, (input,), Err(error)) && error.max_index == reach
    ||| exists|mid: State<T>, error: ParseError<T>|
        #![trigger call_ensures(arm.0, (input,), Ok(mid)), call_ensures(arm.1, (mid,), Err(error))]
        call_ensures(arm.0, (input,), Ok(mid)) && call_ensures(arm.1, (mid,), Err(error))
            && error.max_index == reach
}

/// The first arms do not match at `input`, and `reached` says how far the
/// failure of each got.
pub open spec fn arms_failed<
    T: Copy,
    P: Fn(State<T>) -> Status<T>,
    Q: Fn(State<T>) -> Status<T>,
    C: Fn(T, T) -> Result<T, String>,
>(input: State<T>, arms: Seq<(P, Q, C)>, reached: Seq<usize>) -> bool {
    &&& reached.len() <= arms.len()
    &&& forall|i: int| 0 <= i < reached.len() ==> arm_failed(input, #[trigger] arms[i], reached[i])
}

/// What an arm that matched behind `input` at `out` yields once its combiner
/// has given `verdict`: the combined value in `out`, or the combiner's
/// message as a failure anchored at `input` that reached `far`.
pub open spec fn combined<T: Copy>(
    input: State<T>,
    out: State<T>,
    far: usize,
    verdict: Result<T, String>,
) -> Status<T> {
    match verdict {
        Ok(value) => Ok(out.with_value(value)),
        Err(mesg) => Err(ParseError { output: input, max_index: far, mesg }),
    }
}

/// How one scan of the arms ends after the first arms failed as `reached`
/// says. If no arm is left, the scan fails with an empty message, which
/// stands for "no arm matches here". Otherwise the next arm matches: its
/// operator and right-hand side succeed in turn, and its combiner decides on
/// the accumulator of `input` and the value of the right-hand side.
pub open spec fn arms_outcome<
    T: Copy,
    P: Fn(State<T>) -> Status<T>,
    Q: Fn(State<T>) -> Status<T>,
    C: Fn(T, T) -> Result<T, String>,
>(input: State<T>, arms: Seq<(P, Q, C)>, reached: Seq<usize>, result: Status<T>) -> bool {
    let far = furthest(input.index, reached);
    if reached.len() == arms.len() {
        result matches Err(error) && error.output == input && error.max_index == far
            && error.mesg@.len() == 0
    } else {
        let arm = arms[reached.len() as int];
        exists|mid: State<T>, out: State<T>, verdict: Result<T, String>|
            #![trigger call_ensures(arm.0, (input,), Ok(mid)), call_ensures(arm.1, (mid,), Ok(out)), call_ensures(arm.2, (input.value, out.value), verdict)]
            call_ensures(arm.0, (input,), Ok(mid)) && call_ensures(arm.1, (mid,), Ok(out))
                && call_ensures(arm.2, (input.value, out.value), verdict) && result == combined(
                input,
                out,
                far,
                verdict,
            )
    }
}

/// `result` is a possible outcome of one scan of the arms at `input`.
pub open spec fn arms_result<
    T: Copy,
    P: Fn(State<T>) -> Status<T>,
    Q: Fn(State<T>) -> Status<T>,
    C: Fn(T, T) -> Result<T, String>,
>(input: State<T>, arms: Seq<(P, Q, C)>, result: Status<T>) -> bool {
    exists|reached: Seq<usize>| #[trigger]
        arms_failed(input, arms, reached) && arms_outcome(input, arms, reached, result)
}

/// Turns the verdict of an arm's combiner into the outcome of the scan.
pub fn combine<T: Copy>(input: State<T>, out: State<T>, far: usize, verdict: Result<T, String>) -> (result:
    Status<T>)
    ensures
        result == combined(input, out, far, verdict),
{
    match verdict {
        Ok(value) => Ok(out.holding(value)),
        Err(mesg) => Err(ParseError { output: input, max_index: far, mesg }),
    }
}

/// One scan of the arms of an operator chain at `input`.
///
/// Tries the arms in order: the operator on `input`, then the right-hand
/// side behind it. The first arm of which both succeed decides the scan: its
/// combiner is given the accumulator of `input` and the value of the
/// right-hand side, and its value becomes the accumulator behind the
/// right-hand side, while its message becomes a failure. If no arm matches,
/// the scan fails with an empty message. Every failure is anchored at
/// `input` and reaches as far as the furthest of the arms that failed.
pub fn binary_op_arms<
    T: Copy,
    P: Fn(State<T>) -> Status<T>,
    Q: Fn(State<T>) -> Status<T>,
    C: Fn(T, T) -> Result<T, String>,
>(input: State<T>, arms: &Vec<(P, Q, C)>) -> (result: Status<T>)
    requires
        input.wf(),
        forall|i: int| 0 <= i < arms.len() ==> is_arm(#[trigger] arms[i]),
    ensures
        conforms(input, result),
        result matches Err(error) ==> error.output == input,
        arms_result(input, arms@, result),
{
    let mut i: usize = 0;
    let mut max_index = input.index;
    let ghost mut reached: Seq<usize> = Seq::empty();
    while i < arms.len()
        invariant
            i <= arms.len(),
            input.wf(),
            forall|k: int| 0 <= k < arms.len() ==> is_arm(#[trigger] arms[k]),
            reached.len() == i,
            arms_failed(input, arms@, reached),
            max_index == furthest(input.index, reached),
        decreases arms.len() - i,
    {
        let arm = &arms[i];
        let ghost reach: usize;
        match (arm.0)(input.copy()) {
            Ok(op_out) => {
                let ghost mid = op_out;
                match (arm.1)(op_out) {
                    Ok(rhs_out) => {
                        let verdict = (arm.2)(input.value, rhs_out.value);
                        let result = combine(input, rhs_out, max_index, verdict);
                        proof {
                            assert(call_ensures(arm.0, (input,), Ok(mid)));
                            assert(call_ensures(arm.1, (mid,), Ok(rhs_out)));
                            assert(arms_outcome(input, arms@, reached, result));
                        }
                        return result;
                    },
                    Err(error) => {
                        proof {
                            reach = error.max_index;
                            assert(call_ensures(arm.0, (input,), Ok(mid)));
                            assert(call_ensures(arm.1, (mid,), Err(error)));
                            assert(arm_failed(input, arms@[i as int], reach));
                        }
                        max_index = if max_index >= error.max_index {
                            max_index
                        } else {
                            error.max_index
                        };
                    },
                }
            },
            Err(error) => {
                proof {
                    reach = error.max_index;
                    assert(call_ensures(arm.0, (input,), Err(error)));
                    assert(arm_failed(input, arms@[i as int], reach));
                }
                max_index = if max_index >= error.max_index {
                    max_index
                } else {
                    error.max_index
                };
            },
        }
        proof {
            let extended = reached.push(reach);
            assert(extended.drop_last() =~= reached);
            assert forall|k: int| 0 <= k < extended.len() implies arm_failed(
                input,
                #[trigger] arms@[k],
                extended[k],
            ) by {
                if k < reached.len() {
                    assert(extended[k] == reached[k]);
                }
            }
            reached = extended;
        }
        i += 1;
    }
    let result = Err(ParseError { output: input, max_index, mesg: String::new() });
    assert(arms_outcome(input, arms@, reached, result));
    result
}

/// `states` is a run of scans of the arms: each state but the first is what
/// a scan made of the state before it, and lies beyond it.
pub open spec fn chained<
    T: Copy,
    P: Fn(State<T>) -> Status<T>,
    Q: Fn(State<T>) -> Status<T>,
    C: Fn(T, T) -> Result<T, String>,
>(arms: Seq<(P, Q, C)>, states: Seq<State<T>>) -> bool {
    &&& states.len() >= 1
    &&& forall|i: int|
        0 <= i < states.len() - 1 ==> arms_result(#[trigger] states[i], arms, Ok(states[i + 1]))
            && states[i + 1].index > states[i].index
}

/// How an operator chain ends once the scan at `last` matched nothing more.
/// A scan that failed with an empty message found no arm that matches, and
/// one that succeeded without getting beyond `last` counts the same: the
/// chain is complete at `last`. Any other message is the rejection of a
/// combiner, and is reported anchored at `input`.
pub open spec fn chain_end<T: Copy>(input: State<T>, last: State<T>, scan: Status<T>) -> Status<T> {
    match scan {
        Ok(_) => Ok(last),
        Err(error) => if error.mesg@.len() == 0 {
            Ok(last)
        } else {
            failed(input, error)
        },
    }
}

/// How `binary_op` ends: with the failure of the left-hand side, or, after
/// the run `states` that the left-hand side began, as the scan that matched
/// nothing more at the last state says.
pub open spec fn chain_outcome<
    T: Copy,
    L: Fn(State<T>) -> Status<T>,
    P: Fn(State<T>) -> Status<T>,
    Q: Fn(State<T>) -> Status<T>,
    C: Fn(T, T) -> Result<T, String>,
>(input: State<T>, lhs: L, arms: Seq<(P, Q, C)>, result: Status<T>) -> bool {
    ||| result is Err && call_ensures(lhs, (input,), result)
    ||| exists|states: Seq<State<T>>, scan: Status<T>|
        #![trigger chained(arms, states), arms_result(states.last(), arms, scan)]
        call_ensures(lhs, (input,), Ok(states[0])) && chained(arms, states) && arms_result(
            states.last(),
            arms,
            scan,
        ) && (scan matches Ok(out) ==> out.index <= states.last().index) && result == chain_end(
            input,
            states.last(),
            scan,
        )
}

/// Ends an operator chain at `last` on a scan that matched nothing more
/// there.
pub fn end_chain<T: Copy>(input: State<T>, last: State<T>, scan: Status<T>) -> (result: Status<T>)
    ensures
        result == chain_end(input, last, scan),
{
    match scan {
        Ok(_) => Ok(last),
        Err(error) => {
            if error.mesg.as_str().is_empty() {
                Ok(last)
            } else {
                Err(reanchor(input, error))
            }
        },
    }
}

/// terms := lhs (op rhs)*
///
/// Parses `lhs`, then scans the arms again and again, each scan on the state
/// that the scan before it left, folding to the left. The chain is complete
/// when no arm matches; it fails, anchored at `input`, when a combiner
/// rejects. A scan that succeeds without consuming anything ends the chain
/// as a scan without a match would, so the chain ends within the text that
/// is left, whatever the arms do.
pub fn binary_op<
    T: Copy,
    L: Fn(State<T>) -> Status<T>,
    P: Fn(State<T>) -> Status<T>,
    Q: Fn(State<T>) -> Status<T>,
    C: Fn(T, T) -> Result<T, String>,
>(input: State<T>, lhs: L, arms: &Vec<(P, Q, C)>) -> (result: Status<T>)
    requires
        input.wf(),
        is_parser(lhs),
        forall|i: int| 0 <= i < arms.len() ==> is_arm(#[trigger] arms[i]),
    ensures
        conforms(input, result),
        chain_outcome(input, lhs, arms@, result),
{
    match lhs(input.copy()) {
        Ok(answer) => {
            let mut out = answer;
            let ghost mut states: Seq<State<T>> = seq![answer];
            loop
                invariant
                    input.wf(),
                    forall|i: int| 0 <= i < arms.len() ==> is_arm(#[trigger] arms[i]),
                    call_ensures(lhs, (input,), Ok(states[0])),
                    chained(arms@, states),
                    states.last() == out,
                    out.wf(),
                    out.text@ == input.text@,
                    out.index >= input.index,
                decreases out.text@.len() - out.index,
            {
                let scan = binary_op_arms(out.copy(), arms);
                match scan {
                    Ok(rhs) if rhs.index > out.index => {
                        proof {
                            let extended = states.push(rhs);
                            assert forall|k: int| 0 <= k < extended.len() - 1 implies arms_result(
                                #[trigger] extended[k],
                                arms@,
                                Ok(extended[k + 1]),
                            ) && extended[k + 1].index > extended[k].index by {
                                if k < states.len() - 1 {
                                    assert(extended[k] == states[k]);
                                    assert(extended[k + 1] == states[k + 1]);
                                }
                            }
                            states = extended;
                        }
                        out = rhs;
                    },
                    _ => {
                        return end_chain(input, out, scan);
                    },
                }
            }
        },
        Err(error) => Err(error),
    }
}

/// Every outcome of a scan conforms: a success leaves a well-formed state
/// over the same text and not before `input`, and a failure is anchored
/// at `input`.
pub proof fn lemma_scan_conforms<
    T: Copy,
    P: Fn(State<T>) -> Status<T>,
    Q: Fn(State<T>) -> Status<T>,
    C: Fn(T, T) -> Result<T, String>,
>(input: State<T>, arms: Seq<(P, Q, C)>, result: Status<T>)
    requires
        input.wf(),
        forall|i: int| 0 <= i < arms.len() ==> is_arm(#[trigger] arms[i]),
        arms_result(input, arms, result),
    ensures
        conforms(input, result),
        result matches Err(error) ==> error.output == input,
{
    let reached = choose|reached: Seq<usize>| #[trigger]
        arms_failed(input, arms, reached) && arms_outcome(input, arms, reached, result);
    if reached.len() != arms.len() {
        let arm = arms[reached.len() as int];
        assert(is_arm(arm));
        let far = furthest(input.index, reached);
        let (mid, behind, verdict) = choose|
            mid: State<T>,
            behind: State<T>,
            verdict: Result<T, String>,
        |
            #![trigger call_ensures(arm.0, (input,), Ok(mid)), call_ensures(arm.1, (mid,), Ok(behind)), call_ensures(arm.2, (input.value, behind.value), verdict)]
            call_ensures(arm.0, (input,), Ok(mid)) && call_ensures(arm.1, (mid,), Ok(behind))
                && call_ensures(arm.2, (input.value, behind.value), verdict) && result == combined(
                input,
                behind,
                far,
                verdict,
            );
        assert(conforms(input, Ok(mid)));
        assert(conforms(mid, Ok(behind)));
    }
}

/// A scan of arms that make progress consumes a symbol whenever it succeeds.
pub proof fn lemma_scan_makes_progress<
    T: Copy,
    P: Fn(State<T>) -> Status<T>,
    Q: Fn(State<T>) -> Status<T>,
    C: Fn(T, T) -> Result<T, String>,
>(input: State<T>, arms: Seq<(P, Q, C)>, out: State<T>)
    requires
        input.wf(),
        forall|i: int| 0 <= i < arms.len() ==> arm_makes_progress(#[trigger] arms[i]),
        arms_result(input, arms, Ok(out)),
    ensures
        out.index > input.index,
{
    let reached = choose|reached: Seq<usize>| #[trigger]
        arms_failed(input, arms, reached) && arms_outcome(input, arms, reached, Ok(out));
    let arm = arms[reached.len() as int];
    assert(arm_makes_progress(arm));
    let far = furthest(input.index, reached);
    let (mid, behind, verdict) = choose|mid: State<T>, behind: State<T>, verdict: Result<T, String>|
        #![trigger call_ensures(arm.0, (input,), Ok(mid)), call_ensures(arm.1, (mid,), Ok(behind)), call_ensures(arm.2, (input.value, behind.value), verdict)]
        call_ensures(arm.0, (input,), Ok(mid)) && call_ensures(arm.1, (mid,), Ok(behind))
            && call_ensures(arm.2, (input.value, behind.value), verdict) && Ok::<
            State<T>,
            ParseError<T>,
        >(out) == combined(input, behind, far, verdict);
}

/// Every operator chain ends. Each state of a run of scans is well-formed,
/// over the same text, and at least one symbol further than the state before
/// it, so the run has no more states than there were symbols left when it
/// began.
pub proof fn lemma_chained_is_bounded<
    T: Copy,
    P: Fn(State<T>) -> Status<T>,
    Q: Fn(State<T>) -> Status<T>,
    C: Fn(T, T) -> Result<T, String>,
>(arms: Seq<(P, Q, C)>, states: Seq<State<T>>)
    requires
        forall|i: int| 0 <= i < arms.len() ==> is_arm(#[trigger] arms[i]),
        chained(arms, states),
        states[0].wf(),
    ensures
        forall|i: int|
            0 <= i < states.len() ==> (#[trigger] states[i]).wf() && states[i].text@
                == states[0].text@ && states[i].index >= states[0].index + i,
        states.len() <= states[0].text@.len() - states[0].index,
    decreases states.len(),
{
    if states.len() > 1 {
        let front = states.drop_last();
        assert forall|i: int| 0 <= i < front.len() - 1 implies arms_result(
            #[trigger] front[i],
            arms,
            Ok(front[i + 1]),
        ) && front[i + 1].index > front[i].index by {
            assert(front[i] == states[i]);
            assert(front[i + 1] == states[i + 1]);
        }
        lemma_chained_is_bounded(arms, front);
        let n = states.len() - 2;
        assert(front[n] == states[n]);
        assert(front[0] == states[0]);
        assert(arms_result(states[n], arms, Ok(states[n + 1])));
        lemma_scan_conforms(states[n], arms, Ok(states[n + 1]));
        assert forall|i: int| 0 <= i < states.len() implies (#[trigger] states[i]).wf()
            && states[i].text@ == states[0].text@ && states[i].index >= states[0].index + i by {
            if i < front.len() {
                assert(front[i] == states[i]);
            }
        }
        assert(states[n + 1].index < states[0].text@.len());
    }
}

} // verus!
