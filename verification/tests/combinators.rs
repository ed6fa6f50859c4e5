use rparse::chain::{binary_op, binary_op_arms};
use rparse::generic_parsers::return_value;
use rparse::leaf::{fails, integer, literal, space_one_or_more, space_zero_or_more};
use rparse::parser::{
    alternative, begin, forward_ref, optional, repeat_one_or_more, repeat_zero_or_more, sequence,
};
use rparse::types::{ParseError, State, Status};
use std::cell::RefCell;
use std::rc::Rc;

type Parser = Box<dyn Fn(State<i64>) -> Status<i64>>;
type Combine = Box<dyn Fn(i64, i64) -> Result<i64, String>>;

fn start(text: &str) -> State<i64> {
    begin::<i64>("combinators", 0, text)
}

fn at(text: &str, index: usize) -> State<i64> {
    start(text).at(index, 1)
}

fn lit(text: &'static str) -> Parser {
    Box::new(move |input| literal(input, text, space_zero_or_more))
}

fn number() -> Parser {
    Box::new(|input| integer(input, space_zero_or_more, |n| n))
}

/// Fails after `consumed` symbols with the message `mesg`.
fn failing(consumed: usize, mesg: &'static str) -> Parser {
    Box::new(move |input: State<i64>| {
        let max_index = input.index + consumed;
        Err(ParseError { output: input, max_index, mesg: mesg.to_string() })
    })
}

/// Consumes `count` symbols and leaves `value`.
fn taking(count: usize, value: i64) -> Parser {
    Box::new(move |input: State<i64>| {
        let index = input.index + count;
        let line = input.line;
        Ok(input.at(index, line).holding(value))
    })
}

fn sum(values: Vec<i64>) -> Result<i64, String> {
    Ok(values.iter().sum())
}

fn count(values: Vec<i64>) -> Result<i64, String> {
    Ok(values.len() as i64)
}

#[test]
fn sequence_threads_the_state_and_collects_the_values() {
    let seen: Rc<RefCell<Vec<i64>>> = Rc::new(RefCell::new(Vec::new()));
    let sink = seen.clone();
    let parsers = vec![number(), lit(","), number(), lit(","), number()];
    let out = sequence(start("1, 22 ,333 rest"), &parsers, move |values: Vec<i64>| {
        *sink.borrow_mut() = values.clone();
        Ok(values[0] + values[2] + values[4])
    })
    .unwrap();
    assert_eq!(*seen.borrow(), vec![1, 1, 22, 22, 333]);
    assert_eq!(out.value, 356);
    assert_eq!(out.index, 11);
}

#[test]
fn sequence_failure_is_anchored_where_it_began() {
    let parsers = vec![taking(3, 1), failing(0, "expected more")];
    let error = sequence(at("..abcdef", 2), &parsers, sum).unwrap_err();
    assert_eq!(error.output.index, 2);
    assert_eq!(error.max_index, 5);
    assert_eq!(error.mesg, "expected more");
}

#[test]
fn sequence_keeps_how_far_the_failing_step_got() {
    let parsers = vec![lit("ab"), lit("cdX")];
    let error = sequence(start("abcdef"), &parsers, sum).unwrap_err();
    assert_eq!(error.output.index, 0);
    assert_eq!(error.max_index, 4);
    assert_eq!(error.mesg, "expected 'cdX'");
}

#[test]
fn sequence_rejection_by_the_callback_reaches_the_final_position() {
    let parsers = vec![number(), number()];
    let error = sequence(at("x 300 400 z", 2), &parsers, |values: Vec<i64>| {
        if values[0] + values[1] > 255 {
            Err("out of range".to_string())
        } else {
            Ok(0)
        }
    })
    .unwrap_err();
    assert_eq!(error.output.index, 2);
    assert_eq!(error.max_index, 10);
    assert_eq!(error.mesg, "out of range");
}

#[test]
fn sequence_of_nothing_asks_the_callback_at_once() {
    let parsers: Vec<Parser> = Vec::new();
    let out = sequence(at("ab", 1), &parsers, |values: Vec<i64>| Ok(values.len() as i64 + 7))
        .unwrap();
    assert_eq!(out.index, 1);
    assert_eq!(out.value, 7);
}

#[test]
fn sequence_stops_at_the_first_failure() {
    let calls = Rc::new(RefCell::new(0));
    let counter = calls.clone();
    let counted: Parser = Box::new(move |input| {
        *counter.borrow_mut() += 1;
        Ok(input)
    });
    let parsers = vec![failing(1, "no"), counted];
    assert!(sequence(start("abc"), &parsers, sum).is_err());
    assert_eq!(*calls.borrow(), 0);
}

#[test]
fn alternative_reports_the_attempt_that_got_furthest() {
    let parsers = vec![failing(2, "X"), failing(5, "Y")];
    let error = alternative(at("..abcdefgh", 2), &parsers).unwrap_err();
    assert_eq!(error.output.index, 2);
    assert_eq!(error.max_index, 7);
    assert_eq!(error.mesg, "Y");
}

#[test]
fn alternative_reports_the_furthest_attempt_wherever_it_stands() {
    let parsers = vec![failing(5, "Y"), failing(2, "X"), failing(0, "Z")];
    let error = alternative(start("abcdefgh"), &parsers).unwrap_err();
    assert_eq!(error.max_index, 5);
    assert_eq!(error.mesg, "Y");
}

#[test]
fn alternative_keeps_the_first_of_two_that_got_equally_far() {
    let parsers = vec![failing(3, "first"), failing(3, "second")];
    let error = alternative(start("abcdefgh"), &parsers).unwrap_err();
    assert_eq!(error.max_index, 3);
    assert_eq!(error.mesg, "first");
}

#[test]
fn alternative_merges_messages_when_none_got_anywhere() {
    let parsers = vec![failing(0, "expected foo"), failing(0, "expected bar")];
    let error = alternative(at("abc", 1), &parsers).unwrap_err();
    assert_eq!(error.output.index, 1);
    assert_eq!(error.max_index, 1);
    assert_eq!(error.mesg, "expected foo or expected bar");
}

#[test]
fn alternative_merges_each_message_once_in_encounter_order() {
    let parsers = vec![
        failing(0, "expected c"),
        failing(0, "expected a"),
        failing(0, "expected c"),
        failing(0, "expected b"),
        failing(0, "expected a"),
    ];
    let error = alternative(start("abc"), &parsers).unwrap_err();
    assert_eq!(error.mesg, "expected c or expected a or expected b");
}

#[test]
fn alternative_with_leaves_names_what_each_expected() {
    let parsers = vec![lit("foo"), lit("bar"), number()];
    let error = alternative(start("qux"), &parsers).unwrap_err();
    assert_eq!(error.max_index, 0);
    assert_eq!(error.mesg, "expected 'foo' or expected 'bar' or expected an integer");
}

#[test]
fn alternative_with_an_empty_best_message_merges_the_others() {
    let parsers = vec![failing(0, "expected a"), failing(4, ""), failing(2, "expected b")];
    let error = alternative(start("abcdefgh"), &parsers).unwrap_err();
    assert_eq!(error.max_index, 4);
    assert_eq!(error.mesg, "expected a or expected b");
}

#[test]
fn alternative_of_nothing_fails_with_no_message() {
    let parsers: Vec<Parser> = Vec::new();
    let error = alternative(at("abc", 1), &parsers).unwrap_err();
    assert_eq!(error.output.index, 1);
    assert_eq!(error.max_index, 1);
    assert_eq!(error.mesg, "");
}

#[test]
fn alternative_returns_the_first_success_and_tries_no_further() {
    let calls = Rc::new(RefCell::new(0));
    let counter = calls.clone();
    let counted: Parser = Box::new(move |input| {
        *counter.borrow_mut() += 1;
        Ok(input)
    });
    let parsers = vec![failing(4, "no"), taking(1, 10), taking(2, 20), counted];
    let out = alternative(start("abcdef"), &parsers).unwrap();
    assert_eq!(out.index, 1);
    assert_eq!(out.value, 10);
    assert_eq!(*calls.borrow(), 0);
}

#[test]
fn alternative_tries_each_parser_from_the_same_position() {
    let parsers = vec![lit("abX"), lit("abc")];
    let out = alternative(start("abc"), &parsers).unwrap();
    assert_eq!(out.index, 3);
}

#[test]
fn repeat_zero_or_more_collects_every_match() {
    let out = repeat_zero_or_more(start("1 2 3 x"), number(), sum).unwrap();
    assert_eq!(out.value, 6);
    assert_eq!(out.index, 6);
}

#[test]
fn repeat_zero_or_more_succeeds_on_no_match() {
    let out = repeat_zero_or_more(begin::<i64>("f", 5, "x"), number(), count).unwrap();
    assert_eq!(out.value, 0);
    assert_eq!(out.index, 0);
}

#[test]
fn repeat_zero_or_more_rejection_is_anchored_where_it_began() {
    let error = repeat_zero_or_more(at("- 1 2 3 x", 2), number(), |values: Vec<i64>| {
        if values.len() > 2 {
            Err("too many".to_string())
        } else {
            Ok(0)
        }
    })
    .unwrap_err();
    assert_eq!(error.output.index, 2);
    assert_eq!(error.max_index, 8);
    assert_eq!(error.mesg, "too many");
}

#[test]
fn repeat_zero_or_more_runs_to_the_end_of_the_text() {
    let out = repeat_zero_or_more(start("aaaa"), lit("a"), count).unwrap();
    assert_eq!(out.value, 4);
    assert_eq!(out.index, 4);
}

#[test]
fn repeat_zero_or_more_ends_within_the_text_that_is_left() {
    let text = "ab".repeat(500);
    let either: Parser = Box::new(|input| alternative(input, &vec![lit("a"), lit("b")]));
    let out = repeat_zero_or_more(at(&text, 100), either, count).unwrap();
    assert_eq!(out.value, 900);
    assert_eq!(out.index, 1000);
}

#[test]
fn repeat_zero_or_more_stops_at_a_parser_that_consumes_nothing() {
    let out = repeat_zero_or_more(at("abc", 1), return_value(5i64), count).unwrap();
    assert_eq!(out.index, 1);
    assert_eq!(out.value, 0);
    let out = repeat_zero_or_more(start("   x"), space_zero_or_more, count).unwrap();
    assert_eq!(out.index, 3);
    assert_eq!(out.value, 1);
}

#[test]
fn repeat_zero_or_more_counts_a_match_of_nothing_as_no_match() {
    // Takes an "a" if there is one, and succeeds on the spot if there is none.
    let lenient: Parser = Box::new(|input| {
        alternative(input, &vec![lit("a"), Box::new(return_value(0i64)) as Parser])
    });
    let out = repeat_zero_or_more(start("aab"), lenient, count).unwrap();
    assert_eq!(out.index, 2);
    assert_eq!(out.value, 2);
}

#[test]
fn repeat_one_or_more_fails_on_a_parser_that_consumes_nothing() {
    let error = repeat_one_or_more(at("abc", 1), return_value(5i64), count, "no progress").unwrap_err();
    assert_eq!(error.output.index, 1);
    assert_eq!(error.max_index, 1);
    assert_eq!(error.mesg, "no progress");
}

#[test]
fn repeat_one_or_more_needs_a_match() {
    let error = repeat_one_or_more(at("ab", 1), number(), sum, "expected numbers").unwrap_err();
    assert_eq!(error.output.index, 1);
    assert_eq!(error.max_index, 1);
    assert_eq!(error.mesg, "expected numbers");
    let out = repeat_one_or_more(start("4 5"), number(), sum, "expected numbers").unwrap();
    assert_eq!(out.value, 9);
    assert_eq!(out.index, 3);
}

#[test]
fn repeat_one_or_more_passes_a_rejection_on() {
    let error = repeat_one_or_more(
        start("4 5"),
        number(),
        |_| Err("rejected".to_string()),
        "expected numbers",
    )
    .unwrap_err();
    assert_eq!(error.output.index, 0);
    assert_eq!(error.max_index, 3);
    assert_eq!(error.mesg, "rejected");
}

#[test]
fn optional_does_not_stop_after_one_match() {
    let out = optional(start("7 8 9"), number(), count).unwrap();
    assert_eq!(out.value, 3);
    assert_eq!(out.index, 5);
    let none = optional(start("x"), number(), count).unwrap();
    assert_eq!(none.value, 0);
    assert_eq!(none.index, 0);
}

fn arm(op: &'static str, combine: fn(i64, i64) -> Result<i64, String>) -> (Parser, Parser, Combine) {
    (lit(op), number(), Box::new(combine))
}

fn arithmetic() -> Vec<(Parser, Parser, Combine)> {
    vec![
        arm("+", |a, b| Ok(a + b)),
        arm("-", |a, b| Ok(a - b)),
        arm("/", |a, b| if b == 0 { Err("division by zero".to_string()) } else { Ok(a / b) }),
    ]
}

#[test]
fn binary_op_folds_to_the_left() {
    let out = binary_op(start("1 - 2 - 3"), number(), &arithmetic()).unwrap();
    assert_eq!(out.value, -4);
    assert_eq!(out.index, 9);
}

#[test]
fn binary_op_mixes_operators_of_one_precedence() {
    let out = binary_op(start("10 - 4 + 3 - 2 rest"), number(), &arithmetic()).unwrap();
    assert_eq!(out.value, 7);
    assert_eq!(out.index, 15);
}

#[test]
fn binary_op_with_no_operator_is_its_left_hand_side() {
    let out = binary_op(start("42 ;"), number(), &arithmetic()).unwrap();
    assert_eq!(out.value, 42);
    assert_eq!(out.index, 3);
}

#[test]
fn binary_op_stops_before_an_operator_without_right_hand_side() {
    let out = binary_op(start("1 + 2 + x"), number(), &arithmetic()).unwrap();
    assert_eq!(out.value, 3);
    assert_eq!(out.index, 6);
}

#[test]
fn binary_op_passes_the_failure_of_its_left_hand_side_on() {
    let error = binary_op(at("..x + 1", 2), number(), &arithmetic()).unwrap_err();
    assert_eq!(error.output.index, 2);
    assert_eq!(error.max_index, 2);
    assert_eq!(error.mesg, "expected an integer");
}

#[test]
fn binary_op_rejection_is_anchored_where_it_began() {
    let error = binary_op(at(": 8 / 2 / 0 + 1", 2), number(), &arithmetic()).unwrap_err();
    assert_eq!(error.output.index, 2);
    assert_eq!(error.mesg, "division by zero");
    assert_eq!(error.max_index, 8);
}

#[test]
fn binary_op_arms_combines_with_the_accumulator_of_its_input() {
    let input = at("5 - 3 x", 2).holding(5);
    let out = binary_op_arms(input, &arithmetic()).unwrap();
    assert_eq!(out.value, 2);
    assert_eq!(out.index, 6);
}

#[test]
fn binary_op_arms_signals_that_no_arm_matches_by_an_empty_message() {
    let arms: Vec<(Parser, Parser, Combine)> = vec![
        (failing(1, "a"), number(), Box::new(|a, _| Ok(a))),
        (taking(2, 0), failing(3, "b"), Box::new(|a, _| Ok(a))),
        (failing(0, "c"), number(), Box::new(|a, _| Ok(a))),
    ];
    let error = binary_op_arms(at("0123456789", 1), &arms).unwrap_err();
    assert_eq!(error.output.index, 1);
    assert_eq!(error.max_index, 6);
    assert_eq!(error.mesg, "");
}

#[test]
fn binary_op_arms_rejection_reaches_as_far_as_the_arms_that_failed_before() {
    let arms: Vec<(Parser, Parser, Combine)> = vec![
        (failing(4, "a"), number(), Box::new(|a, _| Ok(a))),
        (taking(1, 0), taking(1, 0), Box::new(|_, _| Err("rejected".to_string()))),
        (failing(9, "c"), number(), Box::new(|a, _| Ok(a))),
    ];
    let error = binary_op_arms(at("0123456789", 1), &arms).unwrap_err();
    assert_eq!(error.output.index, 1);
    assert_eq!(error.max_index, 5);
    assert_eq!(error.mesg, "rejected");
}

#[test]
fn binary_op_arms_takes_the_first_arm_that_matches() {
    let arms: Vec<(Parser, Parser, Combine)> = vec![
        (lit("-"), failing(0, "no"), Box::new(|_, _| Ok(1))),
        (lit("-"), number(), Box::new(|_, _| Ok(2))),
        (lit("-"), number(), Box::new(|_, _| Ok(3))),
    ];
    let out = binary_op_arms(start("- 1"), &arms).unwrap();
    assert_eq!(out.value, 2);
}

#[test]
fn binary_op_stops_at_an_arm_that_consumes_nothing() {
    let arms: Vec<(Parser, Parser, Combine)> = vec![(
        Box::new(return_value(0i64)),
        Box::new(return_value(1i64)),
        Box::new(|a, b| Ok(a + b)),
    )];
    let out = binary_op(start("7 x"), number(), &arms).unwrap();
    assert_eq!(out.value, 7);
    assert_eq!(out.index, 2);
}

#[test]
fn binary_op_treats_a_rejection_without_message_as_the_end_of_the_chain() {
    let arms: Vec<(Parser, Parser, Combine)> =
        vec![(lit("+"), number(), Box::new(|a, b| if b > 9 { Err(String::new()) } else { Ok(a + b) }))];
    let out = binary_op(start("1 + 2 + 10"), number(), &arms).unwrap();
    assert_eq!(out.value, 3);
    assert_eq!(out.index, 6);
}

fn through(cell: &Rc<RefCell<Option<Parser>>>) -> Parser {
    let cell = cell.clone();
    Box::new(move |input: State<i64>| {
        let guard = cell.borrow();
        forward_ref(input, guard.as_ref().unwrap())
    })
}

#[test]
fn forward_ref_lets_a_rule_refer_to_itself() {
    // expr := term (('+' | '-') term)*
    // term := integer | '(' expr ')'
    let expr: Rc<RefCell<Option<Parser>>> = Rc::new(RefCell::new(None));
    let term = {
        let expr = expr.clone();
        move || -> Parser {
            let expr = expr.clone();
            Box::new(move |input: State<i64>| {
                let nested: Parser = Box::new({
                    let expr = expr.clone();
                    move |input: State<i64>| {
                        sequence(input, &vec![lit("("), through(&expr), lit(")")], |values| {
                            Ok(values[1])
                        })
                    }
                });
                alternative(input, &vec![number(), nested])
            })
        }
    };
    let rule: Parser = {
        let term = term.clone();
        Box::new(move |input: State<i64>| {
            let arms: Vec<(Parser, Parser, Combine)> = vec![
                (lit("+"), term(), Box::new(|a, b| Ok(a + b))),
                (lit("-"), term(), Box::new(|a, b| Ok(a - b))),
            ];
            binary_op(input, term(), &arms)
        })
    };
    *expr.borrow_mut() = Some(rule);
    let parser = through(&expr);
    let out = parser(start("1 - (2 - (3 + 4)) - 5")).unwrap();
    assert_eq!(out.value, 1 - (2 - (3 + 4)) - 5);
    assert_eq!(out.index, 21);
    let error = parser(start("(1 + (2 - x))")).unwrap_err();
    assert_eq!(error.output.index, 0);
    assert_eq!(error.max_index, 3);
    assert_eq!(error.mesg, "expected ')'");
}

#[test]
fn forward_ref_returns_what_the_parser_returns() {
    let parser = failing(2, "through a reference");
    let error = forward_ref(at("abcd", 1), &parser).unwrap_err();
    assert_eq!(error.max_index, 3);
    assert_eq!(error.mesg, "through a reference");
    let out = forward_ref(at("abcd", 1), &taking(2, 5)).unwrap();
    assert_eq!((out.index, out.value), (3, 5));
}

#[test]
fn successes_never_go_backwards_and_failures_stay_put() {
    let texts = ["", "1", "1 + 2", "foo", "  12", "1 - - 2", "(", "12ab", "+", "a_1 "];
    for text in texts {
        for index in 0..=text.len() {
            let parsers: Vec<Parser> = vec![
                number(),
                lit("foo"),
                Box::new(space_zero_or_more),
                Box::new(space_one_or_more),
                Box::new(fails),
                Box::new(|s| sequence(s, &vec![number(), lit("+"), number()], sum)),
                Box::new(|s| alternative(s, &vec![lit("("), number(), lit("foo")])),
                Box::new(|s| repeat_zero_or_more(s, number(), sum)),
                Box::new(|s| repeat_one_or_more(s, number(), sum, "expected numbers")),
                Box::new(|s| binary_op(s, number(), &arithmetic())),
            ];
            for parser in &parsers {
                match parser(at(text, index)) {
                    Ok(out) => {
                        assert!(out.index >= index);
                        assert!(out.index <= text.len());
                    }
                    Err(error) => assert_eq!(error.output.index, index),
                }
            }
        }
    }
}
