use rparse::leaf::{
    eot, fails, identifier, integer, literal, space_one_or_more, space_zero_or_more,
};
use rparse::parser::begin;
use rparse::types::{State, Status};
use std::cell::RefCell;
use std::rc::Rc;

fn start(text: &str) -> State<i64> {
    begin::<i64>("leaves", 0, text)
}

fn at(text: &str, index: usize) -> State<i64> {
    start(text).at(index, 1)
}

fn no_space(input: State<i64>) -> Status<i64> {
    Ok(input)
}

#[test]
fn integer_reads_signed_number_with_leading_zero() {
    let out = integer(start("-042 "), space_zero_or_more, |n| n).unwrap();
    assert_eq!(out.value, -42);
    assert_eq!(out.index, 5);
    assert_eq!(out.line, 1);
}

#[test]
fn integer_without_digits_fails_without_consuming() {
    let error = integer(start("+"), space_zero_or_more, |n| n).unwrap_err();
    assert_eq!(error.output.index, 0);
    assert_eq!(error.max_index, 1);
    assert_eq!(error.mesg, "expected an integer");
}

#[test]
fn integer_without_sign_or_digits_reaches_only_the_cursor() {
    let error = integer(at("ab", 1), space_zero_or_more, |n| n).unwrap_err();
    assert_eq!(error.output.index, 1);
    assert_eq!(error.max_index, 1);
    assert_eq!(error.mesg, "expected an integer");
}

#[test]
fn integer_at_end_of_text_fails() {
    let error = integer(start(""), space_zero_or_more, |n| n).unwrap_err();
    assert_eq!(error.max_index, 0);
    assert_eq!(error.mesg, "expected an integer");
}

#[test]
fn integer_accepts_plus_sign_and_stops_at_first_non_digit() {
    let out = integer(start("+17x"), space_zero_or_more, |n| n * 2).unwrap();
    assert_eq!(out.value, 34);
    assert_eq!(out.index, 3);
}

#[test]
fn integer_hands_the_value_to_the_callback() {
    let out = integer(start("7"), no_space, |n| n + 100).unwrap();
    assert_eq!(out.value, 107);
    assert_eq!(out.index, 1);
}

#[test]
fn integer_takes_the_extremes_of_64_bits() {
    let most = integer(start("9223372036854775807"), no_space, |n| n).unwrap();
    assert_eq!(most.value, i64::MAX);
    let least = integer(start("-9223372036854775808"), no_space, |n| n).unwrap();
    assert_eq!(least.value, i64::MIN);
    assert_eq!(least.index, 20);
}

#[test]
fn integer_beyond_64_bits_is_rejected_at_its_end() {
    let error = integer(start("9223372036854775808 "), space_zero_or_more, |n| n).unwrap_err();
    assert_eq!(error.output.index, 0);
    assert_eq!(error.max_index, 19);
    assert_eq!(error.mesg, "integer out of range");
    let error = integer(start("-9223372036854775809"), space_zero_or_more, |n| n).unwrap_err();
    assert_eq!(error.max_index, 20);
    assert_eq!(error.mesg, "integer out of range");
    let error = integer(start("123456789012345678901234567890"), no_space, |n| n).unwrap_err();
    assert_eq!(error.max_index, 30);
}

#[test]
fn integer_with_many_leading_zeros_is_in_range() {
    let out = integer(start("-0000000000000000000000000000042"), no_space, |n| n).unwrap();
    assert_eq!(out.value, -42);
}

#[test]
fn integer_reports_failing_space_from_where_it_began() {
    let error = integer(at("x12y", 1), space_one_or_more, |n| n).unwrap_err();
    assert_eq!(error.output.index, 1);
    assert_eq!(error.max_index, 3);
    assert_eq!(error.mesg, "expected whitespace");
}

#[test]
fn identifier_must_start_with_a_letter() {
    let error = identifier(start("9abc"), space_zero_or_more, |_| 1).unwrap_err();
    assert_eq!(error.output.index, 0);
    assert_eq!(error.max_index, 0);
    assert_eq!(error.mesg, "expected an element name");
    assert!(identifier(start("_a"), space_zero_or_more, |_| 1).is_err());
    assert!(identifier(start(""), space_zero_or_more, |_| 1).is_err());
}

#[test]
fn identifier_hands_the_matched_text_to_the_callback() {
    let seen: Rc<RefCell<Vec<String>>> = Rc::new(RefCell::new(Vec::new()));
    let sink = seen.clone();
    let eval = move |name: String| {
        let length = name.len() as i64;
        sink.borrow_mut().push(name);
        length
    };
    let out = identifier(start("a_1 "), space_zero_or_more, eval).unwrap();
    assert_eq!(seen.borrow().as_slice(), ["a_1".to_string()]);
    assert_eq!(out.value, 3);
    assert_eq!(out.index, 4);
}

#[test]
fn identifier_stops_at_the_first_other_symbol() {
    let seen: Rc<RefCell<String>> = Rc::new(RefCell::new(String::new()));
    let sink = seen.clone();
    let out = identifier(
        start("Zeta9_x-y"),
        no_space,
        move |name: String| {
            *sink.borrow_mut() = name;
            0
        },
    )
    .unwrap();
    assert_eq!(*seen.borrow(), "Zeta9_x");
    assert_eq!(out.index, 7);
}

#[test]
fn identifier_reports_failing_space_from_where_it_began() {
    let error = identifier(start("abc+"), space_one_or_more, |_| 1).unwrap_err();
    assert_eq!(error.output.index, 0);
    assert_eq!(error.max_index, 3);
    assert_eq!(error.mesg, "expected whitespace");
}

#[test]
fn literal_matches_and_lets_space_take_the_rest() {
    let out = literal(start("let  x"), "let", space_zero_or_more).unwrap();
    assert_eq!(out.index, 5);
    assert_eq!(out.value, 0);
}

#[test]
fn literal_mismatch_reaches_the_symbol_that_differs() {
    let error = literal(at("xabd", 1), "abc", space_zero_or_more).unwrap_err();
    assert_eq!(error.output.index, 1);
    assert_eq!(error.max_index, 3);
    assert_eq!(error.mesg, "expected 'abc'");
}

#[test]
fn literal_mismatch_at_first_symbol_reaches_nothing() {
    let error = literal(start("abc"), "xbc", space_zero_or_more).unwrap_err();
    assert_eq!(error.max_index, 0);
    assert_eq!(error.mesg, "expected 'xbc'");
}

#[test]
fn literal_longer_than_the_text_fails_at_the_end() {
    let error = literal(start("ab"), "abc", space_zero_or_more).unwrap_err();
    assert_eq!(error.output.index, 0);
    assert_eq!(error.max_index, 2);
}

#[test]
fn literal_never_matches_the_closing_marker() {
    let error = literal(start("a"), "a\u{3}", no_space).unwrap_err();
    assert_eq!(error.max_index, 1);
    let out = literal(start("a\u{3}b"), "a\u{3}", no_space).unwrap();
    assert_eq!(out.index, 2);
}

#[test]
fn literal_of_nothing_matches_everywhere() {
    let out = literal(at("ab", 2), "", no_space).unwrap();
    assert_eq!(out.index, 2);
}

#[test]
fn literal_matches_symbols_beyond_ascii() {
    let out = literal(start("één twee"), "één", space_zero_or_more).unwrap();
    assert_eq!(out.index, 4);
}

#[test]
fn literal_reports_failing_space_from_where_it_began() {
    let error = literal(at("..let;", 2), "let", space_one_or_more).unwrap_err();
    assert_eq!(error.output.index, 2);
    assert_eq!(error.max_index, 5);
    assert_eq!(error.mesg, "expected whitespace");
}

#[test]
fn space_zero_or_more_succeeds_on_no_space() {
    let out = space_zero_or_more(at("ab", 1)).unwrap();
    assert_eq!(out.index, 1);
    assert_eq!(out.line, 1);
}

#[test]
fn space_zero_or_more_counts_each_line_end_once() {
    let out = space_zero_or_more(start(" \r\n\t\n\rx")).unwrap();
    assert_eq!(out.index, 6);
    assert_eq!(out.line, 4);
}

#[test]
fn space_zero_or_more_counts_line_feed_then_carriage_return_twice() {
    let out = space_zero_or_more(start("\n\r")).unwrap();
    assert_eq!(out.index, 2);
    assert_eq!(out.line, 3);
}

#[test]
fn space_zero_or_more_counts_a_line_feed_at_the_cursor() {
    let out = space_zero_or_more(at("\r\n\r\nx", 1)).unwrap();
    assert_eq!(out.index, 4);
    assert_eq!(out.line, 3);
}

#[test]
fn space_zero_or_more_stops_at_the_end_of_the_text() {
    let out = space_zero_or_more(start("  \r")).unwrap();
    assert_eq!(out.index, 3);
    assert_eq!(out.line, 2);
}

#[test]
fn space_zero_or_more_keeps_the_accumulator() {
    let out = space_zero_or_more(begin::<i64>("f", 9, "  x")).unwrap();
    assert_eq!(out.value, 9);
    assert_eq!(out.file.as_str(), "f");
}

#[test]
fn space_one_or_more_needs_white_space() {
    let error = space_one_or_more(at("ab c", 1)).unwrap_err();
    assert_eq!(error.output.index, 1);
    assert_eq!(error.max_index, 1);
    assert_eq!(error.mesg, "expected whitespace");
    let out = space_one_or_more(at("ab \nc", 2)).unwrap();
    assert_eq!(out.index, 4);
    assert_eq!(out.line, 2);
}

#[test]
fn eot_succeeds_only_at_the_end() {
    let out = eot(at("ab", 2)).unwrap();
    assert_eq!(out.index, 2);
    let error = eot(at("ab", 1)).unwrap_err();
    assert_eq!(error.output.index, 1);
    assert_eq!(error.max_index, 1);
    assert_eq!(error.mesg, "expected EOT but found 'b'");
}

#[test]
fn eot_quotes_at_most_sixteen_symbols() {
    let error = eot(at("x0123456789abcdefghij", 1)).unwrap_err();
    assert_eq!(error.mesg, "expected EOT but found '0123456789abcdef'");
}

#[test]
fn eot_shows_unprintable_symbols_as_bullets() {
    let error = eot(start("a\tb\u{e9}\n")).unwrap_err();
    assert_eq!(error.mesg, "expected EOT but found 'a.b..'");
}

#[test]
fn fails_always_fails_where_it_stands() {
    let error = fails(at("abc", 2)).unwrap_err();
    assert_eq!(error.output.index, 2);
    assert_eq!(error.max_index, 2);
    assert_eq!(error.mesg, "forced failure");
}
