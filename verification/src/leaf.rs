//! Leaf parsers: the parsers that read symbols themselves.

use crate::chars::{
    is_alpha, is_alphanum, is_digit, munge_range, shown, spec_is_alpha, spec_is_alphanum,
    spec_is_digit, string_of, symbols, EOT,
};
use crate::number::{all_digits, integer_in_range, integer_of, signed_value};
use crate::types::{conforms, failed, is_parser, reanchor, ParseError, State, Status};
use vstd::prelude::*;
use vstd::string::StringExecFns;

verus! {

/// Whether `ch` is white space: a space, a tab, a carriage return or a line
/// feed.
pub open spec fn is_space(ch: char) -> bool {
    ch == ' ' || ch == '\t' || ch == '\r' || ch == '\n'
}

/// Where the run of white space that begins at `i` ends.
pub open spec fn space_end(text: Seq<char>, i: int) -> int
    decreases text.len() - i,
{
    if 0 <= i < text.len() && is_space(text[i]) {
        space_end(text, i + 1)
    } else {
        i
    }
}

/// Whether the symbol at `k` ends a line, for a reader that began at `from`:
/// a carriage return does, and so does a line feed unless it follows a
/// carriage return that was read with it.
pub open spec fn ends_line(text: Seq<char>, from: int, k: int) -> bool {
    text[k] == '\r' || (text[k] == '\n' && !(k > from && text[k - 1] == '\r'))
}

/// The number of lines that end in `text[from..to]`; `\r\n` ends one line.
pub open spec fn line_breaks(text: Seq<char>, from: int, to: int) -> int
    decreases to - from,
{
    if to <= from {
        0
    } else {
        line_breaks(text, from, to - 1) + if ends_line(text, from, to - 1) {
            1int
        } else {
            0int
        }
    }
}

/// A run of white space that stops before `i` ends at `i`.
pub proof fn lemma_space_end(text: Seq<char>, from: int, i: int)
    requires
        0 <= from <= i <= text.len(),
        forall|k: int| from <= k < i ==> is_space(#[trigger] text[k]),
        i == text.len() || !is_space(text[i]),
    ensures
        space_end(text, from) == i,
    decreases i - from,
{
    if from < i {
        assert(is_space(text[from]));
        lemma_space_end(text, from + 1, i);
    }
}

/// What the end of a run of white space is: every symbol from `i` up to it
/// is white space, and the symbol at it, if there is one, is not.
pub proof fn lemma_space_run(text: Seq<char>, i: int)
    requires
        0 <= i <= text.len(),
    ensures
        i <= space_end(text, i) <= text.len(),
        forall|k: int| i <= k < space_end(text, i) ==> is_space(#[trigger] text[k]),
        space_end(text, i) == text.len() || !is_space(text[space_end(text, i)]),
    decreases text.len() - i,
{
    if i < text.len() && is_space(text[i]) {
        lemma_space_run(text, i + 1);
    }
}

/// A run of white space does not end before it begins.
pub proof fn lemma_space_end_grows(text: Seq<char>, i: int)
    ensures
        space_end(text, i) >= i,
    decreases text.len() - i,
{
    if 0 <= i < text.len() && is_space(text[i]) {
        lemma_space_end_grows(text, i + 1);
    }
}

/// The state behind the white space at `input`.
pub open spec fn behind_space<T: Copy>(input: State<T>) -> State<T> {
    let end = space_end(input.text@, input.index as int);
    input.moved_to(
        end as usize,
        (input.line + line_breaks(input.text@, input.index as int, end)) as usize,
    )
}

/// space_zero_or_more := (' ' | '\t' | '\r' | '\n')*
///
/// Skips the white space at the cursor, counting the lines that end in it.
/// Always succeeds.
pub fn space_zero_or_more<T: Copy>(input: State<T>) -> (result: Status<T>)
    requires
        input.wf(),
    ensures
        conforms(input, result),
        result == Ok::<State<T>, ParseError<T>>(behind_space(input)),
        behind_space(input).index == space_end(input.text@, input.index as int),
        behind_space(input).line == input.line + line_breaks(
            input.text@,
            input.index as int,
            space_end(input.text@, input.index as int),
        ),
{
    let mut i = input.index;
    let mut line = input.line;
    let ghost text = input.text@;
    let ghost from = input.index as int;
    let len = input.text.len();
    loop
        invariant_except_break
            len == text.len(),
            from == input.index,
            text == input.text@,
            input.wf(),
            from <= i < text.len(),
            forall|k: int| from <= k < i ==> is_space(#[trigger] text[k]),
            line == input.line + line_breaks(text, from, i as int),
            line <= i + 1,
            i > from ==> !(text[i - 1] == '\r' && text[i as int] == '\n'),
        ensures
            from <= i < text.len(),
            forall|k: int| from <= k < i ==> is_space(#[trigger] text[k]),
            !is_space(text[i as int]),
            line == input.line + line_breaks(text, from, i as int),
            line <= i + 1,
        decreases text.len() - i,
    {
        let ch = input.text[i];
        assert(is_space(ch) ==> i + 1 < text.len()) by {
            assert(text.last() == EOT);
        }
        if ch == '\r' && input.text[i + 1] == '\n' {
            assert(line_breaks(text, from, i + 2) == line_breaks(text, from, i as int) + 1) by {
                assert(line_breaks(text, from, i + 1) == line_breaks(text, from, i as int) + 1);
                assert(!ends_line(text, from, i + 1));
            }
            line += 1;
            i += 1;
        } else if ch == '\n' {
            line += 1;
        } else if ch == '\r' {
            line += 1;
        } else if ch != ' ' && ch != '\t' {
            break ;
        }
        i += 1;
    }
    proof {
        lemma_space_end(text, from, i as int);
    }
    Ok(input.at(i, line))
}

/// The failure of a leaf that found nothing of what it looks for at `input`.
pub open spec fn mismatch<T: Copy>(input: State<T>, mesg: Seq<char>, result: Status<T>) -> bool {
    result matches Err(error) && error.output == input && error.max_index == input.index
        && error.mesg@ == mesg
}

/// space_one_or_more := (' ' | '\t' | '\r' | '\n')+
///
/// As `space_zero_or_more`, but fails where there is no white space at the
/// cursor.
pub fn space_one_or_more<T: Copy>(input: State<T>) -> (result: Status<T>)
    requires
        input.wf(),
    ensures
        conforms(input, result),
        is_space(input.current()) ==> result == Ok::<State<T>, ParseError<T>>(behind_space(input)),
        !is_space(input.current()) ==> mismatch(input, "expected whitespace"@, result),
{
    let start = input.index;
    assert(is_space(input.current()) <==> space_end(input.text@, start as int) > start) by {
        if is_space(input.current()) {
            lemma_space_end_grows(input.text@, start + 1);
        }
    }
    match space_zero_or_more(input.copy()) {
        Ok(state) => {
            if state.index > start {
                Ok(state)
            } else {
                Err(
                    ParseError {
                        output: input,
                        max_index: start,
                        mesg: "expected whitespace".to_string(),
                    },
                )
            }
        },
        Err(error) => Err(error),
    }
}

/// A parser that always fails.
pub fn fails<T: Copy>(input: State<T>) -> (result: Status<T>)
    ensures
        conforms(input, result),
        mismatch(input, "forced failure"@, result),
{
    let max_index = input.index;
    Err(ParseError { output: input, max_index, mesg: "forced failure".to_string() })
}

/// How many of the first symbols of `literal`, from the `k`-th on, stand in
/// the text at the cursor, the closing marker not counted as text.
pub open spec fn common_len<T: Copy>(input: State<T>, literal: Seq<char>, k: int) -> int
    decreases literal.len() - k,
{
    if 0 <= k < literal.len() && input.spec_symbol(input.index + k) == Some(literal[k]) {
        common_len(input, literal, k + 1)
    } else {
        k
    }
}

/// The number of leading symbols of `literal` that stand in the text at the
/// cursor.
pub open spec fn match_len<T: Copy>(input: State<T>, literal: Seq<char>) -> int {
    common_len(input, literal, 0)
}

/// If the symbols of `literal` from `k` up to `n` stand in the text and the
/// next one does not, counting from `k` ends at `n`.
pub proof fn lemma_common_len<T: Copy>(input: State<T>, literal: Seq<char>, k: int, n: int)
    requires
        0 <= k <= n <= literal.len(),
        forall|m: int| k <= m < n ==> input.spec_symbol(input.index + m) == Some(#[trigger] literal[m]),
        n == literal.len() || input.spec_symbol(input.index + n) != Some(literal[n]),
    ensures
        common_len(input, literal, k) == n,
    decreases n - k,
{
    if k < n {
        assert(input.spec_symbol(input.index + k) == Some(literal[k]));
        lemma_common_len(input, literal, k + 1, n);
    }
}

/// What the number of matching symbols is: so many leading symbols of
/// `literal` stand in the text at the cursor, and the next one, if there is
/// one, does not.
pub proof fn lemma_match_len<T: Copy>(input: State<T>, literal: Seq<char>)
    ensures
        0 <= match_len(input, literal) <= literal.len(),
        forall|m: int|
            0 <= m < match_len(input, literal) ==> input.spec_symbol(input.index + m) == Some(
                #[trigger] literal[m],
            ),
        match_len(input, literal) == literal.len() || input.spec_symbol(
            input.index + match_len(input, literal),
        ) != Some(literal[match_len(input, literal)]),
{
    lemma_common_run(input, literal, 0);
}

/// As `lemma_match_len`, for the count that begins at the `k`-th symbol.
pub proof fn lemma_common_run<T: Copy>(input: State<T>, literal: Seq<char>, k: int)
    requires
        0 <= k <= literal.len(),
    ensures
        k <= common_len(input, literal, k) <= literal.len(),
        forall|m: int|
            k <= m < common_len(input, literal, k) ==> input.spec_symbol(input.index + m) == Some(
                #[trigger] literal[m],
            ),
        common_len(input, literal, k) == literal.len() || input.spec_symbol(
            input.index + common_len(input, literal, k),
        ) != Some(literal[common_len(input, literal, k)]),
    decreases literal.len() - k,
{
    if k < literal.len() && input.spec_symbol(input.index + k) == Some(literal[k]) {
        lemma_common_run(input, literal, k + 1);
    }
}

/// The message of a literal that was not found.
pub open spec fn expected(literal: Seq<char>) -> Seq<char> {
    "expected '"@ + literal + "'"@
}

/// Matches `literal` against the text at the cursor: `Ok` with the position
/// behind it if all of it stands there, otherwise `Err` with the position of
/// the first symbol that differs.
pub fn scan_literal<T: Copy>(input: &State<T>, literal: &str) -> (found: Result<usize, usize>)
    requires
        input.wf(),
    ensures
        match found {
            Ok(end) => match_len(*input, literal@) == literal@.len() && end == input.index
                + literal@.len() && end < input.text@.len(),
            Err(at) => match_len(*input, literal@) < literal@.len() && at == input.index
                + match_len(*input, literal@) && at < input.text@.len(),
        },
{
    let wanted = symbols(literal);
    let len = input.text.len();
    let mut i: usize = 0;
    let mut j: usize = input.index;
    while i < wanted.len()
        invariant
            input.wf(),
            wanted@ == literal@,
            len == input.text@.len(),
            i <= wanted.len(),
            j == input.index + i,
            j < len,
            forall|m: int| 0 <= m < i ==> input.spec_symbol(input.index + m) == Some(#[trigger] wanted@[m]),
        decreases wanted.len() - i,
    {
        match input.symbol(j) {
            Some(ch) if ch == wanted[i] => {
                i += 1;
                j += 1;
            },
            _ => {
                proof {
                    lemma_common_len(*input, literal@, 0, i as int);
                }
                return Err(j);
            },
        }
    }
    proof {
        lemma_common_len(*input, literal@, 0, i as int);
    }
    Ok(j)
}

/// What a leaf returns once the parser for what trails it has run: that
/// parser's success, or its failure anchored at `input`.
pub open spec fn trailed<T: Copy>(input: State<T>, after: Status<T>) -> Status<T> {
    match after {
        Ok(out) => Ok(out),
        Err(error) => failed(input, error),
    }
}

/// How `literal` ends: where the text differs from the literal, with a
/// failure that reached the first symbol that differs; otherwise as the
/// space parser does behind the literal.
pub open spec fn literal_outcome<T: Copy, S: Fn(State<T>) -> Status<T>>(
    input: State<T>,
    literal: Seq<char>,
    space: S,
    result: Status<T>,
) -> bool {
    let k = match_len(input, literal);
    if k < literal.len() {
        result matches Err(error) && error.output == input && error.max_index == input.index + k
            && error.mesg@ == expected(literal)
    } else {
        exists|after: Status<T>| #[trigger]
            call_ensures(space, (input.moved_to((input.index + k) as usize, input.line),), after)
                && result == trailed(input, after)
    }
}

/// The message "expected '...'" for `literal`.
pub fn expected_message(literal: &str) -> (mesg: String)
    ensures
        mesg@ == expected(literal@),
{
    let mut mesg = "expected '".to_string();
    mesg.append(literal);
    mesg.append("'");
    mesg
}

/// literal := <literal> space
///
/// Matches `text` symbol by symbol at the cursor, then lets `space` take what
/// trails it.
pub fn literal<T: Copy, S: Fn(State<T>) -> Status<T>>(input: State<T>, text: &str, space: S) -> (result:
    Status<T>)
    requires
        input.wf(),
        is_parser(space),
    ensures
        conforms(input, result),
        literal_outcome(input, text@, space, result),
{
    match scan_literal(&input, text) {
        Ok(end) => {
            let line = input.line;
            let after = space(input.copy().at(end, line));
            assert(call_ensures(
                space,
                (input.moved_to((input.index + match_len(input, text@)) as usize, input.line),),
                after,
            ));
            match after {
                Ok(out) => Ok(out),
                Err(error) => Err(reanchor(input, error)),
            }
        },
        Err(at) => Err(ParseError { output: input, max_index: at, mesg: expected_message(text) }),
    }
}

/// Where the run of decimal digits that begins at `i` ends.
pub open spec fn digits_end(text: Seq<char>, i: int) -> int
    decreases text.len() - i,
{
    if 0 <= i < text.len() && spec_is_digit(text[i]) {
        digits_end(text, i + 1)
    } else {
        i
    }
}

/// A run of digits that stops before `i` ends at `i`.
pub proof fn lemma_digits_end(text: Seq<char>, from: int, i: int)
    requires
        0 <= from <= i <= text.len(),
        forall|k: int| from <= k < i ==> spec_is_digit(#[trigger] text[k]),
        i == text.len() || !spec_is_digit(text[i]),
    ensures
        digits_end(text, from) == i,
    decreases i - from,
{
    if from < i {
        assert(spec_is_digit(text[from]));
        lemma_digits_end(text, from + 1, i);
    }
}

/// What the end of a run of digits is: every symbol from `i` up to it is a
/// digit, and the symbol at it, if there is one, is not.
pub proof fn lemma_digits_run(text: Seq<char>, i: int)
    requires
        0 <= i <= text.len(),
    ensures
        i <= digits_end(text, i) <= text.len(),
        forall|k: int| i <= k < digits_end(text, i) ==> spec_is_digit(#[trigger] text[k]),
        digits_end(text, i) == text.len() || !spec_is_digit(text[digits_end(text, i)]),
    decreases text.len() - i,
{
    if i < text.len() && spec_is_digit(text[i]) {
        lemma_digits_run(text, i + 1);
    }
}

/// Whether `ch` may stand in a name behind its first letter.
pub open spec fn is_name_char(ch: char) -> bool {
    spec_is_alphanum(ch) || ch == '_'
}

/// Where the run of letters, digits and underscores that begins at `i` ends.
pub open spec fn name_end(text: Seq<char>, i: int) -> int
    decreases text.len() - i,
{
    if 0 <= i < text.len() && is_name_char(text[i]) {
        name_end(text, i + 1)
    } else {
        i
    }
}

/// A run of name characters that stops before `i` ends at `i`.
pub proof fn lemma_name_end(text: Seq<char>, from: int, i: int)
    requires
        0 <= from <= i <= text.len(),
        forall|k: int| from <= k < i ==> is_name_char(#[trigger] text[k]),
        i == text.len() || !is_name_char(text[i]),
    ensures
        name_end(text, from) == i,
    decreases i - from,
{
    if from < i {
        assert(is_name_char(text[from]));
        lemma_name_end(text, from + 1, i);
    }
}

/// What the end of a run of name characters is: every symbol from `i` up to
/// it is a name character, and the symbol at it, if there is one, is not.
pub proof fn lemma_name_run(text: Seq<char>, i: int)
    requires
        0 <= i <= text.len(),
    ensures
        i <= name_end(text, i) <= text.len(),
        forall|k: int| i <= k < name_end(text, i) ==> is_name_char(#[trigger] text[k]),
        name_end(text, i) == text.len() || !is_name_char(text[name_end(text, i)]),
    decreases text.len() - i,
{
    if i < text.len() && is_name_char(text[i]) {
        lemma_name_run(text, i + 1);
    }
}

/// Whether `ch` is a sign.
pub open spec fn is_sign(ch: char) -> bool {
    ch == '+' || ch == '-'
}

/// Where the digits of the integer at `input` begin: behind its sign, if it
/// has one.
pub open spec fn digits_start<T: Copy>(input: State<T>) -> int {
    if is_sign(input.current()) {
        input.index + 1
    } else {
        input.index as int
    }
}

/// How `integer` ends. Without a digit behind the optional sign it fails,
/// having reached the place where the digits should begin. A numeral that
/// denotes no 64-bit integer fails, having reached its end. Otherwise the
/// space parser runs behind the digits, and on its success the callback turns
/// the integer into the accumulator.
pub open spec fn integer_outcome<
    T: Copy,
    S: Fn(State<T>) -> Status<T>,
    E: Fn(i64) -> T,
>(input: State<T>, space: S, eval: E, result: Status<T>) -> bool {
    let text = input.text@;
    let start = digits_start(input);
    let end = digits_end(text, start);
    if end == start {
        result matches Err(error) && error.output == input && error.max_index == start
            && error.mesg@ == "expected an integer"@
    } else {
        match integer_in_range(signed_value(input.current() == '-', text.subrange(start, end))) {
            None => result matches Err(error) && error.output == input && error.max_index == end
                && error.mesg@ == "integer out of range"@,
            Some(number) => exists|after: Status<T>| #[trigger]
                call_ensures(space, (input.moved_to(end as usize, input.line),), after) && match after {
                    Ok(out) => exists|value: T| #[trigger]
                        call_ensures(eval, (number,), value) && result == Ok::<
                            State<T>,
                            ParseError<T>,
                        >(out.with_value(value)),
                    Err(error) => result == failed(input, error),
                },
        }
    }
}

/// integer := [+-]? [0-9]+ space
///
/// Reads an optional sign and one or more decimal digits, lets `space` take
/// what trails them, and hands the integer they denote to `eval`, whose
/// value becomes the accumulator.
pub fn integer<T: Copy, S: Fn(State<T>) -> Status<T>, E: Fn(i64) -> T>(
    input: State<T>,
    space: S,
    eval: E,
) -> (result: Status<T>)
    requires
        input.wf(),
        is_parser(space),
        forall|number: i64| call_requires(eval, (number,)),
    ensures
        conforms(input, result),
        integer_outcome(input, space, eval, result),
{
    let ghost text = input.text@;
    let len = input.text.len();
    let first = input.text[input.index];
    let negative = first == '-';
    let mut start = input.index;
    if first == '+' || first == '-' {
        assert(text.last() == EOT);
        start += 1;
    }
    let mut i = start;
    while is_digit(input.text[i])
        invariant
            text == input.text@,
            len == text.len(),
            text.last() == EOT,
            start <= i < len,
            forall|k: int| start <= k < i ==> spec_is_digit(#[trigger] text[k]),
        decreases len - i,
    {
        i += 1;
    }
    proof {
        lemma_digits_end(text, start as int, i as int);
    }
    if i == start {
        return Err(
            ParseError { output: input, max_index: start, mesg: "expected an integer".to_string() },
        );
    }
    assert(all_digits(text.subrange(start as int, i as int)));
    let ghost end = digits_end(text, digits_start(input));
    match integer_of(&input.text, start, i, negative) {
        None => Err(
            ParseError { output: input, max_index: i, mesg: "integer out of range".to_string() },
        ),
        Some(number) => {
            let line = input.line;
            let after = space(input.copy().at(i, line));
            match after {
                Ok(out) => {
                    let value = eval(number);
                    proof {
                        assert(call_ensures(space, (input.moved_to(end as usize, input.line),), after));
                        assert(call_ensures(eval, (number,), value));
                    }
                    Ok(out.holding(value))
                },
                Err(error) => {
                    proof {
                        assert(call_ensures(space, (input.moved_to(end as usize, input.line),), after));
                    }
                    Err(reanchor(input, error))
                },
            }
        },
    }
}

/// How `identifier` ends. It fails at once unless a letter stands at the
/// cursor. Otherwise the space parser runs behind the name, and on its
/// success the callback turns the name into the accumulator.
pub open spec fn identifier_outcome<
    T: Copy,
    S: Fn(State<T>) -> Status<T>,
    E: Fn(String) -> T,
>(input: State<T>, space: S, eval: E, result: Status<T>) -> bool {
    let text = input.text@;
    let end = name_end(text, input.index as int);
    if !spec_is_alpha(input.current()) {
        mismatch(input, "expected an element name"@, result)
    } else {
        exists|after: Status<T>| #[trigger]
            call_ensures(space, (input.moved_to(end as usize, input.line),), after) && match after {
                Ok(out) => exists|name: String, value: T| #[trigger]
                    call_ensures(eval, (name,), value) && name@ == text.subrange(
                        input.index as int,
                        end,
                    ) && result == Ok::<State<T>, ParseError<T>>(out.with_value(value)),
                Err(error) => result == failed(input, error),
            }
    }
}

/// identifier := [a-zA-Z] [a-zA-Z0-9_]* space
///
/// Reads a letter and the letters, digits and underscores behind it, lets
/// `space` take what trails them, and hands the name to `eval`, whose value
/// becomes the accumulator.
pub fn identifier<T: Copy, S: Fn(State<T>) -> Status<T>, E: Fn(String) -> T>(
    input: State<T>,
    space: S,
    eval: E,
) -> (result: Status<T>)
    requires
        input.wf(),
        is_parser(space),
        forall|name: String| call_requires(eval, (name,)),
    ensures
        conforms(input, result),
        identifier_outcome(input, space, eval, result),
{
    let ghost text = input.text@;
    let len = input.text.len();
    let start = input.index;
    if !is_alpha(input.text[start]) {
        return Err(
            ParseError {
                output: input,
                max_index: start,
                mesg: "expected an element name".to_string(),
            },
        );
    }
    let mut i = start;
    while is_alphanum(input.text[i]) || input.text[i] == '_'
        invariant
            text == input.text@,
            len == text.len(),
            text.last() == EOT,
            start <= i < len,
            forall|k: int| start <= k < i ==> is_name_char(#[trigger] text[k]),
        decreases len - i,
    {
        i += 1;
    }
    proof {
        lemma_name_end(text, start as int, i as int);
    }
    let ghost end = name_end(text, start as int);
    let name = string_of(&input.text, start, i);
    let line = input.line;
    let after = space(input.copy().at(i, line));
    match after {
        Ok(out) => {
            let ghost given = name;
            let value = eval(name);
            proof {
                assert(call_ensures(space, (input.moved_to(end as usize, input.line),), after));
                assert(call_ensures(eval, (given,), value));
            }
            Ok(out.holding(value))
        },
        Err(error) => {
            proof {
                assert(call_ensures(space, (input.moved_to(end as usize, input.line),), after));
            }
            Err(reanchor(input, error))
        },
    }
}

/// The most symbols of the text that a failure to reach its end quotes.
pub const TRAILER_LEN: usize = 16;

/// What follows the cursor, as the failure to reach the end of the text
/// quotes it: at most 16 symbols of the text, each as it is shown.
pub open spec fn trailer<T: Copy>(input: State<T>) -> Seq<char> {
    let rest = input.text@.len() - 1 - input.index;
    let count = if rest < TRAILER_LEN {
        rest
    } else {
        TRAILER_LEN as int
    };
    input.text@.subrange(input.index as int, input.index + count).map_values(|ch: char| shown(ch))
}

/// The message of a parser that found text where the text should end.
pub open spec fn expected_eot(trailer: Seq<char>) -> Seq<char> {
    "expected EOT but found '"@ + trailer + "'"@
}

/// Succeeds, consuming nothing, if the cursor stands on the end-of-text
/// marker; otherwise fails, quoting the text that follows.
pub fn eot<T: Copy>(input: State<T>) -> (result: Status<T>)
    requires
        input.wf(),
    ensures
        conforms(input, result),
        input.current() == EOT ==> result == Ok::<State<T>, ParseError<T>>(input),
        input.current() != EOT ==> mismatch(input, expected_eot(trailer(input)), result),
{
    if input.text[input.index] == EOT {
        Ok(input)
    } else {
        let index = input.index;
        let rest = input.text.len() - 1 - index;
        let count = if rest < TRAILER_LEN {
            rest
        } else {
            TRAILER_LEN
        };
        let mut mesg = "expected EOT but found '".to_string();
        mesg.append(munge_range(&input.text, index, index + count).as_str());
        mesg.append("'");
        Err(ParseError { output: input, max_index: index, mesg })
    }
}

} // verus!
