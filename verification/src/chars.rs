//! Character classes over 7-bit ASCII and the conversion of source text into
//! a symbol sequence that ends in the end-of-text marker.

use vstd::prelude::*;

verus! {

/// The end-of-text marker that closes every symbol sequence.
pub const EOT: char = '\u{3}';

/// The character that stands in for a symbol that cannot be printed.
pub const BULLET: char = '.';

pub open spec fn spec_is_alpha(ch: char) -> bool {
    ('a' <= ch && ch <= 'z') || ('A' <= ch && ch <= 'Z')
}

pub open spec fn spec_is_digit(ch: char) -> bool {
    '0' <= ch && ch <= '9'
}

pub open spec fn spec_is_alphanum(ch: char) -> bool {
    spec_is_alpha(ch) || spec_is_digit(ch)
}

pub open spec fn spec_is_print(ch: char) -> bool {
    ' ' <= ch && ch <= '~'
}

/// Whether `ch` is an ASCII letter.
#[verifier::when_used_as_spec(spec_is_alpha)]
pub fn is_alpha(ch: char) -> (b: bool)
    ensures
        b == spec_is_alpha(ch),
{
    (ch >= 'a' && ch <= 'z') || (ch >= 'A' && ch <= 'Z')
}

/// Whether `ch` is an ASCII decimal digit.
#[verifier::when_used_as_spec(spec_is_digit)]
pub fn is_digit(ch: char) -> (b: bool)
    ensures
        b == spec_is_digit(ch),
{
    ch >= '0' && ch <= '9'
}

/// Whether `ch` is an ASCII letter or decimal digit.
#[verifier::when_used_as_spec(spec_is_alphanum)]
pub fn is_alphanum(ch: char) -> (b: bool)
    ensures
        b == spec_is_alphanum(ch),
{
    is_alpha(ch) || is_digit(ch)
}

/// Whether `ch` is a printable ASCII character, the space included.
#[verifier::when_used_as_spec(spec_is_print)]
pub fn is_print(ch: char) -> (b: bool)
    ensures
        b == spec_is_print(ch),
{
    ch >= ' ' && ch <= '~'
}

/// The symbols of `s`, in order.
pub fn symbols(s: &str) -> (buf: Vec<char>)
    ensures
        buf@ == s@,
{
    let mut buf: Vec<char> = Vec::new();
    let mut it = s.chars();
    for ch in iter: it
        invariant
            iter.seq() == s@,
            buf@ =~= s@.take(iter.index() as int),
    {
        buf.push(ch);
    }
    assert(buf@ =~= s@);
    buf
}

/// The symbols of `s` followed by the end-of-text marker.
pub fn chars_with_eot(s: &str) -> (buf: Vec<char>)
    ensures
        buf@ == s@.push(EOT),
{
    let mut buf = symbols(s);
    buf.push(EOT);
    buf
}

/// Appends one character to a string.
///
/// Trusted: `String::push` is taken to add exactly `ch` at the end of the
/// string and to leave what was there before unchanged.
#[verifier::external_body]
pub(crate) fn push_char(s: &mut String, ch: char)
    ensures
        final(s)@ == old(s)@.push(ch),
{
    s.push(ch)
}

/// What a symbol is shown as: itself if printable, the bullet otherwise.
pub open spec fn shown(ch: char) -> char {
    if spec_is_print(ch) {
        ch
    } else {
        BULLET
    }
}

/// A string of `count` copies of `ch`.
pub fn repeat_char(ch: char, count: usize) -> (value: String)
    ensures
        value@ == Seq::new(count as nat, |i: int| ch),
{
    let mut value = String::new();
    let mut i: usize = 0;
    while i < count
        invariant
            i <= count,
            value@ == Seq::new(i as nat, |k: int| ch),
        decreases count - i,
    {
        push_char(&mut value, ch);
        i += 1;
        assert(value@ =~= Seq::new(i as nat, |k: int| ch));
    }
    value
}

/// The symbols `chars[from..to]` as a string.
pub fn string_of(chars: &Vec<char>, from: usize, to: usize) -> (value: String)
    requires
        from <= to <= chars.len(),
    ensures
        value@ == chars@.subrange(from as int, to as int),
{
    let mut value = String::new();
    let mut i: usize = from;
    while i < to
        invariant
            from <= i <= to <= chars.len(),
            value@ == chars@.subrange(from as int, i as int),
        decreases to - i,
    {
        push_char(&mut value, chars[i]);
        i += 1;
        assert(value@ =~= chars@.subrange(from as int, i as int));
    }
    value
}

/// The symbols `chars[from..to]` as a string of the same length, one
/// character for each, with every unprintable symbol replaced by the bullet.
pub fn munge_range(chars: &Vec<char>, from: usize, to: usize) -> (value: String)
    requires
        from <= to <= chars.len(),
    ensures
        value@ == chars@.subrange(from as int, to as int).map_values(|ch: char| shown(ch)),
{
    let mut value = String::new();
    let mut i: usize = from;
    while i < to
        invariant
            from <= i <= to <= chars.len(),
            value@ == chars@.subrange(from as int, i as int).map_values(|ch: char| shown(ch)),
        decreases to - i,
    {
        let ch = chars[i];
        push_char(&mut value, if is_print(ch) { ch } else { BULLET });
        i += 1;
        assert(value@ =~= chars@.subrange(from as int, i as int).map_values(
            |ch: char| shown(ch),
        ));
    }
    value
}

/// The symbols as a string of the same length, one character for each, with
/// every unprintable symbol replaced by the bullet.
pub fn munge_chars(chars: &Vec<char>) -> (value: String)
    ensures
        value@ == chars@.map_values(|ch: char| shown(ch)),
{
    assert(chars@.subrange(0, chars@.len() as int) =~= chars@);
    munge_range(chars, 0, chars.len())
}

} // verus!
