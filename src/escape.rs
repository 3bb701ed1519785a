//! Escaping of raw text for each position of a line-protocol line.

use vstd::prelude::*;

verus! {

/// The place in a line where a piece of text is written.
#[derive(Clone, Copy, Debug, PartialEq, Eq, Structural)]
pub enum Position {
    Measurement,
    TagKey,
    TagValue,
    FieldKey,
    FieldValue,
}

/// Whether `c` is backslash-escaped when written at position `p`.
pub open spec fn is_special(c: char, p: Position) -> bool {
    match p {
        Position::Measurement => c == ',' || c == ' ',
        Position::TagKey | Position::TagValue | Position::FieldKey => c == ',' || c == ' ' || c
            == '=',
        Position::FieldValue => c == '\\' || c == '"',
    }
}

/// The text that one character becomes at position `p`.
pub open spec fn escape_char(c: char, p: Position) -> Seq<char> {
    if is_special(c, p) {
        seq!['\\', c]
    } else {
        seq![c]
    }
}

/// The escaped form of `s` at position `p`: each character in turn, a special one
/// preceded by a backslash.
pub open spec fn escaped(s: Seq<char>, p: Position) -> Seq<char>
    decreases s.len(),
{
    if s.len() == 0 {
        Seq::empty()
    } else {
        escaped(s.drop_last(), p) + escape_char(s.last(), p)
    }
}

/// Relies on `String::push`: appends one character.
#[verifier::external_body]
pub(crate) fn push_char(out: &mut String, c: char)
    ensures
        final(out)@ == old(out)@.push(c),
{
    out.push(c);
}

/// Appends the escaped form of `raw` at position `p` to `out`.
pub fn push_escaped(out: &mut String, raw: &str, p: Position)
    ensures
        final(out)@ == old(out)@ + escaped(raw@, p),
{
    let ghost start = out@;
    for c in it: raw.chars()
        invariant
            it.seq() == raw@,
            out@ == start + escaped(raw@.take(it.index() as int), p),
    {
        proof {
            let k = it.index() as int;
            assert(raw@.take(k + 1).drop_last() == raw@.take(k));
        }
        if is_special_char(c, p) {
            push_char(out, '\\');
        }
        push_char(out, c);
    }
    proof {
        assert(raw@.take(raw@.len() as int) == raw@);
    }
}

/// Executable test of `is_special`.
pub fn is_special_char(c: char, p: Position) -> (r: bool)
    ensures
        r == is_special(c, p),
{
    match p {
        Position::Measurement => c == ',' || c == ' ',
        Position::TagKey | Position::TagValue | Position::FieldKey => c == ',' || c == ' ' || c
            == '=',
        Position::FieldValue => c == '\\' || c == '"',
    }
}

/// The escaped form of `raw` at position `p`.
pub fn escape(raw: &str, p: Position) -> (r: String)
    ensures
        r@ == escaped(raw@, p),
{
    let mut out = String::new();
    push_escaped(&mut out, raw, p);
    out
}

} // verus!
