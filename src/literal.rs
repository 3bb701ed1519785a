//! Line-protocol literals for field values.

use vstd::prelude::*;
use vstd::utf8::encode_utf8;
use crate::escape::{escaped, push_char, push_escaped, Position};

verus! {

/// The largest number of bytes that a text field value may hold.
pub const MAX_TEXT_BYTES: usize = 65536;

/// A field value together with its declared kind.
///
/// `Float` holds the decimal text of a floating-point value as Rust's `Display`
/// writes it (`21.0` as `21`, `35.9` as `35.9`); the text goes into the line as it is.
#[derive(Clone, Debug)]
pub enum TypedValue {
    SignedInteger(i64),
    UnsignedInteger(u64),
    Float(String),
    Boolean(bool),
    Text(String),
}

/// What a `TypedValue` holds, with text as sequences of characters.
pub enum ValueModel {
    SignedInteger(int),
    UnsignedInteger(nat),
    Float(Seq<char>),
    Boolean(bool),
    Text(Seq<char>),
}

impl View for TypedValue {
    type V = ValueModel;

    open spec fn view(&self) -> ValueModel {
        match self {
            TypedValue::SignedInteger(n) => ValueModel::SignedInteger(*n as int),
            TypedValue::UnsignedInteger(n) => ValueModel::UnsignedInteger(*n as nat),
            TypedValue::Float(t) => ValueModel::Float(t@),
            TypedValue::Boolean(b) => ValueModel::Boolean(*b),
            TypedValue::Text(t) => ValueModel::Text(t@),
        }
    }
}

/// The number of bytes of `s` in UTF-8.
pub open spec fn byte_len(s: Seq<char>) -> nat {
    encode_utf8(s).len()
}

/// The character of the decimal digit `d`.
pub open spec fn digit(d: nat) -> char
    recommends
        d < 10,
{
    ((d + 48) as u8) as char
}

/// The decimal digits of `n`, without leading zeros.
pub open spec fn nat_text(n: nat) -> Seq<char>
    decreases n,
{
    if n < 10 {
        seq![digit(n)]
    } else {
        nat_text(n / 10).push(digit(n % 10))
    }
}

/// The decimal text of `i`, with a leading minus sign when negative.
pub open spec fn int_text(i: int) -> Seq<char> {
    if i < 0 {
        seq!['-'] + nat_text((-i) as nat)
    } else {
        nat_text(i as nat)
    }
}

/// Whether a value may be written: text holds at most `MAX_TEXT_BYTES` bytes.
pub open spec fn fits(v: ValueModel) -> bool {
    match v {
        ValueModel::Text(t) => byte_len(t) <= MAX_TEXT_BYTES,
        _ => true,
    }
}

/// The literal token of a value.
pub open spec fn literal(v: ValueModel) -> Seq<char> {
    match v {
        ValueModel::SignedInteger(n) => int_text(n).push('i'),
        ValueModel::UnsignedInteger(n) => nat_text(n).push('u'),
        ValueModel::Float(t) => t,
        ValueModel::Boolean(b) => if b {
            seq!['t', 'r', 'u', 'e']
        } else {
            seq!['f', 'a', 'l', 's', 'e']
        },
        ValueModel::Text(t) => seq!['"'] + escaped(t, Position::FieldValue) + seq!['"'],
    }
}

fn digit_char(d: u64) -> (c: char)
    requires
        d < 10,
    ensures
        c == digit(d as nat),
{
    ((d as u8) + 48u8) as char
}

/// Appends the decimal digits of `n` to `out`.
pub fn push_decimal(out: &mut String, n: u64)
    ensures
        final(out)@ == old(out)@ + nat_text(n as nat),
    decreases n,
{
    if n >= 10 {
        push_decimal(out, n / 10);
    }
    push_char(out, digit_char(n % 10));
}

/// Appends the decimal text of `n` to `out`.
pub fn push_signed(out: &mut String, n: i64)
    ensures
        final(out)@ == old(out)@ + int_text(n as int),
{
    if n < 0 {
        push_char(out, '-');
        let m: u64 = ((-(n + 1)) as u64) + 1;
        push_decimal(out, m);
        assert(out@ =~= old(out)@ + int_text(n as int));
    } else {
        push_decimal(out, n as u64);
    }
}

/// Whether `v` may be written, tested on the value.
pub fn value_fits(v: &TypedValue) -> (r: bool)
    ensures
        r == fits(v@),
{
    match v {
        TypedValue::Text(t) => t.as_str().as_bytes().len() <= MAX_TEXT_BYTES,
        _ => true,
    }
}

fn push_word(out: &mut String, w: &str)
    ensures
        final(out)@ == old(out)@ + w@,
{
    out.append(w);
}

/// Appends the literal token of `v` to `out`.
pub fn push_literal(out: &mut String, v: &TypedValue)
    ensures
        final(out)@ == old(out)@ + literal(v@),
{
    match v {
        TypedValue::SignedInteger(n) => {
            push_signed(out, *n);
            push_char(out, 'i');
        },
        TypedValue::UnsignedInteger(n) => {
            push_decimal(out, *n);
            push_char(out, 'u');
        },
        TypedValue::Float(t) => {
            push_word(out, t.as_str());
        },
        TypedValue::Boolean(b) => {
            proof {
                reveal_strlit("true");
                reveal_strlit("false");
            }
            if *b {
                push_word(out, "true");
            } else {
                push_word(out, "false");
            }
        },
        TypedValue::Text(t) => {
            push_char(out, '"');
            push_escaped(out, t.as_str(), Position::FieldValue);
            push_char(out, '"');
        },
    }
    assert(out@ =~= old(out)@ + literal(v@));
}

/// The literal token of `v`, or `None` when `v` is text longer than
/// `MAX_TEXT_BYTES` bytes.
pub fn format_value(v: &TypedValue) -> (r: Option<String>)
    ensures
        r is Some <==> fits(v@),
        r matches Some(s) ==> s@ == literal(v@),
{
    if !value_fits(v) {
        return None;
    }
    let mut out = String::new();
    push_literal(&mut out, v);
    Some(out)
}

} // verus!
