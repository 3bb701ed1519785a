//! Properties of the encoding, proved over the models.

use vstd::prelude::*;
use crate::escape::{escape_char, escaped, is_special, Position};
use crate::literal::{byte_len, fits, literal, ValueModel};
use crate::line::{
    field_tokens, first_oversized, has_present_field, line, outcome, oversized, tag_tokens,
    ErrorModel, FieldModel, RecordModel, TagModel,
};

verus! {

/// The number of characters of `s` that are escaped at position `p`.
pub open spec fn special_count(s: Seq<char>, p: Position) -> nat
    decreases s.len(),
{
    if s.len() == 0 {
        0
    } else {
        special_count(s.drop_last(), p) + if is_special(s.last(), p) {
            1nat
        } else {
            0nat
        }
    }
}

proof fn lemma_special_count_concat(a: Seq<char>, b: Seq<char>, p: Position)
    ensures
        special_count(a + b, p) == special_count(a, p) + special_count(b, p),
    decreases b.len(),
{
    if b.len() > 0 {
        assert((a + b).drop_last() =~= a + b.drop_last());
        lemma_special_count_concat(a, b.drop_last(), p);
    } else {
        assert(a + b =~= a);
    }
}

proof fn lemma_special_count_char(c: char, p: Position)
    ensures
        special_count(seq![c], p) == if is_special(c, p) {
            1nat
        } else {
            0nat
        },
        special_count(escape_char(c, p), p) >= special_count(seq![c], p),
{
    let empty = Seq::<char>::empty();
    assert(special_count(empty, p) == 0);
    assert(seq![c].drop_last() =~= empty);
    assert(seq![c].last() == c);
    if is_special(c, p) {
        let e = escape_char(c, p);
        assert(e.drop_last() =~= seq!['\\']);
        assert(e.last() == c);
        assert(special_count(e, p) == special_count(seq!['\\'], p) + 1);
    }
}

/// Escaping adds exactly one backslash per special character.
pub proof fn lemma_escaped_len(s: Seq<char>, p: Position)
    ensures
        escaped(s, p).len() == s.len() + special_count(s, p),
    decreases s.len(),
{
    if s.len() > 0 {
        lemma_escaped_len(s.drop_last(), p);
    }
}

proof fn lemma_escaped_keeps_specials(s: Seq<char>, p: Position)
    ensures
        special_count(escaped(s, p), p) >= special_count(s, p),
    decreases s.len(),
{
    if s.len() > 0 {
        let c = s.last();
        lemma_escaped_keeps_specials(s.drop_last(), p);
        lemma_special_count_concat(escaped(s.drop_last(), p), escape_char(c, p), p);
        lemma_special_count_char(c, p);
    }
}

proof fn lemma_special_count_positive(s: Seq<char>, p: Position, i: int)
    requires
        0 <= i < s.len(),
        is_special(s[i], p),
    ensures
        special_count(s, p) > 0,
    decreases s.len(),
{
    if i < s.len() - 1 {
        lemma_special_count_positive(s.drop_last(), p, i);
    }
}

/// Escaping is one pass and not idempotent: when `s` holds a character that is
/// special at `p`, escaping the escaped text again changes it.
pub proof fn lemma_escape_twice_differs(s: Seq<char>, p: Position, i: int)
    requires
        0 <= i < s.len(),
        is_special(s[i], p),
    ensures
        escaped(escaped(s, p), p) != escaped(s, p),
{
    lemma_special_count_positive(s, p, i);
    lemma_escaped_keeps_specials(s, p);
    lemma_escaped_len(escaped(s, p), p);
}

proof fn lemma_tag_tokens_insert_absent(tags: Seq<TagModel>, i: int, k: Seq<char>)
    requires
        0 <= i <= tags.len(),
    ensures
        tag_tokens(tags.insert(i, (k, None))) == tag_tokens(tags),
    decreases tags.len(),
{
    let t = tags.insert(i, (k, None));
    if i == tags.len() {
        assert(t.drop_last() =~= tags);
    } else {
        assert(t.drop_last() =~= tags.drop_last().insert(i, (k, None)));
        assert(t.last() == tags.last());
        lemma_tag_tokens_insert_absent(tags.drop_last(), i, k);
    }
}

/// A tag entry without a value leaves no trace: inserting one anywhere among the
/// tags changes neither the line nor the outcome of encoding.
pub proof fn lemma_absent_tag_vanishes(r: RecordModel, i: int, k: Seq<char>)
    requires
        0 <= i <= r.tags.len(),
    ensures
        line(RecordModel { tags: r.tags.insert(i, (k, None)), ..r }) == line(r),
        outcome(RecordModel { tags: r.tags.insert(i, (k, None)), ..r }) == outcome(r),
{
    lemma_tag_tokens_insert_absent(r.tags, i, k);
}

proof fn lemma_field_tokens_insert_absent(fields: Seq<FieldModel>, i: int, k: Seq<char>)
    requires
        0 <= i <= fields.len(),
    ensures
        field_tokens(fields.insert(i, (k, None))) == field_tokens(fields),
    decreases fields.len(),
{
    let t = fields.insert(i, (k, None));
    if i == fields.len() {
        assert(t.drop_last() =~= fields);
    } else {
        assert(t.drop_last() =~= fields.drop_last().insert(i, (k, None)));
        assert(t.last() == fields.last());
        lemma_field_tokens_insert_absent(fields.drop_last(), i, k);
    }
}

proof fn lemma_first_oversized_in_range(fields: Seq<FieldModel>)
    ensures
        first_oversized(fields) matches Some(j) ==> 0 <= j < fields.len() && oversized(fields[j]),
    decreases fields.len(),
{
    if fields.len() > 0 {
        lemma_first_oversized_in_range(fields.drop_last());
    }
}

/// The key of the first field entry whose value may not be written, if any.
pub open spec fn first_oversized_key(fields: Seq<FieldModel>) -> Option<Seq<char>> {
    match first_oversized(fields) {
        Some(j) => Some(fields[j].0),
        None => None,
    }
}

proof fn lemma_first_oversized_insert_absent(fields: Seq<FieldModel>, i: int, k: Seq<char>)
    requires
        0 <= i <= fields.len(),
    ensures
        first_oversized_key(fields.insert(i, (k, None))) == first_oversized_key(fields),
    decreases fields.len(),
{
    let t = fields.insert(i, (k, None));
    lemma_first_oversized_in_range(fields);
    lemma_first_oversized_in_range(t);
    if i == fields.len() {
        assert(t.drop_last() =~= fields);
        lemma_first_oversized_in_range(t.drop_last());
        if let Some(j) = first_oversized(fields) {
            assert(t[j] == fields[j]);
        }
    } else {
        let d = fields.drop_last();
        assert(t.drop_last() =~= d.insert(i, (k, None)));
        assert(t.last() == fields.last());
        lemma_first_oversized_insert_absent(d, i, k);
        lemma_first_oversized_in_range(d);
        lemma_first_oversized_in_range(t.drop_last());
        if let Some(j) = first_oversized(t.drop_last()) {
            assert(t[j] == t.drop_last()[j]);
        }
        if let Some(j) = first_oversized(d) {
            assert(fields[j] == d[j]);
        }
    }
}

proof fn lemma_has_present_field_insert_absent(fields: Seq<FieldModel>, i: int, k: Seq<char>)
    requires
        0 <= i <= fields.len(),
    ensures
        has_present_field(fields.insert(i, (k, None))) == has_present_field(fields),
{
    let t = fields.insert(i, (k, None));
    if has_present_field(fields) {
        let j = choose|j: int| 0 <= j < fields.len() && (#[trigger] fields[j]).1 is Some;
        if j < i {
            assert(t[j] == fields[j]);
        } else {
            assert(t[j + 1] == fields[j]);
        }
    }
    if has_present_field(t) {
        let j = choose|j: int| 0 <= j < t.len() && (#[trigger] t[j]).1 is Some;
        if j < i {
            assert(t[j] == fields[j]);
        } else {
            assert(t[j] == fields[j - 1]);
        }
    }
}

/// A field entry without a value leaves no trace: inserting one anywhere among
/// the fields changes neither the line nor the outcome of encoding.
pub proof fn lemma_absent_field_vanishes(r: RecordModel, i: int, k: Seq<char>)
    requires
        0 <= i <= r.fields.len(),
    ensures
        line(RecordModel { fields: r.fields.insert(i, (k, None)), ..r }) == line(r),
        outcome(RecordModel { fields: r.fields.insert(i, (k, None)), ..r }) == outcome(r),
{
    lemma_field_tokens_insert_absent(r.fields, i, k);
    lemma_has_present_field_insert_absent(r.fields, i, k);
    lemma_first_oversized_insert_absent(r.fields, i, k);
}

/// A tag entry whose value is present but empty still gives the token `key=`.
pub proof fn lemma_empty_tag_value_kept(tags: Seq<TagModel>, k: Seq<char>)
    ensures
        tag_tokens(tags.push((k, Some(Seq::empty())))) == tag_tokens(tags).push(
            escaped(k, Position::TagKey) + seq!['='],
        ),
{
    let t = tags.push((k, Some(Seq::<char>::empty())));
    assert(t.drop_last() =~= tags);
    assert(escaped(k, Position::TagKey) + seq!['='] + escaped(Seq::empty(), Position::TagValue)
        =~= escaped(k, Position::TagKey) + seq!['=']);
}

/// Signed integers end in `i`, unsigned ones in `u`; booleans are the bare words
/// `true` and `false`; floats are their text with no suffix.
pub proof fn lemma_literal_suffix(v: ValueModel)
    ensures
        v is SignedInteger ==> literal(v).len() >= 2 && literal(v).last() == 'i',
        v is UnsignedInteger ==> literal(v).len() >= 2 && literal(v).last() == 'u',
        v matches ValueModel::Boolean(b) ==> literal(v) == if b {
            seq!['t', 'r', 'u', 'e']
        } else {
            seq!['f', 'a', 'l', 's', 'e']
        },
        v matches ValueModel::Float(t) ==> literal(v) == t,
{
    match v {
        ValueModel::SignedInteger(n) => {
            lemma_int_text_nonempty(n);
        },
        ValueModel::UnsignedInteger(n) => {
            lemma_nat_text_nonempty(n);
        },
        _ => {},
    }
}

proof fn lemma_nat_text_nonempty(n: nat)
    ensures
        crate::literal::nat_text(n).len() >= 1,
    decreases n,
{
    if n >= 10 {
        lemma_nat_text_nonempty(n / 10);
    }
}

proof fn lemma_int_text_nonempty(n: int)
    ensures
        crate::literal::int_text(n).len() >= 1,
{
    if n < 0 {
        lemma_nat_text_nonempty((-n) as nat);
    } else {
        lemma_nat_text_nonempty(n as nat);
    }
}

/// A text value of exactly 65536 bytes may be written; one of 65537 bytes may not.
pub proof fn lemma_text_limit(t: Seq<char>)
    ensures
        byte_len(t) == 65536 ==> fits(ValueModel::Text(t)),
        byte_len(t) == 65537 ==> !fits(ValueModel::Text(t)),
{
}

/// A record with a measurement name but no field value is refused with
/// `NoFields`, whatever its tags.
pub proof fn lemma_no_fields_rejected(r: RecordModel)
    requires
        r.measurement.len() > 0,
        forall|i: int| 0 <= i < r.fields.len() ==> (#[trigger] r.fields[i]).1 is None,
    ensures
        outcome(r) == Err::<Seq<char>, ErrorModel>(ErrorModel::NoFields),
{
    assert(!has_present_field(r.fields));
}

} // verus!
