//! Assembly of a whole line from a record.

use vstd::prelude::*;
use crate::escape::{escaped, push_char, push_escaped, Position};
use crate::literal::{int_text, literal, fits, push_literal, push_signed, value_fits, TypedValue, ValueModel};

verus! {

/// A measurement point, ready to be written as one line.
///
/// Tags and fields keep the order in which they are given; an entry whose value
/// is `None` is left out of the line.
pub struct Record {
    pub measurement: String,
    pub tags: Vec<(String, Option<String>)>,
    pub fields: Vec<(String, Option<TypedValue>)>,
    pub timestamp: Option<i64>,
}

/// A tag entry as key text and optional value text.
pub type TagModel = (Seq<char>, Option<Seq<char>>);

/// A field entry as key text and optional value.
pub type FieldModel = (Seq<char>, Option<ValueModel>);

/// What a `Record` holds, with text as sequences of characters.
pub struct RecordModel {
    pub measurement: Seq<char>,
    pub tags: Seq<TagModel>,
    pub fields: Seq<FieldModel>,
    pub timestamp: Option<int>,
}

/// The model of one tag entry.
pub open spec fn tag_model(t: (String, Option<String>)) -> TagModel {
    (
        t.0@,
        match t.1 {
            Some(v) => Some(v@),
            None => None,
        },
    )
}

/// The model of one field entry.
pub open spec fn field_model(f: (String, Option<TypedValue>)) -> FieldModel {
    (
        f.0@,
        match f.1 {
            Some(v) => Some(v@),
            None => None,
        },
    )
}

impl View for Record {
    type V = RecordModel;

    open spec fn view(&self) -> RecordModel {
        RecordModel {
            measurement: self.measurement@,
            tags: self.tags@.map_values(|t: (String, Option<String>)| tag_model(t)),
            fields: self.fields@.map_values(|f: (String, Option<TypedValue>)| field_model(f)),
            timestamp: match self.timestamp {
                Some(t) => Some(t as int),
                None => None,
            },
        }
    }
}

/// Why a record could not be written.
#[derive(Clone, Debug, PartialEq, Eq)]
pub enum LpError {
    /// The measurement name is empty.
    InvalidMeasurement,
    /// No field entry has a value.
    NoFields,
    /// The text value of the field with this key is too long.
    FieldTooLarge(String),
}

/// What an `LpError` holds, with the key as a sequence of characters.
pub enum ErrorModel {
    InvalidMeasurement,
    NoFields,
    FieldTooLarge(Seq<char>),
}

pub open spec fn error_model(e: LpError) -> ErrorModel {
    match e {
        LpError::InvalidMeasurement => ErrorModel::InvalidMeasurement,
        LpError::NoFields => ErrorModel::NoFields,
        LpError::FieldTooLarge(k) => ErrorModel::FieldTooLarge(k@),
    }
}

/// The outcome of an encoding, with text as sequences of characters.
pub open spec fn result_model(r: Result<String, LpError>) -> Result<Seq<char>, ErrorModel> {
    match r {
        Ok(s) => Ok(s@),
        Err(e) => Err(error_model(e)),
    }
}

/// The `key=value` tokens of the tags that have a value, in order.
pub open spec fn tag_tokens(tags: Seq<TagModel>) -> Seq<Seq<char>>
    decreases tags.len(),
{
    if tags.len() == 0 {
        Seq::empty()
    } else {
        let prev = tag_tokens(tags.drop_last());
        match tags.last().1 {
            Some(v) => prev.push(
                escaped(tags.last().0, Position::TagKey) + seq!['='] + escaped(v, Position::TagValue),
            ),
            None => prev,
        }
    }
}

/// The `key=literal` tokens of the fields that have a value, in order.
pub open spec fn field_tokens(fields: Seq<FieldModel>) -> Seq<Seq<char>>
    decreases fields.len(),
{
    if fields.len() == 0 {
        Seq::empty()
    } else {
        let prev = field_tokens(fields.drop_last());
        match fields.last().1 {
            Some(v) => prev.push(escaped(fields.last().0, Position::FieldKey) + seq!['='] + literal(v)),
            None => prev,
        }
    }
}

/// The tokens joined by commas.
pub open spec fn joined(toks: Seq<Seq<char>>) -> Seq<char>
    decreases toks.len(),
{
    if toks.len() == 0 {
        Seq::empty()
    } else if toks.len() == 1 {
        toks[0]
    } else {
        joined(toks.drop_last()) + seq![','] + toks.last()
    }
}

/// The tag segment: nothing when no tag has a value, else a comma and the tag tokens.
pub open spec fn tag_segment(tags: Seq<TagModel>) -> Seq<char> {
    if tag_tokens(tags).len() == 0 {
        Seq::empty()
    } else {
        seq![','] + joined(tag_tokens(tags))
    }
}

/// The timestamp segment: nothing when absent, else a space and its digits.
pub open spec fn timestamp_segment(ts: Option<int>) -> Seq<char> {
    match ts {
        Some(t) => seq![' '] + int_text(t),
        None => Seq::empty(),
    }
}

/// The line of a record:
/// `measurement[,tag=value...] field=literal[,field=literal...][ timestamp]`.
pub open spec fn line(r: RecordModel) -> Seq<char> {
    escaped(r.measurement, Position::Measurement) + tag_segment(r.tags) + seq![' '] + joined(
        field_tokens(r.fields),
    ) + timestamp_segment(r.timestamp)
}

/// Whether some field entry has a value.
pub open spec fn has_present_field(fields: Seq<FieldModel>) -> bool {
    exists|i: int| 0 <= i < fields.len() && (#[trigger] fields[i]).1 is Some
}

/// Whether a field entry holds a value that may not be written.
pub open spec fn oversized(f: FieldModel) -> bool {
    match f.1 {
        Some(v) => !fits(v),
        None => false,
    }
}

/// The index of the first field entry whose value may not be written, if any.
pub open spec fn first_oversized(fields: Seq<FieldModel>) -> Option<int>
    decreases fields.len(),
{
    if fields.len() == 0 {
        None
    } else {
        match first_oversized(fields.drop_last()) {
            Some(i) => Some(i),
            None => if oversized(fields.last()) {
                Some(fields.len() - 1)
            } else {
                None
            },
        }
    }
}

/// The outcome of encoding a record: an empty measurement name is refused first,
/// then a record without any field value, then the first text value that is too
/// long; otherwise the line.
pub open spec fn outcome(r: RecordModel) -> Result<Seq<char>, ErrorModel> {
    if r.measurement.len() == 0 {
        Err(ErrorModel::InvalidMeasurement)
    } else if !has_present_field(r.fields) {
        Err(ErrorModel::NoFields)
    } else {
        match first_oversized(r.fields) {
            Some(i) => Err(ErrorModel::FieldTooLarge(r.fields[i].0)),
            None => Ok(line(r)),
        }
    }
}

proof fn lemma_joined_push(toks: Seq<Seq<char>>, t: Seq<char>)
    ensures
        joined(toks.push(t)) == if toks.len() == 0 {
            t
        } else {
            joined(toks) + seq![','] + t
        },
{
    assert(toks.push(t).drop_last() =~= toks);
    if toks.len() == 0 {
        assert(toks.push(t)[0] == t);
    }
}

impl Record {
    /// The line of this record, or the reason it cannot be written.
    pub fn encode(&self) -> (r: Result<String, LpError>)
        ensures
            result_model(r) == outcome(self@),
    {
        let ghost model = self@;
        if self.measurement.as_str().is_empty() {
            return Err(LpError::InvalidMeasurement);
        }
        let n = self.fields.len();
        let mut any: bool = false;
        let mut i: usize = 0;
        while i < n
            invariant
                n == self.fields@.len(),
                model == self@,
                any ==> has_present_field(model.fields),
                !any ==> forall|j: int| 0 <= j < i ==> (#[trigger] model.fields[j]).1 is None,
            decreases n - i,
        {
            if self.fields[i].1.is_some() {
                assert(model.fields[i as int].1 is Some);
                any = true;
            }
            i = i + 1;
        }
        if !any {
            return Err(LpError::NoFields);
        }
        let mut i: usize = 0;
        while i < n
            invariant
                n == self.fields@.len(),
                model == self@,
                i <= n,
                model.measurement.len() > 0,
                has_present_field(model.fields),
                first_oversized(model.fields.take(i as int)) is None,
            decreases n - i,
        {
            assert(model.fields.take(i + 1).drop_last() =~= model.fields.take(i as int));
            match &self.fields[i].1 {
                Some(v) => {
                    if !value_fits(v) {
                        assert(model.fields.take(i + 1).last() == model.fields[i as int]);
                        assert(first_oversized(model.fields.take(i + 1)) == Some(i as int));
                        let k = self.fields[i].0.clone();
                        proof {
                            lemma_first_oversized_prefix(model.fields, i + 1);
                            assert(model.fields[i as int] == field_model(self.fields@[i as int]));
                        }
                        return Err(LpError::FieldTooLarge(k));
                    }
                },
                None => {},
            }
            i = i + 1;
        }
        proof {
            assert(model.fields.take(n as int) =~= model.fields);
        }
        let mut out = String::new();
        push_escaped(&mut out, self.measurement.as_str(), Position::Measurement);
        let ghost base = out@;
        let nt = self.tags.len();
        let mut i: usize = 0;
        while i < nt
            invariant
                nt == self.tags@.len(),
                model == self@,
                i <= nt,
                base == escaped(model.measurement, Position::Measurement),
                out@ == base + tag_segment(model.tags.take(i as int)),
            decreases nt - i,
        {
            let ghost before = model.tags.take(i as int);
            assert(model.tags.take(i + 1).drop_last() =~= before);
            assert(model.tags.take(i + 1).last() == model.tags[i as int]);
            let tag = &self.tags[i];
            match &tag.1 {
                Some(v) => {
                    let ghost toks = tag_tokens(before);
                    push_char(&mut out, ',');
                    push_escaped(&mut out, tag.0.as_str(), Position::TagKey);
                    push_char(&mut out, '=');
                    push_escaped(&mut out, v.as_str(), Position::TagValue);
                    proof {
                        let t = escaped(tag.0@, Position::TagKey) + seq!['='] + escaped(
                            v@,
                            Position::TagValue,
                        );
                        lemma_joined_push(toks, t);
                        assert(tag_tokens(model.tags.take(i + 1)) == toks.push(t));
                        assert(out@ =~= base + tag_segment(model.tags.take(i + 1)));
                    }
                },
                None => {
                    assert(tag_tokens(model.tags.take(i + 1)) == tag_tokens(before));
                },
            }
            i = i + 1;
        }
        assert(model.tags.take(nt as int) =~= model.tags);
        push_char(&mut out, ' ');
        let ghost base = out@;
        let mut first: bool = true;
        let mut i: usize = 0;
        while i < n
            invariant
                n == self.fields@.len(),
                model == self@,
                i <= n,
                first <==> field_tokens(model.fields.take(i as int)).len() == 0,
                out@ == base + joined(field_tokens(model.fields.take(i as int))),
            decreases n - i,
        {
            let ghost before = model.fields.take(i as int);
            assert(model.fields.take(i + 1).drop_last() =~= before);
            assert(model.fields.take(i + 1).last() == model.fields[i as int]);
            let field = &self.fields[i];
            match &field.1 {
                Some(v) => {
                    let ghost toks = field_tokens(before);
                    if !first {
                        push_char(&mut out, ',');
                    }
                    first = false;
                    push_escaped(&mut out, field.0.as_str(), Position::FieldKey);
                    push_char(&mut out, '=');
                    push_literal(&mut out, v);
                    proof {
                        let t = escaped(field.0@, Position::FieldKey) + seq!['='] + literal(v@);
                        lemma_joined_push(toks, t);
                        assert(field_tokens(model.fields.take(i + 1)) == toks.push(t));
                        assert(out@ =~= base + joined(field_tokens(model.fields.take(i + 1))));
                    }
                },
                None => {
                    assert(field_tokens(model.fields.take(i + 1)) == field_tokens(before));
                },
            }
            i = i + 1;
        }
        assert(model.fields.take(n as int) =~= model.fields);
        match self.timestamp {
            Some(t) => {
                push_char(&mut out, ' ');
                push_signed(&mut out, t);
            },
            None => {},
        }
        assert(out@ =~= line(model));
        Ok(out)
    }
}

proof fn lemma_first_oversized_prefix(s: Seq<FieldModel>, k: int)
    requires
        0 <= k <= s.len(),
        first_oversized(s.take(k)) is Some,
    ensures
        first_oversized(s) == first_oversized(s.take(k)),
    decreases s.len(),
{
    if k == s.len() {
        assert(s.take(k) =~= s);
    } else {
        assert(s.drop_last().take(k) =~= s.take(k));
        lemma_first_oversized_prefix(s.drop_last(), k);
    }
}

} // verus!

verus! {

/// A value that can be written as one line of line protocol.
pub trait Influx3Lp {
    /// The outcome that `to_lp` gives on this value.
    spec fn lp_outcome(&self) -> Result<Seq<char>, ErrorModel>;

    /// The line of this value, or the reason it cannot be written.
    fn to_lp(&self) -> (r: Result<String, LpError>)
        ensures
            result_model(r) == self.lp_outcome(),
    ;
}

impl Influx3Lp for Record {
    open spec fn lp_outcome(&self) -> Result<Seq<char>, ErrorModel> {
        outcome(self@)
    }

    fn to_lp(&self) -> (r: Result<String, LpError>) {
        self.encode()
    }
}

} // verus!
