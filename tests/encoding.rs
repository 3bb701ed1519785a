use influx3_lp::{escape, format_value, LpError, Position, Record, TypedValue, MAX_TEXT_BYTES};

fn text(s: &str) -> String {
    String::from(s)
}

fn one_field() -> Vec<(String, Option<TypedValue>)> {
    vec![(text("v"), Some(TypedValue::SignedInteger(1)))]
}

#[test]
fn escape_by_position() {
    let raw = "a,b c=d\\e\"f";
    assert_eq!(escape(raw, Position::Measurement), "a\\,b\\ c=d\\e\"f");
    assert_eq!(escape(raw, Position::TagKey), "a\\,b\\ c\\=d\\e\"f");
    assert_eq!(escape(raw, Position::TagValue), "a\\,b\\ c\\=d\\e\"f");
    assert_eq!(escape(raw, Position::FieldKey), "a\\,b\\ c\\=d\\e\"f");
    assert_eq!(escape(raw, Position::FieldValue), "a,b c=d\\\\e\\\"f");
    assert_eq!(escape("", Position::TagValue), "");
}

#[test]
fn escape_twice_escapes_again() {
    let once = escape("a b", Position::Measurement);
    assert_eq!(once, "a\\ b");
    let twice = escape(&once, Position::Measurement);
    assert_eq!(twice, "a\\\\ b");
    assert_ne!(once, twice);
    let once = escape("q\"", Position::FieldValue);
    assert_eq!(once, "q\\\"");
    assert_eq!(escape(&once, Position::FieldValue), "q\\\\\\\"");
}

#[test]
fn empty_tag_value_gives_bare_key() {
    let data = Record {
        measurement: text("m"),
        tags: vec![(text("a"), Some(text(""))), (text("b"), None), (text("c"), Some(text("x")))],
        fields: one_field(),
        timestamp: None,
    };
    assert_eq!(data.encode().unwrap(), "m,a=,c=x v=1i");
}

#[test]
fn absent_tags_only_give_no_tag_segment() {
    let data = Record {
        measurement: text("m"),
        tags: vec![(text("a"), None), (text("b"), None)],
        fields: one_field(),
        timestamp: Some(-5),
    };
    assert_eq!(data.encode().unwrap(), "m v=1i -5");
}

#[test]
fn literal_suffixes() {
    assert_eq!(format_value(&TypedValue::SignedInteger(-42)).unwrap(), "-42i");
    assert_eq!(format_value(&TypedValue::SignedInteger(0)).unwrap(), "0i");
    assert_eq!(
        format_value(&TypedValue::SignedInteger(i64::MIN)).unwrap(),
        "-9223372036854775808i"
    );
    assert_eq!(
        format_value(&TypedValue::UnsignedInteger(u64::MAX)).unwrap(),
        "18446744073709551615u"
    );
    assert_eq!(format_value(&TypedValue::Boolean(true)).unwrap(), "true");
    assert_eq!(format_value(&TypedValue::Boolean(false)).unwrap(), "false");
    assert_eq!(format_value(&TypedValue::Float((-1.5f64).to_string())).unwrap(), "-1.5");
    assert_eq!(format_value(&TypedValue::Text(text("a\"b"))).unwrap(), "\"a\\\"b\"");
}

#[test]
fn text_limit_counts_bytes() {
    let fits = "\u{e9}".repeat(MAX_TEXT_BYTES / 2);
    assert_eq!(fits.len(), 65536);
    assert!(format_value(&TypedValue::Text(fits)).is_some());
    let over = format!("{}A", "\u{e9}".repeat(MAX_TEXT_BYTES / 2));
    assert!(format_value(&TypedValue::Text(over)).is_none());
    let over = "\u{e9}".repeat(MAX_TEXT_BYTES / 2 + 1);
    assert!(format_value(&TypedValue::Text(over)).is_none());
}

#[test]
fn empty_measurement_is_refused() {
    let data = Record {
        measurement: text(""),
        tags: vec![],
        fields: vec![],
        timestamp: None,
    };
    assert_eq!(data.encode(), Err(LpError::InvalidMeasurement));
}

#[test]
fn only_absent_fields_are_refused() {
    let data = Record {
        measurement: text("m"),
        tags: vec![(text("a"), Some(text("1"))), (text("b"), Some(text("2")))],
        fields: vec![(text("x"), None), (text("y"), None)],
        timestamp: Some(7),
    };
    assert_eq!(data.encode(), Err(LpError::NoFields));
}

#[test]
fn first_oversized_field_is_named() {
    let big = "B".repeat(MAX_TEXT_BYTES + 1);
    let data = Record {
        measurement: text("m"),
        tags: vec![],
        fields: vec![
            (text("ok"), Some(TypedValue::Text(text("small")))),
            (text("first"), Some(TypedValue::Text(big.clone()))),
            (text("second"), Some(TypedValue::Text(big))),
        ],
        timestamp: None,
    };
    assert_eq!(data.encode(), Err(LpError::FieldTooLarge(text("first"))));
}

#[test]
fn keys_are_escaped() {
    let data = Record {
        measurement: text("a,b"),
        tags: vec![(text("k ey"), Some(text("v=1")))],
        fields: vec![(text("f=k"), Some(TypedValue::UnsignedInteger(3)))],
        timestamp: None,
    };
    assert_eq!(data.encode().unwrap(), "a\\,b,k\\ ey=v\\=1 f\\=k=3u");
}
