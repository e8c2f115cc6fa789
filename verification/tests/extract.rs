use zwse::{parse_session_json, ExtractedData, JsonValue};

fn entry_object() -> JsonValue {
    parse_session_json(
        r#"{
            "id": 42,
            "url": "https://example.com/",
            "title": "Example",
            "workspace": null,
            "pinned": false,
            "pinned_id": null,
            "last_accessed": 1234567890
        }"#,
    )
    .expect("valid json")
}

#[test]
fn extract_fields_from_entry_object() {
    let tab = entry_object();
    let row = ExtractedData::extract_fields(&tab).expect("extract");
    assert_eq!(row.id, 42);
    // serde_json Value::to_string quotes strings
    assert!(row.url.contains("example.com"), "url={}", row.url);
    assert!(row.title.contains("Example"), "title={}", row.title);
    assert!(!row.pinned);
    assert_eq!(row.last_accessed, 1234567890);
    assert_eq!(row.workspace, "");
    assert_eq!(row.pinned_id, "");
}

#[test]
fn set_field_null_workspace_becomes_empty() {
    let mut s = ExtractedData::default();
    s.set_field("workspace", "null".into());
    assert_eq!(s.workspace, "");
}

#[test]
fn ord_by_id() {
    let a = ExtractedData {
        id: 1,
        ..Default::default()
    };
    let b = ExtractedData {
        id: 2,
        ..Default::default()
    };
    assert!(a < b);
}

#[test]
fn extracted_strings_keep_their_quotes() {
    let row = ExtractedData::extract_fields(&entry_object()).expect("extract");
    assert_eq!(row.url, "\"https://example.com/\"");
    assert_eq!(row.title, "\"Example\"");
    assert_eq!(row.pinned_entry, None);
    assert_eq!(row.size, 7);
}

#[test]
fn set_field_is_case_insensitive_and_ignores_unknown_names() {
    let mut s = ExtractedData::default();
    s.set_field("ID", "17".into());
    s.set_field("Pinned", "true".into());
    s.set_field("LAST_ACCESSED", "+99".into());
    s.set_field("pinned_entry", "\"p\"".into());
    s.set_field("pinned_id", "abc".into());
    s.set_field("nothing", "ignored".into());
    assert_eq!(s.id, 17);
    assert!(s.pinned);
    assert_eq!(s.last_accessed, 99);
    assert_eq!(s.pinned_entry.as_deref(), Some("\"p\""));
    assert_eq!(s.pinned_id, "abc");
    assert_eq!(s.size, 0);
}

#[test]
fn try_extract_reports_bad_field_and_non_object() {
    let bad = parse_session_json(r#"{"id": "x", "url": "u"}"#).unwrap();
    match ExtractedData::try_extract_fields(&bad) {
        Err(zwse::Error::FieldConversionError(k)) => assert_eq!(k, "id"),
        other => panic!("unexpected {other:?}"),
    }
    let not_object = parse_session_json("[1, 2]").unwrap();
    assert!(matches!(
        ExtractedData::try_extract_fields(&not_object),
        Err(zwse::Error::TabObjectNotFound)
    ));
    let float_id = parse_session_json(r#"{"id": 1.5}"#).unwrap();
    assert!(matches!(
        ExtractedData::try_extract_fields(&float_id),
        Err(zwse::Error::FieldConversionError(_))
    ));
}

#[test]
fn equality_and_order_look_only_at_id() {
    let mut a = ExtractedData::default();
    a.id = 5;
    a.title = "a".into();
    let mut b = ExtractedData::default();
    b.id = 5;
    b.title = "b".into();
    assert!(a == b);
    assert_eq!(a.partial_cmp(&b), Some(std::cmp::Ordering::Equal));
    b.id = 4;
    assert!(a > b);
}

#[test]
fn maybe_empty_string_maps_null_only() {
    assert_eq!(zwse::maybe_empty_string("null"), "");
    assert_eq!(zwse::maybe_empty_string(""), "");
    assert_eq!(zwse::maybe_empty_string("\"null\""), "\"null\"");
    assert_eq!(zwse::maybe_empty_string("x"), "x");
}

#[test]
fn format_row_matches_export_layout() {
    let mut r = ExtractedData::default();
    r.id = 7;
    r.title = "T".into();
    r.workspace = "W".into();
    r.pinned = true;
    r.pinned_id = "P".into();
    r.last_accessed = 123;
    r.url = "U".into();
    assert_eq!(r.format_row(), "| 7 | T | W | true |None | P | 123 | U |");
    r.pinned_entry = Some("E".into());
    assert_eq!(r.format_row(), "| 7 | T | W | true |E | P | 123 | U |");
    let text = zwse::format_rows(&[r.clone(), ExtractedData::default()]);
    assert_eq!(
        text,
        "| 7 | T | W | true |E | P | 123 | U |\n| 0 | | | false |None | | 0 | |\n"
    );
}

#[test]
fn try_set_field_reports_values_that_do_not_convert() {
    let mut s = ExtractedData::default();
    assert!(s.try_set_field("ID", "17".into()));
    assert_eq!(s.id, 17);
    assert!(!s.try_set_field("id", "x7".into()));
    assert_eq!(s.id, 17);
    assert!(!s.try_set_field("Pinned", "1".into()));
    assert!(s.try_set_field("Pinned", "true".into()));
    assert!(s.pinned);
    assert!(s.try_set_field("unknown", "anything".into()));
    assert_eq!(s.size, 0);
}

#[test]
fn empty_fields_print_as_one_space() {
    let row = ExtractedData {
        id: 1,
        title: "\"GitHub - Home\"".into(),
        pinned: false,
        pinned_entry: None,
        last_accessed: 1704067200,
        url: "\"https://github.com\"".into(),
        ..Default::default()
    };
    assert_eq!(
        zwse::format_rows(&[row]),
        "| 1 | \"GitHub - Home\" | | false |None | | 1704067200 | \"https://github.com\" |\n"
    );
}
