use zwse::json::JsonValue;
use zwse::text::{parse_bool, parse_usize, push_decimal};
use zwse::{parse_session_json, Error, ExtractedData, FillBuf, JsonBufPtr};

#[test]
fn usize_parsing_follows_from_str() {
    assert_eq!(parse_usize("0"), Some(0));
    assert_eq!(parse_usize("+12"), Some(12));
    assert_eq!(parse_usize("007"), Some(7));
    assert_eq!(parse_usize(""), None);
    assert_eq!(parse_usize("+"), None);
    assert_eq!(parse_usize("-1"), None);
    assert_eq!(parse_usize("1.5"), None);
    assert_eq!(parse_usize("\"3\""), None);
    assert_eq!(parse_usize(&usize::MAX.to_string()), Some(usize::MAX));
    assert_eq!(parse_usize("18446744073709551616"), None);
    for s in ["42", "+9", "x", "99999999999999999999999"] {
        assert_eq!(parse_usize(s), s.parse::<usize>().ok());
    }
}

#[test]
fn bool_parsing_follows_from_str() {
    assert_eq!(parse_bool("true"), Some(true));
    assert_eq!(parse_bool("false"), Some(false));
    assert_eq!(parse_bool("True"), None);
    assert_eq!(parse_bool(""), None);
}

#[test]
fn decimal_printing_follows_display() {
    for n in [0usize, 9, 10, 255, 1234567890, usize::MAX] {
        let mut s = String::from("x");
        push_decimal(&mut s, n);
        assert_eq!(s, format!("x{n}"));
    }
}

#[test]
fn json_text_is_compact_serde_text() {
    let v = parse_session_json(r#"{"title": { "b": [1, 2.5, null, true], "a": "q\"" }}"#).unwrap();
    let row = ExtractedData::try_extract_fields(&v).unwrap();
    assert_eq!(row.title, r#"{"a":"q\"","b":[1,2.5,null,true]}"#);
    let built = JsonValue::Object(vec![("id".into(), JsonValue::Number("7".into()))]);
    assert_eq!(ExtractedData::try_extract_fields(&built).unwrap().id, 7);
    assert!(matches!(parse_session_json("[1,"), Err(Error::JsonParseError(_))));
}

#[test]
fn members_keep_map_order() {
    match parse_session_json(r#"{"b": 1, "a": 2}"#).unwrap() {
        JsonValue::Object(m) => {
            let keys: Vec<&str> = m.iter().map(|(k, _)| k.as_str()).collect();
            assert_eq!(keys, vec!["a", "b"]);
        }
        other => panic!("unexpected {other:?}"),
    }
}

#[test]
fn buffer_handle_points_at_its_text() {
    let p = JsonBufPtr::new("héllo");
    assert_eq!(p.peek(3).unwrap(), &"héllo".as_bytes()[..3]);
    let mut q = JsonBufPtr::default();
    assert!(q.peek(1).is_err());
    let q2 = q.fill_buf("abc");
    assert_eq!(q2.peek(9).unwrap(), b"abc");
    assert_eq!(q.peek(2).unwrap(), b"ab");
}
