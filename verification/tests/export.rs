use zwse::{FillBuf, collect_rows, format_rows, parse_session_json, parse_session_data, Error, FileLocations, MAGIC_HEADER};

const MINIMAL_JSON: &str = r#"{"windows":[{"tabs":[{"entries":[
      {"id":2,"url":"https://example.com/b","title":"B","workspace":null,"pinned":false,"pinned_id":null,"last_accessed":200},
      {"id":1,"url":"https://example.com/a","title":"A","workspace":"ws1","pinned":true,"pinned_id":"p1","last_accessed":100}
    ]}]}]}"#;

/// The minimal `mozLz40` fixture: magic, little-endian size, LZ4 block.
fn fixture_bytes() -> Vec<u8> {
    let compressed = lz4_flex::block::compress_prepend_size(MINIMAL_JSON.as_bytes());
    let mut out = Vec::with_capacity(MAGIC_HEADER.len() + compressed.len());
    out.extend_from_slice(&MAGIC_HEADER);
    out.extend_from_slice(&compressed);
    out
}

fn open_fixture() -> FileLocations {
    FileLocations::open("fixtures".into(), "fixtures/minimal.jsonlz4".into(), &fixture_bytes())
        .expect("open fixture")
}

#[test]
fn fixture_exists_and_has_magic() {
    let bytes = fixture_bytes();
    assert!(bytes.len() > MAGIC_HEADER.len() + 4);
    assert_eq!(&bytes[..MAGIC_HEADER.len()], &MAGIC_HEADER[..]);
}

#[test]
fn open_bad_magic_errors() {
    let err = FileLocations::open(String::new(), "bad.jsonlz4".into(), b"not-a-magic-header-plus-body")
        .unwrap_err();
    assert!(matches!(err, Error::MagicHeaderInvalid | Error::MagicHeader));
}

#[test]
fn open_and_parse_minimal_fixture() {
    let fl = open_fixture();
    assert!(!fl.session_json.is_empty());
    let v = parse_session_json(&fl.session_json).expect("json");
    let tabs = parse_session_data(v).expect("parse");
    assert_eq!(tabs.len(), 1, "one tab of entries");
    assert_eq!(tabs[0].len(), 2, "two entries");
}

#[test]
fn run_export_writes_sorted_rows() {
    let fl = open_fixture();
    let rows = collect_rows(&fl.session_json).expect("export");
    let n = rows.len();
    assert_eq!(n, 2);
    let text = format_rows(&rows);
    let lines: Vec<_> = text.lines().filter(|l| !l.is_empty()).collect();
    assert_eq!(lines.len(), 2);
    // sorted by id: 1 then 2
    assert!(lines[0].contains("| 1 |"), "first row id=1: {}", lines[0]);
    assert!(lines[1].contains("| 2 |"), "second row id=2: {}", lines[1]);
    assert!(lines[0].contains("example.com/a"));
    assert!(lines[1].contains("example.com/b"));
}

#[test]
fn fixture_rows_are_exact() {
    let rows = collect_rows(MINIMAL_JSON).expect("rows");
    assert_eq!(
        format_rows(&rows),
        "| 1 | \"A\" | \"ws1\" | true |None | \"p1\" | 100 | \"https://example.com/a\" |\n\
         | 2 | \"B\" | | false |None | | 200 | \"https://example.com/b\" |\n"
    );
}

#[test]
fn peek_gives_a_prefix_of_the_json() {
    let fl = open_fixture();
    assert_eq!(fl.peek(10).unwrap(), &MINIMAL_JSON.as_bytes()[..10]);
    assert_eq!(fl.peek(1_000_000).unwrap(), MINIMAL_JSON.as_bytes());
    assert!(matches!(fl.peek(0), Err(Error::Generic(m)) if m == "Peek failed"));
    assert!(matches!(FileLocations::default().peek(5), Err(Error::NullPointer)));
    let mut other = open_fixture();
    let copy = other.fill_buf("{\"windows\":[]}");
    assert_eq!(other.peek(100).unwrap(), b"{\"windows\":[]}");
    assert_eq!(copy.peek(3).unwrap(), b"{\"w");
    assert_eq!(other.session_json, MINIMAL_JSON);
}

#[test]
fn decode_rejects_short_and_corrupt_files() {
    assert!(matches!(zwse::decode_session(b"mozLz40\0ab"), Err(Error::CompressedDataTooShort)));
    // A file of exactly `mozLz40` reads a zero-padded header that matches.
    assert!(matches!(zwse::decode_session(b"mozLz40"), Err(Error::CompressedDataTooShort)));
    assert!(matches!(zwse::decode_session(b"moz"), Err(Error::MagicHeaderInvalid)));
    let mut bad = MAGIC_HEADER.to_vec();
    bad.extend_from_slice(&[4, 0, 0, 0, 0xff, 0xff]);
    assert!(matches!(zwse::decode_session(&bad), Err(Error::DecompressionFailed)));
    let mut not_utf8 = MAGIC_HEADER.to_vec();
    not_utf8.extend_from_slice(&lz4_flex::block::compress_prepend_size(&[0xff, 0xfe]));
    assert!(matches!(zwse::decode_session(&not_utf8), Err(Error::DecompressedDataInvalidUtf8)));
}

#[test]
fn decode_returns_the_compressed_json() {
    assert_eq!(zwse::decode_session(&fixture_bytes()).unwrap(), MINIMAL_JSON);
}

#[test]
fn collect_rows_reports_shape_errors() {
    assert!(matches!(collect_rows("{"), Err(Error::JsonParseError(_))));
    assert!(matches!(collect_rows("{}"), Err(Error::WindowsArrayNotFound)));
    assert!(matches!(collect_rows(r#"{"windows": 3}"#), Err(Error::WindowsArrayNotFound)));
    assert!(matches!(collect_rows(r#"{"windows": [{}]}"#), Err(Error::TabsArrayNotFound)));
    assert!(matches!(
        collect_rows(r#"{"windows": [{"tabs": [{}]}]}"#),
        Err(Error::FieldNotFound(f)) if f == "entries"
    ));
    assert!(matches!(
        collect_rows(r#"{"windows": [{"tabs": [{"entries": [1]}]}]}"#),
        Err(Error::TabObjectNotFound)
    ));
    assert!(matches!(
        collect_rows(r#"{"windows": [{"tabs": [{"entries": [{"pinned": 1}]}]}]}"#),
        Err(Error::FieldConversionError(k)) if k == "pinned"
    ));
    assert_eq!(collect_rows(r#"{"windows": []}"#).unwrap().len(), 0);
}

#[test]
fn rows_of_equal_id_keep_their_order() {
    let json = r#"{"windows":[
        {"tabs":[{"entries":[{"id":3,"title":"x"},{"id":1,"title":"y"}]}]},
        {"tabs":[{"entries":[{"id":3,"title":"z"}]},{"entries":[{"id":0}]}]}
    ]}"#;
    let rows = collect_rows(json).unwrap();
    let got: Vec<(usize, String)> = rows.iter().map(|r| (r.id, r.title.clone())).collect();
    assert_eq!(
        got,
        vec![
            (0, String::new()),
            (1, "\"y\"".to_string()),
            (3, "\"x\"".to_string()),
            (3, "\"z\"".to_string())
        ]
    );
}
