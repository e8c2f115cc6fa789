use zwse::{
    counting_sort, counting_sort_simd, radix_sort, radix_sort_avx, radix_sort_simd,
    sort_rows_by_id, ExtractedData, Modulo,
};

fn row(id: usize, tag: &str) -> ExtractedData {
    let mut r = ExtractedData::default();
    r.id = id;
    r.title = tag.to_string();
    r
}

fn ids_tags(rows: &[ExtractedData]) -> Vec<(usize, String)> {
    rows.iter().map(|r| (r.id, r.title.clone())).collect()
}

fn sample() -> Vec<ExtractedData> {
    vec![
        row(70000, "a"),
        row(3, "b"),
        row(256, "c"),
        row(3, "d"),
        row(0, "e"),
        row(65535, "f"),
        row(256, "g"),
    ]
}

fn expected() -> Vec<(usize, String)> {
    vec![
        (0, "e".into()),
        (3, "b".into()),
        (3, "d".into()),
        (256, "c".into()),
        (256, "g".into()),
        (65535, "f".into()),
        (70000, "a".into()),
    ]
}

#[test]
fn radix_sort_is_stable_by_id() {
    let mut v = sample();
    radix_sort(&mut v);
    assert_eq!(ids_tags(&v), expected());
}

#[test]
fn radix_sort_simd_is_stable_by_id() {
    let mut v = sample();
    radix_sort_simd(&mut v);
    assert_eq!(ids_tags(&v), expected());
    let mut empty: Vec<ExtractedData> = Vec::new();
    radix_sort_simd(&mut empty);
    assert!(empty.is_empty());
}

#[test]
fn radix_sort_avx_is_stable_by_id() {
    let mut v = sample();
    v.push(row((1usize << 55) + 1, "h"));
    radix_sort_avx(&mut v);
    let mut want = expected();
    want.push(((1usize << 55) + 1, "h".into()));
    assert_eq!(ids_tags(&v), want);
}

#[test]
fn sort_rows_by_id_handles_every_id() {
    let mut v = sample();
    v.insert(0, row(usize::MAX, "max"));
    v.push(row(usize::MAX, "max2"));
    sort_rows_by_id(&mut v);
    let mut want = expected();
    want.push((usize::MAX, "max".into()));
    want.push((usize::MAX, "max2".into()));
    assert_eq!(ids_tags(&v), want);
}

#[test]
fn counting_sort_orders_by_one_digit() {
    let mut v = vec![row(0x1ff, "a"), row(0x200, "b"), row(0x101, "c"), row(0x2, "d")];
    counting_sort(&mut v, 256, 256);
    assert_eq!(
        ids_tags(&v),
        vec![
            (0x2, "d".into()),
            (0x1ff, "a".into()),
            (0x101, "c".into()),
            (0x200, "b".into())
        ]
    );
    let mut w = vec![row(13, "a"), row(20, "b"), row(7, "c")];
    counting_sort(&mut w, 1, 10);
    assert_eq!(ids_tags(&w), vec![(20, "b".into()), (13, "a".into()), (7, "c".into())]);
}

#[test]
fn counting_sort_uses_the_low_32_bits() {
    let big = (1usize << 32) + 5;
    let mut v = vec![row(9, "a"), row(big, "b")];
    counting_sort(&mut v, 1, 256);
    assert_eq!(ids_tags(&v), vec![(big, "b".into()), (9, "a".into())]);
}

#[test]
fn counting_sort_simd_orders_by_one_digit() {
    let mut v = vec![row(35, "a"), row(12, "b"), row(31, "c"), row(40, "d")];
    counting_sort_simd(&mut v, 10, 10);
    assert_eq!(
        ids_tags(&v),
        vec![(12, "b".into()), (35, "a".into()), (31, "c".into()), (40, "d".into())]
    );
}

#[test]
fn modulo_divides() {
    assert_eq!(17u32.modulo(5), 3);
    assert_eq!(100usize.modulo(10), 10);
}

#[test]
fn sorting_sorted_rows_changes_nothing() {
    let mut v = sample();
    radix_sort(&mut v);
    let once = ids_tags(&v);
    radix_sort_simd(&mut v);
    assert_eq!(ids_tags(&v), once);
    sort_rows_by_id(&mut v);
    assert_eq!(ids_tags(&v), once);
    assert_eq!(v.len(), sample().len());
}

#[test]
fn counting_sorts_of_nothing_take_any_parameters() {
    let mut v: Vec<ExtractedData> = Vec::new();
    counting_sort(&mut v, 0, 0);
    counting_sort_simd(&mut v, 0, 0);
    assert!(v.is_empty());
}
