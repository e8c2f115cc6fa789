//! From session JSON to the sorted rows of the export table.

use vstd::prelude::*;

use crate::error::Error;
use crate::extract::{
    extract_result_matches, extract_spec, row_views, ExtractFailure, ExtractedData, RowView,
};
use crate::json::{
    as_array_ref, get_member, into_array, json_array, json_get, json_parsed, parse_session_json, take_member,
    JsonValue,
};
use crate::sorting::radix::{id_key, sort_rows_by_id};
use crate::sorting::stable::{class_of, key_is, lemma_stable_sort_len, sorted_by, stable_sorted_by};

verus! {

broadcast use vstd::seq_lib::group_seq_properties;

/// The `windows` array of a session.
pub open spec fn windows_of(d: JsonValue) -> Option<Seq<JsonValue>> {
    json_array(json_get(d, "windows"@))
}

/// The `tabs` array of a window.
pub open spec fn tabs_of(w: JsonValue) -> Option<Seq<JsonValue>> {
    json_array(json_get(w, "tabs"@))
}

/// The `entries` array of a tab.
pub open spec fn entries_of(t: JsonValue) -> Option<Seq<JsonValue>> {
    json_array(json_get(t, "entries"@))
}

/// Every window has a `tabs` array.
pub open spec fn all_have_tabs(ws: Seq<JsonValue>) -> bool {
    forall|i: int| 0 <= i < ws.len() ==> (#[trigger] tabs_of(ws[i])) is Some
}

/// The `tabs` array of each window.
pub open spec fn tab_lists(ws: Seq<JsonValue>) -> Seq<Seq<JsonValue>> {
    ws.map_values(|w: JsonValue| tabs_of(w).unwrap())
}

/// Every tab has an `entries` array.
pub open spec fn all_have_entries(ts: Seq<Seq<JsonValue>>) -> bool {
    forall|i: int, j: int|
        0 <= i < ts.len() && 0 <= j < ts[i].len() ==> (#[trigger] entries_of(ts[i][j])) is Some
}

/// The `entries` array of every tab, window after window.
pub open spec fn entry_lists(ts: Seq<Seq<JsonValue>>) -> Seq<Seq<JsonValue>> {
    ts.map_values(|t: Seq<JsonValue>| t.map_values(|x: JsonValue| entries_of(x).unwrap())).flatten()
}

/// Where the session has a `windows` array, each window has `tabs` and each tab `entries`.
pub open spec fn session_shape_ok(d: JsonValue) -> bool {
    windows_of(d) matches Some(ws) ==> all_have_tabs(ws) && all_have_entries(tab_lists(ws))
}

/// The contents of a list of vectors.
pub open spec fn nested_views(v: Seq<Vec<JsonValue>>) -> Seq<Seq<JsonValue>> {
    v.map_values(|x: Vec<JsonValue>| x@)
}

/// Reverses a vector by moving its elements.
fn reversed<T>(v: Vec<T>) -> (r: Vec<T>)
    ensures
        r@.len() == v@.len(),
        forall|j: int| 0 <= j < v@.len() ==> #[trigger] r@[j] == v@[v@.len() - 1 - j],
{
    let ghost s = v@;
    let mut v = v;
    let mut r: Vec<T> = Vec::new();
    while v.len() > 0
        invariant
            v@ == s.take(v@.len() as int),
            v@.len() + r@.len() == s.len(),
            forall|j: int| 0 <= j < r@.len() ==> #[trigger] r@[j] == s[s.len() - 1 - j],
        decreases v@.len(),
    {
        let x = v.pop().unwrap();
        r.push(x);
    }
    r
}

/// The `windows` array of the session, or `WindowsArrayNotFound`.
fn window_data(json_data: JsonValue) -> (r: Result<Vec<JsonValue>, Error>)
    ensures
        match windows_of(json_data) {
            Some(ws) => r matches Ok(v) && v@ == ws,
            None => r matches Err(Error::WindowsArrayNotFound),
        },
{
    match into_array(take_member(json_data, "windows")) {
        Some(a) => Ok(a),
        None => Err(Error::WindowsArrayNotFound),
    }
}

/// The `tabs` array of every window, in order.
fn tab_data(windows: Vec<JsonValue>) -> (r: Vec<Vec<JsonValue>>)
    requires
        all_have_tabs(windows@),
    ensures
        nested_views(r@) == tab_lists(windows@),
{
    let ghost ws = windows@;
    let n = windows.len();
    let mut stack = reversed(windows);
    let mut out: Vec<Vec<JsonValue>> = Vec::new();
    let mut c: usize = 0;
    while c < n
        invariant
            ws.len() == n,
            all_have_tabs(ws),
            c <= n,
            stack@.len() == n - c,
            forall|j: int| 0 <= j < n - c ==> #[trigger] stack@[j] == ws[n - 1 - j],
            nested_views(out@) == tab_lists(ws.take(c as int)),
        decreases n - c,
    {
        let w = stack.pop().unwrap();
        proof {
            assert(w == ws[c as int]);
            assert(tabs_of(ws[c as int]) is Some);
        }
        let tabs = match into_array(take_member(w, "tabs")) {
            Some(t) => t,
            None => {
                proof {
                    assert(false);
                }
                Vec::new()
            },
        };
        let ghost before = out@;
        out.push(tabs);
        proof {
            assert(nested_views(out@) =~= nested_views(before).push(tabs@));
            assert(tab_lists(ws.take(c + 1)) =~= tab_lists(ws.take(c as int)).push(
                tabs_of(ws[c as int]).unwrap(),
            ));
        }
        c = c + 1;
    }
    proof {
        assert(ws.take(n as int) =~= ws);
    }
    out
}

/// The `entries` array of each tab's entry.
proof fn lemma_entry_lists_push(ts: Seq<Seq<JsonValue>>, c: int)
    requires
        0 <= c < ts.len(),
    ensures
        entry_lists(ts.take(c + 1)) == entry_lists(ts.take(c)) + ts[c].map_values(
            |x: JsonValue| entries_of(x).unwrap(),
        ),
{
    let f = |t: Seq<JsonValue>| t.map_values(|x: JsonValue| entries_of(x).unwrap());
    assert(ts.take(c + 1).map_values(f) =~= ts.take(c).map_values(f).push(f(ts[c])));
    ts.take(c).map_values(f).lemma_flatten_push(f(ts[c]));
}

/// The `entries` array of every tab, in order.
fn entry_data(tabs: Vec<Vec<JsonValue>>) -> (r: Vec<Vec<JsonValue>>)
    requires
        all_have_entries(nested_views(tabs@)),
    ensures
        nested_views(r@) == entry_lists(nested_views(tabs@)),
{
    let ghost ts = nested_views(tabs@);
    let n = tabs.len();
    let mut stack = reversed(tabs);
    let mut out: Vec<Vec<JsonValue>> = Vec::new();
    let mut c: usize = 0;
    while c < n
        invariant
            ts.len() == n,
            all_have_entries(ts),
            c <= n,
            stack@.len() == n - c,
            forall|j: int| 0 <= j < n - c ==> #[trigger] stack@[j]@ == ts[n - 1 - j],
            nested_views(out@) == entry_lists(ts.take(c as int)),
        decreases n - c,
    {
        let tab_list = stack.pop().unwrap();
        let ghost t = ts[c as int];
        let ghost g = |x: JsonValue| entries_of(x).unwrap();
        let ghost base = nested_views(out@);
        let m = tab_list.len();
        let mut inner = reversed(tab_list);
        let mut d: usize = 0;
        while d < m
            invariant
                t.len() == m,
                forall|j: int| 0 <= j < m ==> (#[trigger] entries_of(t[j])) is Some,
                d <= m,
                g == (|x: JsonValue| entries_of(x).unwrap()),
                inner@.len() == m - d,
                forall|j: int| 0 <= j < m - d ==> #[trigger] inner@[j] == t[m - 1 - j],
                nested_views(out@) == base + t.map_values(g).take(d as int),
            decreases m - d,
        {
            let x = inner.pop().unwrap();
            proof {
                assert(x == t[d as int]);
                assert(entries_of(t[d as int]) is Some);
            }
            let entries = match into_array(take_member(x, "entries")) {
                Some(e) => e,
                None => {
                    proof {
                        assert(false);
                    }
                    Vec::new()
                },
            };
            let ghost before = out@;
            out.push(entries);
            proof {
                assert(nested_views(out@) =~= nested_views(before).push(entries@));
                assert(t.map_values(g).take(d + 1) =~= t.map_values(g).take(d as int).push(
                    g(t[d as int]),
                ));
            }
            d = d + 1;
        }
        proof {
            assert(t.map_values(g).take(m as int) =~= t.map_values(g));
            lemma_entry_lists_push(ts, c as int);
        }
        c = c + 1;
    }
    proof {
        assert(ts.take(n as int) =~= ts);
    }
    out
}

/// Walks the session JSON down to the `entries` array of every tab (window
/// after window, tab after tab). A session without a `windows` array gives
/// `WindowsArrayNotFound`.
pub fn parse_session_data(json_data: JsonValue) -> (r: Result<Vec<Vec<JsonValue>>, Error>)
    requires
        session_shape_ok(json_data),
    ensures
        match windows_of(json_data) {
            Some(ws) => r matches Ok(v) && nested_views(v@) == entry_lists(tab_lists(ws)),
            None => r matches Err(Error::WindowsArrayNotFound),
        },
{
    let windows = window_data(json_data)?;
    let tabs = tab_data(windows);
    let entries = entry_data(tabs);
    Ok(entries)
}

/// Whether every window has a `tabs` array.
pub fn windows_have_tabs(ws: &Vec<JsonValue>) -> (b: bool)
    ensures
        b == all_have_tabs(ws@),
{
    let mut i: usize = 0;
    while i < ws.len()
        invariant
            i <= ws@.len(),
            forall|j: int| 0 <= j < i ==> (#[trigger] tabs_of(ws@[j])) is Some,
        decreases ws@.len() - i,
    {
        let found = match get_member(&ws[i], "tabs") {
            Some(t) => as_array_ref(t).is_some(),
            None => false,
        };
        if !found {
            proof {
                assert(tabs_of(ws@[i as int]) is None);
            }
            return false;
        }
        i = i + 1;
    }
    true
}

/// Whether every tab of every window has an `entries` array.
pub fn tabs_have_entries(ws: &Vec<JsonValue>) -> (b: bool)
    requires
        all_have_tabs(ws@),
    ensures
        b == all_have_entries(tab_lists(ws@)),
{
    let ghost ts = tab_lists(ws@);
    let mut i: usize = 0;
    while i < ws.len()
        invariant
            i <= ws@.len(),
            ts == tab_lists(ws@),
            ts.len() == ws@.len(),
            all_have_tabs(ws@),
            forall|a: int, j: int|
                0 <= a < i && 0 <= j < ts[a].len() ==> (#[trigger] entries_of(ts[a][j])) is Some,
        decreases ws@.len() - i,
    {
        proof {
            assert(tabs_of(ws@[i as int]) is Some);
        }
        let tabs = match get_member(&ws[i], "tabs") {
            Some(t) => match as_array_ref(t) {
                Some(a) => a,
                None => {
                    proof {
                        assert(false);
                    }
                    return false;
                },
            },
            None => {
                proof {
                    assert(false);
                }
                return false;
            },
        };
        proof {
            assert(tabs@ == ts[i as int]);
        }
        let mut j: usize = 0;
        while j < tabs.len()
            invariant
                ts == tab_lists(ws@),
                i < ts.len(),
                j <= tabs@.len(),
                tabs@ == ts[i as int],
                forall|k: int| 0 <= k < j ==> (#[trigger] entries_of(tabs@[k])) is Some,
            decreases tabs@.len() - j,
        {
            let found = match get_member(&tabs[j], "entries") {
                Some(e) => as_array_ref(e).is_some(),
                None => false,
            };
            if !found {
                proof {
                    assert(entries_of(ts[i as int][j as int]) is None);
                }
                return false;
            }
            j = j + 1;
        }
        i = i + 1;
    }
    true
}

/// The rows of a list of entries, in order, or why the first entry without
/// a row has none.
pub open spec fn rows_outcome(es: Seq<JsonValue>) -> Result<Seq<RowView>, ExtractFailure>
    decreases es.len(),
{
    if es.len() == 0 {
        Ok(Seq::empty())
    } else {
        match rows_outcome(es.drop_last()) {
            Err(f) => Err(f),
            Ok(rs) => match extract_spec(es.last()) {
                Err(f) => Err(f),
                Ok(v) => Ok(rs.push(v)),
            },
        }
    }
}

/// Once some entry has no row, later entries do not change the outcome.
proof fn lemma_rows_outcome_err(p: Seq<JsonValue>, q: Seq<JsonValue>)
    requires
        rows_outcome(p) is Err,
    ensures
        rows_outcome(p + q) == rows_outcome(p),
    decreases q.len(),
{
    if q.len() == 0 {
        assert(p + q =~= p);
    } else {
        lemma_rows_outcome_err(p, q.drop_last());
        assert((p + q).drop_last() =~= p + q.drop_last());
    }
}

/// Every entry before position `j` of list `i` comes first in the flattened lists.
proof fn lemma_flatten_split(l: Seq<Seq<JsonValue>>, i: int, j: int)
    requires
        0 <= i < l.len(),
        0 <= j <= l[i].len(),
    ensures
        l.flatten() == (l.take(i).flatten() + l[i].take(j)) + (l[i].skip(j) + l.skip(i + 1).flatten()),
{
    let a = l.take(i);
    let b = l.skip(i);
    let c = l.skip(i + 1);
    let x = l[i];
    assert(l =~= a + b);
    vstd::seq_lib::lemma_flatten_concat(a, b);
    assert(b.drop_first() =~= c);
    assert(b.first() == x);
    assert(b.flatten() == x + c.flatten());
    assert(l.flatten() == a.flatten() + (x + c.flatten()));
    let (p, q, r, t) = (a.flatten(), x.take(j), x.skip(j), c.flatten());
    assert(x =~= q + r);
    assert(p + ((q + r) + t) =~= (p + q) + (r + t));
}

/// The key of a row view: its `id`.
pub open spec fn row_id_key() -> spec_fn(RowView) -> int {
    |v: RowView| v.id as int
}

/// A stable sort of rows by `id` is a stable sort of their views by `id`.
proof fn lemma_stable_views(t: Seq<ExtractedData>, s: Seq<ExtractedData>)
    requires
        stable_sorted_by(t, s, id_key()),
    ensures
        stable_sorted_by(row_views(t), row_views(s), row_id_key()),
{
    assert(sorted_by(row_views(t), row_id_key())) by {
        assert forall|i: int, j: int| 0 <= i < j < row_views(t).len() implies row_id_key()(
            row_views(t)[i],
        ) <= row_id_key()(row_views(t)[j]) by {
            assert(id_key()(t[i]) <= id_key()(t[j]));
        }
    }
    assert forall|v: int| #[trigger] class_of(row_views(t), row_id_key(), v) == class_of(
        row_views(s),
        row_id_key(),
        v,
    ) by {
        vstd::seq_lib::lemma_filter_view_commute(t, key_is(id_key(), v), key_is(row_id_key(), v));
        vstd::seq_lib::lemma_filter_view_commute(s, key_is(id_key(), v), key_is(row_id_key(), v));
        assert(row_views(t) =~= t.map_values(|x: ExtractedData| x.view()));
        assert(row_views(s) =~= s.map_values(|x: ExtractedData| x.view()));
        assert(class_of(t, id_key(), v) == class_of(s, id_key(), v));
    }
}

/// What the export pipeline gives for a session's JSON text.
pub open spec fn collect_result_matches(text: Seq<char>, r: Result<Vec<ExtractedData>, Error>) -> bool {
    match json_parsed(text) {
        None => r matches Err(Error::JsonParseError(_)),
        Some(d) => match windows_of(d) {
            None => r matches Err(Error::WindowsArrayNotFound),
            Some(ws) => if !all_have_tabs(ws) {
                r matches Err(Error::TabsArrayNotFound)
            } else if !all_have_entries(tab_lists(ws)) {
                (r matches Err(Error::FieldNotFound(f)) && f@ == "entries"@)
            } else {
                match rows_outcome(entry_lists(tab_lists(ws)).flatten()) {
                    Ok(rows) => (r matches Ok(v) && stable_sorted_by(
                        row_views(v@),
                        rows,
                        row_id_key(),
                    )),
                    Err(ExtractFailure::NotAnObject) => r matches Err(Error::TabObjectNotFound),
                    Err(ExtractFailure::BadField(k)) => (r matches Err(
                        Error::FieldConversionError(s),
                    ) && s@ == k),
                }
            },
        },
    }
}

/// The rows of the export table for a session's JSON text: every entry of
/// every tab of every window becomes a row (`try_extract_fields`), and the
/// rows are stably sorted by `id`. JSON that does not parse gives
/// `JsonParseError`, a missing `windows` array `WindowsArrayNotFound`; a
/// window without `tabs`, a tab without `entries` and an entry without a row
/// give `TabsArrayNotFound`, `FieldNotFound("entries")` and the entry's error.
pub fn collect_rows(session_json: &str) -> (r: Result<Vec<ExtractedData>, Error>)
    ensures
        collect_result_matches(session_json@, r),
{
    let data = parse_session_json(session_json)?;
    let ghost d = data;
    match get_member(&data, "windows") {
        Some(w) => match as_array_ref(w) {
            Some(ws) => {
                if !windows_have_tabs(ws) {
                    return Err(Error::TabsArrayNotFound);
                }
                if !tabs_have_entries(ws) {
                    return Err(Error::FieldNotFound(String::from_str("entries")));
                }
            },
            None => {
                return Err(Error::WindowsArrayNotFound);
            },
        },
        None => {
            return Err(Error::WindowsArrayNotFound);
        },
    }
    let ghost ws = windows_of(d).unwrap();
    let lists = match parse_session_data(data) {
        Ok(l) => l,
        Err(e) => {
            return Err(e);
        },
    };
    let ghost l = nested_views(lists@);
    let mut rows: Vec<ExtractedData> = Vec::new();
    proof {
        assert(l.take(0) =~= Seq::<Seq<JsonValue>>::empty());
        assert(row_views(rows@) =~= Seq::<RowView>::empty());
    }
    let mut i: usize = 0;
    while i < lists.len()
        invariant
            json_parsed(session_json@) == Some(d),
            windows_of(d) == Some(ws),
            all_have_tabs(ws),
            all_have_entries(tab_lists(ws)),
            l == entry_lists(tab_lists(ws)),
            l == nested_views(lists@),
            i <= lists@.len(),
            rows_outcome(l.take(i as int).flatten()) == Ok::<Seq<RowView>, ExtractFailure>(
                row_views(rows@),
            ),
        decreases lists@.len() - i,
    {
        let mut j: usize = 0;
        while j < lists[i].len()
            invariant
                json_parsed(session_json@) == Some(d),
                windows_of(d) == Some(ws),
                all_have_tabs(ws),
                all_have_entries(tab_lists(ws)),
                l == entry_lists(tab_lists(ws)),
                l == nested_views(lists@),
                i < lists@.len(),
                j <= l[i as int].len(),
                rows_outcome(l.take(i as int).flatten() + l[i as int].take(j as int)) == Ok::<
                    Seq<RowView>,
                    ExtractFailure,
                >(row_views(rows@)),
            decreases l[i as int].len() - j,
        {
            let ghost p = l.take(i as int).flatten() + l[i as int].take(j as int);
            let ghost p1 = l.take(i as int).flatten() + l[i as int].take(j + 1);
            proof {
                assert(p1 =~= p.push(l[i as int][j as int]));
                assert(p1.drop_last() =~= p);
            }
            let r = ExtractedData::try_extract_fields(&lists[i][j]);
            match r {
                Ok(row) => {
                    let ghost before = rows@;
                    rows.push(row);
                    proof {
                        assert(row_views(rows@) =~= row_views(before).push(row@));
                    }
                },
                Err(e) => {
                    proof {
                        lemma_flatten_split(l, i as int, j + 1);
                        lemma_rows_outcome_err(
                            p1,
                            l[i as int].skip(j + 1) + l.skip(i + 1).flatten(),
                        );
                    }
                    return Err(e);
                },
            }
            j = j + 1;
        }
        proof {
            assert(l[i as int].take(j as int) =~= l[i as int]);
            assert(l.take(i + 1) =~= l.take(i as int).push(l[i as int]));
            l.take(i as int).lemma_flatten_push(l[i as int]);
        }
        i = i + 1;
    }
    proof {
        assert(l.take(i as int) =~= l);
    }
    let ghost unsorted = rows@;
    sort_rows_by_id(rows.as_mut_slice());
    proof {
        lemma_stable_views(rows@, unsorted);
    }
    Ok(rows)
}

/// Each entry that has a row adds exactly one to the outcome.
proof fn lemma_rows_outcome_len(es: Seq<JsonValue>)
    ensures
        rows_outcome(es) matches Ok(rows) ==> rows.len() == es.len(),
    decreases es.len(),
{
    if es.len() > 0 {
        lemma_rows_outcome_len(es.drop_last());
    }
}

/// The export has one row per history entry: where the pipeline succeeds,
/// it gives as many rows as the session has entries, over all tabs of all
/// windows.
pub proof fn lemma_one_row_per_entry(text: Seq<char>, r: Result<Vec<ExtractedData>, Error>)
    requires
        collect_result_matches(text, r),
        r is Ok,
    ensures
        json_parsed(text) matches Some(d) && windows_of(d) matches Some(ws) && r matches Ok(v)
            && v@.len() == entry_lists(tab_lists(ws)).flatten().len(),
        json_parsed(text) matches Some(d) && json_get(d, "windows"@) matches Some(
            JsonValue::Array(ws),
        ) && r matches Ok(v) && v@.len() == session_entry_count(ws@),
{
    let d = json_parsed(text).unwrap();
    let ws = windows_of(d).unwrap();
    let es = entry_lists(tab_lists(ws)).flatten();
    let v = r.unwrap();
    lemma_rows_outcome_len(es);
    lemma_entry_count(ws);
    if let Ok(rows) = rows_outcome(es) {
        lemma_stable_sort_len(row_views(v@), rows, row_id_key());
    }
}

/// The length of a JSON array, 0 for anything else.
pub open spec fn array_len(v: Option<JsonValue>) -> int {
    match v {
        Some(JsonValue::Array(a)) => a@.len() as int,
        _ => 0,
    }
}

/// How many history entries the tabs hold: the lengths of their `entries` arrays, added up.
pub open spec fn tabs_entry_count(tabs: Seq<JsonValue>) -> int
    decreases tabs.len(),
{
    if tabs.len() == 0 {
        0
    } else {
        tabs_entry_count(tabs.drop_last()) + array_len(json_get(tabs.last(), "entries"@))
    }
}

/// How many history entries the windows hold, over all their tabs.
pub open spec fn session_entry_count(ws: Seq<JsonValue>) -> int
    decreases ws.len(),
{
    if ws.len() == 0 {
        0
    } else {
        session_entry_count(ws.drop_last()) + match json_get(ws.last(), "tabs"@) {
            Some(JsonValue::Array(t)) => tabs_entry_count(t@),
            _ => 0,
        }
    }
}

/// The entries taken from a list of tabs are as many as their arrays hold.
proof fn lemma_tabs_count(tabs: Seq<JsonValue>)
    requires
        forall|j: int| 0 <= j < tabs.len() ==> (#[trigger] entries_of(tabs[j])) is Some,
    ensures
        tabs.map_values(|x: JsonValue| entries_of(x).unwrap()).flatten().len() == tabs_entry_count(
            tabs,
        ),
    decreases tabs.len(),
{
    if tabs.len() > 0 {
        let f = |x: JsonValue| entries_of(x).unwrap();
        let d = tabs.drop_last();
        assert forall|j: int| 0 <= j < d.len() implies (#[trigger] entries_of(d[j])) is Some by {
            assert(d[j] == tabs[j]);
        }
        lemma_tabs_count(d);
        assert(tabs.map_values(f) =~= d.map_values(f).push(f(tabs.last())));
        d.map_values(f).lemma_flatten_push(f(tabs.last()));
        assert(entries_of(tabs[tabs.len() - 1]) is Some);
    }
}

/// Every history entry of the session, in all tabs of all windows, is taken
/// once: the entries walked through number exactly the lengths of the tabs'
/// `entries` arrays, added up.
pub proof fn lemma_entry_count(ws: Seq<JsonValue>)
    requires
        all_have_tabs(ws),
        all_have_entries(tab_lists(ws)),
    ensures
        entry_lists(tab_lists(ws)).flatten().len() == session_entry_count(ws),
    decreases ws.len(),
{
    if ws.len() > 0 {
        let d = ws.drop_last();
        let w = ws.last();
        let ts = tab_lists(ws);
        assert(tab_lists(ws) =~= tab_lists(d).push(tabs_of(w).unwrap()));
        assert(all_have_tabs(d)) by {
            assert forall|i: int| 0 <= i < d.len() implies (#[trigger] tabs_of(d[i])) is Some by {
                assert(d[i] == ws[i]);
            }
        }
        assert(all_have_entries(tab_lists(d))) by {
            assert forall|i: int, j: int|
                0 <= i < tab_lists(d).len() && 0 <= j < tab_lists(d)[i].len() implies (
                #[trigger] entries_of(tab_lists(d)[i][j])) is Some by {
                assert(tab_lists(d)[i] == ts[i]);
            }
        }
        lemma_entry_count(d);
        let t = tabs_of(w).unwrap();
        assert(tabs_of(ws[ws.len() - 1]) is Some);
        assert forall|j: int| 0 <= j < t.len() implies (#[trigger] entries_of(t[j])) is Some by {
            assert(ts[ws.len() - 1] == t);
        }
        lemma_tabs_count(t);
        let g = |x: JsonValue| entries_of(x).unwrap();
        let f = |u: Seq<JsonValue>| u.map_values(g);
        assert(ts.map_values(f) =~= tab_lists(d).map_values(f).push(f(t)));
        tab_lists(d).map_values(f).lemma_flatten_push(f(t));
        assert(entry_lists(ts) == entry_lists(tab_lists(d)) + f(t));
        vstd::seq_lib::lemma_flatten_concat(entry_lists(tab_lists(d)), f(t));
    }
}

/// With a single window, the entry lists are the tabs' own `entries`
/// arrays, one list per tab, in the order of the tabs and whole.
pub proof fn lemma_entry_lists_one_window(w: JsonValue, tabs: Seq<JsonValue>)
    requires
        json_get(w, "tabs"@) matches Some(JsonValue::Array(a)) && a@ == tabs,
        forall|j: int|
            0 <= j < tabs.len() ==> (#[trigger] json_get(tabs[j], "entries"@)) matches Some(
                JsonValue::Array(_),
            ),
    ensures
        entry_lists(tab_lists(seq![w])).len() == tabs.len(),
        forall|j: int|
            0 <= j < tabs.len() ==> ((#[trigger] json_get(tabs[j], "entries"@)) matches Some(
                JsonValue::Array(e),
            ) && entry_lists(tab_lists(seq![w]))[j] == e@),
{
    let g = |x: JsonValue| entries_of(x).unwrap();
    let f = |u: Seq<JsonValue>| u.map_values(g);
    assert(tab_lists(seq![w]) =~= seq![tabs]);
    assert(tab_lists(seq![w]).map_values(f) =~= seq![f(tabs)]);
    assert(seq![f(tabs)].flatten() =~= f(tabs)) by {
        let none = Seq::<Seq<Seq<JsonValue>>>::empty();
        assert(seq![f(tabs)] =~= none.push(f(tabs)));
        none.lemma_flatten_push(f(tabs));
        assert(none.flatten() =~= Seq::<Seq<JsonValue>>::empty());
    }
    assert forall|j: int| 0 <= j < tabs.len() implies ((#[trigger] json_get(tabs[j], "entries"@))
        matches Some(JsonValue::Array(e)) && entry_lists(tab_lists(seq![w]))[j] == e@) by {
        assert(f(tabs)[j] == g(tabs[j]));
    }
}

/// The entries of two runs of windows are those of the first run followed
/// by those of the second: windows are walked in order.
pub proof fn lemma_entry_lists_concat(ws1: Seq<JsonValue>, ws2: Seq<JsonValue>)
    ensures
        entry_lists(tab_lists(ws1 + ws2)) == entry_lists(tab_lists(ws1)) + entry_lists(
            tab_lists(ws2),
        ),
{
    let g = |x: JsonValue| entries_of(x).unwrap();
    let f = |u: Seq<JsonValue>| u.map_values(g);
    assert(tab_lists(ws1 + ws2) =~= tab_lists(ws1) + tab_lists(ws2));
    assert(tab_lists(ws1 + ws2).map_values(f) =~= tab_lists(ws1).map_values(f) + tab_lists(
        ws2,
    ).map_values(f));
    vstd::seq_lib::lemma_flatten_concat(tab_lists(ws1).map_values(f), tab_lists(ws2).map_values(f));
}

} // verus!
