//! One exported row: the fields taken from a session history entry.

use vstd::prelude::*;
use vstd::std_specs::cmp::{PartialEqSpec, PartialOrdSpec};
use vstd::string::StrSliceExecFns;

use crate::error::Error;
use crate::json::{json_text, json_to_string, JsonValue};
use crate::text::{
    all_ascii, ascii_lower, bool_text, decimal_text, lemma_decimal_round_trip, lowercased,
    parse_bool, parse_bool_spec, parse_usize, parse_usize_spec, push_bool, push_decimal,
    to_lowercase,
};

verus! {

broadcast use {vstd::seq_lib::group_seq_properties, vstd::string::group_string_axioms};

/// A row of the export table, filled from the members of one session entry.
#[derive(Debug)]
pub struct ExtractedData {
    pub id: usize,
    pub url: String,
    pub title: String,
    pub workspace: String,
    pub pinned: bool,
    pub pinned_entry: Option<String>,
    pub pinned_id: String,
    /// Unix timestamp; a very large number.
    pub last_accessed: usize,
    /// How many members of the entry have been read into this row.
    pub size: usize,
}

impl Clone for ExtractedData {
    fn clone(&self) -> (r: Self)
        ensures
            r == *self,
    {
        let pinned_entry = match &self.pinned_entry {
            Some(s) => Some(s.clone()),
            None => None,
        };
        ExtractedData {
            id: self.id,
            url: self.url.clone(),
            title: self.title.clone(),
            workspace: self.workspace.clone(),
            pinned: self.pinned,
            pinned_entry,
            pinned_id: self.pinned_id.clone(),
            last_accessed: self.last_accessed,
            size: self.size,
        }
    }
}

/// Rows are equal when their `id`s are.
impl PartialEq for ExtractedData {
    fn eq(&self, other: &Self) -> (r: bool) {
        self.id == other.id
    }
}

impl vstd::std_specs::cmp::PartialEqSpecImpl for ExtractedData {
    open spec fn obeys_eq_spec() -> bool {
        true
    }

    open spec fn eq_spec(&self, other: &Self) -> bool {
        self.id == other.id
    }
}

impl Eq for ExtractedData {

}

/// Rows are ordered by their `id`.
impl PartialOrd for ExtractedData {
    fn partial_cmp(&self, other: &Self) -> (r: Option<core::cmp::Ordering>) {
        if self.id < other.id {
            Some(core::cmp::Ordering::Less)
        } else if self.id == other.id {
            Some(core::cmp::Ordering::Equal)
        } else {
            Some(core::cmp::Ordering::Greater)
        }
    }
}

impl vstd::std_specs::cmp::PartialOrdSpecImpl for ExtractedData {
    open spec fn obeys_partial_cmp_spec() -> bool {
        true
    }

    open spec fn partial_cmp_spec(&self, other: &Self) -> Option<core::cmp::Ordering> {
        if self.id < other.id {
            Some(core::cmp::Ordering::Less)
        } else if self.id == other.id {
            Some(core::cmp::Ordering::Equal)
        } else {
            Some(core::cmp::Ordering::Greater)
        }
    }
}

/// Rows compare by `id` alone: `partial_cmp` always gives an order, `Equal`
/// exactly when `==` holds and `Less` exactly when the first `id` is smaller,
/// and swapping the rows swaps `Less` and `Greater`.
pub proof fn lemma_row_order_by_id(a: ExtractedData, b: ExtractedData)
    ensures
        a.partial_cmp_spec(&b) is Some,
        a.eq_spec(&b) <==> a.partial_cmp_spec(&b) == Some(core::cmp::Ordering::Equal),
        a.partial_cmp_spec(&b) == Some(core::cmp::Ordering::Less) <==> a.id < b.id,
        a.partial_cmp_spec(&b) == Some(core::cmp::Ordering::Less) <==> b.partial_cmp_spec(&a)
            == Some(core::cmp::Ordering::Greater),
        a.eq_spec(&b) <==> b.eq_spec(&a),
{
}

/// The empty row: zero numbers, empty strings, not pinned, no pinned entry.
pub open spec fn is_empty_row(r: ExtractedData) -> bool {
    &&& r.id == 0
    &&& r.url@ == Seq::<char>::empty()
    &&& r.title@ == Seq::<char>::empty()
    &&& r.workspace@ == Seq::<char>::empty()
    &&& !r.pinned
    &&& r.pinned_entry is None
    &&& r.pinned_id@ == Seq::<char>::empty()
    &&& r.last_accessed == 0
    &&& r.size == 0
}

impl Default for ExtractedData {
    fn default() -> (r: Self)
        ensures
            is_empty_row(r),
    {
        ExtractedData {
            id: 0,
            url: String::new(),
            title: String::new(),
            workspace: String::new(),
            pinned: false,
            pinned_entry: None,
            pinned_id: String::new(),
            last_accessed: 0,
            size: 0,
        }
    }
}

/// What a row holds, its strings taken as sequences of characters.
pub struct RowView {
    pub id: usize,
    pub url: Seq<char>,
    pub title: Seq<char>,
    pub workspace: Seq<char>,
    pub pinned: bool,
    pub pinned_entry: Option<Seq<char>>,
    pub pinned_id: Seq<char>,
    pub last_accessed: usize,
    pub size: usize,
}

impl View for ExtractedData {
    type V = RowView;

    open spec fn view(&self) -> RowView {
        RowView {
            id: self.id,
            url: self.url@,
            title: self.title@,
            workspace: self.workspace@,
            pinned: self.pinned,
            pinned_entry: match self.pinned_entry {
                Some(s) => Some(s@),
                None => None,
            },
            pinned_id: self.pinned_id@,
            last_accessed: self.last_accessed,
            size: self.size,
        }
    }
}

/// The view of the empty row.
pub open spec fn empty_row_view() -> RowView {
    RowView {
        id: 0,
        url: Seq::empty(),
        title: Seq::empty(),
        workspace: Seq::empty(),
        pinned: false,
        pinned_entry: None,
        pinned_id: Seq::empty(),
        last_accessed: 0,
        size: 0,
    }
}

/// A missing value: `null` and the empty text both become the empty text.
pub open spec fn maybe_empty_spec(value: Seq<char>) -> Seq<char> {
    if value == "null"@ {
        Seq::empty()
    } else {
        value
    }
}

/// The value of field `name` (already lowercased) can be stored: numbers and
/// booleans must parse.
pub open spec fn field_value_ok(name: Seq<char>, value: Seq<char>) -> bool {
    &&& name == "id"@ ==> parse_usize_spec(value) is Some
    &&& name == "pinned"@ ==> parse_bool_spec(value) is Some
    &&& name == "last_accessed"@ ==> parse_usize_spec(value) is Some
}

/// The row after storing `value` in the field `name` (already lowercased);
/// other names leave the row as it was.
pub open spec fn field_set(r: RowView, name: Seq<char>, value: Seq<char>) -> RowView {
    if name == "id"@ {
        RowView { id: parse_usize_spec(value).unwrap(), ..r }
    } else if name == "url"@ {
        RowView { url: value, ..r }
    } else if name == "title"@ {
        RowView { title: value, ..r }
    } else if name == "workspace"@ {
        RowView { workspace: maybe_empty_spec(value), ..r }
    } else if name == "pinned"@ {
        RowView { pinned: parse_bool_spec(value).unwrap(), ..r }
    } else if name == "pinned_entry"@ {
        RowView { pinned_entry: Some(value), ..r }
    } else if name == "pinned_id"@ {
        RowView { pinned_id: maybe_empty_spec(value), ..r }
    } else if name == "last_accessed"@ {
        RowView { last_accessed: parse_usize_spec(value).unwrap(), ..r }
    } else {
        r
    }
}

/// The field names that a row knows are different texts.
proof fn lemma_field_names_distinct()
    ensures
        "id"@ != "url"@ && "id"@ != "title"@ && "id"@ != "workspace"@ && "id"@ != "pinned"@,
        "id"@ != "pinned_entry"@ && "id"@ != "pinned_id"@ && "id"@ != "last_accessed"@,
        "url"@ != "title"@ && "url"@ != "workspace"@ && "url"@ != "pinned"@,
        "url"@ != "pinned_entry"@ && "url"@ != "pinned_id"@ && "url"@ != "last_accessed"@,
        "title"@ != "workspace"@ && "title"@ != "pinned"@ && "title"@ != "pinned_entry"@,
        "title"@ != "pinned_id"@ && "title"@ != "last_accessed"@,
        "workspace"@ != "pinned"@ && "workspace"@ != "pinned_entry"@,
        "workspace"@ != "pinned_id"@ && "workspace"@ != "last_accessed"@,
        "pinned"@ != "pinned_entry"@ && "pinned"@ != "pinned_id"@,
        "pinned"@ != "last_accessed"@,
        "pinned_entry"@ != "pinned_id"@ && "pinned_entry"@ != "last_accessed"@,
        "pinned_id"@ != "last_accessed"@,
{
    reveal_strlit("id");
    reveal_strlit("url");
    reveal_strlit("title");
    reveal_strlit("workspace");
    reveal_strlit("pinned");
    reveal_strlit("pinned_entry");
    reveal_strlit("pinned_id");
    reveal_strlit("last_accessed");
    assert("id"@.len() == 2 && "url"@.len() == 3 && "title"@.len() == 5);
    assert("workspace"@.len() == 9 && "pinned"@.len() == 6);
    assert("pinned_entry"@.len() == 12 && "pinned_id"@.len() == 9);
    assert("last_accessed"@.len() == 13);
    assert("workspace"@[0] != "pinned_id"@[0]);
}

/// `null` or empty text becomes empty; any other text is kept.
pub fn maybe_empty_string(value: &str) -> (r: String)
    ensures
        r@ == maybe_empty_spec(value@),
{
    let v = String::from_str(value);
    if v == String::from_str("null") {
        String::new()
    } else {
        v
    }
}

impl ExtractedData {
    /// Counts one more member read into the row.
    fn add_size(&mut self)
        requires
            old(self).size < usize::MAX,
        ensures
            final(self)@ == (RowView { size: (old(self).size + 1) as usize, ..old(self)@ }),
    {
        self.size = self.size + 1;
    }

    /// Stores `value` in the field named `name` (already lowercased) when it
    /// converts; reports whether it did. A failed conversion leaves the row as it was.
    fn store_field(&mut self, name: &String, value: String) -> (ok: bool)
        ensures
            ok == field_value_ok(name@, value@),
            ok ==> final(self)@ == field_set(old(self)@, name@, value@),
            !ok ==> *final(self) == *old(self),
    {
        proof {
            lemma_field_names_distinct();
        }
        if *name == String::from_str("id") {
            match parse_usize(value.as_str()) {
                Some(n) => {
                    self.id = n;
                    true
                },
                None => false,
            }
        } else if *name == String::from_str("url") {
            self.url = value;
            true
        } else if *name == String::from_str("title") {
            self.title = value;
            true
        } else if *name == String::from_str("workspace") {
            self.workspace = maybe_empty_string(value.as_str());
            true
        } else if *name == String::from_str("pinned") {
            match parse_bool(value.as_str()) {
                Some(b) => {
                    self.pinned = b;
                    true
                },
                None => false,
            }
        } else if *name == String::from_str("pinned_entry") {
            self.pinned_entry = Some(value);
            true
        } else if *name == String::from_str("pinned_id") {
            self.pinned_id = maybe_empty_string(value.as_str());
            true
        } else if *name == String::from_str("last_accessed") {
            match parse_usize(value.as_str()) {
                Some(n) => {
                    self.last_accessed = n;
                    true
                },
                None => false,
            }
        } else {
            true
        }
    }

    /// Stores `value` in the field whose name is `field` in any case
    /// (compared after `to_lowercase`); unknown names are ignored. `id` and
    /// `last_accessed` take a `usize`, `pinned` a `bool`; `workspace` and
    /// `pinned_id` turn `null` into the empty string.
    pub fn set_field(&mut self, field: &str, value: String)
        requires
            field_value_ok(lowercased(field@), value@),
        ensures
            final(self)@ == field_set(old(self)@, lowercased(field@), value@),
    {
        let name = to_lowercase(field);
        let _ = self.store_field(&name, value);
    }

    /// `set_field` where the value converts, reporting whether it did; a value
    /// that does not convert (where `set_field` would panic) leaves the row
    /// as it was.
    pub fn try_set_field(&mut self, field: &str, value: String) -> (ok: bool)
        ensures
            ok == field_value_ok(lowercased(field@), value@),
            ok ==> final(self)@ == field_set(old(self)@, lowercased(field@), value@),
            !ok ==> *final(self) == *old(self),
    {
        let name = to_lowercase(field);
        if value_converts(&name, value.as_str()) {
            self.set_field(field, value);
            true
        } else {
            false
        }
    }
}

/// Whether `value` can be stored in the field `name` (already lowercased).
fn value_converts(name: &String, value: &str) -> (ok: bool)
    ensures
        ok == field_value_ok(name@, value@),
{
    proof {
        lemma_field_names_distinct();
    }
    if *name == String::from_str("id") || *name == String::from_str("last_accessed") {
        parse_usize(value).is_some()
    } else if *name == String::from_str("pinned") {
        parse_bool(value).is_some()
    } else {
        true
    }
}

/// A member of an entry whose value can be stored in the row.
pub open spec fn member_ok(m: (String, JsonValue)) -> bool {
    field_value_ok(lowercased(m.0@), json_text(m.1))
}

/// The position of the first member whose value cannot be stored, or the
/// number of members when there is none.
pub open spec fn first_bad_member(m: Seq<(String, JsonValue)>) -> int
    decreases m.len(),
{
    if m.len() == 0 {
        0
    } else if !member_ok(m[0]) {
        0
    } else {
        1 + first_bad_member(m.drop_first())
    }
}

/// The row made by storing each member, in order, in an empty row: the value
/// is the member's JSON text, the field its name in lowercase; each member
/// counts one towards `size`.
pub open spec fn members_row(m: Seq<(String, JsonValue)>) -> RowView
    decreases m.len(),
{
    if m.len() == 0 {
        empty_row_view()
    } else {
        let prev = members_row(m.drop_last());
        let set = field_set(prev, lowercased(m.last().0@), json_text(m.last().1));
        RowView { size: (prev.size + 1) as usize, ..set }
    }
}

/// Why an entry gives no row.
pub enum ExtractFailure {
    /// The entry is not a JSON object.
    NotAnObject,
    /// The value of the member of this name does not convert.
    BadField(Seq<char>),
}

/// The row of an entry, or why there is none.
pub open spec fn extract_spec(tab: JsonValue) -> Result<RowView, ExtractFailure> {
    match tab {
        JsonValue::Object(m) => {
            let b = first_bad_member(m@);
            if b < m@.len() {
                Err(ExtractFailure::BadField(m@[b].0@))
            } else {
                Ok(members_row(m@))
            }
        },
        _ => Err(ExtractFailure::NotAnObject),
    }
}

/// Past members that all convert, the first bad one is found further on.
proof fn lemma_first_bad(m: Seq<(String, JsonValue)>, i: int)
    requires
        0 <= i <= m.len(),
        forall|j: int| 0 <= j < i ==> member_ok(#[trigger] m[j]),
    ensures
        first_bad_member(m) == i + first_bad_member(m.skip(i)),
    decreases i,
{
    if i > 0 {
        let d = m.drop_first();
        assert forall|j: int| 0 <= j < i - 1 implies member_ok(#[trigger] d[j]) by {
            assert(d[j] == m[j + 1]);
        }
        lemma_first_bad(d, i - 1);
        assert(d.skip(i - 1) =~= m.skip(i));
        assert(member_ok(m[0]));
    }
}

/// An entry with one member gives the row that `set_field`, called with the
/// member's name and the JSON text of its value, makes of the empty row
/// (which then counts one member): the name is compared in lower case.
pub proof fn lemma_one_member_is_set_field(m: Vec<(String, JsonValue)>)
    requires
        m@.len() == 1,
        field_value_ok(lowercased(m@[0].0@), json_text(m@[0].1)),
    ensures
        extract_spec(JsonValue::Object(m)) == Ok::<RowView, ExtractFailure>(
            RowView {
                size: 1,
                ..field_set(empty_row_view(), lowercased(m@[0].0@), json_text(m@[0].1))
            },
        ),
{
    let e = Seq::<(String, JsonValue)>::empty();
    assert(m@.drop_first() =~= e);
    assert(m@.drop_last() =~= e);
    assert(member_ok(m@[0]));
    assert(first_bad_member(e) == 0);
    assert(first_bad_member(m@) == 1);
    assert(members_row(e) == empty_row_view());
}

/// A member named `id` in any mix of upper and lower case (`id`, `ID`, `Id`,
/// `iD`) whose value prints as the decimal text of `n` sets the row's `id` to `n`.
pub proof fn lemma_id_member_any_case(m: Vec<(String, JsonValue)>, n: usize)
    requires
        m@.len() == 1,
        m@[0].0@.len() == 2,
        m@[0].0@[0] == 'i' || m@[0].0@[0] == 'I',
        m@[0].0@[1] == 'd' || m@[0].0@[1] == 'D',
        json_text(m@[0].1) == decimal_text(n as nat),
    ensures
        extract_spec(JsonValue::Object(m)) matches Ok(r) && r.id == n,
{
    reveal_strlit("id");
    let k = m@[0].0@;
    assert(all_ascii(k));
    assert(k.map_values(|c: char| ascii_lower(c)) =~= "id"@);
    assert(lowercased(k) == "id"@);
    lemma_decimal_round_trip(n);
    lemma_field_names_distinct();
    lemma_one_member_is_set_field(m);
}

/// Whether `r` is what `extract_spec` says of `tab`.
pub open spec fn extract_result_matches(tab: JsonValue, r: Result<ExtractedData, Error>) -> bool {
    match extract_spec(tab) {
        Ok(v) => r matches Ok(row) && row@ == v,
        Err(ExtractFailure::NotAnObject) => r matches Err(Error::TabObjectNotFound),
        Err(ExtractFailure::BadField(k)) => r matches Err(Error::FieldConversionError(s)) && s@ == k,
    }
}

impl ExtractedData {
    /// The row of one session entry, without panicking: each member of the
    /// entry object is stored by `set_field` under its name, with its compact
    /// JSON text as the value. An entry that is not an object gives
    /// `TabObjectNotFound`; the first member whose value does not convert
    /// gives `FieldConversionError` with the member's name.
    pub fn try_extract_fields(tab: &JsonValue) -> (r: Result<ExtractedData, Error>)
        ensures
            extract_result_matches(*tab, r),
    {
        match tab {
            JsonValue::Object(members) => {
                let ghost m = members@;
                let mut row = ExtractedData::default();
                let mut i: usize = 0;
                while i < members.len()
                    invariant
                        members@ == m,
                        *tab == JsonValue::Object(*members),
                        i <= m.len(),
                        row.size == i,
                        row@ == members_row(m.take(i as int)),
                        forall|j: int| 0 <= j < i ==> member_ok(#[trigger] m[j]),
                    decreases m.len() - i,
                {
                    let key = &members[i].0;
                    let text = json_to_string(&members[i].1);
                    let name = to_lowercase(key.as_str());
                    let ghost before = row@;
                    if !row.store_field(&name, text) {
                        proof {
                            lemma_first_bad(m, i as int);
                            assert(m.skip(i as int)[0] == m[i as int]);
                        }
                        return Err(Error::FieldConversionError(key.clone()));
                    }
                    row.add_size();
                    proof {
                        let t = m.take(i + 1);
                        assert(t.drop_last() =~= m.take(i as int));
                        assert(t.last() == m[i as int]);
                    }
                    i = i + 1;
                }
                proof {
                    lemma_first_bad(m, i as int);
                    assert(m.take(i as int) =~= m);
                }
                Ok(row)
            },
            _ => Err(Error::TabObjectNotFound),
        }
    }

    /// The row of one session entry: each member of the entry object is
    /// stored by `set_field` under its name, with its compact JSON text as the
    /// value (so strings keep their quotes).
    pub fn extract_fields(tab: &JsonValue) -> (r: Result<ExtractedData, Error>)
        requires
            extract_spec(*tab) is Ok,
        ensures
            extract_spec(*tab) matches Ok(v) && r matches Ok(row) && row@ == v,
    {
        ExtractedData::try_extract_fields(tab)
    }
}

/// A text cell between two bars: the text with a space on each side, or a
/// single space when the text is empty.
pub open spec fn cell(t: Seq<char>) -> Seq<char> {
    if t.len() == 0 {
        " "@
    } else {
        " "@ + t + " "@
    }
}

/// The line that the export writes for a row, without its newline:
/// `| id | title | workspace | pinned |pinned_entry | pinned_id | last_accessed | url |`,
/// with `None` for a missing pinned entry and `| |` for an empty title,
/// workspace, pinned id or url.
pub open spec fn row_line(v: RowView) -> Seq<char> {
    "| "@ + decimal_text(v.id as nat) + " |"@ + cell(v.title) + "|"@ + cell(v.workspace) + "| "@
        + bool_text(v.pinned) + " |"@ + (match v.pinned_entry {
        Some(e) => e,
        None => "None"@,
    }) + " |"@ + cell(v.pinned_id) + "| "@ + decimal_text(v.last_accessed as nat) + " |"@
        + cell(v.url) + "|"@
}

/// The export text of a list of rows: each row's line followed by a newline.
pub open spec fn rows_text(rows: Seq<RowView>) -> Seq<char>
    decreases rows.len(),
{
    if rows.len() == 0 {
        Seq::empty()
    } else {
        rows_text(rows.drop_last()) + row_line(rows.last()) + "\n"@
    }
}

/// The views of a list of rows.
pub open spec fn row_views(rows: Seq<ExtractedData>) -> Seq<RowView> {
    rows.map_values(|r: ExtractedData| r@)
}

impl ExtractedData {
    /// The line of this row in the export table.
    pub fn format_row(&self) -> (s: String)
        ensures
            s@ == row_line(self@),
    {
        let mut s = String::new();
        s.append("| ");
        push_decimal(&mut s, self.id);
        s.append(" |");
        push_cell(&mut s, self.title.as_str());
        s.append("|");
        push_cell(&mut s, self.workspace.as_str());
        s.append("| ");
        push_bool(&mut s, self.pinned);
        s.append(" |");
        match &self.pinned_entry {
            Some(e) => s.append(e.as_str()),
            None => s.append("None"),
        }
        s.append(" |");
        push_cell(&mut s, self.pinned_id.as_str());
        s.append("| ");
        push_decimal(&mut s, self.last_accessed);
        s.append(" |");
        push_cell(&mut s, self.url.as_str());
        s.append("|");
        proof {
            let v = self@;
            assert(s@ =~= row_line(v));
        }
        s
    }
}

/// Appends the cell of `t`: ` t ` or, for empty text, a single space.
fn push_cell(out: &mut String, t: &str)
    ensures
        final(out)@ == old(out)@ + cell(t@),
{
    if t.unicode_len() == 0 {
        out.append(" ");
    } else {
        out.append(" ");
        out.append(t);
        out.append(" ");
    }
}

/// The whole export table: one line per row, in order, each ending in a newline.
pub fn format_rows(rows: &[ExtractedData]) -> (s: String)
    ensures
        s@ == rows_text(row_views(rows@)),
{
    let mut s = String::new();
    let mut i: usize = 0;
    while i < rows.len()
        invariant
            i <= rows@.len(),
            s@ == rows_text(row_views(rows@.take(i as int))),
        decreases rows@.len() - i,
    {
        let line = rows[i].format_row();
        s.append(line.as_str());
        s.append("\n");
        proof {
            let t = row_views(rows@.take(i + 1));
            assert(t.drop_last() =~= row_views(rows@.take(i as int)));
            assert(t.last() == rows@[i as int]@);
        }
        i = i + 1;
    }
    proof {
        assert(rows@.take(i as int) =~= rows@);
    }
    s
}

} // verus!
