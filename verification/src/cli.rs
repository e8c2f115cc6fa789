//! Command-line settings and the decisions that follow from them.

use vstd::prelude::*;

use crate::error::Error;
use crate::text::{all_ascii, ascii_lower, ascii_upper, decimal_text, to_uppercase, uppercased};

verus! {

broadcast use {vstd::seq_lib::group_seq_properties, vstd::string::group_string_axioms};

/// Default export path relative to the process working directory.
pub const DEFAULT_OUTPUT: &'static str = "data/workspace_export_rs.txt";

/// Default sessionstore file name inside a Zen profile directory.
pub const DEFAULT_SESSION_NAME: &'static str = "sessionstore.jsonlz4";

/// Sentinel value of path arguments that means "resolve automatically".
pub const PATH_AUTO: &'static str = "auto";

/// Diagnostic verbosity, from the quietest to the chattiest.
#[derive(Debug, Clone, Copy, PartialEq, Eq, Structural)]
pub enum VerbosityLevel {
    Error,
    Warn,
    Info,
    Debug,
    Trace,
}

/// The rank of a level: `Error` is 0 and `Trace` is 4.
pub open spec fn level_rank(level: VerbosityLevel) -> u8 {
    match level {
        VerbosityLevel::Error => 0,
        VerbosityLevel::Warn => 1,
        VerbosityLevel::Info => 2,
        VerbosityLevel::Debug => 3,
        VerbosityLevel::Trace => 4,
    }
}

impl VerbosityLevel {
    /// Rank for simple `if level >= Debug` gates.
    pub fn rank(self) -> (r: u8)
        ensures
            r == level_rank(self),
    {
        match self {
            VerbosityLevel::Error => 0,
            VerbosityLevel::Warn => 1,
            VerbosityLevel::Info => 2,
            VerbosityLevel::Debug => 3,
            VerbosityLevel::Trace => 4,
        }
    }

    /// Whether `self` is at least as verbose as `other`.
    pub fn at_least(self, other: Self) -> (b: bool)
        ensures
            b == (level_rank(self) >= level_rank(other)),
    {
        self.rank() >= other.rank()
    }
}

/// Converting a level's rank back with `From<u8>` gives the level again.
pub proof fn lemma_level_rank_roundtrip(l: VerbosityLevel)
    ensures
        level_of_number(level_rank(l)) == l,
{
}

/// `at_least` orders the levels totally: it is reflexive, transitive and
/// total, and two levels each at least the other are the same level.
pub proof fn lemma_at_least_total_order(a: VerbosityLevel, b: VerbosityLevel, c: VerbosityLevel)
    ensures
        level_rank(a) >= level_rank(a),
        level_rank(a) >= level_rank(b) && level_rank(b) >= level_rank(c) ==> level_rank(a)
            >= level_rank(c),
        level_rank(a) >= level_rank(b) || level_rank(b) >= level_rank(a),
        level_rank(a) >= level_rank(b) && level_rank(b) >= level_rank(a) ==> a == b,
{
}

impl Default for VerbosityLevel {
    fn default() -> (r: Self)
        ensures
            r == VerbosityLevel::Info,
    {
        VerbosityLevel::Info
    }
}

/// The level of a number: 0 to 4 name `Error` to `Trace`; anything else is `Info`.
pub open spec fn level_of_number(n: u8) -> VerbosityLevel {
    if n == 0 {
        VerbosityLevel::Error
    } else if n == 1 {
        VerbosityLevel::Warn
    } else if n == 2 {
        VerbosityLevel::Info
    } else if n == 3 {
        VerbosityLevel::Debug
    } else if n == 4 {
        VerbosityLevel::Trace
    } else {
        VerbosityLevel::Info
    }
}

impl From<u8> for VerbosityLevel {
    fn from(level: u8) -> (r: Self) {
        match level {
            0 => VerbosityLevel::Error,
            1 => VerbosityLevel::Warn,
            2 => VerbosityLevel::Info,
            3 => VerbosityLevel::Debug,
            4 => VerbosityLevel::Trace,
            _ => VerbosityLevel::Info,
        }
    }
}

impl vstd::std_specs::convert::FromSpecImpl<u8> for VerbosityLevel {
    open spec fn obeys_from_spec() -> bool {
        true
    }

    open spec fn from_spec(v: u8) -> VerbosityLevel {
        level_of_number(v)
    }
}

/// The level that an upper-cased name or number stands for.
pub open spec fn level_named(u: Seq<char>) -> Option<VerbosityLevel> {
    if u == "ERROR"@ || u == "0"@ {
        Some(VerbosityLevel::Error)
    } else if u == "WARN"@ || u == "1"@ {
        Some(VerbosityLevel::Warn)
    } else if u == "INFO"@ || u == "2"@ {
        Some(VerbosityLevel::Info)
    } else if u == "DEBUG"@ || u == "3"@ {
        Some(VerbosityLevel::Debug)
    } else if u == "TRACE"@ || u == "4"@ {
        Some(VerbosityLevel::Trace)
    } else {
        None
    }
}

/// The upper-case name of a level, as the command line spells it.
pub open spec fn level_name(l: VerbosityLevel) -> Seq<char> {
    match l {
        VerbosityLevel::Error => "ERROR"@,
        VerbosityLevel::Warn => "WARN"@,
        VerbosityLevel::Info => "INFO"@,
        VerbosityLevel::Debug => "DEBUG"@,
        VerbosityLevel::Trace => "TRACE"@,
    }
}

/// Reading a level back: `from_str` gives the level `l` for its upper-case
/// name, for its name in lower case, and for the decimal text of its rank.
pub proof fn lemma_level_names_round_trip(l: VerbosityLevel)
    ensures
        level_named(uppercased(level_name(l))) == Some(l),
        level_named(uppercased(level_name(l).map_values(|c: char| ascii_lower(c)))) == Some(l),
        level_named(uppercased(decimal_text(level_rank(l) as nat))) == Some(l),
{
    reveal_strlit("ERROR");
    reveal_strlit("WARN");
    reveal_strlit("INFO");
    reveal_strlit("DEBUG");
    reveal_strlit("TRACE");
    reveal_strlit("0");
    reveal_strlit("1");
    reveal_strlit("2");
    reveal_strlit("3");
    reveal_strlit("4");
    let n = level_name(l);
    let lower = n.map_values(|c: char| ascii_lower(c));
    let d = decimal_text(level_rank(l) as nat);
    assert(all_ascii(n));
    assert(n.map_values(|c: char| ascii_upper(c)) =~= n);
    assert(all_ascii(lower));
    assert(lower.map_values(|c: char| ascii_upper(c)) =~= n);
    assert(d.len() == 1);
    assert(all_ascii(d));
    assert(d.map_values(|c: char| ascii_upper(c)) =~= d);
    match l {
        VerbosityLevel::Error => assert(d =~= "0"@),
        VerbosityLevel::Warn => assert(d =~= "1"@),
        VerbosityLevel::Info => assert(d =~= "2"@),
        VerbosityLevel::Debug => assert(d =~= "3"@),
        VerbosityLevel::Trace => assert(d =~= "4"@),
    }
    assert(uppercased(d) == d);
    assert("0"@.len() == 1 && "1"@.len() == 1 && "2"@.len() == 1 && "3"@.len() == 1);
    assert("0"@[0] != "1"@[0] && "0"@[0] != "2"@[0] && "0"@[0] != "3"@[0] && "0"@[0] != "4"@[0]);
    assert("1"@[0] != "2"@[0] && "1"@[0] != "3"@[0] && "1"@[0] != "4"@[0]);
    assert("2"@[0] != "3"@[0] && "2"@[0] != "4"@[0] && "3"@[0] != "4"@[0]);
    assert(level_named(d) == Some(l));
    assert("ERROR"@.len() == 5 && "WARN"@.len() == 4 && "INFO"@.len() == 4);
    assert("DEBUG"@.len() == 5 && "TRACE"@.len() == 5);
    assert("WARN"@[0] != "INFO"@[0] && "ERROR"@[0] != "DEBUG"@[0] && "ERROR"@[0] != "TRACE"@[0]);
    assert("DEBUG"@[0] != "TRACE"@[0]);
}

/// The message for a verbosity name that is not supported.
pub open spec fn unsupported_level_message(s: Seq<char>) -> Seq<char> {
    "Verbosity level: "@ + s + " is not supported."@
}

impl core::str::FromStr for VerbosityLevel {
    type Err = Error;

    /// Reads a level from its name in any case (`error` .. `trace`) or its
    /// number (`0` .. `4`); anything else gives `Generic` with a message.
    fn from_str(s: &str) -> (r: Result<Self, Error>)
        ensures
            match level_named(uppercased(s@)) {
                Some(l) => r == Ok::<VerbosityLevel, Error>(l),
                None => (r matches Err(Error::Generic(m)) && m@ == unsupported_level_message(s@)),
            },
    {
        let u = to_uppercase(s);
        if u == "ERROR".to_owned() || u == "0".to_owned() {
            Ok(VerbosityLevel::Error)
        } else if u == "WARN".to_owned() || u == "1".to_owned() {
            Ok(VerbosityLevel::Warn)
        } else if u == "INFO".to_owned() || u == "2".to_owned() {
            Ok(VerbosityLevel::Info)
        } else if u == "DEBUG".to_owned() || u == "3".to_owned() {
            Ok(VerbosityLevel::Debug)
        } else if u == "TRACE".to_owned() || u == "4".to_owned() {
            Ok(VerbosityLevel::Trace)
        } else {
            let mut m = "Verbosity level: ".to_owned();
            m.append(s);
            m.append(" is not supported.");
            Err(Error::Generic(m))
        }
    }
}

/// The command-line settings, paths held as text.
#[derive(Debug)]
pub struct Cli {
    /// Explicit sessionstore path, or `auto` to look in a profile.
    pub input: String,
    /// Zen profile directory, or `auto` for the first one found.
    pub profile: String,
    /// Session file name inside the profile directory.
    pub session_name: String,
    /// Output path of the export table.
    pub output: String,
    /// Verbosity of diagnostic prints.
    pub level_verbosity: VerbosityLevel,
    /// Print the name and version and exit.
    pub version: bool,
}

/// A path argument that the user gave a real value: neither empty nor `auto`.
pub open spec fn path_is_set(p: Seq<char>) -> bool {
    p.len() != 0 && p != "auto"@
}

/// Whether a path argument holds a real value rather than the `auto` sentinel.
pub fn path_set(p: &str) -> (b: bool)
    ensures
        b == path_is_set(p@),
{
    let t = p.to_owned();
    t.as_str().unicode_len() != 0 && t != PATH_AUTO.to_owned()
}

/// Where the sessionstore file is to be found.
#[derive(Debug)]
pub enum SessionFile {
    /// The path given with `--input`.
    Explicit(String),
    /// The file `session_name` inside the profile directory `profile`.
    InProfile { profile: String, session_name: String },
    /// The file `session_name` inside the first Zen profile found on this machine.
    DiscoverProfile { session_name: String },
}

impl Default for Cli {
    fn default() -> (r: Self)
        ensures
            r.input@ == "auto"@,
            r.profile@ == "auto"@,
            r.session_name@ == "sessionstore.jsonlz4"@,
            r.output@ == "data/workspace_export_rs.txt"@,
            r.level_verbosity == VerbosityLevel::Info,
            !r.version,
    {
        Cli {
            input: PATH_AUTO.to_owned(),
            profile: PATH_AUTO.to_owned(),
            session_name: DEFAULT_SESSION_NAME.to_owned(),
            output: DEFAULT_OUTPUT.to_owned(),
            level_verbosity: VerbosityLevel::Info,
            version: false,
        }
    }
}

impl Cli {
    /// The verbosity asked for.
    pub fn verbosity_level(&self) -> (r: VerbosityLevel)
        ensures
            r == self.level_verbosity,
    {
        self.level_verbosity
    }

    /// Where the sessionstore file is: the `--input` path when it is set;
    /// otherwise `session_name` inside `--profile` when that is set;
    /// otherwise `session_name` inside a profile still to be discovered.
    pub fn resolve_session_file(&self) -> (r: SessionFile)
        ensures
            path_is_set(self.input@) ==> (r matches SessionFile::Explicit(p) && p@ == self.input@),
            !path_is_set(self.input@) && path_is_set(self.profile@) ==> (r matches SessionFile::InProfile {
                profile,
                session_name,
            } && profile@ == self.profile@ && session_name@ == self.session_name@),
            !path_is_set(self.input@) && !path_is_set(self.profile@) ==> (
            r matches SessionFile::DiscoverProfile { session_name }
                && session_name@ == self.session_name@),
    {
        if path_set(self.input.as_str()) {
            return SessionFile::Explicit(self.input.clone());
        }
        if path_set(self.profile.as_str()) {
            SessionFile::InProfile {
                profile: self.profile.clone(),
                session_name: self.session_name.clone(),
            }
        } else {
            SessionFile::DiscoverProfile { session_name: self.session_name.clone() }
        }
    }

    /// The output path.
    pub fn output_path(&self) -> (r: &str)
        ensures
            r@ == self.output@,
    {
        self.output.as_str()
    }
}

/// A directory entry under a candidate profiles directory.
#[derive(Debug)]
pub struct ProfileEntry {
    /// The entry's path, as text.
    pub path: String,
    /// Whether the entry is a directory.
    pub is_dir: bool,
    /// Whether the entry holds `sessionstore.jsonlz4` or `sessionstore_TESTING.jsonlz4`.
    pub has_session: bool,
}

/// What listing a candidate profiles directory gave.
#[derive(Debug)]
pub enum ProfileListing {
    /// The directory does not exist.
    Missing,
    /// The directory exists but could not be read; the text of the error.
    Unreadable(String),
    /// The directory's entries, in the order the listing gave them.
    Entries(Vec<ProfileEntry>),
}

/// A place where Zen keeps profiles, and what it held.
#[derive(Debug)]
pub struct ProfileCandidate {
    /// The directory's path, as it is displayed.
    pub display: String,
    pub listing: ProfileListing,
}

/// The path of the first directory that holds a session file.
pub open spec fn first_session_dir(es: Seq<ProfileEntry>) -> Option<Seq<char>>
    decreases es.len(),
{
    if es.len() == 0 {
        None
    } else if es[0].is_dir && es[0].has_session {
        Some(es[0].path@)
    } else {
        first_session_dir(es.drop_first())
    }
}

/// The path of the first directory.
pub open spec fn first_dir(es: Seq<ProfileEntry>) -> Option<Seq<char>>
    decreases es.len(),
{
    if es.len() == 0 {
        None
    } else if es[0].is_dir {
        Some(es[0].path@)
    } else {
        first_dir(es.drop_first())
    }
}

/// The message for a profiles directory that could not be read.
pub open spec fn unreadable_message(display: Seq<char>, err: Seq<char>) -> Seq<char> {
    "Unable to read the profile directory "@ + display + ": "@ + err
}

/// Going through the candidates in order: a missing one is skipped, an
/// unreadable one stops the search with its message, and one that can be
/// listed gives its first directory holding a session file, else its first
/// directory, else the search goes on. `None` when no candidate decides.
pub open spec fn profile_choice(cs: Seq<ProfileCandidate>) -> Option<Result<Seq<char>, Seq<char>>>
    decreases cs.len(),
{
    if cs.len() == 0 {
        None
    } else {
        match cs[0].listing {
            ProfileListing::Missing => profile_choice(cs.drop_first()),
            ProfileListing::Unreadable(e) => Some(Err(unreadable_message(cs[0].display@, e@))),
            ProfileListing::Entries(es) => match first_session_dir(es@) {
                Some(p) => Some(Ok(p)),
                None => match first_dir(es@) {
                    Some(p) => Some(Ok(p)),
                    None => profile_choice(cs.drop_first()),
                },
            },
        }
    }
}

/// The texts joined with `sep` between them.
pub open spec fn joined(parts: Seq<Seq<char>>, sep: Seq<char>) -> Seq<char>
    decreases parts.len(),
{
    if parts.len() == 0 {
        Seq::empty()
    } else if parts.len() == 1 {
        parts[0]
    } else {
        joined(parts.drop_last(), sep) + sep + parts.last()
    }
}

/// The displayed paths of the candidates.
pub open spec fn candidate_names(cs: Seq<ProfileCandidate>) -> Seq<Seq<char>> {
    cs.map_values(|c: ProfileCandidate| c.display@)
}

/// `first_session_dir` is the path of the directory at `k` when it holds a
/// session file and no directory before it does.
proof fn lemma_first_session_dir_at(es: Seq<ProfileEntry>, k: int)
    requires
        0 <= k < es.len(),
        es[k].is_dir && es[k].has_session,
        forall|j: int| 0 <= j < k ==> !(#[trigger] es[j].is_dir && es[j].has_session),
    ensures
        first_session_dir(es) == Some(es[k].path@),
    decreases k,
{
    if k > 0 {
        let d = es.drop_first();
        assert(!(es[0].is_dir && es[0].has_session));
        assert forall|j: int| 0 <= j < k - 1 implies !(#[trigger] d[j].is_dir && d[j].has_session) by {
            assert(d[j] == es[j + 1]);
        }
        lemma_first_session_dir_at(d, k - 1);
    }
}

/// `first_session_dir` is `None` when no directory holds a session file.
proof fn lemma_first_session_dir_none(es: Seq<ProfileEntry>)
    requires
        forall|j: int| 0 <= j < es.len() ==> !(#[trigger] es[j].is_dir && es[j].has_session),
    ensures
        first_session_dir(es) is None,
    decreases es.len(),
{
    if es.len() > 0 {
        let d = es.drop_first();
        assert(!(es[0].is_dir && es[0].has_session));
        assert forall|j: int| 0 <= j < d.len() implies !(#[trigger] d[j].is_dir && d[j].has_session) by {
            assert(d[j] == es[j + 1]);
        }
        lemma_first_session_dir_none(d);
    }
}

/// `first_dir` is the path of the directory at `k` when no entry before it
/// is a directory.
proof fn lemma_first_dir_at(es: Seq<ProfileEntry>, k: int)
    requires
        0 <= k < es.len(),
        es[k].is_dir,
        forall|j: int| 0 <= j < k ==> !(#[trigger] es[j].is_dir),
    ensures
        first_dir(es) == Some(es[k].path@),
    decreases k,
{
    if k > 0 {
        let d = es.drop_first();
        assert(!es[0].is_dir);
        assert forall|j: int| 0 <= j < k - 1 implies !(#[trigger] d[j].is_dir) by {
            assert(d[j] == es[j + 1]);
        }
        lemma_first_dir_at(d, k - 1);
    }
}

/// Candidates that do not exist are passed over.
proof fn lemma_skip_missing(cs: Seq<ProfileCandidate>, i: int)
    requires
        0 <= i <= cs.len(),
        forall|j: int| 0 <= j < i ==> (#[trigger] cs[j].listing) is Missing,
    ensures
        profile_choice(cs) == profile_choice(cs.skip(i)),
    decreases i,
{
    if i > 0 {
        let d = cs.drop_first();
        assert(cs[0].listing is Missing);
        assert forall|j: int| 0 <= j < i - 1 implies (#[trigger] d[j].listing) is Missing by {
            assert(d[j] == cs[j + 1]);
        }
        lemma_skip_missing(d, i - 1);
        assert(d.skip(i - 1) =~= cs.skip(i));
    }
}

/// The first profiles directory that exists and holds a directory with a
/// session file decides: the profile is the first such directory in it,
/// whatever the candidates after it hold.
pub proof fn lemma_profile_with_session(
    cs: Seq<ProfileCandidate>,
    i: int,
    es: Vec<ProfileEntry>,
    k: int,
)
    requires
        0 <= i < cs.len(),
        forall|j: int| 0 <= j < i ==> (#[trigger] cs[j].listing) is Missing,
        cs[i].listing == ProfileListing::Entries(es),
        0 <= k < es@.len(),
        es@[k].is_dir && es@[k].has_session,
        forall|j: int| 0 <= j < k ==> !(#[trigger] es@[j].is_dir && es@[j].has_session),
    ensures
        profile_choice(cs) == Some(Ok::<Seq<char>, Seq<char>>(es@[k].path@)),
{
    lemma_skip_missing(cs, i);
    assert(cs.skip(i)[0] == cs[i]);
    lemma_first_session_dir_at(es@, k);
}

/// The first profiles directory that exists and holds any directory decides
/// even when no directory in it has a session file: the profile is then its
/// first directory, whatever the candidates after it hold.
pub proof fn lemma_profile_first_dir(cs: Seq<ProfileCandidate>, i: int, es: Vec<ProfileEntry>, k: int)
    requires
        0 <= i < cs.len(),
        forall|j: int| 0 <= j < i ==> (#[trigger] cs[j].listing) is Missing,
        cs[i].listing == ProfileListing::Entries(es),
        forall|j: int| 0 <= j < es@.len() ==> !(#[trigger] es@[j].is_dir && es@[j].has_session),
        0 <= k < es@.len(),
        es@[k].is_dir,
        forall|j: int| 0 <= j < k ==> !(#[trigger] es@[j].is_dir),
    ensures
        profile_choice(cs) == Some(Ok::<Seq<char>, Seq<char>>(es@[k].path@)),
{
    lemma_skip_missing(cs, i);
    assert(cs.skip(i)[0] == cs[i]);
    lemma_first_session_dir_none(es@);
    lemma_first_dir_at(es@, k);
}

/// The first profiles directory that exists but cannot be read stops the
/// search with its message, whatever the candidates after it hold.
pub proof fn lemma_profile_unreadable(cs: Seq<ProfileCandidate>, i: int, e: String)
    requires
        0 <= i < cs.len(),
        forall|j: int| 0 <= j < i ==> (#[trigger] cs[j].listing) is Missing,
        cs[i].listing == ProfileListing::Unreadable(e),
    ensures
        profile_choice(cs) == Some(
            Err::<Seq<char>, Seq<char>>(
                "Unable to read the profile directory "@ + cs[i].display@ + ": "@ + e@,
            ),
        ),
{
    lemma_skip_missing(cs, i);
    assert(cs.skip(i)[0] == cs[i]);
}

/// When no candidate exists, none is chosen.
pub proof fn lemma_profile_all_missing(cs: Seq<ProfileCandidate>)
    requires
        forall|j: int| 0 <= j < cs.len() ==> (#[trigger] cs[j].listing) is Missing,
    ensures
        profile_choice(cs) is None,
{
    lemma_skip_missing(cs, cs.len() as int);
    assert(cs.skip(cs.len() as int) =~= Seq::<ProfileCandidate>::empty());
}

/// The first directory among the entries that holds a session file, else the first directory.
fn pick_profile_entry(es: &Vec<ProfileEntry>) -> (r: Option<String>)
    ensures
        match first_session_dir(es@) {
            Some(p) => r matches Some(s) && s@ == p,
            None => match first_dir(es@) {
                Some(p) => r matches Some(s) && s@ == p,
                None => r is None,
            },
        },
{
    let mut i: usize = 0;
    while i < es.len()
        invariant
            i <= es@.len(),
            first_session_dir(es@) == first_session_dir(es@.skip(i as int)),
        decreases es@.len() - i,
    {
        if es[i].is_dir && es[i].has_session {
            return Some(es[i].path.clone());
        }
        proof {
            assert(es@.skip(i as int).drop_first() =~= es@.skip(i + 1));
        }
        i = i + 1;
    }
    let mut j: usize = 0;
    while j < es.len()
        invariant
            j <= es@.len(),
            first_session_dir(es@) is None,
            first_dir(es@) == first_dir(es@.skip(j as int)),
        decreases es@.len() - j,
    {
        if es[j].is_dir {
            return Some(es[j].path.clone());
        }
        proof {
            assert(es@.skip(j as int).drop_first() =~= es@.skip(j + 1));
        }
        j = j + 1;
    }
    None
}

/// The decisions of profile discovery: the profile directory chosen from
/// the listed candidates by `profile_choice`. An unreadable candidate gives
/// `ProfileDirNotFound` with its message; when no candidate decides, the
/// error lists every candidate: `tried: a, b`.
pub fn choose_profile(candidates: &Vec<ProfileCandidate>) -> (r: Result<String, Error>)
    ensures
        match profile_choice(candidates@) {
            Some(Ok(p)) => (r matches Ok(s) && s@ == p),
            Some(Err(m)) => (r matches Err(Error::ProfileDirNotFound(s)) && s@ == m),
            None => (r matches Err(Error::ProfileDirNotFound(s)) && s@ == "tried: "@ + joined(
                candidate_names(candidates@),
                ", "@,
            )),
        },
{
    let ghost cs = candidates@;
    let mut tried = String::new();
    let mut i: usize = 0;
    while i < candidates.len()
        invariant
            cs == candidates@,
            i <= cs.len(),
            profile_choice(cs) == profile_choice(cs.skip(i as int)),
            tried@ == joined(candidate_names(cs.take(i as int)), ", "@),
        decreases cs.len() - i,
    {
        let c = &candidates[i];
        proof {
            assert(cs.skip(i as int)[0] == cs[i as int]);
            assert(cs.skip(i as int).drop_first() =~= cs.skip(i + 1));
            let names = candidate_names(cs.take(i + 1));
            assert(names.drop_last() =~= candidate_names(cs.take(i as int)));
            assert(names.last() == cs[i as int].display@);
            if i == 0 {
                assert(names.len() == 1);
            }
        }
        if i > 0 {
            tried.append(", ");
        }
        tried.append(c.display.as_str());
        match &c.listing {
            ProfileListing::Missing => {},
            ProfileListing::Unreadable(e) => {
                let mut m = "Unable to read the profile directory ".to_owned();
                m.append(c.display.as_str());
                m.append(": ");
                m.append(e.as_str());
                return Err(Error::ProfileDirNotFound(m));
            },
            ProfileListing::Entries(es) => {
                match pick_profile_entry(es) {
                    Some(p) => {
                        return Ok(p);
                    },
                    None => {},
                }
            },
        }
        i = i + 1;
    }
    proof {
        assert(cs.take(i as int) =~= cs);
    }
    let mut m = "tried: ".to_owned();
    m.append(tried.as_str());
    Err(Error::ProfileDirNotFound(m))
}

} // verus!
