use std::str::FromStr;

use zwse::{
    choose_profile, path_set, Cli, Error, ProfileCandidate, ProfileEntry, ProfileListing,
    SessionFile, VerbosityLevel, DEFAULT_OUTPUT, DEFAULT_SESSION_NAME, PATH_AUTO,
};

#[test]
fn levels_rank_and_compare() {
    assert_eq!(VerbosityLevel::Error.rank(), 0);
    assert_eq!(VerbosityLevel::Trace.rank(), 4);
    assert!(VerbosityLevel::Debug.at_least(VerbosityLevel::Info));
    assert!(!VerbosityLevel::Warn.at_least(VerbosityLevel::Info));
    assert!(VerbosityLevel::Info.at_least(VerbosityLevel::Info));
    for n in 0u8..5 {
        assert_eq!(VerbosityLevel::from(n).rank(), n);
    }
    assert_eq!(VerbosityLevel::from(9), VerbosityLevel::Info);
    assert_eq!(VerbosityLevel::default(), VerbosityLevel::Info);
}

#[test]
fn levels_parse_from_names_and_numbers() {
    assert_eq!(VerbosityLevel::from_str("error").unwrap(), VerbosityLevel::Error);
    assert_eq!(VerbosityLevel::from_str("Warn").unwrap(), VerbosityLevel::Warn);
    assert_eq!(VerbosityLevel::from_str("3").unwrap(), VerbosityLevel::Debug);
    assert_eq!(VerbosityLevel::from_str("TRACE").unwrap(), VerbosityLevel::Trace);
    match VerbosityLevel::from_str("loud") {
        Err(Error::Generic(m)) => assert_eq!(m, "Verbosity level: loud is not supported."),
        other => panic!("unexpected {other:?}"),
    }
}

#[test]
fn default_cli_discovers_the_session() {
    let cli = Cli::default();
    assert_eq!(cli.input, PATH_AUTO);
    assert_eq!(cli.output_path(), DEFAULT_OUTPUT);
    assert_eq!(cli.verbosity_level(), VerbosityLevel::Info);
    match cli.resolve_session_file() {
        SessionFile::DiscoverProfile { session_name } => assert_eq!(session_name, DEFAULT_SESSION_NAME),
        other => panic!("unexpected {other:?}"),
    }
}

#[test]
fn explicit_input_wins_over_profile() {
    let mut cli = Cli::default();
    cli.profile = "/p".into();
    match cli.resolve_session_file() {
        SessionFile::InProfile { profile, session_name } => {
            assert_eq!(profile, "/p");
            assert_eq!(session_name, "sessionstore.jsonlz4");
        }
        other => panic!("unexpected {other:?}"),
    }
    cli.input = "/x/s.jsonlz4".into();
    match cli.resolve_session_file() {
        SessionFile::Explicit(p) => assert_eq!(p, "/x/s.jsonlz4"),
        other => panic!("unexpected {other:?}"),
    }
}

#[test]
fn path_set_rejects_auto_and_empty() {
    assert!(!path_set("auto"));
    assert!(!path_set(""));
    assert!(path_set("Auto"));
    assert!(path_set("/tmp/x"));
}

fn entry(path: &str, is_dir: bool, has_session: bool) -> ProfileEntry {
    ProfileEntry { path: path.into(), is_dir, has_session }
}

#[test]
fn profile_with_session_is_preferred() {
    let cands = vec![
        ProfileCandidate { display: "/h/.zen/Profiles".into(), listing: ProfileListing::Missing },
        ProfileCandidate {
            display: "/h/.zen".into(),
            listing: ProfileListing::Entries(vec![
                entry("/h/.zen/cache", true, false),
                entry("/h/.zen/file", false, true),
                entry("/h/.zen/abc.default", true, true),
            ]),
        },
    ];
    assert_eq!(choose_profile(&cands).unwrap(), "/h/.zen/abc.default");
}

#[test]
fn first_directory_is_the_fallback() {
    let cands = vec![ProfileCandidate {
        display: "/h/.zen/Profiles".into(),
        listing: ProfileListing::Entries(vec![entry("/f", false, false), entry("/d1", true, false), entry("/d2", true, false)]),
    }];
    assert_eq!(choose_profile(&cands).unwrap(), "/d1");
}

#[test]
fn no_profile_lists_what_was_tried() {
    let cands = vec![
        ProfileCandidate { display: "/a".into(), listing: ProfileListing::Missing },
        ProfileCandidate { display: "/b".into(), listing: ProfileListing::Entries(vec![]) },
    ];
    match choose_profile(&cands) {
        Err(Error::ProfileDirNotFound(m)) => assert_eq!(m, "tried: /a, /b"),
        other => panic!("unexpected {other:?}"),
    }
    let unreadable = vec![ProfileCandidate {
        display: "/a".into(),
        listing: ProfileListing::Unreadable("denied".into()),
    }];
    match choose_profile(&unreadable) {
        Err(Error::ProfileDirNotFound(m)) => {
            assert_eq!(m, "Unable to read the profile directory /a: denied")
        }
        other => panic!("unexpected {other:?}"),
    }
}
