//! Session export helpers for Zen Browser `sessionstore.jsonlz4` files:
//! decoding the `mozLz40` file, walking its JSON to the history entries of
//! every tab, turning each entry into a row and writing the rows sorted by id.

pub mod cli;
pub mod error;
pub mod export;
pub mod extract;
pub mod json;
pub mod session;
pub mod sorting;
pub mod text;

pub use cli::{
    choose_profile, path_set, Cli, ProfileCandidate, ProfileEntry, ProfileListing, SessionFile,
    VerbosityLevel, DEFAULT_OUTPUT, DEFAULT_SESSION_NAME, PATH_AUTO,
};
pub use error::{Error, Result};
pub use export::{collect_rows, parse_session_data, tabs_have_entries, windows_have_tabs};
pub use extract::{format_rows, maybe_empty_string, ExtractedData};
pub use json::{parse_session_json, JsonValue};
pub use session::{decode_session, FileLocations, FillBuf, JsonBufPtr, MAGIC_HEADER};
pub use sorting::radix::{
    counting_sort, counting_sort_simd, radix_sort, radix_sort_avx, radix_sort_simd,
    sort_rows_by_id, Modulo,
};
