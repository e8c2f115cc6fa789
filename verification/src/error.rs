//! The library's error type.

use std::io::Error as IoFailure;

use serde_json::Error as JsonFailure;
use vstd::prelude::*;

verus! {

/// An I/O error, as the standard library reports it.
#[verifier::external_type_specification]
#[verifier::external_body]
pub struct ExIoError(IoFailure);

/// A JSON syntax or data error, as `serde_json` reports it.
#[verifier::external_type_specification]
#[verifier::external_body]
pub struct ExJsonError(JsonFailure);

/// Everything that can go wrong while locating, decoding and exporting a session.
#[derive(Debug)]
pub enum Error {
    Generic(String),
    SessionFileNotFound,
    UrlExportError(String),
    ProfileDirNotFound(String),
    NullPointer,
    CompressedDataTooShort,
    DecompressionFailed,
    DecompressedDataInvalidUtf8,
    MagicHeader,
    MagicHeaderInvalid,
    IoError(IoFailure),
    JsonParseError(JsonFailure),
    WindowsArrayNotFound,
    TabsArrayNotFound,
    FieldConversionError(String),
    FieldNotFound(String),
    TabObjectNotFound,
}

/// The library's result type.
pub type Result<T> = core::result::Result<T, Error>;

} // verus!
