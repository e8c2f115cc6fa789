//! Decoding a `mozLz40` sessionstore file and holding its JSON text.

use lz4_flex::block::DecompressError as Lz4Failure;
use vstd::prelude::*;
use vstd::string::StringSliceAdditionalSpecFns;
use vstd::utf8::{decode_utf8, encode_utf8, valid_utf8};

use crate::error::Error;

verus! {

broadcast use {vstd::seq_lib::group_seq_properties, vstd::string::group_string_axioms};

/// Mozilla `sessionstore.jsonlz4` magic prefix: `mozLz40` and a NUL byte.
pub const MAGIC_HEADER: [u8; 8] = [0x6d, 0x6f, 0x7a, 0x4c, 0x7a, 0x34, 0x30, 0x00];

/// The magic prefix as a sequence of bytes.
pub open spec fn magic_bytes() -> Seq<u8> {
    seq![0x6du8, 0x6fu8, 0x7au8, 0x4cu8, 0x7au8, 0x34u8, 0x30u8, 0x00u8]
}

/// An error of the LZ4 block decoder.
#[verifier::external_type_specification]
#[verifier::external_body]
pub struct ExLz4Failure(Lz4Failure);

/// What `lz4_flex::block::decompress(input, min_size)` gives, or `None` where
/// it reports an error.
pub uninterp spec fn lz4_decompressed(input: Seq<u8>, min_size: usize) -> Option<Seq<u8>>;

/// Calls `lz4_flex::block::decompress`. Trusted: it fails exactly where
/// `lz4_decompressed` is `None` and otherwise returns the bytes it names; the
/// LZ4 block format is not stated. With the crate's default checked decoding
/// the source reports an output buffer that is too small as an error.
#[verifier::external_body]
fn lz4_decompress(input: &[u8], min_size: usize) -> (r: Result<Vec<u8>, Lz4Failure>)
    ensures
        r is Ok <==> lz4_decompressed(input@, min_size) is Some,
        r matches Ok(v) ==> lz4_decompressed(input@, min_size) == Some(v@),
{
    lz4_flex::block::decompress(input, min_size)
}

/// Calls `String::from_utf8`. Trusted, as its documentation says: it succeeds
/// exactly on valid UTF-8, and the string then holds the characters those
/// bytes encode.
#[verifier::external_body]
fn utf8_string(bytes: Vec<u8>) -> (r: Option<String>)
    ensures
        r is Some <==> valid_utf8(bytes@),
        r matches Some(s) ==> s@ == decode_utf8(bytes@),
{
    String::from_utf8(bytes).ok()
}

/// The eight bytes read as the header: the file's first eight bytes, with
/// zeros where the file is shorter (what `read_exact` leaves in a zeroed buffer).
pub open spec fn header_of(file: Seq<u8>) -> Seq<u8> {
    Seq::new(8, |i: int| if i < file.len() { file[i] } else { 0u8 })
}

/// The bytes after the header.
pub open spec fn body_of(file: Seq<u8>) -> Seq<u8> {
    if file.len() >= 8 {
        file.skip(8)
    } else {
        Seq::empty()
    }
}

/// The little-endian `u32` in the first four bytes.
pub open spec fn le_u32(b: Seq<u8>) -> int {
    b[0] + 256 * b[1] + 65536 * b[2] + 16777216 * b[3]
}

/// Why a sessionstore file does not decode.
pub enum DecodeFailure {
    BadMagic,
    TooShort,
    Decompression,
    NotUtf8,
}

/// The JSON text of a sessionstore file, or why there is none: the header must
/// be the magic prefix; then come the decompressed size as a little-endian
/// `u32` and an LZ4 block, which must decompress into that many bytes or fewer
/// of valid UTF-8.
pub open spec fn decode_spec(file: Seq<u8>) -> Result<Seq<char>, DecodeFailure> {
    let body = body_of(file);
    if header_of(file) != magic_bytes() {
        Err(DecodeFailure::BadMagic)
    } else if body.len() < 4 {
        Err(DecodeFailure::TooShort)
    } else {
        match lz4_decompressed(body.skip(4), le_u32(body) as usize) {
            None => Err(DecodeFailure::Decompression),
            Some(d) => if valid_utf8(d) {
                Ok(decode_utf8(d))
            } else {
                Err(DecodeFailure::NotUtf8)
            },
        }
    }
}

/// The four little-endian bytes of a number below 2^32.
pub open spec fn le_bytes(n: nat) -> Seq<u8> {
    seq![
        (n % 256) as u8,
        ((n / 256) % 256) as u8,
        ((n / 65536) % 256) as u8,
        ((n / 16777216) % 256) as u8,
    ]
}

/// A sessionstore file written as `mozLz40\0`, the byte length of the UTF-8
/// text as four little-endian bytes, and an LZ4 block that decompresses at
/// that length into the text's bytes, decodes back to the text, however long
/// the text is.
pub proof fn lemma_decode_round_trip(text: Seq<char>, block: Seq<u8>)
    requires
        encode_utf8(text).len() <= u32::MAX,
        lz4_decompressed(block, encode_utf8(text).len() as usize) == Some(encode_utf8(text)),
    ensures
        decode_spec(
            seq![0x6du8, 0x6fu8, 0x7au8, 0x4cu8, 0x7au8, 0x34u8, 0x30u8, 0x00u8] + le_bytes(
                encode_utf8(text).len(),
            ) + block,
        ) == Ok::<Seq<char>, DecodeFailure>(text),
{
    broadcast use {vstd::utf8::encode_utf8_valid_utf8, vstd::utf8::encode_utf8_decode_utf8};

    let bytes = encode_utf8(text);
    let n = bytes.len();
    let magic = seq![0x6du8, 0x6fu8, 0x7au8, 0x4cu8, 0x7au8, 0x34u8, 0x30u8, 0x00u8];
    let size = le_bytes(n);
    let file = magic + size + block;
    assert(header_of(file) =~= magic_bytes());
    let body = body_of(file);
    assert(body =~= size + block);
    assert(body.skip(4) =~= block);
    let x = n as u32;
    assert((x % 256) + 256 * ((x / 256) % 256) + 65536 * ((x / 65536) % 256) + 16777216 * ((x
        / 16777216) % 256) == x) by (bit_vector);
    assert(le_u32(body) == n);
}

/// A file whose first eight bytes are not `mozLz40\0` is refused for its header.
pub proof fn lemma_decode_bad_magic(file: Seq<u8>)
    requires
        file.len() >= 8,
        file.take(8) != seq![0x6du8, 0x6fu8, 0x7au8, 0x4cu8, 0x7au8, 0x34u8, 0x30u8, 0x00u8],
    ensures
        decode_spec(file) == Err::<Seq<char>, DecodeFailure>(DecodeFailure::BadMagic),
{
    if header_of(file) == magic_bytes() {
        assert(file.take(8) =~= header_of(file));
    }
}

/// A file of `mozLz40\0`, four size bytes and a block: the block is
/// decompressed at the size that the four bytes spell in little-endian
/// order; a block that does not decompress gives `Decompression`, bytes
/// that are not UTF-8 give `NotUtf8`, and otherwise the text they encode
/// comes back. With fewer than four size bytes the file is too short.
pub proof fn lemma_decode_layout(b0: u8, b1: u8, b2: u8, b3: u8, block: Seq<u8>, short: Seq<u8>)
    requires
        short.len() < 4,
    ensures
        ({
            let file = seq![0x6du8, 0x6fu8, 0x7au8, 0x4cu8, 0x7au8, 0x34u8, 0x30u8, 0x00u8] + seq![
                b0,
                b1,
                b2,
                b3,
            ] + block;
            let size = (b0 + 256 * b1 + 65536 * b2 + 16777216 * b3) as usize;
            match lz4_decompressed(block, size) {
                None => decode_spec(file) == Err::<Seq<char>, DecodeFailure>(
                    DecodeFailure::Decompression,
                ),
                Some(d) => decode_spec(file) == if valid_utf8(d) {
                    Ok::<Seq<char>, DecodeFailure>(decode_utf8(d))
                } else {
                    Err(DecodeFailure::NotUtf8)
                },
            }
        }),
        decode_spec(seq![0x6du8, 0x6fu8, 0x7au8, 0x4cu8, 0x7au8, 0x34u8, 0x30u8, 0x00u8] + short)
            == Err::<Seq<char>, DecodeFailure>(DecodeFailure::TooShort),
{
    let magic = seq![0x6du8, 0x6fu8, 0x7au8, 0x4cu8, 0x7au8, 0x34u8, 0x30u8, 0x00u8];
    let size = seq![b0, b1, b2, b3];
    let file = magic + size + block;
    assert(header_of(file) =~= magic_bytes());
    assert(body_of(file) =~= size + block);
    assert(body_of(file).skip(4) =~= block);
    let f2 = magic + short;
    assert(header_of(f2) =~= magic_bytes());
    assert(body_of(f2) =~= short);
}

/// The error that reports a decoding failure.
pub open spec fn decode_error(f: DecodeFailure, e: Error) -> bool {
    match f {
        DecodeFailure::BadMagic => e is MagicHeaderInvalid,
        DecodeFailure::TooShort => e is CompressedDataTooShort,
        DecodeFailure::Decompression => e is DecompressionFailed,
        DecodeFailure::NotUtf8 => e is DecompressedDataInvalidUtf8,
    }
}

/// Decodes the bytes of a sessionstore file into its JSON text.
pub fn decode_session(file: &[u8]) -> (r: Result<String, Error>)
    ensures
        match decode_spec(file@) {
            Ok(text) => r matches Ok(s) && s@ == text,
            Err(f) => r matches Err(e) && decode_error(f, e),
        },
{
    let ghost body = body_of(file@);
    let n = file.len();
    let mut i: usize = 0;
    while i < 8
        invariant
            i <= 8,
            n == file@.len(),
            forall|j: int| 0 <= j < i ==> #[trigger] header_of(file@)[j] == magic_bytes()[j],
        decreases 8 - i,
    {
        let b: u8 = if i < n {
            file[i]
        } else {
            0
        };
        if b != MAGIC_HEADER[i] {
            proof {
                assert(header_of(file@)[i as int] != magic_bytes()[i as int]);
            }
            return Err(Error::MagicHeaderInvalid);
        }
        i = i + 1;
    }
    proof {
        assert(header_of(file@) =~= magic_bytes());
    }
    if n < 12 {
        return Err(Error::CompressedDataTooShort);
    }
    proof {
        assert(body =~= file@.subrange(8, n as int));
    }
    let expected_size: u32 = (file[8] as u32) | ((file[9] as u32) << 8) | ((file[10] as u32)
        << 16) | ((file[11] as u32) << 24);
    proof {
        let (b0, b1, b2, b3) = (file@[8], file@[9], file@[10], file@[11]);
        assert((b0 as u32) | ((b1 as u32) << 8) | ((b2 as u32) << 16) | ((b3 as u32) << 24)
            == b0 + 256 * b1 + 65536 * b2 + 16777216 * b3) by (bit_vector);
        assert(body[0] == b0 && body[1] == b1 && body[2] == b2 && body[3] == b3);
    }
    let compressed = &file[12..n];
    proof {
        assert(compressed@ =~= body.skip(4));
    }
    let decompressed = match lz4_decompress(compressed, expected_size as usize) {
        Ok(d) => d,
        Err(_) => {
            return Err(Error::DecompressionFailed);
        },
    };
    match utf8_string(decompressed) {
        Some(s) => Ok(s),
        None => Err(Error::DecompressedDataInvalidUtf8),
    }
}

/// Fills a buffer handle from some data.
pub trait FillBuf<T, N>: Sized {
    /// Points the handle at `data` and returns a copy of the updated handle.
    fn fill_buf(&mut self, data: T) -> Self;
}

/// A handle on a JSON text for peeking at its first bytes; it holds its own
/// copy of the text it was pointed at.
#[derive(Debug)]
pub struct JsonBufPtr {
    text: Option<String>,
}

impl JsonBufPtr {
    /// The bytes of the text the handle points at, or `None` while it points
    /// at nothing.
    pub closed spec fn target(&self) -> Option<Seq<u8>> {
        match self.text {
            Some(t) => Some(encode_utf8(t@)),
            None => None,
        }
    }

    /// A handle pointed at `json`.
    pub fn new(json: &str) -> (r: Self)
        ensures
            r.target() == Some(json.spec_bytes()),
    {
        let mut s = JsonBufPtr::default();
        s.fill_buf(json)
    }

    /// The first `char_len` bytes of the text the handle points at (all of
    /// them when there are fewer). An unfilled handle gives `NullPointer`; a
    /// length of zero gives `Generic("Peek failed")`.
    pub fn peek(&self, char_len: usize) -> (r: Result<&[u8], Error>)
        ensures
            self.target() is None ==> r matches Err(Error::NullPointer),
            self.target() is Some && char_len == 0 ==> (r matches Err(Error::Generic(m)) && m@
                == "Peek failed"@),
            self.target() is Some && char_len > 0 ==> (r matches Ok(b) && b@ == self.target().unwrap().take(
                min2(char_len as int, self.target().unwrap().len() as int),
            )),
    {
        match &self.text {
            None => Err(Error::NullPointer),
            Some(t) => {
                if char_len == 0 {
                    return Err(Error::Generic(String::from_str("Peek failed")));
                }
                let bytes = t.as_str().as_bytes();
                let len = if char_len < bytes.len() {
                    char_len
                } else {
                    bytes.len()
                };
                let r = &bytes[0..len];
                proof {
                    assert(r@ =~= encode_utf8(t@).take(len as int));
                }
                Ok(r)
            },
        }
    }
}

/// The smaller of two numbers.
pub open spec fn min2(a: int, b: int) -> int {
    if a < b {
        a
    } else {
        b
    }
}

impl Clone for JsonBufPtr {
    fn clone(&self) -> (r: Self)
        ensures
            r == *self,
    {
        match &self.text {
            Some(t) => JsonBufPtr { text: Some(t.clone()) },
            None => JsonBufPtr { text: None },
        }
    }
}

impl Default for JsonBufPtr {
    fn default() -> (r: Self)
        ensures
            r.target() is None,
    {
        JsonBufPtr { text: None }
    }
}

impl<'a> FillBuf<&'a str, &'a [u8]> for JsonBufPtr {
    /// Points the handle at a copy of `json` and returns a copy of the handle.
    fn fill_buf(&mut self, json: &'a str) -> (r: Self)
        ensures
            final(self).target() == Some(json.spec_bytes()),
            r == *final(self),
    {
        self.text = Some(json.to_owned());
        self.clone()
    }
}

/// Where a session came from and its decoded JSON text.
#[derive(Debug)]
pub struct FileLocations {
    pub profile_dir: String,
    pub session_file: String,
    pub session_json: String,
    pub json_buf_ptr: JsonBufPtr,
}

impl FileLocations {
    /// The bytes that the peek handle points at, or `None` while it points
    /// at nothing.
    pub open spec fn buffer(&self) -> Option<Seq<u8>> {
        self.json_buf_ptr.target()
    }

    /// Holds a decoded session: the JSON text decoded from `contents`, the
    /// bytes of the sessionstore file at `session_file` in `profile_dir`.
    /// Decoding failures give the errors of `decode_session`.
    pub fn open(profile_dir: String, session_file: String, contents: &[u8]) -> (r: Result<
        Self,
        Error,
    >)
        ensures
            match decode_spec(contents@) {
                Ok(text) => r matches Ok(fl) && fl.session_json@ == text && fl.profile_dir
                    == profile_dir && fl.session_file == session_file && fl.buffer() == Some(
                    encode_utf8(fl.session_json@),
                ),
                Err(f) => r matches Err(e) && decode_error(f, e),
            },
    {
        let session_json = decode_session(contents)?;
        let json_buf_ptr = JsonBufPtr::new(session_json.as_str());
        Ok(FileLocations { profile_dir, session_file, session_json, json_buf_ptr })
    }

    /// The first `char_len` bytes of the text the peek handle points at (all
    /// of them when there are fewer): after `open`, the session's JSON text.
    /// Before a text is held this gives `NullPointer`; a length of zero gives
    /// `Generic("Peek failed")`.
    pub fn peek(&self, char_len: usize) -> (r: Result<&[u8], Error>)
        ensures
            self.buffer() is None ==> r matches Err(Error::NullPointer),
            self.buffer() is Some && char_len == 0 ==> (r matches Err(Error::Generic(m)) && m@
                == "Peek failed"@),
            self.buffer() is Some && char_len > 0 ==> (r matches Ok(b) && b@ == self.buffer().unwrap().take(
                min2(char_len as int, self.buffer().unwrap().len() as int),
            )),
    {
        self.json_buf_ptr.peek(char_len)
    }
}

impl Default for FileLocations {
    fn default() -> (r: Self)
        ensures
            r.profile_dir@ == Seq::<char>::empty(),
            r.session_file@ == Seq::<char>::empty(),
            r.session_json@ == Seq::<char>::empty(),
            r.buffer() is None,
    {
        FileLocations {
            profile_dir: String::new(),
            session_file: String::new(),
            session_json: String::new(),
            json_buf_ptr: JsonBufPtr::default(),
        }
    }
}

impl Clone for FileLocations {
    fn clone(&self) -> (r: Self)
        ensures
            r == *self,
    {
        FileLocations {
            profile_dir: self.profile_dir.clone(),
            session_file: self.session_file.clone(),
            session_json: self.session_json.clone(),
            json_buf_ptr: self.json_buf_ptr.clone(),
        }
    }
}

impl<'a> FillBuf<&'a str, &'a [u8]> for FileLocations {
    /// Points the peek handle at `data` and returns a copy of the locations.
    fn fill_buf(&mut self, data: &'a str) -> (r: Self)
        ensures
            final(self).profile_dir == old(self).profile_dir,
            final(self).session_file == old(self).session_file,
            final(self).session_json == old(self).session_json,
            final(self).buffer() == Some(data.spec_bytes()),
            r == *final(self),
    {
        let json_ptr = self.json_buf_ptr.fill_buf(data);
        self.json_buf_ptr = json_ptr;
        self.clone()
    }
}

} // verus!
