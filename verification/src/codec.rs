//! Data encoding/decoding between MCP tool strings and raw bytes.
//!
//! MCP tool arguments carry serial payloads as strings tagged with an
//! `encoding` field. This module converts in both directions and reports a
//! typed error per failure mode.

use vstd::prelude::*;
use vstd::utf8::*;
use base64::Engine;
use crate::text::{all_ascii, ascii_chars, ascii_string, hex_digit_lower, lemma_ascii_encode, nibble_lower, str_eq};

verus! {

broadcast use vstd::seq_lib::group_seq_properties;

/// Declares `hex::FromHexError` so that codec errors can carry it.
#[verifier::external_type_specification]
#[verifier::external_body]
pub struct ExFromHexError(hex::FromHexError);

/// Declares `base64::DecodeError` so that codec errors can carry it.
#[verifier::external_type_specification]
#[verifier::external_body]
pub struct ExBase64DecodeError(base64::DecodeError);

/// Wire-format used to represent serial bytes inside an MCP tool string.
#[derive(Debug, Clone, Copy, PartialEq, Eq, Structural)]
pub enum Encoding {
    /// Raw UTF-8 text. Invalid UTF-8 bytes are replaced with the Unicode
    /// replacement character during encoding.
    Utf8,
    /// Like UTF-8, but ANSI/VT100 escape sequences are stripped during
    /// encoding.
    Text,
    /// Lowercase hex pairs. Decoder accepts upper or lower case and ignores
    /// spaces.
    Hex,
    /// Standard Base64. Decoder also accepts URL-safe / no-padding input.
    Base64,
}

/// Failure modes of [`decode`] and of parsing an encoding name.
#[derive(Debug)]
pub enum CodecError {
    UnknownEncoding(String),
    InvalidUtf8(std::string::FromUtf8Error),
    InvalidHex(hex::FromHexError),
    InvalidBase64(base64::DecodeError),
    HexOddLength,
}

// ---- outside calls ----------------------------------------------------------

/// Unicode `White_Space`, the whitespace `char::is_whitespace` and the
/// `str::trim` family remove.
pub open spec fn is_unicode_whitespace(c: char) -> bool {
    let v = c as u32;
    (0x09 <= v && v <= 0x0D) || v == 0x20 || v == 0x85 || v == 0xA0 || v == 0x1680 || (0x2000 <= v && v <= 0x200A)
        || v == 0x2028 || v == 0x2029 || v == 0x202F || v == 0x205F || v == 0x3000
}

/// `s` without its leading whitespace.
pub open spec fn trim_start_chars(s: Seq<char>) -> Seq<char>
    decreases s.len(),
{
    if s.len() > 0 && is_unicode_whitespace(s[0]) {
        trim_start_chars(s.skip(1))
    } else {
        s
    }
}

/// `s` without its trailing whitespace.
pub open spec fn str_trim_end(s: Seq<char>) -> Seq<char>
    decreases s.len(),
{
    if s.len() > 0 && is_unicode_whitespace(s.last()) {
        str_trim_end(s.drop_last())
    } else {
        s
    }
}

/// `s` without its leading and trailing whitespace.
pub open spec fn str_trim(s: Seq<char>) -> Seq<char> {
    str_trim_end(trim_start_chars(s))
}

/// Calls `str::trim`, documented to remove leading and trailing `White_Space`.
#[verifier::external_body]
pub(crate) fn trim_str(s: &str) -> (t: &str)
    ensures
        t@ == str_trim(s@),
{
    s.trim()
}

/// Calls `str::trim_end`, documented to remove trailing `White_Space`.
#[verifier::external_body]
pub(crate) fn trim_end_str(s: &str) -> (t: &str)
    ensures
        t@ == str_trim_end(s@),
{
    s.trim_end()
}

/// A string that starts and ends with a non-whitespace character, or is
/// empty, is its own trim.
pub proof fn lemma_trim_unchanged(s: Seq<char>)
    requires
        s.len() > 0 ==> !is_unicode_whitespace(s[0]) && !is_unicode_whitespace(s.last()),
    ensures
        str_trim(s) == s,
{
}

/// What `str::to_lowercase` returns for a string.
pub uninterp spec fn str_lowercase(s: Seq<char>) -> Seq<char>;

/// An ASCII character in lowercase: `A`-`Z` become `a`-`z`.
pub open spec fn ascii_lower(c: char) -> char {
    if 'A' <= c && c <= 'Z' {
        ((c as u32) + 32) as char
    } else {
        c
    }
}

/// ASCII text in lowercase.
#[verifier::opaque]
pub open spec fn ascii_lowercase(s: Seq<char>) -> Seq<char> {
    s.map_values(|c: char| ascii_lower(c))
}

/// Calls `str::to_lowercase`; the result is named by [`str_lowercase`].
/// On ASCII text, which the Unicode lowercase mapping maps letter by
/// letter, the contract also states the result: `A`-`Z` become `a`-`z`
/// and every other character stays.
#[verifier::external_body]
fn lowercase(s: &str) -> (t: String)
    ensures
        t@ == str_lowercase(s@),
        is_ascii_chars(s@) ==> t@ == ascii_lowercase(s@),
{
    s.to_lowercase()
}

/// What `String::from_utf8_lossy` produces for a byte sequence.
pub uninterp spec fn utf8_lossy(b: Seq<u8>) -> Seq<char>;

/// Calls `String::from_utf8_lossy`. Its documentation states that valid
/// UTF-8 input is returned unchanged; that is the one fact stated here
/// beyond the name.
#[verifier::external_body]
pub(crate) fn lossy_string(b: &[u8]) -> (s: String)
    ensures
        s@ == utf8_lossy(b@),
        valid_utf8(b@) ==> s@ == decode_utf8(b@),
{
    String::from_utf8_lossy(b).into_owned()
}

/// Value of an ASCII hex digit, as `hex::decode` reads it.
pub open spec fn hex_value(c: u8) -> Option<u8> {
    if 48 <= c <= 57 {
        Some((c - 48) as u8)
    } else if 65 <= c <= 70 {
        Some((c - 55) as u8)
    } else if 97 <= c <= 102 {
        Some((c - 87) as u8)
    } else {
        None
    }
}

/// `c` is an ASCII hex digit.
pub open spec fn is_hex_digit(c: u8) -> bool {
    hex_value(c) is Some
}

/// Bytes decoded from pairs of hex digits (high nibble first).
pub open spec fn spec_hex_pairs(s: Seq<u8>) -> Seq<u8>
    decreases s.len(),
{
    if s.len() < 2 {
        Seq::empty()
    } else {
        seq![(hex_value(s[0]).unwrap() * 16 + hex_value(s[1]).unwrap()) as u8] + spec_hex_pairs(s.skip(2))
    }
}

/// Calls `hex::decode`. Its source rejects odd lengths and non-hex-digit
/// bytes and otherwise decodes each pair of digits, high nibble first.
#[verifier::external_body]
fn hex_decode(data: &[u8]) -> (r: Result<Vec<u8>, hex::FromHexError>)
    ensures
        r is Ok <==> (data@.len() % 2 == 0 && forall|i: int| 0 <= i < data@.len() ==> is_hex_digit(#[trigger] data@[i])),
        r matches Ok(v) ==> v@ == spec_hex_pairs(data@),
{
    hex::decode(data)
}

/// What the standard padded Base64 engine decodes from a byte string,
/// `None` when it rejects the input.
pub uninterp spec fn base64_standard_decoded(input: Seq<u8>) -> Option<Seq<u8>>;

/// What the URL-safe, unpadded Base64 engine decodes from a byte string.
pub uninterp spec fn base64_url_nopad_decoded(input: Seq<u8>) -> Option<Seq<u8>>;

/// A character of the standard Base64 alphabet, or its padding.
pub open spec fn is_base64_char(c: char) -> bool {
    ('A' <= c && c <= 'Z') || ('a' <= c && c <= 'z') || ('0' <= c && c <= '9') || c == '+' || c == '/' || c == '='
}

/// The standard Base64 alphabet: `A-Z`, `a-z`, `0-9`, `+`, `/` for the
/// six-bit values 0 to 63.
pub open spec fn base64_digit(v: int) -> char {
    if v < 26 {
        (65 + v) as char
    } else if v < 52 {
        (97 + v - 26) as char
    } else if v < 62 {
        (48 + v - 52) as char
    } else if v == 62 {
        '+'
    } else {
        '/'
    }
}

/// Standard padded Base64 (RFC 4648): each group of three bytes becomes
/// four digits of six bits, high bits first; a final group of one or two
/// bytes is zero-filled and padded with `=` to four characters.
pub open spec fn base64_standard_encoded(input: Seq<u8>) -> Seq<char>
    decreases input.len(),
{
    if input.len() == 0 {
        Seq::empty()
    } else if input.len() == 1 {
        let b0 = input[0] as int;
        seq![base64_digit(b0 / 4), base64_digit((b0 % 4) * 16), '=', '=']
    } else if input.len() == 2 {
        let b0 = input[0] as int;
        let b1 = input[1] as int;
        seq![base64_digit(b0 / 4), base64_digit((b0 % 4) * 16 + b1 / 16), base64_digit((b1 % 16) * 4), '=']
    } else {
        let b0 = input[0] as int;
        let b1 = input[1] as int;
        let b2 = input[2] as int;
        seq![
            base64_digit(b0 / 4),
            base64_digit((b0 % 4) * 16 + b1 / 16),
            base64_digit((b1 % 16) * 4 + b2 / 64),
            base64_digit(b2 % 64),
        ] + base64_standard_encoded(input.skip(3))
    }
}

/// Standard Base64 output uses only the alphabet and `=`.
proof fn lemma_base64_alphabet(input: Seq<u8>)
    ensures
        forall|i: int| 0 <= i < base64_standard_encoded(input).len() ==> is_base64_char(
            #[trigger] base64_standard_encoded(input)[i],
        ),
    decreases input.len(),
{
    let out = base64_standard_encoded(input);
    if input.len() == 1 {
        let b0 = input[0] as int;
        lemma_base64_digit(b0 / 4);
        lemma_base64_digit((b0 % 4) * 16);
    } else if input.len() == 2 {
        let b0 = input[0] as int;
        let b1 = input[1] as int;
        lemma_base64_digit(b0 / 4);
        lemma_base64_digit((b0 % 4) * 16 + b1 / 16);
        lemma_base64_digit((b1 % 16) * 4);
    } else if input.len() >= 3 {
        let b0 = input[0] as int;
        let b1 = input[1] as int;
        let b2 = input[2] as int;
        lemma_base64_digit(b0 / 4);
        lemma_base64_digit((b0 % 4) * 16 + b1 / 16);
        lemma_base64_digit((b1 % 16) * 4 + b2 / 64);
        lemma_base64_digit(b2 % 64);
        lemma_base64_alphabet(input.skip(3));
        let rest = base64_standard_encoded(input.skip(3));
        assert forall|i: int| 0 <= i < out.len() implies is_base64_char(#[trigger] out[i]) by {
            if i >= 4 {
                assert(out[i] == rest[i - 4]);
            }
        }
    }
}

/// Each six-bit value maps to a character of the alphabet.
proof fn lemma_base64_digit(v: int)
    requires
        0 <= v < 64,
    ensures
        is_base64_char(base64_digit(v)),
{
}

/// Calls `general_purpose::STANDARD.decode`.
#[verifier::external_body]
fn base64_standard_decode(data: &[u8]) -> (r: Result<Vec<u8>, base64::DecodeError>)
    ensures
        r is Ok <==> base64_standard_decoded(data@) is Some,
        r matches Ok(v) ==> Some(v@) == base64_standard_decoded(data@),
{
    base64::engine::general_purpose::STANDARD.decode(data)
}

/// Calls `general_purpose::URL_SAFE_NO_PAD.decode`.
#[verifier::external_body]
fn base64_url_nopad_decode(data: &[u8]) -> (r: Result<Vec<u8>, base64::DecodeError>)
    ensures
        r is Ok <==> base64_url_nopad_decoded(data@) is Some,
        r matches Ok(v) ==> Some(v@) == base64_url_nopad_decoded(data@),
{
    base64::engine::general_purpose::URL_SAFE_NO_PAD.decode(data)
}

/// Calls `general_purpose::STANDARD.encode`. The engine panics when the
/// encoded length overflows `usize`, which the bound on the input excludes.
/// The contract states the standard padded encoding and that the standard
/// engine decodes what it encodes.
#[verifier::external_body]
fn base64_standard_encode(data: &[u8]) -> (s: String)
    requires
        data@.len() <= usize::MAX / 2,
    ensures
        s@ == base64_standard_encoded(data@),
        base64_standard_decoded(encode_utf8(s@)) == Some(data@),
{
    base64::engine::general_purpose::STANDARD.encode(data)
}

/// Calls the `Display` implementation of `hex::FromHexError`.
#[verifier::external_body]
fn hex_error_text(e: &hex::FromHexError) -> String {
    e.to_string()
}

/// Calls the `Display` implementation of `base64::DecodeError`.
#[verifier::external_body]
fn base64_error_text(e: &base64::DecodeError) -> String {
    e.to_string()
}

/// Calls the `Display` implementation of `FromUtf8Error`.
#[verifier::external_body]
fn utf8_error_text(e: &std::string::FromUtf8Error) -> String {
    e.to_string()
}

/// The human-readable description of a codec error.
pub fn codec_error_message(e: &CodecError) -> (s: String)
    ensures
        e matches CodecError::UnknownEncoding(name) ==> s@ == "Unknown encoding: "@ + name@,
        e matches CodecError::HexOddLength ==> s@ == "Hex string must have even length"@,
        e is InvalidUtf8 ==> "Invalid UTF-8: "@.is_prefix_of(s@),
        e is InvalidHex ==> "Invalid hex: "@.is_prefix_of(s@),
        e is InvalidBase64 ==> "Invalid base64: "@.is_prefix_of(s@),
{
    match e {
        CodecError::UnknownEncoding(name) => {
            let mut s = "Unknown encoding: ".to_owned();
            s.append(name.as_str());
            s
        },
        CodecError::InvalidUtf8(u) => {
            let mut s = "Invalid UTF-8: ".to_owned();
            let t = utf8_error_text(u);
            s.append(t.as_str());
            s
        },
        CodecError::InvalidHex(h) => {
            let mut s = "Invalid hex: ".to_owned();
            let t = hex_error_text(h);
            s.append(t.as_str());
            s
        },
        CodecError::InvalidBase64(b) => {
            let mut s = "Invalid base64: ".to_owned();
            let t = base64_error_text(b);
            s.append(t.as_str());
            s
        },
        CodecError::HexOddLength => "Hex string must have even length".to_owned(),
    }
}

// ---- encoding names ---------------------------------------------------------

/// The encoding named by an already lowercased name.
pub open spec fn spec_encoding_named(lower: Seq<char>) -> Option<Encoding> {
    if lower == "utf8"@ || lower == "utf-8"@ {
        Some(Encoding::Utf8)
    } else if lower == "text"@ {
        Some(Encoding::Text)
    } else if lower == "hex"@ {
        Some(Encoding::Hex)
    } else if lower == "base64"@ || lower == "b64"@ {
        Some(Encoding::Base64)
    } else {
        None
    }
}

impl Encoding {
    /// Parse an encoding name case-insensitively (`utf8`/`utf-8`, `text`,
    /// `hex`, `base64`/`b64`).
    pub fn parse_name(s: &str) -> (r: Result<Encoding, CodecError>)
        ensures
            match spec_encoding_named(str_lowercase(s@)) {
                Some(e) => r matches Ok(x) && x == e,
                None => r matches Err(CodecError::UnknownEncoding(name)) && name@ == s@,
            },
            is_ascii_chars(s@) ==> match spec_encoding_named(ascii_lowercase(s@)) {
                Some(e) => r matches Ok(x) && x == e,
                None => r is Err,
            },
    {
        let lower = lowercase(s);
        let l = lower.as_str();
        if str_eq(l, "utf8") || str_eq(l, "utf-8") {
            Ok(Encoding::Utf8)
        } else if str_eq(l, "text") {
            Ok(Encoding::Text)
        } else if str_eq(l, "hex") {
            Ok(Encoding::Hex)
        } else if str_eq(l, "base64") || str_eq(l, "b64") {
            Ok(Encoding::Base64)
        } else {
            Err(CodecError::UnknownEncoding(s.to_owned()))
        }
    }

    /// The canonical lowercase name of the encoding.
    pub fn name(&self) -> (s: &'static str)
        ensures
            s@ == match *self {
                Encoding::Utf8 => "utf8"@,
                Encoding::Text => "text"@,
                Encoding::Hex => "hex"@,
                Encoding::Base64 => "base64"@,
            },
    {
        match self {
            Encoding::Utf8 => "utf8",
            Encoding::Text => "text",
            Encoding::Hex => "hex",
            Encoding::Base64 => "base64",
        }
    }
}

impl std::str::FromStr for Encoding {
    type Err = CodecError;

    /// Same as [`Encoding::parse_name`].
    fn from_str(s: &str) -> (r: Result<Self, Self::Err>)
        ensures
            match spec_encoding_named(str_lowercase(s@)) {
                Some(e) => r matches Ok(x) && x == e,
                None => r matches Err(CodecError::UnknownEncoding(name)) && name@ == s@,
            },
            is_ascii_chars(s@) ==> match spec_encoding_named(ascii_lowercase(s@)) {
                Some(e) => r matches Ok(x) && x == e,
                None => r is Err,
            },
    {
        Encoding::parse_name(s)
    }
}

// ---- decode -----------------------------------------------------------------

/// `s` with every ASCII space removed.
pub open spec fn spec_remove_spaces(s: Seq<u8>) -> Seq<u8>
    decreases s.len(),
{
    if s.len() == 0 {
        Seq::empty()
    } else if s.last() == 32 {
        spec_remove_spaces(s.drop_last())
    } else {
        spec_remove_spaces(s.drop_last()).push(s.last())
    }
}

fn remove_spaces(s: &[u8]) -> (r: Vec<u8>)
    ensures
        r@ == spec_remove_spaces(s@),
{
    let mut out: Vec<u8> = Vec::new();
    let mut i: usize = 0;
    while i < s.len()
        invariant
            i <= s.len(),
            out@ == spec_remove_spaces(s@.take(i as int)),
        decreases s.len() - i,
    {
        assert(s@.take(i as int + 1).drop_last() =~= s@.take(i as int));
        if s[i] != 32 {
            out.push(s[i]);
        }
        i += 1;
    }
    assert(s@.take(i as int) =~= s@);
    out
}

/// Outcome of hex-decoding bytes that have already been trimmed.
pub open spec fn spec_decode_hex_bytes(b: Seq<u8>) -> Option<Seq<u8>> {
    let s = spec_remove_spaces(b);
    if s.len() % 2 == 0 && forall|i: int| 0 <= i < s.len() ==> is_hex_digit(#[trigger] s[i]) {
        Some(spec_hex_pairs(s))
    } else {
        None
    }
}

/// `r` is what hex-decoding the trimmed bytes `b` must give.
pub open spec fn hex_outcome(b: Seq<u8>, r: Result<Vec<u8>, CodecError>) -> bool {
    if spec_remove_spaces(b).len() % 2 == 1 {
        r matches Err(CodecError::HexOddLength)
    } else {
        match spec_decode_hex_bytes(b) {
            Some(v) => r matches Ok(x) && x@ == v,
            None => r matches Err(CodecError::InvalidHex(_)),
        }
    }
}

/// `r` is what Base64-decoding the trimmed bytes `b` must give.
pub open spec fn base64_outcome(b: Seq<u8>, r: Result<Vec<u8>, CodecError>) -> bool {
    match (base64_standard_decoded(b), base64_url_nopad_decoded(b)) {
        (Some(v), _) => r matches Ok(x) && x@ == v,
        (None, Some(v)) => r matches Ok(x) && x@ == v,
        (None, None) => r matches Err(CodecError::InvalidBase64(_)),
    }
}

/// Hex-decode already trimmed bytes: spaces are ignored, an odd digit count
/// is [`CodecError::HexOddLength`], a non-digit is [`CodecError::InvalidHex`].
pub fn decode_hex_bytes(b: &[u8]) -> (r: Result<Vec<u8>, CodecError>)
    ensures
        hex_outcome(b@, r),
{
    let stripped = remove_spaces(b);
    if stripped.len() % 2 != 0 {
        return Err(CodecError::HexOddLength);
    }
    match hex_decode(stripped.as_slice()) {
        Ok(v) => Ok(v),
        Err(e) => Err(CodecError::InvalidHex(e)),
    }
}

/// Base64-decode already trimmed bytes: standard padded alphabet first,
/// then URL-safe unpadded.
pub fn decode_base64_bytes(b: &[u8]) -> (r: Result<Vec<u8>, CodecError>)
    ensures
        base64_outcome(b@, r),
{
    match base64_standard_decode(b) {
        Ok(v) => Ok(v),
        Err(_) => match base64_url_nopad_decode(b) {
            Ok(v) => Ok(v),
            Err(e) => Err(CodecError::InvalidBase64(e)),
        },
    }
}

/// The bytes a string denotes under an encoding, `None` when decoding fails.
pub open spec fn spec_decoded(encoding: Encoding, s: Seq<char>) -> Option<Seq<u8>> {
    match encoding {
        Encoding::Utf8 | Encoding::Text => Some(str_bytes(s)),
        Encoding::Hex => {
            let b = str_bytes(str_trim(s));
            if spec_remove_spaces(b).len() % 2 == 1 {
                None
            } else {
                spec_decode_hex_bytes(b)
            }
        },
        Encoding::Base64 => {
            let b = str_bytes(str_trim(s));
            match base64_standard_decoded(b) {
                Some(v) => Some(v),
                None => base64_url_nopad_decoded(b),
            }
        },
    }
}

/// The UTF-8 bytes of a string.
pub open spec fn str_bytes(s: Seq<char>) -> Seq<u8> {
    encode_utf8(s)
}

/// Decode a tool-supplied string into raw bytes.
///
/// UTF-8 and text pass the string's bytes through; hex and Base64 first
/// trim surrounding whitespace.
pub fn decode(encoding: Encoding, input: &str) -> (r: Result<Vec<u8>, CodecError>)
    ensures
        (encoding == Encoding::Utf8 || encoding == Encoding::Text) ==> (r matches Ok(v) && v@ == str_bytes(input@)),
        encoding == Encoding::Hex ==> hex_outcome(str_bytes(str_trim(input@)), r),
        encoding == Encoding::Base64 ==> base64_outcome(str_bytes(str_trim(input@)), r),
        r is Ok <==> spec_decoded(encoding, input@) is Some,
        r matches Ok(v) ==> spec_decoded(encoding, input@) == Some(v@),
{
    match encoding {
        Encoding::Utf8 | Encoding::Text => Ok(vstd::slice::slice_to_vec(input.as_bytes())),
        Encoding::Hex => decode_hex_bytes(trim_str(input).as_bytes()),
        Encoding::Base64 => decode_base64_bytes(trim_str(input).as_bytes()),
    }
}

// ---- encode -----------------------------------------------------------------

/// Lowercase hex pairs of the bytes, separated by single spaces.
pub open spec fn spec_hex_spaced(b: Seq<u8>) -> Seq<u8>
    decreases b.len(),
{
    if b.len() == 0 {
        Seq::empty()
    } else if b.len() == 1 {
        seq![hex_digit_lower(b[0] / 16), hex_digit_lower(b[0] % 16)]
    } else {
        spec_hex_spaced(b.drop_last()) + seq![32u8, hex_digit_lower(b.last() / 16), hex_digit_lower(b.last() % 16)]
    }
}

proof fn lemma_hex_spaced_ascii(b: Seq<u8>)
    ensures
        all_ascii(spec_hex_spaced(b)),
    decreases b.len(),
{
    if b.len() > 1 {
        lemma_hex_spaced_ascii(b.drop_last());
    }
}

/// The lowercase, space-separated hex rendering of `bytes`, as bytes.
pub fn hex_spaced_bytes(bytes: &[u8]) -> (r: Vec<u8>)
    ensures
        r@ == spec_hex_spaced(bytes@),
{
    let mut v: Vec<u8> = Vec::new();
    let mut i: usize = 0;
    while i < bytes.len()
        invariant
            i <= bytes.len(),
            v@ == spec_hex_spaced(bytes@.take(i as int)),
        decreases bytes.len() - i,
    {
        assert(bytes@.take(i as int + 1).drop_last() =~= bytes@.take(i as int));
        let b = bytes[i];
        if i > 0 {
            v.push(32);
        }
        v.push(nibble_lower(b / 16));
        v.push(nibble_lower(b % 16));
        i += 1;
        assert(v@ =~= spec_hex_spaced(bytes@.take(i as int)));
    }
    assert(bytes@.take(i as int) =~= bytes@);
    v
}

/// Lowercase two-digit hexadecimal rendering of every byte, concatenated.
pub open spec fn spec_hex_lower(b: Seq<u8>) -> Seq<u8>
    decreases b.len(),
{
    if b.len() == 0 {
        Seq::empty()
    } else {
        spec_hex_lower(b.drop_last()) + seq![hex_digit_lower(b.last() / 16), hex_digit_lower(b.last() % 16)]
    }
}

proof fn lemma_hex_digit_lower(d: u8)
    requires
        d < 16,
    ensures
        is_hex_digit(hex_digit_lower(d)),
        hex_value(hex_digit_lower(d)) == Some(d),
        hex_digit_lower(d) != 32,
{
}

proof fn lemma_hex_pairs_concat(a: Seq<u8>, b: Seq<u8>)
    requires
        a.len() % 2 == 0,
    ensures
        spec_hex_pairs(a + b) == spec_hex_pairs(a) + spec_hex_pairs(b),
    decreases a.len(),
{
    if a.len() == 0 {
        assert(a + b =~= b);
        assert(Seq::<u8>::empty() + spec_hex_pairs(b) =~= spec_hex_pairs(b));
    } else {
        assert((a + b).skip(2) =~= a.skip(2) + b);
        assert((a + b)[0] == a[0] && (a + b)[1] == a[1]);
        lemma_hex_pairs_concat(a.skip(2), b);
    }
}

proof fn lemma_hex_lower_pairs(x: Seq<u8>)
    ensures
        spec_hex_lower(x).len() == 2 * x.len(),
        forall|i: int| 0 <= i < spec_hex_lower(x).len() ==> is_hex_digit(#[trigger] spec_hex_lower(x)[i]),
        spec_hex_pairs(spec_hex_lower(x)) == x,
    decreases x.len(),
{
    if x.len() > 0 {
        let y = x.drop_last();
        lemma_hex_lower_pairs(y);
        let b = x.last();
        lemma_hex_digit_lower(b / 16);
        lemma_hex_digit_lower(b % 16);
        let tail = seq![hex_digit_lower(b / 16), hex_digit_lower(b % 16)];
        lemma_hex_pairs_concat(spec_hex_lower(y), tail);
        assert(tail.skip(2) =~= Seq::<u8>::empty());
        assert(spec_hex_pairs(Seq::<u8>::empty()) =~= Seq::<u8>::empty());
        assert((b / 16) * 16 + b % 16 == b);
        assert(spec_hex_pairs(tail) =~= seq![b]);
        assert(y + seq![b] =~= x);
        let t = spec_hex_lower(x);
        assert forall|i: int| 0 <= i < t.len() implies is_hex_digit(#[trigger] t[i]) by {
            if i < spec_hex_lower(y).len() {
                assert(t[i] == spec_hex_lower(y)[i]);
            } else {
                assert(t[i] == tail[i - spec_hex_lower(y).len()]);
            }
        }
    } else {
        assert(spec_hex_lower(x) =~= Seq::<u8>::empty());
        assert(spec_hex_pairs(Seq::<u8>::empty()) =~= Seq::<u8>::empty());
    }
}

proof fn lemma_remove_spaces_concat(a: Seq<u8>, b: Seq<u8>)
    ensures
        spec_remove_spaces(a + b) == spec_remove_spaces(a) + spec_remove_spaces(b),
    decreases b.len(),
{
    if b.len() == 0 {
        assert(a + b =~= a);
        assert(spec_remove_spaces(a) + Seq::<u8>::empty() =~= spec_remove_spaces(a));
    } else {
        assert((a + b).drop_last() =~= a + b.drop_last());
        lemma_remove_spaces_concat(a, b.drop_last());
        if b.last() != 32 {
            assert(spec_remove_spaces(a) + spec_remove_spaces(b) =~= (spec_remove_spaces(a) + spec_remove_spaces(b.drop_last())).push(b.last()));
        }
    }
}

proof fn lemma_spaced_digits(x: Seq<u8>)
    ensures
        spec_remove_spaces(spec_hex_spaced(x)) == spec_hex_lower(x),
        x.len() > 0 ==> is_hex_digit(spec_hex_spaced(x)[0]) && is_hex_digit(spec_hex_spaced(x).last()),
    decreases x.len(),
{
    if x.len() == 0 {
        assert(spec_hex_lower(x) =~= Seq::<u8>::empty());
    } else {
        let b = x.last();
        lemma_hex_digit_lower(b / 16);
        lemma_hex_digit_lower(b % 16);
        let d1 = hex_digit_lower(b / 16);
        let d0 = hex_digit_lower(b % 16);
        if x.len() == 1 {
            let t = seq![d1, d0];
            assert(t.drop_last() =~= seq![d1]);
            assert(seq![d1].drop_last() =~= Seq::<u8>::empty());
            assert(spec_remove_spaces(Seq::<u8>::empty()) =~= Seq::<u8>::empty());
            assert(spec_remove_spaces(seq![d1]) =~= seq![d1]);
            assert(spec_remove_spaces(t) =~= t);
            assert(x.drop_last() =~= Seq::<u8>::empty());
            assert(spec_hex_lower(x.drop_last()) =~= Seq::<u8>::empty());
            assert(spec_hex_lower(x) =~= t);
            assert(x[0] == b);
        } else {
            let y = x.drop_last();
            lemma_spaced_digits(y);
            let tail = seq![32u8, d1, d0];
            lemma_remove_spaces_concat(spec_hex_spaced(y), tail);
            assert(tail.drop_last() =~= seq![32u8, d1]);
            assert(seq![32u8, d1].drop_last() =~= seq![32u8]);
            assert(seq![32u8].drop_last() =~= Seq::<u8>::empty());
            assert(spec_remove_spaces(Seq::<u8>::empty()) =~= Seq::<u8>::empty());
            assert(spec_remove_spaces(seq![32u8]) =~= Seq::<u8>::empty());
            assert(spec_remove_spaces(seq![32u8, d1]) =~= seq![d1]);
            assert(spec_remove_spaces(tail) =~= seq![d1, d0]);
            assert(spec_hex_spaced(x)[0] == spec_hex_spaced(y)[0]);
        }
    }
}

/// Decoding the hex text of `x` gives `x` back.
pub proof fn lemma_hex_roundtrip(x: Seq<u8>)
    ensures
        spec_decoded(Encoding::Hex, ascii_chars(spec_hex_spaced(x))) == Some(x),
{
    let h = spec_hex_spaced(x);
    let s = ascii_chars(h);
    lemma_hex_spaced_ascii(x);
    lemma_spaced_digits(x);
    lemma_hex_lower_pairs(x);
    if x.len() > 0 {
        assert(s[0] == (h[0] as char));
        assert(s.last() == (h.last() as char));
    }
    lemma_trim_unchanged(s);
    lemma_ascii_encode(h);
    let d = spec_hex_lower(x);
    assert(forall|i: int| 0 <= i < d.len() ==> is_hex_digit(#[trigger] d[i]));
}

/// Encode raw bytes into a string suitable for an MCP tool response.
///
/// UTF-8 and text replace invalid sequences with U+FFFD (text strips ANSI
/// escape sequences first); hex renders lowercase pairs separated by spaces;
/// Base64 uses the standard padded alphabet. Never fails.
pub fn encode(encoding: Encoding, bytes: &[u8]) -> (r: Result<String, CodecError>)
    requires
        bytes@.len() <= usize::MAX / 2,
    ensures
        r is Ok,
        encoding == Encoding::Utf8 ==> (r matches Ok(s) && s@ == utf8_lossy(bytes@)),
        encoding == Encoding::Text ==> (r matches Ok(s) && s@ == utf8_lossy(spec_strip_ansi(bytes@))),
        encoding == Encoding::Text && valid_utf8(bytes@) ==> (r matches Ok(s) && s@ == decode_utf8(
            spec_strip_ansi(bytes@),
        )),
        encoding == Encoding::Hex ==> (r matches Ok(s) && s@ == ascii_chars(spec_hex_spaced(bytes@))),
        encoding == Encoding::Base64 ==> (r matches Ok(s) && s@ == base64_standard_encoded(bytes@)),
        encoding == Encoding::Hex ==> (r matches Ok(s) && spec_decoded(Encoding::Hex, s@) == Some(bytes@)),
        encoding == Encoding::Base64 ==> (r matches Ok(s) && spec_decoded(Encoding::Base64, s@) == Some(bytes@)),
        encoding == Encoding::Utf8 && valid_utf8(bytes@) ==> (r matches Ok(s) && spec_decoded(Encoding::Utf8, s@) == Some(
            bytes@,
        )),
{
    match encoding {
        Encoding::Utf8 => {
            let s = lossy_string(bytes);
            proof {
                if valid_utf8(bytes@) {
                    decode_utf8_encode_utf8(bytes@);
                }
            }
            Ok(s)
        },
        Encoding::Text => {
            proof {
                if valid_utf8(bytes@) {
                    lemma_strip_ansi_valid_utf8(bytes@);
                }
            }
            let cleaned = strip_ansi_bytes(bytes);
            Ok(lossy_string(cleaned.as_slice()))
        },
        Encoding::Hex => {
            let v = hex_spaced_bytes(bytes);
            proof {
                lemma_hex_spaced_ascii(bytes@);
                lemma_hex_roundtrip(bytes@);
            }
            Ok(ascii_string(v))
        },
        Encoding::Base64 => {
            let s = base64_standard_encode(bytes);
            proof {
                lemma_base64_alphabet(bytes@);
                if s@.len() > 0 {
                    assert(is_base64_char(s@[0]) && is_base64_char(s@.last()));
                }
                lemma_trim_unchanged(s@);
            }
            Ok(s)
        },
    }
}

// ---- ANSI stripping ---------------------------------------------------------

/// `b` is a CSI final byte (0x40..=0x7E).
pub open spec fn is_csi_final(b: u8) -> bool {
    0x40 <= b <= 0x7E
}

/// Bytes consumed by a CSI body: up to and including the first final byte,
/// or everything when none follows.
pub open spec fn csi_len(t: Seq<u8>) -> nat
    decreases t.len(),
{
    if t.len() == 0 {
        0
    } else if is_csi_final(t[0]) {
        1
    } else {
        1 + csi_len(t.skip(1))
    }
}

/// Bytes consumed by an OSC body: up to and including BEL or `ESC \`, or
/// everything when neither follows.
pub open spec fn osc_len(t: Seq<u8>) -> nat
    decreases t.len(),
{
    if t.len() == 0 {
        0
    } else if t[0] == 0x07 {
        1
    } else if t[0] == 0x1B && t.len() > 1 && t[1] == 0x5C {
        2
    } else {
        1 + osc_len(t.skip(1))
    }
}

pub proof fn lemma_csi_len_bound(t: Seq<u8>)
    ensures
        csi_len(t) <= t.len(),
    decreases t.len(),
{
    if t.len() > 0 && !is_csi_final(t[0]) {
        lemma_csi_len_bound(t.skip(1));
    }
}

pub proof fn lemma_osc_len_bound(t: Seq<u8>)
    ensures
        osc_len(t) <= t.len(),
    decreases t.len(),
{
    if t.len() > 0 && t[0] != 0x07 && !(t[0] == 0x1B && t.len() > 1 && t[1] == 0x5C) {
        lemma_osc_len_bound(t.skip(1));
    }
}

/// `s` with ANSI/VT100 escape sequences removed: CSI (`ESC [` ... final
/// byte), OSC (`ESC ]` ... `BEL` or `ESC \`), and two-byte `ESC x` with
/// `x` in 0x30..=0x5F. Any other byte, including a lone `ESC`, is kept.
pub open spec fn spec_strip_ansi(s: Seq<u8>) -> Seq<u8>
    decreases s.len(),
{
    if s.len() == 0 {
        Seq::empty()
    } else if s[0] == 0x1B && s.len() > 1 {
        if s[1] == 0x5B {
            proof { lemma_csi_len_bound(s.skip(2)); }
            spec_strip_ansi(s.skip(2 + csi_len(s.skip(2)) as int))
        } else if s[1] == 0x5D {
            proof { lemma_osc_len_bound(s.skip(2)); }
            spec_strip_ansi(s.skip(2 + osc_len(s.skip(2)) as int))
        } else if 0x30 <= s[1] <= 0x5F {
            spec_strip_ansi(s.skip(2))
        } else {
            seq![0x1Bu8] + spec_strip_ansi(s.skip(1))
        }
    } else {
        seq![s[0]] + spec_strip_ansi(s.skip(1))
    }
}

/// End of the CSI body starting at `start`.
fn csi_end(bytes: &[u8], start: usize) -> (j: usize)
    requires
        start <= bytes.len(),
    ensures
        start <= j <= bytes.len(),
        csi_len(bytes@.skip(start as int)) == j - start,
{
    let n = bytes.len();
    let mut j = start;
    while j < n && !(bytes[j] >= 0x40 && bytes[j] <= 0x7E)
        invariant
            start <= j <= n,
            n == bytes.len(),
            csi_len(bytes@.skip(start as int)) == (j - start) + csi_len(bytes@.skip(j as int)),
        decreases n - j,
    {
        assert(bytes@.skip(j as int).skip(1) =~= bytes@.skip(j + 1));
        j += 1;
    }
    if j < n {
        assert(bytes@.skip(j as int)[0] == bytes@[j as int]);
        j += 1;
    }
    j
}

/// End of the OSC body starting at `start`.
#[verifier::rlimit(30)]
fn osc_end(bytes: &[u8], start: usize) -> (j: usize)
    requires
        start <= bytes.len(),
    ensures
        start <= j <= bytes.len(),
        osc_len(bytes@.skip(start as int)) == j - start,
{
    let n = bytes.len();
    let mut j = start;
    while j < n
        invariant
            start <= j <= n,
            n == bytes.len(),
            osc_len(bytes@.skip(start as int)) == (j - start) + osc_len(bytes@.skip(j as int)),
        decreases n - j,
    {
        let ghost t = bytes@.skip(j as int);
        assert(t[0] == bytes@[j as int]);
        if bytes[j] == 0x07 {
            return j + 1;
        }
        if bytes[j] == 0x1B && j + 1 < n && bytes[j + 1] == 0x5C {
            assert(t[1] == bytes@[j + 1]);
            return j + 2;
        }
        assert(t.skip(1) =~= bytes@.skip(j + 1));
        j += 1;
    }
    j
}

/// Strip ANSI/VT100 escape sequences from raw bytes (see
/// [`spec_strip_ansi`]). Non-ANSI bytes are passed through unchanged.
pub fn strip_ansi_bytes(bytes: &[u8]) -> (out: Vec<u8>)
    ensures
        out@ == spec_strip_ansi(bytes@),
{
    let mut out: Vec<u8> = Vec::new();
    let mut i: usize = 0;
    let n = bytes.len();
    while i < n
        invariant
            n == bytes.len(),
            i <= n,
            out@ + spec_strip_ansi(bytes@.skip(i as int)) == spec_strip_ansi(bytes@),
        decreases n - i,
    {
        let ghost s = bytes@.skip(i as int);
        assert(s[0] == bytes@[i as int]);
        if bytes[i] == 0x1B && i + 1 < n {
            let next = bytes[i + 1];
            assert(s[1] == next);
            if next == 0x5B {
                let j = csi_end(bytes, i + 2);
                proof {
                    assert(s.skip(2) =~= bytes@.skip(i + 2));
                    assert(bytes@.skip(j as int) =~= s.skip(2 + csi_len(s.skip(2)) as int));
                }
                i = j;
                continue;
            } else if next == 0x5D {
                let j = osc_end(bytes, i + 2);
                proof {
                    assert(s.skip(2) =~= bytes@.skip(i + 2));
                    assert(bytes@.skip(j as int) =~= s.skip(2 + osc_len(s.skip(2)) as int));
                }
                i = j;
                continue;
            } else if next >= 0x30 && next <= 0x5F {
                assert(bytes@.skip(i + 2) =~= s.skip(2));
                i += 2;
                continue;
            }
            out.push(0x1B);
            assert(bytes@.skip(i + 1) =~= s.skip(1));
            i += 1;
            continue;
        }
        out.push(bytes[i]);
        assert(bytes@.skip(i + 1) =~= s.skip(1));
        i += 1;
    }
    assert(bytes@.skip(n as int) =~= Seq::<u8>::empty());
    out
}

// ---- stripping keeps valid UTF-8 ----------------------------------------------------------

/// A CSI body ends at the end of the input or just after a final byte.
proof fn lemma_csi_len_end(t: Seq<u8>)
    ensures
        csi_len(t) <= t.len(),
        csi_len(t) == t.len() || (csi_len(t) >= 1 && is_csi_final(t[csi_len(t) - 1])),
    decreases t.len(),
{
    if t.len() > 0 && !is_csi_final(t[0]) {
        lemma_csi_len_end(t.skip(1));
    }
}

/// An OSC body ends at the end of the input or just after an ASCII byte.
proof fn lemma_osc_len_end(t: Seq<u8>)
    ensures
        osc_len(t) <= t.len(),
        osc_len(t) == t.len() || (osc_len(t) >= 1 && t[osc_len(t) - 1] < 0x80),
    decreases t.len(),
{
    if t.len() > 0 && t[0] != 0x07 && !(t[0] == 0x1B && t.len() > 1 && t[1] == 0x5C) {
        lemma_osc_len_end(t.skip(1));
    }
}

/// In valid UTF-8, the bytes after an ASCII byte are valid UTF-8.
proof fn lemma_valid_after_ascii(s: Seq<u8>, k: int)
    requires
        valid_utf8(s),
        0 <= k < s.len(),
        s[k] < 0x80,
    ensures
        valid_utf8(s.skip(k + 1)),
{
    is_char_boundary_iff_not_is_continuation_byte(s, k);
    valid_utf8_split(s, k);
    let t = s.subrange(k, s.len() as int);
    assert(t[0] == s[k]);
    assert(pop_first_scalar(t) =~= s.skip(k + 1));
}

/// Bytes other than ESC are copied through unchanged.
proof fn lemma_strip_copy(s: Seq<u8>, k: int)
    requires
        0 <= k <= s.len(),
        forall|i: int| 0 <= i < k ==> s[i] != 0x1B,
    ensures
        spec_strip_ansi(s) == s.take(k) + spec_strip_ansi(s.skip(k)),
    decreases k,
{
    if k == 0 {
        assert(s.take(0) + spec_strip_ansi(s.skip(0)) =~= spec_strip_ansi(s));
    } else {
        let t = s.skip(1);
        lemma_strip_copy(t, k - 1);
        assert(t.skip(k - 1) =~= s.skip(k));
        assert(seq![s[0]] + t.take(k - 1) =~= s.take(k));
        assert(spec_strip_ansi(s) == seq![s[0]] + spec_strip_ansi(t));
    }
}

/// The CSI body `q f` (parameter and intermediate bytes, then a final
/// byte) is consumed up to and including `f`, whatever follows.
proof fn lemma_csi_len_sequence(q: Seq<u8>, f: u8, s: Seq<u8>)
    requires
        forall|i: int| 0 <= i < q.len() ==> 0x20 <= #[trigger] q[i] <= 0x3F,
        0x40 <= f <= 0x7E,
    ensures
        csi_len(q + seq![f] + s) == q.len() + 1,
    decreases q.len(),
{
    let t = q + seq![f] + s;
    if q.len() == 0 {
        assert(t[0] == f);
    } else {
        assert(t[0] == q[0]);
        assert(t.skip(1) =~= q.skip(1) + seq![f] + s);
        lemma_csi_len_sequence(q.skip(1), f, s);
    }
}

/// A CSI escape sequence (`ESC [`, parameter bytes `0x30..=0x3F` and
/// intermediate bytes `0x20..=0x2F`, then a final byte `0x40..=0x7E`) is
/// removed whole: stripping it and what follows gives what stripping the
/// rest alone gives.
pub proof fn lemma_strip_csi(q: Seq<u8>, f: u8, s: Seq<u8>)
    requires
        forall|i: int| 0 <= i < q.len() ==> 0x20 <= #[trigger] q[i] <= 0x3F,
        0x40 <= f <= 0x7E,
    ensures
        spec_strip_ansi(seq![0x1Bu8, 0x5Bu8] + q + seq![f] + s) == spec_strip_ansi(s),
{
    let w = seq![0x1Bu8, 0x5Bu8] + q + seq![f] + s;
    assert(w.skip(2) =~= q + seq![f] + s);
    lemma_csi_len_sequence(q, f, s);
    assert(w.skip((2 + q.len() + 1) as int) =~= s);
}

/// An OSC escape sequence (`ESC ]`, a body without BEL or ESC, then BEL or
/// `ESC \`) is removed whole.
pub proof fn lemma_strip_osc(body: Seq<u8>, bel: bool, s: Seq<u8>)
    requires
        forall|i: int| 0 <= i < body.len() ==> #[trigger] body[i] != 0x07 && body[i] != 0x1B,
    ensures
        ({
            let term = if bel { seq![0x07u8] } else { seq![0x1Bu8, 0x5Cu8] };
            spec_strip_ansi(seq![0x1Bu8, 0x5Du8] + body + term + s) == spec_strip_ansi(s)
        }),
{
    let term = if bel { seq![0x07u8] } else { seq![0x1Bu8, 0x5Cu8] };
    let w = seq![0x1Bu8, 0x5Du8] + body + term + s;
    assert(w.skip(2) =~= body + term + s);
    lemma_osc_len_sequence(body, term, s);
    assert(w.skip((2 + body.len() + term.len()) as int) =~= s);
}

proof fn lemma_osc_len_sequence(body: Seq<u8>, term: Seq<u8>, s: Seq<u8>)
    requires
        forall|i: int| 0 <= i < body.len() ==> #[trigger] body[i] != 0x07 && body[i] != 0x1B,
        term == seq![0x07u8] || term == seq![0x1Bu8, 0x5Cu8],
    ensures
        osc_len(body + term + s) == body.len() + term.len(),
    decreases body.len(),
{
    let t = body + term + s;
    if body.len() == 0 {
        assert(t[0] == term[0]);
        if term.len() == 2 {
            assert(t[1] == term[1]);
        }
    } else {
        assert(t[0] == body[0]);
        assert(t.skip(1) =~= body.skip(1) + term + s);
        lemma_osc_len_sequence(body.skip(1), term, s);
    }
}

/// Bytes without ESC pass through stripping unchanged.
pub proof fn lemma_strip_plain(s: Seq<u8>)
    requires
        forall|i: int| 0 <= i < s.len() ==> #[trigger] s[i] != 0x1B,
    ensures
        spec_strip_ansi(s) == s,
{
    lemma_strip_copy(s, s.len() as int);
    assert(s.take(s.len() as int) =~= s);
    assert(s.skip(s.len() as int) =~= Seq::<u8>::empty());
    assert(s + Seq::<u8>::empty() =~= s);
}

/// Stripping escape sequences from valid UTF-8 leaves valid UTF-8: every
/// cut falls just after an ASCII byte or at the end.
pub proof fn lemma_strip_ansi_valid_utf8(s: Seq<u8>)
    requires
        valid_utf8(s),
    ensures
        valid_utf8(spec_strip_ansi(s)),
    decreases s.len(),
{
    if s.len() == 0 {
    } else if s[0] == 0x1B && s.len() > 1 {
        if s[1] == 0x5B {
            let t = s.skip(2);
            lemma_csi_len_end(t);
            let j = 2 + csi_len(t) as int;
            if j == s.len() {
                assert(s.skip(j) =~= Seq::<u8>::empty());
            } else {
                assert(s[j - 1] == t[csi_len(t) - 1]);
                lemma_valid_after_ascii(s, j - 1);
            }
            lemma_strip_ansi_valid_utf8(s.skip(j));
        } else if s[1] == 0x5D {
            let t = s.skip(2);
            lemma_osc_len_end(t);
            let j = 2 + osc_len(t) as int;
            if j == s.len() {
                assert(s.skip(j) =~= Seq::<u8>::empty());
            } else {
                assert(s[j - 1] == t[osc_len(t) - 1]);
                lemma_valid_after_ascii(s, j - 1);
            }
            lemma_strip_ansi_valid_utf8(s.skip(j));
        } else if 0x30 <= s[1] <= 0x5F {
            lemma_valid_after_ascii(s, 1);
            lemma_strip_ansi_valid_utf8(s.skip(2));
        } else {
            lemma_valid_after_ascii(s, 0);
            lemma_strip_ansi_valid_utf8(s.skip(1));
            let e = seq![0x1Bu8];
            assert(valid_utf8(e)) by {
                reveal_with_fuel(valid_utf8, 2);
                assert(pop_first_scalar(e) =~= Seq::<u8>::empty());
            }
            valid_utf8_concat(e, spec_strip_ansi(s.skip(1)));
        }
    } else if s[0] == 0x1B {
        assert(s.skip(1) =~= Seq::<u8>::empty());
        assert(spec_strip_ansi(s.skip(1)) == Seq::<u8>::empty());
        assert(spec_strip_ansi(s) == seq![s[0]] + spec_strip_ansi(s.skip(1)));
        assert(spec_strip_ansi(s) =~= s);
    } else {
        let l = length_of_first_scalar(s);
        assert(valid_first_scalar(s));
        assert(1 <= l <= s.len());
        assert forall|i: int| 0 <= i < l implies s[i] != 0x1B by {
            if i > 0 {
                assert(is_continuation_byte(s[i]));
            }
        }
        lemma_strip_copy(s, l);
        assert(is_char_boundary(s, l)) by {
            assert(pop_first_scalar(s) == s.subrange(l, s.len() as int));
            is_char_boundary_start_end_of_seq(pop_first_scalar(s));
        }
        valid_utf8_split(s, l);
        assert(s.take(l) =~= s.subrange(0, l));
        assert(s.skip(l) =~= s.subrange(l, s.len() as int));
        lemma_strip_ansi_valid_utf8(s.skip(l));
        valid_utf8_concat(s.take(l), spec_strip_ansi(s.skip(l)));
    }
}

/// Strip ANSI/VT100 escape sequences from a UTF-8 string; the cleaned bytes
/// are decoded lossily.
pub fn strip_ansi(s: &str) -> (r: String)
    ensures
        r@ == utf8_lossy(spec_strip_ansi(str_bytes(s@))),
        valid_utf8(spec_strip_ansi(str_bytes(s@))),
        r@ == decode_utf8(spec_strip_ansi(str_bytes(s@))),
{
    proof {
        encode_utf8_valid_utf8(s@);
        lemma_strip_ansi_valid_utf8(str_bytes(s@));
    }
    let cleaned = strip_ansi_bytes(s.as_bytes());
    lossy_string(cleaned.as_slice())
}

} // verus!
