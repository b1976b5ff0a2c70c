//! Frame-content parsers: AT commands, JSON lines, shell prompts, raw
//! passthrough, NMEA-0183 and Modbus ASCII, plus the parser factory.
//!
//! Each parser is specified by a spec function from the frame's bytes to a
//! [`ParsedModel`] (or a checksum error), and its `parse` is proved to
//! compute exactly that.

use vstd::prelude::*;
use crate::checksums::{lrc, spec_lrc, spec_xor, xor_checksum};
use crate::codec::{hex_value, is_hex_digit, is_unicode_whitespace, lossy_string, spec_hex_pairs, str_trim, str_trim_end, trim_end_str, trim_str, utf8_lossy};
use crate::text::{
    hex_upper, spec_hex_upper,
    all_ascii, ascii_chars, ascii_string, char_position, chars_end_with, chars_start_with, copy_chars, has_prefix,
    has_suffix, lemma_position, lemma_position_is, position_of, spec_position, str_chars, str_eq, string_of_chars,
};
use super::config::{ParserConfig, ParserType};
use crate::text::hex_digit_upper;
use super::codecs::{copy_range, hex2, hex_val, is_hex};

verus! {

broadcast use vstd::seq_lib::group_seq_properties;

/// Declares `serde_json::Value`, the payload of a JSON-lines frame.
#[verifier::external_type_specification]
#[verifier::external_body]
pub struct ExJsonValue(serde_json::Value);

/// Structured field interpretation of a frame.
#[derive(Debug)]
pub enum ParsedFrame {
    AtCommand {
        /// Result code, URC, data, or error.
        response_type: String,
        /// Command name (e.g. "CGREG").
        command: Option<String>,
        /// Status: "OK", "ERROR", "+CME ERROR ...".
        status: Option<String>,
        /// Response data fields.
        fields: Vec<String>,
    },
    Json(serde_json::Value),
    ShellPrompt { prompt: String, prompt_type: String },
    Raw,
    Nmea {
        /// Talker ID ("GP", ...); "P" for proprietary sentences.
        talker_id: String,
        /// Sentence type ("GGA", ...); the rest of a proprietary address.
        sentence_type: String,
        /// Comma-separated data fields.
        fields: Vec<String>,
        /// `Some(true)` valid, `Some(false)` invalid (not enforced), `None` absent.
        checksum_valid: Option<bool>,
    },
    ModbusAscii {
        /// Slave address byte.
        address: u8,
        /// Function code byte.
        function_code: u8,
        /// PDU payload after address and function code, without the LRC.
        data: Vec<u8>,
        /// LRC status, as for NMEA.
        checksum_valid: Option<bool>,
    },
}

/// What a [`ParsedFrame`] says, with text as characters. A JSON frame
/// stands for the object that `serde_json` parsed from the frame's bytes.
pub enum ParsedModel {
    AtCommand {
        response_type: Seq<char>,
        command: Option<Seq<char>>,
        status: Option<Seq<char>>,
        fields: Seq<Seq<char>>,
    },
    Json(serde_json::Value),
    ShellPrompt { prompt: Seq<char>, prompt_type: Seq<char> },
    Raw,
    Nmea {
        talker_id: Seq<char>,
        sentence_type: Seq<char>,
        fields: Seq<Seq<char>>,
        checksum_valid: Option<bool>,
    },
    ModbusAscii { address: u8, function_code: u8, data: Seq<u8>, checksum_valid: Option<bool> },
}

pub open spec fn opt_text(o: Option<String>) -> Option<Seq<char>> {
    match o {
        Some(s) => Some(s@),
        None => None,
    }
}

pub open spec fn texts(v: Seq<String>) -> Seq<Seq<char>> {
    v.map_values(|s: String| s@)
}

impl View for ParsedFrame {
    type V = ParsedModel;

    open spec fn view(&self) -> ParsedModel {
        match self {
            ParsedFrame::AtCommand { response_type, command, status, fields } => ParsedModel::AtCommand {
                response_type: response_type@,
                command: opt_text(*command),
                status: opt_text(*status),
                fields: texts(fields@),
            },
            ParsedFrame::Json(v) => ParsedModel::Json(*v),
            ParsedFrame::ShellPrompt { prompt, prompt_type } => ParsedModel::ShellPrompt {
                prompt: prompt@,
                prompt_type: prompt_type@,
            },
            ParsedFrame::Raw => ParsedModel::Raw,
            ParsedFrame::Nmea { talker_id, sentence_type, fields, checksum_valid } => ParsedModel::Nmea {
                talker_id: talker_id@,
                sentence_type: sentence_type@,
                fields: texts(fields@),
                checksum_valid: *checksum_valid,
            },
            ParsedFrame::ModbusAscii { address, function_code, data, checksum_valid } => ParsedModel::ModbusAscii {
                address: *address,
                function_code: *function_code,
                data: data@,
                checksum_valid: *checksum_valid,
            },
        }
    }
}

/// Frame decoding errors: stream corruption (SLIP, COBS) or a protocol
/// checksum that does not match its recomputed value.
#[derive(Debug, Clone)]
pub enum FrameDecodeError {
    /// SLIP `ESC` (0xDB) followed by a byte other than `ESC_END`/`ESC_ESC`.
    SlipInvalidEscape(u8),
    /// COBS invalid code byte.
    CobsInvalidCode(u8),
    /// `expected` is the recomputed checksum; `received` the frame's value.
    ChecksumMismatch { expected: Vec<u8>, received: Vec<u8> },
}

/// What a [`FrameDecodeError`] says.
pub enum DecodeErrorModel {
    SlipInvalidEscape(u8),
    CobsInvalidCode(u8),
    ChecksumMismatch { expected: Seq<u8>, received: Seq<u8> },
}

impl View for FrameDecodeError {
    type V = DecodeErrorModel;

    open spec fn view(&self) -> DecodeErrorModel {
        match self {
            FrameDecodeError::SlipInvalidEscape(b) => DecodeErrorModel::SlipInvalidEscape(*b),
            FrameDecodeError::CobsInvalidCode(b) => DecodeErrorModel::CobsInvalidCode(*b),
            FrameDecodeError::ChecksumMismatch { expected, received } => DecodeErrorModel::ChecksumMismatch {
                expected: expected@,
                received: received@,
            },
        }
    }
}

/// The description of a decoding error.
pub open spec fn spec_error_message(e: DecodeErrorModel) -> Seq<char> {
    match e {
        DecodeErrorModel::SlipInvalidEscape(b) => "SLIP framing error: invalid escape byte 0x"@ + ascii_chars(
            spec_hex_upper(seq![b]),
        ),
        DecodeErrorModel::CobsInvalidCode(b) => "COBS framing error: invalid code byte 0x"@ + ascii_chars(
            spec_hex_upper(seq![b]),
        ),
        DecodeErrorModel::ChecksumMismatch { expected, received } => "checksum mismatch: expected "@ + ascii_chars(
            spec_hex_upper(expected),
        ) + ", received "@ + ascii_chars(spec_hex_upper(received)),
    }
}

impl FrameDecodeError {
    /// The human-readable description of the error.
    pub fn message(&self) -> (s: String)
        ensures
            s@ == spec_error_message(self@),
    {
        match self {
            FrameDecodeError::SlipInvalidEscape(b) => {
                let mut s = "SLIP framing error: invalid escape byte 0x".to_owned();
                let mut one: Vec<u8> = Vec::new();
                one.push(*b);
                assert(one@ =~= seq![*b]);
                let h = hex_upper(one.as_slice());
                s.append(h.as_str());
                s
            },
            FrameDecodeError::CobsInvalidCode(b) => {
                let mut s = "COBS framing error: invalid code byte 0x".to_owned();
                let mut one: Vec<u8> = Vec::new();
                one.push(*b);
                assert(one@ =~= seq![*b]);
                let h = hex_upper(one.as_slice());
                s.append(h.as_str());
                s
            },
            FrameDecodeError::ChecksumMismatch { expected, received } => {
                let mut s = "checksum mismatch: expected ".to_owned();
                let e = hex_upper(expected.as_slice());
                s.append(e.as_str());
                s.append(", received ");
                let r = hex_upper(received.as_slice());
                s.append(r.as_str());
                s
            },
        }
    }
}

/// The meaning of a parser's result.
pub open spec fn parse_view(r: Result<ParsedFrame, FrameDecodeError>) -> Result<ParsedModel, DecodeErrorModel> {
    match r {
        Ok(p) => Ok(p@),
        Err(e) => Err(e@),
    }
}

// ---- generic sequence splitting ---------------------------------------------

/// `s` split at every occurrence of `sep` (as `str::split` does): one
/// more piece than there are separators.
#[verifier::opaque]
pub open spec fn split_seq<A>(s: Seq<A>, sep: A) -> Seq<Seq<A>>
    decreases s.len(),
{
    match spec_position(s, sep) {
        Some(p) => if 0 <= p < s.len() {
            seq![s.take(p)] + split_seq(s.skip(p + 1), sep)
        } else {
            seq![s]
        },
        None => seq![s],
    }
}

proof fn lemma_split_step<A>(s: Seq<A>, sep: A, start: int, i: int)
    requires
        0 <= start <= i < s.len(),
        s[i] == sep,
        forall|j: int| start <= j < i ==> s[j] != sep,
    ensures
        split_seq(s.skip(start), sep) == seq![s.subrange(start, i)] + split_seq(s.skip(i + 1), sep),
{
    reveal(split_seq);
    let t = s.skip(start);
    lemma_position_is(t, sep, i - start);
    assert(t.skip(i - start + 1) =~= s.skip(i + 1));
    assert(t.take(i - start) =~= s.subrange(start, i));
}

proof fn lemma_split_last<A>(s: Seq<A>, sep: A, start: int)
    requires
        0 <= start <= s.len(),
        forall|j: int| start <= j < s.len() ==> s[j] != sep,
    ensures
        split_seq(s.skip(start), sep) == seq![s.skip(start)],
{
    reveal(split_seq);
    let t = s.skip(start);
    lemma_position(t, sep);
    if let Some(p) = spec_position(t, sep) {
        assert(t[p] == s[start + p]);
    }
}

/// Every element of every piece of `split_seq(s, sep)` is an element of `s`.
pub proof fn lemma_split_elements<A>(s: Seq<A>, sep: A)
    ensures
        forall|k: int, i: int|
            0 <= k < split_seq(s, sep).len() && 0 <= i < split_seq(s, sep)[k].len()
                ==> s.contains(#[trigger] split_seq(s, sep)[k][i]),
    decreases s.len(),
{
    reveal(split_seq);
    let r = split_seq(s, sep);
    match spec_position(s, sep) {
        Some(p) => {
            if 0 <= p < s.len() {
                lemma_split_elements(s.skip(p + 1), sep);
                let rest = split_seq(s.skip(p + 1), sep);
                assert forall|k: int, i: int| 0 <= k < r.len() && 0 <= i < r[k].len() implies s.contains(#[trigger] r[k][i]) by {
                    if k == 0 {
                        assert(r[k][i] == s[i]);
                    } else {
                        assert(r[k] == rest[k - 1]);
                        assert(s.skip(p + 1).contains(rest[k - 1][i]));
                        let j = choose|j: int| 0 <= j < s.skip(p + 1).len() && #[trigger] s.skip(p + 1)[j] == rest[k - 1][i];
                        assert(s[p + 1 + j] == r[k][i]);
                    }
                }
            } else {
                assert forall|k: int, i: int| 0 <= k < r.len() && 0 <= i < r[k].len() implies s.contains(#[trigger] r[k][i]) by {
                    assert(r[k][i] == s[i]);
                }
            }
        },
        None => {
            assert forall|k: int, i: int| 0 <= k < r.len() && 0 <= i < r[k].len() implies s.contains(#[trigger] r[k][i]) by {
                assert(r[k][i] == s[i]);
            }
        },
    }
}

pub open spec fn byte_pieces(v: Seq<Vec<u8>>) -> Seq<Seq<u8>> {
    v.map_values(|x: Vec<u8>| x@)
}

/// Split `s` at every `sep` byte.
pub fn split_bytes(s: &[u8], sep: u8) -> (r: Vec<Vec<u8>>)
    ensures
        byte_pieces(r@) == split_seq(s@, sep),
{
    let mut out: Vec<Vec<u8>> = Vec::new();
    let mut start: usize = 0;
    let mut i: usize = 0;
    while i < s.len()
        invariant
            start <= i <= s.len(),
            forall|j: int| start <= j < i ==> s@[j] != sep,
            split_seq(s@, sep) == byte_pieces(out@) + split_seq(s@.skip(start as int), sep),
        decreases s.len() - i,
    {
        if s[i] == sep {
            proof {
                lemma_split_step(s@, sep, start as int, i as int);
            }
            let piece = copy_range(s, start, i);
            let ghost before = out@;
            out.push(piece);
            assert(byte_pieces(out@) =~= byte_pieces(before) + seq![s@.subrange(start as int, i as int)]);
            start = i + 1;
        }
        i += 1;
    }
    proof {
        lemma_split_last(s@, sep, start as int);
    }
    let piece = copy_range(s, start, s.len());
    let ghost before = out@;
    out.push(piece);
    assert(s@.subrange(start as int, s@.len() as int) =~= s@.skip(start as int));
    assert(byte_pieces(out@) =~= byte_pieces(before) + seq![s@.skip(start as int)]);
    out
}

// ---- shared helpers ------------------------------------------------------------

/// `c` without a leading byte that is one of `markers`.
pub open spec fn strip_lead(c: Seq<u8>, markers: Seq<u8>) -> Seq<u8> {
    if c.len() > 0 && markers.contains(c[0]) {
        c.skip(1)
    } else {
        c
    }
}

/// `c` without a trailing `\r\n` or bare `\n`.
pub open spec fn strip_newline(c: Seq<u8>) -> Seq<u8> {
    if c.len() >= 2 && c[c.len() - 2] == 0x0D && c[c.len() - 1] == 0x0A {
        c.take(c.len() - 2)
    } else if c.len() >= 1 && c[c.len() - 1] == 0x0A {
        c.take(c.len() - 1)
    } else {
        c
    }
}

/// Strip a trailing `\r\n` or bare `\n` from `content` in place (defensive:
/// handles frames where the end marker was not stripped by the framing layer).
pub fn strip_trailing_newline(content: &mut Vec<u8>)
    ensures
        final(content)@ == strip_newline(old(content)@),
{
    let n = content.len();
    if n >= 2 && content[n - 2] == 0x0D && content[n - 1] == 0x0A {
        content.truncate(n - 2);
    } else if n >= 1 && content[n - 1] == 0x0A {
        content.truncate(n - 1);
    }
}

/// Strip a leading byte if it matches any of `markers` (defensive: handles
/// frames where the start marker was not stripped by the framing layer).
pub fn strip_leading_if_any(content: &mut Vec<u8>, markers: &[u8])
    ensures
        final(content)@ == strip_lead(old(content)@, markers@),
{
    if content.len() > 0 {
        let first = content[0];
        let mut i: usize = 0;
        while i < markers.len()
            invariant
                i <= markers.len(),
                content@ == old(content)@,
                content@.len() > 0,
                first == content@[0],
                forall|j: int| 0 <= j < i ==> markers@[j] != first,
            decreases markers.len() - i,
        {
            if markers[i] == first {
                assert(markers@.contains(first));
                content.remove(0);
                assert(content@ =~= old(content)@.skip(1));
                return;
            }
            i += 1;
        }
        assert(!markers@.contains(first));
    }
}

/// Result of comparing a recomputed checksum with the received one.
pub open spec fn spec_check(validate: bool, computed: u8, received: Option<u8>, raw: Seq<u8>) -> Result<Option<bool>, DecodeErrorModel> {
    if received == Some(computed) {
        Ok(Some(true))
    } else if validate {
        Err(DecodeErrorModel::ChecksumMismatch { expected: seq![computed], received: raw })
    } else {
        Ok(Some(false))
    }
}

/// Shared checksum-validate ladder for NMEA XOR and Modbus ASCII LRC.
///
/// `Ok(Some(true))` if computed == received, `Ok(Some(false))` if validate
/// is false and they differ, `Err(ChecksumMismatch)` if validate is true and
/// they differ. `received` is `None` when the received checksum is
/// unparseable or too short.
pub fn check_checksum(validate: bool, computed_byte: u8, received: Option<u8>, received_raw: Vec<u8>) -> (r: Result<Option<bool>, FrameDecodeError>)
    ensures
        match r {
            Ok(v) => spec_check(validate, computed_byte, received, received_raw@) == Ok::<Option<bool>, DecodeErrorModel>(v),
            Err(e) => spec_check(validate, computed_byte, received, received_raw@) == Err::<Option<bool>, DecodeErrorModel>(e@),
        },
{
    let matched = match received {
        Some(r) => r == computed_byte,
        None => false,
    };
    if matched {
        Ok(Some(true))
    } else if validate {
        let mut expected: Vec<u8> = Vec::new();
        expected.push(computed_byte);
        assert(expected@ =~= seq![computed_byte]);
        Err(FrameDecodeError::ChecksumMismatch { expected, received: received_raw })
    } else {
        Ok(Some(false))
    }
}

fn is_all_ascii(b: &[u8]) -> (r: bool)
    ensures
        r == all_ascii(b@),
{
    let mut i: usize = 0;
    while i < b.len()
        invariant
            i <= b.len(),
            forall|j: int| 0 <= j < i ==> b@[j] < 128,
        decreases b.len() - i,
    {
        if b[i] >= 128 {
            return false;
        }
        i += 1;
    }
    true
}

proof fn lemma_ascii_range(s: Seq<u8>, lo: int, hi: int)
    requires
        all_ascii(s),
        0 <= lo <= hi <= s.len(),
    ensures
        all_ascii(s.subrange(lo, hi)),
{
    assert forall|i: int| 0 <= i < hi - lo implies s.subrange(lo, hi)[i] < 128 by {
        assert(s.subrange(lo, hi)[i] == s[lo + i]);
    }
}

/// The strings of ASCII pieces.
fn ascii_strings(pieces: &Vec<Vec<u8>>) -> (r: Vec<String>)
    requires
        forall|k: int| 0 <= k < pieces@.len() ==> all_ascii(#[trigger] pieces@[k]@),
    ensures
        texts(r@) == byte_pieces(pieces@).map_values(|p: Seq<u8>| ascii_chars(p)),
{
    let mut out: Vec<String> = Vec::new();
    let mut k: usize = 0;
    while k < pieces.len()
        invariant
            k <= pieces@.len(),
            forall|j: int| 0 <= j < pieces@.len() ==> all_ascii(#[trigger] pieces@[j]@),
            texts(out@) == byte_pieces(pieces@.take(k as int)).map_values(|p: Seq<u8>| ascii_chars(p)),
        decreases pieces@.len() - k,
    {
        let piece: &Vec<u8> = &pieces[k];
        let v = copy_range(piece.as_slice(), 0, piece.len());
        assert(v@ =~= pieces@[k as int]@);
        let ghost before = out@;
        let s = ascii_string(v);
        out.push(s);
        k += 1;
        assert(texts(out@) =~= texts(before).push(s@));
        assert(byte_pieces(pieces@.take(k as int)) =~= byte_pieces(pieces@.take(k - 1)).push(pieces@[k - 1]@));
        assert(byte_pieces(pieces@.take(k as int)).map_values(|p: Seq<u8>| ascii_chars(p))
            =~= byte_pieces(pieces@.take(k - 1)).map_values(|p: Seq<u8>| ascii_chars(p)).push(ascii_chars(pieces@[k - 1]@)));
    }
    assert(pieces@.take(k as int) =~= pieces@);
    out
}

// ---- NMEA-0183 -------------------------------------------------------------------

/// What `u8::from_str_radix(.., 16)` gives for a two-byte string: an
/// optional `+` sign followed by digits, or two hex digits.
pub open spec fn radix16_pair(a: u8, b: u8) -> Option<u8> {
    if a == 0x2B {
        hex_value(b)
    } else if is_hex_digit(a) && is_hex_digit(b) {
        Some((hex_value(a).unwrap() * 16 + hex_value(b).unwrap()) as u8)
    } else {
        None
    }
}

fn parse_radix16_pair(a: u8, b: u8) -> (r: Option<u8>)
    ensures
        r == radix16_pair(a, b),
{
    if a == 0x2B {
        if is_hex(b) {
            Some(hex_val(b))
        } else {
            None
        }
    } else if is_hex(a) && is_hex(b) {
        Some(hex_val(a) * 16 + hex_val(b))
    } else {
        None
    }
}

pub open spec fn opt_bytes(o: Option<Vec<u8>>) -> Option<Seq<u8>> {
    match o {
        Some(v) => Some(v@),
        None => None,
    }
}

/// Checksum status of an NMEA sentence body with the text after `*`.
pub open spec fn nmea_checksum_status(validate: bool, body: Seq<u8>, hex: Option<Seq<u8>>) -> Result<Option<bool>, DecodeErrorModel> {
    match hex {
        None => Ok(None),
        Some(h) => {
            let received = if h.len() >= 2 { radix16_pair(h[0], h[1]) } else { None };
            let raw = match received {
                Some(v) => seq![v],
                None => h,
            };
            spec_check(validate, spec_xor(body), received, raw)
        },
    }
}

/// Talker ID and sentence type of an NMEA address field.
pub open spec fn nmea_address(a: Seq<u8>) -> (Seq<u8>, Seq<u8>) {
    if a.len() >= 2 && a[0] == 0x50 {
        (seq![0x50u8], a.skip(1))
    } else if a.len() >= 2 {
        (a.take(2), a.skip(2))
    } else {
        (a, Seq::empty())
    }
}

/// The parsed fields of an ASCII NMEA sentence body.
#[verifier::opaque]
pub open spec fn nmea_model(body: Seq<u8>, checksum_valid: Option<bool>) -> ParsedModel {
    let (address, fields_part) = match spec_position(body, 0x2Cu8) {
        Some(c) => (body.take(c), body.skip(c + 1)),
        None => (body, Seq::empty()),
    };
    let (talker, stype) = nmea_address(address);
    ParsedModel::Nmea {
        talker_id: ascii_chars(talker),
        sentence_type: ascii_chars(stype),
        fields: if fields_part.len() == 0 {
            Seq::empty()
        } else {
            split_seq(fields_part, 0x2Cu8).map_values(|p: Seq<u8>| ascii_chars(p))
        },
        checksum_valid,
    }
}

/// The sentence body before `*` and the text after it, if any.
pub open spec fn nmea_split(content: Seq<u8>) -> (Seq<u8>, Option<Seq<u8>>) {
    match spec_position(content, 0x2Au8) {
        Some(p) => (content.take(p), Some(content.skip(p + 1))),
        None => (content, None),
    }
}

/// A split sentence: its checksum status, then its fields when ASCII.
pub open spec fn nmea_finish(validate: bool, body: Seq<u8>, hex: Option<Seq<u8>>) -> Result<ParsedModel, DecodeErrorModel> {
    match nmea_checksum_status(validate, body, hex) {
        Err(e) => Err(e),
        Ok(cv) => if !all_ascii(body) {
            Ok(ParsedModel::Raw)
        } else {
            Ok(nmea_model(body, cv))
        },
    }
}

/// A sentence without its markers: raw without a comma, else split and finished.
pub open spec fn nmea_parse_content(validate: bool, content: Seq<u8>) -> Result<ParsedModel, DecodeErrorModel> {
    if spec_position(content, 0x2Cu8) is None {
        Ok(ParsedModel::Raw)
    } else {
        nmea_finish(validate, nmea_split(content).0, nmea_split(content).1)
    }
}

/// NMEA-0183 parsing: optional `$`/`!` and line ending stripped; a frame
/// without a comma is raw; the checksum after `*` is checked against the
/// XOR of the body; a non-ASCII body is raw.
#[verifier::opaque]
pub open spec fn spec_nmea_parse(validate: bool, data: Seq<u8>) -> Result<ParsedModel, DecodeErrorModel> {
    nmea_parse_content(validate, strip_newline(strip_lead(data, seq![0x24u8, 0x21u8])))
}

/// NMEA-0183 sentence parser.
pub struct NmeaParser {
    pub validate: bool,
}

impl NmeaParser {
    fn parse_body(body: Vec<u8>, checksum_valid: Option<bool>) -> (r: ParsedFrame)
        requires
            all_ascii(body@),
        ensures
            r@ == nmea_model(body@, checksum_valid),
    {
        reveal(nmea_model);
        let (address, fields_part) = match position_of(&body, 0x2C) {
            Some(c) => {
                proof {
                    lemma_ascii_range(body@, 0, c as int);
                    lemma_ascii_range(body@, c + 1, body@.len() as int);
                }
                (copy_range(&body, 0, c), copy_range(&body, c + 1, body.len()))
            },
            None => (body, Vec::new()),
        };
        let n = address.len();
        let (talker, stype) = if n >= 2 && address[0] == 0x50 {
            let mut t: Vec<u8> = Vec::new();
            t.push(0x50);
            assert(t@ =~= seq![0x50u8]);
            proof { lemma_ascii_range(address@, 1, n as int); }
            (t, copy_range(&address, 1, n))
        } else if n >= 2 {
            proof {
                lemma_ascii_range(address@, 0, 2);
                lemma_ascii_range(address@, 2, n as int);
            }
            (copy_range(&address, 0, 2), copy_range(&address, 2, n))
        } else {
            (address, Vec::new())
        };
        assert(stype@.len() == 0 ==> all_ascii(stype@));
        let fields: Vec<String> = if fields_part.len() == 0 {
            Vec::new()
        } else {
            let pieces = split_bytes(&fields_part, 0x2C);
            proof {
                lemma_split_elements(fields_part@, 0x2Cu8);
                assert forall|k: int| 0 <= k < pieces@.len() implies all_ascii(#[trigger] pieces@[k]@) by {
                    assert(pieces@[k]@ == split_seq(fields_part@, 0x2Cu8)[k]);
                    assert forall|i: int| 0 <= i < pieces@[k]@.len() implies pieces@[k]@[i] < 128 by {
                        assert(fields_part@.contains(split_seq(fields_part@, 0x2Cu8)[k][i]));
                    }
                }
            }
            let f = ascii_strings(&pieces);
            f
        };
        let talker_id = ascii_string(talker);
        let sentence_type = ascii_string(stype);
        let r = ParsedFrame::Nmea { talker_id, sentence_type, fields, checksum_valid };
        proof {
            if fields_part@.len() == 0 {
                assert(texts(fields@) =~= Seq::<Seq<char>>::empty());
            }
        }
        r
    }

    fn checksum_status(validate: bool, body: &[u8], checksum_hex: Option<Vec<u8>>) -> (r: Result<Option<bool>, FrameDecodeError>)
        ensures
            match r {
                Ok(v) => nmea_checksum_status(validate, body@, opt_bytes(checksum_hex)) == Ok::<Option<bool>, DecodeErrorModel>(v),
                Err(e) => nmea_checksum_status(validate, body@, opt_bytes(checksum_hex)) == Err::<Option<bool>, DecodeErrorModel>(e@),
            },
    {
        match checksum_hex {
            Some(hex) => {
                let computed = xor_checksum(body);
                let received = if hex.len() >= 2 {
                    parse_radix16_pair(hex[0], hex[1])
                } else {
                    None
                };
                let raw = match received {
                    Some(v) => {
                        let mut one: Vec<u8> = Vec::new();
                        one.push(v);
                        assert(one@ =~= seq![v]);
                        one
                    },
                    None => hex,
                };
                check_checksum(validate, computed, received, raw)
            },
            None => Ok(None),
        }
    }

    fn split_checksum(content: Vec<u8>) -> (r: (Vec<u8>, Option<Vec<u8>>))
        ensures
            (r.0@, opt_bytes(r.1)) == nmea_split(content@),
    {
        match position_of(&content, 0x2A) {
            Some(p) => {
                let b = copy_range(&content, 0, p);
                let h = copy_range(&content, p + 1, content.len());
                assert(b@ =~= content@.take(p as int));
                assert(h@ =~= content@.skip(p + 1));
                (b, Some(h))
            },
            None => (content, None),
        }
    }

    pub fn parse(&self, data: &[u8]) -> (r: Result<ParsedFrame, FrameDecodeError>)
        ensures
            parse_view(r) == spec_nmea_parse(self.validate, data@),
    {
        reveal(spec_nmea_parse);
        let mut content = copy_range(data, 0, data.len());
        assert(content@ =~= data@);
        let mut markers: Vec<u8> = Vec::new();
        markers.push(0x24);
        markers.push(0x21);
        assert(markers@ =~= seq![0x24u8, 0x21u8]);
        strip_leading_if_any(&mut content, markers.as_slice());
        strip_trailing_newline(&mut content);
        if position_of(&content, 0x2C).is_none() {
            return Ok(ParsedFrame::Raw);
        }
        let (body, checksum_hex) = Self::split_checksum(content);
        let checksum_valid = match Self::checksum_status(self.validate, &body, checksum_hex) {
            Ok(v) => v,
            Err(e) => {
                return Err(e);
            },
        };
        if !is_all_ascii(&body) {
            return Ok(ParsedFrame::Raw);
        }
        Ok(Self::parse_body(body, checksum_valid))
    }
}

// ---- Modbus ASCII -----------------------------------------------------------------

/// Every byte of `s` is an ASCII hex digit.
pub open spec fn all_hex_digits(s: Seq<u8>) -> bool {
    forall|i: int| 0 <= i < s.len() ==> is_hex_digit(#[trigger] s[i])
}

/// Modbus ASCII parsing: optional `:` and line ending stripped; the body
/// must be a non-empty even number of hex digits decoding to at least
/// address, function code and LRC; the LRC is checked over the rest.
#[verifier::opaque]
pub open spec fn spec_modbus_parse(validate: bool, data: Seq<u8>) -> Result<ParsedModel, DecodeErrorModel> {
    let content = strip_newline(strip_lead(data, seq![0x3Au8]));
    if content.len() == 0 || !all_hex_digits(content) || content.len() % 2 != 0 {
        Ok(ParsedModel::Raw)
    } else {
        let decoded = spec_hex_pairs(content);
        if decoded.len() < 3 {
            Ok(ParsedModel::Raw)
        } else {
            let pdu = decoded.drop_last();
            match spec_check(validate, spec_lrc(pdu), Some(decoded.last()), seq![decoded.last()]) {
                Err(e) => Err(e),
                Ok(cv) => Ok(ParsedModel::ModbusAscii {
                    address: pdu[0],
                    function_code: pdu[1],
                    data: pdu.skip(2),
                    checksum_valid: cv,
                }),
            }
        }
    }
}

fn all_hex(s: &[u8]) -> (r: bool)
    ensures
        r == all_hex_digits(s@),
{
    let mut i: usize = 0;
    while i < s.len()
        invariant
            i <= s.len(),
            forall|j: int| 0 <= j < i ==> is_hex_digit(#[trigger] s@[j]),
        decreases s.len() - i,
    {
        if !is_hex(s[i]) {
            return false;
        }
        i += 1;
    }
    true
}

proof fn lemma_hex_pairs_step(s: Seq<u8>, i: int)
    requires
        0 <= i,
        i + 2 <= s.len(),
    ensures
        spec_hex_pairs(s.skip(i)) == seq![(hex_value(s[i]).unwrap() * 16 + hex_value(s[i + 1]).unwrap()) as u8] + spec_hex_pairs(s.skip(i + 2)),
{
    let t = s.skip(i);
    assert(t.skip(2) =~= s.skip(i + 2));
    assert(t[0] == s[i] && t[1] == s[i + 1]);
}

/// Decode pairs of hex digits, high nibble first.
#[verifier::spinoff_prover]
fn hex_pairs(s: &[u8]) -> (r: Vec<u8>)
    requires
        all_hex_digits(s@),
        s@.len() % 2 == 0,
    ensures
        r@ == spec_hex_pairs(s@),
{
    let mut out: Vec<u8> = Vec::new();
    let mut i: usize = 0;
    assert(s@.skip(0) =~= s@);
    while i < s.len()
        invariant
            i <= s.len(),
            i % 2 == 0,
            s@.len() % 2 == 0,
            all_hex_digits(s@),
            spec_hex_pairs(s@) == out@ + spec_hex_pairs(s@.skip(i as int)),
        decreases s.len() - i,
    {
        proof {
            lemma_hex_pairs_step(s@, i as int);
        }
        let hi = hex_val(s[i]);
        let lo = hex_val(s[i + 1]);
        let v = hi * 16 + lo;
        let ghost before = out@;
        out.push(v);
        assert(out@ =~= before + seq![v]);
        assert(out@ + spec_hex_pairs(s@.skip(i + 2)) =~= before + (seq![v] + spec_hex_pairs(s@.skip(i + 2))));
        i += 2;
    }
    assert(s@.skip(i as int) =~= Seq::<u8>::empty());
    assert(out@ + Seq::<u8>::empty() =~= out@);
    out
}

/// Modbus ASCII frame parser.
pub struct ModbusAsciiParser {
    pub validate: bool,
}

impl ModbusAsciiParser {
    pub fn parse(&self, data: &[u8]) -> (r: Result<ParsedFrame, FrameDecodeError>)
        ensures
            parse_view(r) == spec_modbus_parse(self.validate, data@),
    {
        reveal(spec_modbus_parse);
        let mut content = copy_range(data, 0, data.len());
        assert(content@ =~= data@);
        let mut markers: Vec<u8> = Vec::new();
        markers.push(0x3A);
        assert(markers@ =~= seq![0x3Au8]);
        strip_leading_if_any(&mut content, markers.as_slice());
        strip_trailing_newline(&mut content);
        if content.len() == 0 || !all_hex(&content) || content.len() % 2 != 0 {
            return Ok(ParsedFrame::Raw);
        }
        let decoded = hex_pairs(&content);
        if decoded.len() < 3 {
            return Ok(ParsedFrame::Raw);
        }
        let n = decoded.len();
        let lrc_received = decoded[n - 1];
        let pdu = copy_range(&decoded, 0, n - 1);
        assert(pdu@ =~= decoded@.drop_last());
        let computed = lrc(&pdu);
        let address = pdu[0];
        let function_code = pdu[1];
        let body = copy_range(&pdu, 2, pdu.len());
        assert(body@ =~= pdu@.skip(2));
        let mut raw: Vec<u8> = Vec::new();
        raw.push(lrc_received);
        assert(raw@ =~= seq![lrc_received]);
        let checksum_valid = match check_checksum(self.validate, computed, Some(lrc_received), raw) {
            Ok(v) => v,
            Err(e) => {
                return Err(e);
            },
        };
        Ok(ParsedFrame::ModbusAscii { address, function_code, data: body, checksum_valid })
    }
}

// ---- AT commands ------------------------------------------------------------------

pub open spec fn char_pieces(v: Seq<Vec<char>>) -> Seq<Seq<char>> {
    v.map_values(|x: Vec<char>| x@)
}

/// Split the characters `s` at every `sep`.
pub fn split_chars(s: &[char], sep: char) -> (r: Vec<Vec<char>>)
    ensures
        char_pieces(r@) == split_seq(s@, sep),
{
    let mut out: Vec<Vec<char>> = Vec::new();
    let mut start: usize = 0;
    let mut i: usize = 0;
    while i < s.len()
        invariant
            start <= i <= s.len(),
            forall|j: int| start <= j < i ==> s@[j] != sep,
            split_seq(s@, sep) == char_pieces(out@) + split_seq(s@.skip(start as int), sep),
        decreases s.len() - i,
    {
        if s[i] == sep {
            proof {
                lemma_split_step(s@, sep, start as int, i as int);
            }
            let piece = copy_chars(s, start, i);
            let ghost before = out@;
            out.push(piece);
            assert(char_pieces(out@) =~= char_pieces(before) + seq![s@.subrange(start as int, i as int)]);
            start = i + 1;
        }
        i += 1;
    }
    proof {
        lemma_split_last(s@, sep, start as int);
    }
    let piece = copy_chars(s, start, s.len());
    let ghost before = out@;
    out.push(piece);
    assert(s@.subrange(start as int, s@.len() as int) =~= s@.skip(start as int));
    assert(char_pieces(out@) =~= char_pieces(before) + seq![s@.skip(start as int)]);
    out
}

/// Each piece as a `String` with surrounding whitespace trimmed.
fn trimmed_strings(pieces: &Vec<Vec<char>>) -> (r: Vec<String>)
    ensures
        texts(r@) == char_pieces(pieces@).map_values(|p: Seq<char>| str_trim(p)),
{
    let mut out: Vec<String> = Vec::new();
    let mut k: usize = 0;
    while k < pieces.len()
        invariant
            k <= pieces@.len(),
            texts(out@) == char_pieces(pieces@.take(k as int)).map_values(|p: Seq<char>| str_trim(p)),
        decreases pieces@.len() - k,
    {
        let piece: &Vec<char> = &pieces[k];
        let whole = string_of_chars(piece.as_slice());
        let s = trim_str(whole.as_str()).to_owned();
        let ghost before = out@;
        out.push(s);
        k += 1;
        assert(texts(out@) =~= texts(before).push(s@));
        assert(char_pieces(pieces@.take(k as int)) =~= char_pieces(pieces@.take(k - 1)).push(pieces@[k - 1]@));
        assert(char_pieces(pieces@.take(k as int)).map_values(|p: Seq<char>| str_trim(p))
            =~= char_pieces(pieces@.take(k - 1)).map_values(|p: Seq<char>| str_trim(p)).push(str_trim(pieces@[k - 1]@)));
    }
    assert(pieces@.take(k as int) =~= pieces@);
    out
}

/// Command name and trimmed comma fields of a `+CMD: a, b` response.
pub open spec fn at_response(t: Seq<char>) -> Option<(Seq<char>, Seq<Seq<char>>)> {
    if t.len() > 0 && t[0] == '+' {
        let cmd = t.skip(1);
        match spec_position(cmd, ':') {
            Some(c) => Some((cmd.take(c), split_seq(cmd.skip(c + 1), ',').map_values(|f: Seq<char>| str_trim(f)))),
            None => None,
        }
    } else {
        None
    }
}

/// AT command parsing of the lossily decoded, trimmed text: empty text is
/// raw; `+CMD: ...` is a response; `OK` a status; `ERROR` and a bare
/// `+CME ERROR`/`+CMS ERROR` an error; anything else a data line.
#[verifier::opaque]
pub open spec fn spec_at_parse(data: Seq<u8>) -> ParsedModel {
    let t = str_trim(utf8_lossy(data));
    if t.len() == 0 {
        ParsedModel::Raw
    } else {
        match at_response(t) {
            Some((c, f)) => ParsedModel::AtCommand {
                response_type: "response"@,
                command: Some(c),
                status: None,
                fields: f,
            },
            None => if t == "OK"@ {
                ParsedModel::AtCommand { response_type: "status"@, command: None, status: Some("OK"@), fields: Seq::empty() }
            } else if t == "ERROR"@ {
                ParsedModel::AtCommand { response_type: "error"@, command: None, status: Some("ERROR"@), fields: Seq::empty() }
            } else if has_prefix(t, "+CME ERROR"@) || has_prefix(t, "+CMS ERROR"@) {
                ParsedModel::AtCommand { response_type: "error"@, command: None, status: Some(t), fields: Seq::empty() }
            } else {
                ParsedModel::AtCommand { response_type: "data"@, command: None, status: None, fields: seq![t] }
            },
        }
    }
}

/// AT command response parser.
pub struct AtCommandParser;

impl AtCommandParser {
    fn parse_response(chars: &Vec<char>) -> (r: Option<ParsedFrame>)
        ensures
            match at_response(chars@) {
                Some((c, f)) => r matches Some(p) && p@ == (ParsedModel::AtCommand {
                    response_type: "response"@,
                    command: Some(c),
                    status: None,
                    fields: f,
                }),
                None => r is None,
            },
    {
        if chars.len() == 0 || chars[0] != '+' {
            return None;
        }
        let cmd = copy_chars(chars.as_slice(), 1, chars.len());
        assert(cmd@ =~= chars@.skip(1));
        match char_position(cmd.as_slice(), ':') {
            Some(c) => {
                let name = copy_chars(cmd.as_slice(), 0, c);
                let rest = copy_chars(cmd.as_slice(), c + 1, cmd.len());
                assert(name@ =~= cmd@.take(c as int));
                assert(rest@ =~= cmd@.skip(c + 1));
                let pieces = split_chars(rest.as_slice(), ',');
                let fields = trimmed_strings(&pieces);
                let command = string_of_chars(name.as_slice());
                Some(ParsedFrame::AtCommand {
                    response_type: "response".to_owned(),
                    command: Some(command),
                    status: None,
                    fields,
                })
            },
            None => None,
        }
    }

    pub fn parse(&self, data: &[u8]) -> (r: Result<ParsedFrame, FrameDecodeError>)
        ensures
            r matches Ok(p) && p@ == spec_at_parse(data@),
    {
        reveal(spec_at_parse);
        let text = lossy_string(data);
        let trimmed: &str = trim_str(text.as_str());
        let chars = str_chars(trimmed);
        if chars.len() == 0 {
            return Ok(ParsedFrame::Raw);
        }
        if let Some(p) = Self::parse_response(&chars) {
            return Ok(p);
        }
        if str_eq(trimmed, "OK") {
            let r = ParsedFrame::AtCommand {
                response_type: "status".to_owned(),
                command: None,
                status: Some("OK".to_owned()),
                fields: Vec::new(),
            };
            assert(texts(Seq::<String>::empty()) =~= Seq::<Seq<char>>::empty());
            return Ok(r);
        }
        if str_eq(trimmed, "ERROR") {
            let r = ParsedFrame::AtCommand {
                response_type: "error".to_owned(),
                command: None,
                status: Some("ERROR".to_owned()),
                fields: Vec::new(),
            };
            assert(texts(Seq::<String>::empty()) =~= Seq::<Seq<char>>::empty());
            return Ok(r);
        }
        if chars_start_with(chars.as_slice(), "+CME ERROR") || chars_start_with(chars.as_slice(), "+CMS ERROR") {
            let r = ParsedFrame::AtCommand {
                response_type: "error".to_owned(),
                command: None,
                status: Some(trimmed.to_owned()),
                fields: Vec::new(),
            };
            assert(texts(Seq::<String>::empty()) =~= Seq::<Seq<char>>::empty());
            return Ok(r);
        }
        let mut fields: Vec<String> = Vec::new();
        let line = trimmed.to_owned();
        fields.push(line);
        assert(texts(fields@) =~= seq![line@]);
        Ok(ParsedFrame::AtCommand { response_type: "data".to_owned(), command: None, status: None, fields })
    }
}

/// A data line keeps its text: whatever the AT parser reports as a `data`
/// line carries exactly the trimmed text as its one field, with no command
/// or status; and every non-empty trimmed line that is not a `+`-line,
/// `OK` or `ERROR` is such a data line.
pub proof fn lemma_at_data_line(data: Seq<u8>)
    ensures
        ({
            let t = str_trim(utf8_lossy(data));
            &&& (spec_at_parse(data) matches ParsedModel::AtCommand { response_type, command, status, fields }
                && response_type == "data"@) ==> (spec_at_parse(data) == ParsedModel::AtCommand {
                response_type: "data"@,
                command: None,
                status: None,
                fields: seq![t],
            })
            &&& (t.len() > 0 && t[0] != '+' && t != "OK"@ && t != "ERROR"@) ==> spec_at_parse(data)
                == ParsedModel::AtCommand { response_type: "data"@, command: None, status: None, fields: seq![t] }
        }),
{
    reveal(spec_at_parse);
    reveal_strlit("data");
    reveal_strlit("response");
    reveal_strlit("status");
    reveal_strlit("error");
    reveal_strlit("+CME ERROR");
    reveal_strlit("+CMS ERROR");
    assert("data"@ != "response"@ && "data"@ != "status"@ && "data"@ != "error"@) by {
        assert("data"@[0] != "response"@[0]);
        assert("data"@[0] != "status"@[0]);
        assert("data"@[0] != "error"@[0]);
    }
    let t = str_trim(utf8_lossy(data));
    if t.len() > 0 && t[0] != '+' {
        assert(!has_prefix(t, "+CME ERROR"@)) by {
            if has_prefix(t, "+CME ERROR"@) {
                assert(t.take(10)[0] == "+CME ERROR"@[0]);
            }
        }
        assert(!has_prefix(t, "+CMS ERROR"@)) by {
            if has_prefix(t, "+CMS ERROR"@) {
                assert(t.take(10)[0] == "+CMS ERROR"@[0]);
            }
        }
    }
}

/// Status and error lines: `OK` is the `OK` status and `ERROR` the `ERROR`
/// error, both without fields; a line that is empty after trimming is raw.
pub proof fn lemma_at_status_lines(data: Seq<u8>)
    ensures
        ({
            let t = str_trim(utf8_lossy(data));
            &&& t == "OK"@ ==> spec_at_parse(data) == ParsedModel::AtCommand {
                response_type: "status"@,
                command: None,
                status: Some("OK"@),
                fields: Seq::empty(),
            }
            &&& t == "ERROR"@ ==> spec_at_parse(data) == ParsedModel::AtCommand {
                response_type: "error"@,
                command: None,
                status: Some("ERROR"@),
                fields: Seq::empty(),
            }
            &&& t.len() == 0 ==> spec_at_parse(data) == ParsedModel::Raw
        }),
{
    reveal(spec_at_parse);
    reveal_strlit("OK");
    reveal_strlit("ERROR");
}

// ---- JSON lines ----------------------------------------------------------------------

/// Whether `serde_json::from_slice::<serde_json::Value>` parses the bytes
/// into a JSON object.
pub uninterp spec fn json_is_object(data: Seq<u8>) -> bool;

/// The value `serde_json::from_slice::<serde_json::Value>` parses from the
/// bytes, where it parses them.
pub uninterp spec fn json_value(data: Seq<u8>) -> serde_json::Value;

/// Calls `serde_json::from_slice` and keeps the value when it is an
/// object; whether it is, is named by [`json_is_object`], and the value by
/// [`json_value`].
#[verifier::external_body]
fn json_object(data: &[u8]) -> (r: Option<serde_json::Value>)
    ensures
        r is Some <==> json_is_object(data@),
        r matches Some(v) ==> v == json_value(data@),
{
    match serde_json::from_slice::<serde_json::Value>(data) {
        Ok(serde_json::Value::Object(m)) => Some(serde_json::Value::Object(m)),
        Ok(_) => None,
        Err(_) => None,
    }
}

/// JSON-lines parsing: a frame holding a JSON object, else raw.
pub open spec fn spec_json_parse(data: Seq<u8>) -> ParsedModel {
    if json_is_object(data) {
        ParsedModel::Json(json_value(data))
    } else {
        ParsedModel::Raw
    }
}

/// JSON-lines frame parser.
pub struct JsonLinesParser;

impl JsonLinesParser {
    pub fn parse(&self, data: &[u8]) -> (r: Result<ParsedFrame, FrameDecodeError>)
        ensures
            r matches Ok(p) && p@ == spec_json_parse(data@),
            r matches Ok(ParsedFrame::Json(v)) ==> v == json_value(data@),
    {
        match json_object(data) {
            Some(v) => Ok(ParsedFrame::Json(v)),
            None => Ok(ParsedFrame::Raw),
        }
    }
}

// ---- shell prompts ------------------------------------------------------------------

/// Declares `regex::bytes::Regex`, a compiled custom prompt pattern.
#[verifier::external_type_specification]
#[verifier::external_body]
pub struct ExBytesRegex(regex::bytes::Regex);

/// What `regex::bytes::Regex::new` reports for a pattern: `None` when it
/// compiles, else the error's text.
pub uninterp spec fn regex_compile_error(pattern: Seq<char>) -> Option<Seq<char>>;

/// What `Regex::is_match` answers for the regex compiled from `pattern`
/// on the bytes `data`.
pub uninterp spec fn regex_is_match(pattern: Seq<char>, data: Seq<u8>) -> bool;

/// A custom prompt regex together with the pattern it was compiled from.
pub struct PromptPattern {
    pattern: String,
    re: regex::bytes::Regex,
}

/// Calls `regex::bytes::Regex::new`; outcome and error text are named by
/// [`regex_compile_error`].
#[verifier::external_body]
fn compile_regex(pattern: &str) -> (r: Result<PromptPattern, String>)
    ensures
        match r {
            Ok(p) => regex_compile_error(pattern@) is None && p.pattern@ == pattern@,
            Err(e) => regex_compile_error(pattern@) == Some(e@),
        },
{
    match regex::bytes::Regex::new(pattern) {
        Ok(re) => Ok(PromptPattern { pattern: pattern.to_string(), re }),
        Err(e) => Err(e.to_string()),
    }
}

/// Calls `Regex::is_match` on the compiled pattern; the answer is named by
/// [`regex_is_match`] over the pattern's source.
#[verifier::external_body]
fn prompt_is_match(p: &PromptPattern, data: &[u8]) -> (r: bool)
    ensures
        r == regex_is_match(p.pattern@, data@),
{
    p.re.is_match(data)
}

impl PromptPattern {
    /// The pattern this regex was compiled from.
    pub closed spec fn source(&self) -> Seq<char> {
        self.pattern@
    }

    /// Compile a custom prompt pattern.
    pub fn new(pattern: &str) -> (r: Result<PromptPattern, String>)
        ensures
            match r {
                Ok(p) => regex_compile_error(pattern@) is None && p.source() == pattern@,
                Err(e) => regex_compile_error(pattern@) == Some(e@),
            },
    {
        compile_regex(pattern)
    }

    /// Whether the pattern matches `data`.
    pub fn is_match(&self, data: &[u8]) -> (r: bool)
        ensures
            r == regex_is_match(self.source(), data@),
    {
        prompt_is_match(self, data)
    }
}

/// Shell prompt classification of the lossily decoded text without its
/// trailing whitespace: a custom regex match first, then `$` (user), `#`
/// (root), `>` (generic); else raw.
#[verifier::opaque]
pub open spec fn spec_shell_parse(custom: Option<Seq<char>>, data: Seq<u8>) -> ParsedModel {
    let t = str_trim_end(utf8_lossy(data));
    if t.len() == 0 {
        ParsedModel::Raw
    } else if (custom matches Some(p) && regex_is_match(p, data)) {
        ParsedModel::ShellPrompt { prompt: t, prompt_type: "custom"@ }
    } else if has_suffix(t, "$ "@) || has_suffix(t, "$"@) {
        ParsedModel::ShellPrompt { prompt: t, prompt_type: "user"@ }
    } else if has_suffix(t, "# "@) || has_suffix(t, "#"@) {
        ParsedModel::ShellPrompt { prompt: t, prompt_type: "root"@ }
    } else if has_suffix(t, "> "@) || has_suffix(t, ">"@) {
        ParsedModel::ShellPrompt { prompt: t, prompt_type: "generic"@ }
    } else {
        ParsedModel::Raw
    }
}

/// Without a custom pattern match, a line is a shell prompt exactly when
/// its text without trailing whitespace ends with `$` (user), `#` (root) or
/// `>` (generic); the prompt is that text. Anything else is raw. A custom
/// pattern that does not match changes nothing.
pub proof fn lemma_shell_prompt_classes(custom: Option<Seq<char>>, data: Seq<u8>)
    requires
        custom matches Some(p) ==> !regex_is_match(p, data),
    ensures
        ({
            let t = str_trim_end(utf8_lossy(data));
            &&& (t.len() > 0 && t.last() == '$') ==> spec_shell_parse(custom, data) == ParsedModel::ShellPrompt {
                prompt: t,
                prompt_type: "user"@,
            }
            &&& (t.len() > 0 && t.last() == '#') ==> spec_shell_parse(custom, data) == ParsedModel::ShellPrompt {
                prompt: t,
                prompt_type: "root"@,
            }
            &&& (t.len() > 0 && t.last() == '>') ==> spec_shell_parse(custom, data) == ParsedModel::ShellPrompt {
                prompt: t,
                prompt_type: "generic"@,
            }
            &&& !(t.len() > 0 && (t.last() == '$' || t.last() == '#' || t.last() == '>')) ==> spec_shell_parse(
                custom,
                data,
            ) == ParsedModel::Raw
        }),
{
    reveal(spec_shell_parse);
    let t = str_trim_end(utf8_lossy(data));
    lemma_trim_end_last(utf8_lossy(data));
    reveal_strlit("$ ");
    reveal_strlit("$");
    reveal_strlit("# ");
    reveal_strlit("#");
    reveal_strlit("> ");
    reveal_strlit(">");
    assert("$"@ =~= seq!['$']);
    assert("#"@ =~= seq!['#']);
    assert(">"@ =~= seq!['>']);
    if t.len() > 0 {
        assert(has_suffix(t, "$"@) <==> t.last() == '$') by {
            assert(t.skip(t.len() - 1) =~= seq![t.last()]);
        }
        assert(has_suffix(t, "#"@) <==> t.last() == '#') by {
            assert(t.skip(t.len() - 1) =~= seq![t.last()]);
        }
        assert(has_suffix(t, ">"@) <==> t.last() == '>') by {
            assert(t.skip(t.len() - 1) =~= seq![t.last()]);
        }
        assert(!has_suffix(t, "$ "@) && !has_suffix(t, "# "@) && !has_suffix(t, "> "@)) by {
            if t.len() >= 2 {
                assert(t.skip(t.len() - 2)[1] == t.last());
            }
        }
    }
}

/// Text without trailing whitespace does not end in whitespace.
proof fn lemma_trim_end_last(s: Seq<char>)
    ensures
        str_trim_end(s).len() > 0 ==> !is_unicode_whitespace(str_trim_end(s).last()),
    decreases s.len(),
{
    if s.len() > 0 && is_unicode_whitespace(s.last()) {
        lemma_trim_end_last(s.drop_last());
    }
}

pub open spec fn opt_source(c: Option<PromptPattern>) -> Option<Seq<char>> {
    match c {
        Some(p) => Some(p.source()),
        None => None,
    }
}

/// Shell prompt parser with an optional custom prompt regex.
pub struct ShellPromptParser {
    pub custom: Option<PromptPattern>,
}

impl ShellPromptParser {
    pub fn parse(&self, data: &[u8]) -> (r: Result<ParsedFrame, FrameDecodeError>)
        ensures
            r matches Ok(p) && p@ == spec_shell_parse(opt_source(self.custom), data@),
    {
        reveal(spec_shell_parse);
        let text = lossy_string(data);
        let trimmed: &str = trim_end_str(text.as_str());
        let chars = str_chars(trimmed);
        if chars.len() == 0 {
            return Ok(ParsedFrame::Raw);
        }
        let custom_hit = match &self.custom {
            Some(re) => re.is_match(data),
            None => false,
        };
        let kind = if custom_hit {
            "custom"
        } else if chars_end_with(chars.as_slice(), "$ ") || chars_end_with(chars.as_slice(), "$") {
            "user"
        } else if chars_end_with(chars.as_slice(), "# ") || chars_end_with(chars.as_slice(), "#") {
            "root"
        } else if chars_end_with(chars.as_slice(), "> ") || chars_end_with(chars.as_slice(), ">") {
            "generic"
        } else {
            return Ok(ParsedFrame::Raw);
        };
        Ok(ParsedFrame::ShellPrompt { prompt: trimmed.to_owned(), prompt_type: kind.to_owned() })
    }
}

// ---- raw ------------------------------------------------------------------------------

/// Passthrough parser: every frame is raw.
pub struct RawParser;

impl RawParser {
    pub fn parse(&self, _data: &[u8]) -> (r: Result<ParsedFrame, FrameDecodeError>)
        ensures
            r matches Ok(p) && p@ == ParsedModel::Raw,
    {
        Ok(ParsedFrame::Raw)
    }
}

// ---- the configured parser --------------------------------------------------------

/// The parser a decoder runs on each frame.
pub enum FrameParser {
    AtCommand(AtCommandParser),
    JsonLines(JsonLinesParser),
    ShellPrompt(ShellPromptParser),
    Raw(RawParser),
    Nmea(NmeaParser),
    ModbusAscii(ModbusAsciiParser),
}

/// What a [`FrameParser`] is: its kind with the settings that matter.
pub enum ParserModel {
    AtCommand,
    JsonLines,
    ShellPrompt(Option<Seq<char>>),
    Raw,
    Nmea(bool),
    ModbusAscii(bool),
}

impl View for FrameParser {
    type V = ParserModel;

    open spec fn view(&self) -> ParserModel {
        match self {
            FrameParser::AtCommand(_) => ParserModel::AtCommand,
            FrameParser::JsonLines(_) => ParserModel::JsonLines,
            FrameParser::ShellPrompt(p) => ParserModel::ShellPrompt(opt_source(p.custom)),
            FrameParser::Raw(_) => ParserModel::Raw,
            FrameParser::Nmea(p) => ParserModel::Nmea(p.validate),
            FrameParser::ModbusAscii(p) => ParserModel::ModbusAscii(p.validate),
        }
    }
}

/// The result of running the parser `p` on a frame's bytes.
pub open spec fn spec_parse(p: ParserModel, data: Seq<u8>) -> Result<ParsedModel, DecodeErrorModel> {
    match p {
        ParserModel::AtCommand => Ok(spec_at_parse(data)),
        ParserModel::JsonLines => Ok(spec_json_parse(data)),
        ParserModel::ShellPrompt(c) => Ok(spec_shell_parse(c, data)),
        ParserModel::Raw => Ok(ParsedModel::Raw),
        ParserModel::Nmea(v) => spec_nmea_parse(v, data),
        ParserModel::ModbusAscii(v) => spec_modbus_parse(v, data),
    }
}

impl FrameParser {
    pub fn parse(&self, data: &[u8]) -> (r: Result<ParsedFrame, FrameDecodeError>)
        ensures
            parse_view(r) == spec_parse(self@, data@),
    {
        match self {
            FrameParser::AtCommand(p) => p.parse(data),
            FrameParser::JsonLines(p) => p.parse(data),
            FrameParser::ShellPrompt(p) => p.parse(data),
            FrameParser::Raw(p) => p.parse(data),
            FrameParser::Nmea(p) => p.parse(data),
            FrameParser::ModbusAscii(p) => p.parse(data),
        }
    }
}

/// The parser a [`ParserConfig`] asks for, or the reason it cannot be built.
pub open spec fn spec_build_parser(config: ParserConfig) -> Result<ParserModel, Seq<char>> {
    match config.parser_type {
        ParserType::AtCommand => Ok(ParserModel::AtCommand),
        ParserType::JsonLines => Ok(ParserModel::JsonLines),
        ParserType::ShellPrompt => match config.custom_prompt {
            Some(p) => match regex_compile_error(p@) {
                Some(e) => Err("Invalid prompt regex: "@ + e),
                None => Ok(ParserModel::ShellPrompt(Some(p@))),
            },
            None => Ok(ParserModel::ShellPrompt(None)),
        },
        ParserType::Raw => Ok(ParserModel::Raw),
        ParserType::Nmea => Ok(ParserModel::Nmea(config.validate)),
        ParserType::ModbusAscii => Ok(ParserModel::ModbusAscii(config.validate)),
    }
}

/// Build the parser for a parser configuration.
pub fn build_parser(config: &ParserConfig) -> (r: Result<FrameParser, String>)
    ensures
        match r {
            Ok(p) => spec_build_parser(*config) == Ok::<ParserModel, Seq<char>>(p@),
            Err(e) => spec_build_parser(*config) == Err::<ParserModel, Seq<char>>(e@),
        },
{
    match config.parser_type {
        ParserType::AtCommand => Ok(FrameParser::AtCommand(AtCommandParser)),
        ParserType::JsonLines => Ok(FrameParser::JsonLines(JsonLinesParser)),
        ParserType::ShellPrompt => {
            let custom = match &config.custom_prompt {
                Some(s) => match PromptPattern::new(s.as_str()) {
                    Ok(p) => Some(p),
                    Err(e) => {
                        let mut msg = "Invalid prompt regex: ".to_owned();
                        msg.append(e.as_str());
                        return Err(msg);
                    },
                },
                None => None,
            };
            Ok(FrameParser::ShellPrompt(ShellPromptParser { custom }))
        },
        ParserType::Raw => Ok(FrameParser::Raw(RawParser)),
        ParserType::Nmea => Ok(FrameParser::Nmea(NmeaParser { validate: config.validate })),
        ParserType::ModbusAscii => Ok(FrameParser::ModbusAscii(ModbusAsciiParser { validate: config.validate })),
    }
}

// ---- checksum laws ------------------------------------------------------------------

pub(crate) proof fn lemma_hex_digit_upper(d: u8)
    requires
        d < 16,
    ensures
        is_hex_digit(hex_digit_upper(d)),
        hex_value(hex_digit_upper(d)) == Some(d),
        hex_digit_upper(d) != 0x2B,
        hex_digit_upper(d) != 0x0A,
        hex_digit_upper(d) != 0x3A,
{
}

proof fn lemma_hex2_value(b: u8)
    ensures
        radix16_pair(hex2(b)[0], hex2(b)[1]) == Some(b),
{
    lemma_hex_digit_upper(b / 16);
    lemma_hex_digit_upper(b % 16);
}

proof fn lemma_nmea_sentence_shape(body: Seq<u8>, h: Seq<u8>)
    requires
        spec_position(body, 0x2Cu8) is Some,
        spec_position(body, 0x2Au8) is None,
        body.len() > 0 ==> body[0] != 0x24 && body[0] != 0x21,
        h.len() == 2,
        h[1] != 0x0A,
    ensures
        strip_newline(strip_lead(body + seq![0x2Au8] + h, seq![0x24u8, 0x21u8])) == body + seq![0x2Au8] + h,
        spec_position(body + seq![0x2Au8] + h, 0x2Cu8) is Some,
        spec_position(body + seq![0x2Au8] + h, 0x2Au8) == Some(body.len() as int),
        (body + seq![0x2Au8] + h).take(body.len() as int) == body,
        (body + seq![0x2Au8] + h).skip(body.len() + 1int) == h,
{
    let data = body + seq![0x2Au8] + h;
    let n = body.len() as int;
    lemma_position(body, 0x2Cu8);
    lemma_position(body, 0x2Au8);
    assert(data.len() > 0 && data[0] == body[0]);
    assert(!seq![0x24u8, 0x21u8].contains(data[0]));
    assert(data[data.len() - 1] == h[1]);
    let c = spec_position(body, 0x2Cu8)->0;
    assert(data[c] == 0x2C);
    lemma_position(data, 0x2Cu8);
    assert(data[n] == 0x2A);
    assert forall|j: int| 0 <= j < n implies data[j] != 0x2A by {
        assert(data[j] == body[j]);
    }
    lemma_position_is(data, 0x2Au8, n);
    assert(data.take(n) =~= body);
    assert(data.skip(n + 1) =~= h);
}

/// NMEA checksum law: an ASCII sentence body (with a comma, without `*`,
/// not starting with `$` or `!`) followed by `*` and its XOR checksum as
/// two uppercase hex digits, as NMEA TX framing writes it, parses with a
/// valid checksum, whether or not checksums are enforced.
#[verifier::rlimit(100)]
pub proof fn lemma_nmea_checksum_accepted(validate: bool, body: Seq<u8>)
    requires
        all_ascii(body),
        spec_position(body, 0x2Cu8) is Some,
        spec_position(body, 0x2Au8) is None,
        body.len() > 0 ==> body[0] != 0x24 && body[0] != 0x21,
    ensures
        spec_nmea_parse(validate, body + seq![0x2Au8] + hex2(spec_xor(body))) == Ok::<ParsedModel, DecodeErrorModel>(
            nmea_model(body, Some(true)),
        ),
{
    let x = spec_xor(body);
    let h = hex2(x);
    lemma_nmea_status(validate, body);
    lemma_hex_digit_upper(x / 16);
    lemma_hex_digit_upper(x % 16);
    lemma_nmea_sentence_shape(body, h);
    let data = body + seq![0x2Au8] + h;
    let content = strip_newline(strip_lead(data, seq![0x24u8, 0x21u8]));
    assert(content == data);
    assert(nmea_split(data) == (body, Some(h)));
    assert(nmea_parse_content(validate, data) == nmea_finish(validate, body, Some(h)));
    reveal(spec_nmea_parse);
}

proof fn lemma_nmea_status(validate: bool, body: Seq<u8>)
    ensures
        nmea_checksum_status(validate, body, Some(hex2(spec_xor(body)))) == Ok::<Option<bool>, DecodeErrorModel>(Some(true)),
{
    lemma_hex2_value(spec_xor(body));
}

proof fn lemma_hex_pairs_concat(a: Seq<u8>, b: Seq<u8>)
    requires
        a.len() % 2 == 0,
    ensures
        spec_hex_pairs(a + b) == spec_hex_pairs(a) + spec_hex_pairs(b),
    decreases a.len(),
{
    if a.len() == 0 {
        assert(a + b =~= b);
        assert(Seq::<u8>::empty() + spec_hex_pairs(b) =~= spec_hex_pairs(b));
    } else {
        assert((a + b).skip(2) =~= a.skip(2) + b);
        assert((a + b)[0] == a[0] && (a + b)[1] == a[1]);
        lemma_hex_pairs_concat(a.skip(2), b);
    }
}

pub(crate) proof fn lemma_hex_upper_pairs(x: Seq<u8>)
    ensures
        spec_hex_upper(x).len() == 2 * x.len(),
        all_hex_digits(spec_hex_upper(x)),
        spec_hex_pairs(spec_hex_upper(x)) == x,
    decreases x.len(),
{
    if x.len() > 0 {
        let y = x.drop_last();
        lemma_hex_upper_pairs(y);
        let b = x.last();
        lemma_hex_digit_upper(b / 16);
        lemma_hex_digit_upper(b % 16);
        let tail = seq![hex_digit_upper(b / 16), hex_digit_upper(b % 16)];
        lemma_hex_pairs_concat(spec_hex_upper(y), tail);
        assert(tail.skip(2) =~= Seq::<u8>::empty());
        assert(spec_hex_pairs(Seq::<u8>::empty()) =~= Seq::<u8>::empty());
        assert((b / 16) * 16 + b % 16 == b);
        assert(spec_hex_pairs(tail) =~= seq![b]);
        assert(y + seq![b] =~= x);
        let t = spec_hex_upper(x);
        assert forall|i: int| 0 <= i < t.len() implies is_hex_digit(#[trigger] t[i]) by {
            if i < spec_hex_upper(y).len() {
                assert(t[i] == spec_hex_upper(y)[i]);
            } else {
                assert(t[i] == tail[i - spec_hex_upper(y).len()]);
            }
        }
    } else {
        assert(spec_hex_upper(x) =~= Seq::<u8>::empty());
    }
}

/// Modbus LRC law: the hex text of a PDU (address, function code, data)
/// followed by its LRC parses into that PDU with a valid checksum, whether
/// or not checksums are enforced.
pub proof fn lemma_modbus_lrc_accepted(validate: bool, pdu: Seq<u8>)
    requires
        pdu.len() >= 2,
    ensures
        spec_modbus_parse(validate, spec_hex_upper(pdu.push(spec_lrc(pdu)))) == Ok::<ParsedModel, DecodeErrorModel>(
            ParsedModel::ModbusAscii { address: pdu[0], function_code: pdu[1], data: pdu.skip(2), checksum_valid: Some(true) },
        ),
{
    reveal(spec_modbus_parse);
    let x = pdu.push(spec_lrc(pdu));
    let t = spec_hex_upper(x);
    lemma_hex_upper_pairs(x);
    assert(is_hex_digit(t[0]) && is_hex_digit(t[t.len() - 1]));
    assert(!seq![0x3Au8].contains(t[0]));
    assert(strip_lead(t, seq![0x3Au8]) == t);
    assert(strip_newline(t) == t);
    assert(x.drop_last() =~= pdu);
}

} // verus!
