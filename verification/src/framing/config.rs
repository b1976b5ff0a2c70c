//! Framing and parser configuration types, defaults, and protocol presets.

use vstd::prelude::*;
use crate::match_config::PatternEncoding;

verus! {

// ---- RX framing configuration ----------------------------------------------

/// Framing configuration for `read` and `subscribe`: how to split the byte
/// stream into frames.
#[derive(Debug, Clone, PartialEq)]
pub struct RxFramingConfig {
    /// Frame boundary detection mode.
    pub mode: RxFramingMode,
    /// Maximum number of frames to collect before stopping (read only).
    pub max_frames: Option<usize>,
    /// Include terminators/delimiters in the frame data.
    pub include_terminators: bool,
    /// Skip frames whose data is empty or ASCII-whitespace-only.
    pub skip_empty: bool,
}

impl Default for RxFramingConfig {
    fn default() -> (r: Self)
        ensures
            r.mode == (RxFramingMode::Line { ending: LineEnding::Auto }),
            r.max_frames is None,
            !r.include_terminators,
            !r.skip_empty,
    {
        RxFramingConfig {
            mode: RxFramingMode::Line { ending: LineEnding::Auto },
            max_frames: None,
            include_terminators: false,
            skip_empty: false,
        }
    }
}

/// How frame boundaries are detected in the byte stream.
#[derive(Debug, Clone, PartialEq)]
pub enum RxFramingMode {
    /// Split on line endings.
    Line { ending: LineEnding },
    /// Split on a user-supplied byte delimiter sequence.
    Delimiter { delimiter: String, delimiter_encoding: PatternEncoding },
    /// Split based on a length prefix field at the start of each frame.
    LengthPrefixed { prefix_size: u8, endianness: Endianness, initial_offset: Option<usize> },
    /// Split based on start and end marker byte sequences; RX matches any
    /// start marker (earliest wins).
    StartEnd { start: Vec<String>, end: String, marker_encoding: PatternEncoding, include_markers: bool },
    /// SLIP (RFC 1055) framing.
    Slip,
    /// COBS (plain, 0x00-delimited) framing.
    Cobs,
}

/// Line ending style for RX line framing.
#[derive(Debug, Clone, Copy, PartialEq, Eq, Structural)]
pub enum LineEnding {
    /// Splits on `\n` (stripping a preceding `\r`) until a bare `\r` is
    /// confirmed, then splits on `\r` for the rest of the decoder's life.
    Auto,
    /// Split on `\n` only.
    Lf,
    /// Split on bare `\r` only.
    Cr,
    /// Split on exact `\r\n` only.
    Crlf,
}

impl Default for LineEnding {
    fn default() -> (r: Self)
        ensures
            r == LineEnding::Auto,
    {
        LineEnding::Auto
    }
}

/// The default pattern encoding (UTF-8).
pub fn default_encoding() -> (r: PatternEncoding)
    ensures
        r == PatternEncoding::Utf8,
{
    PatternEncoding::Utf8
}

// ---- Protocol presets --------------------------------------------------------

/// Built-in protocol preset: a named bundle of framing/parser defaults.
#[derive(Debug, Clone, Copy, PartialEq, Eq, Structural)]
pub enum ProtocolPreset {
    AtCommand,
    Slip,
    JsonLines,
    Cobs,
    Ndjson,
    Nmea0183,
    ModbusAscii,
}

/// `v` holds exactly one string, equal to `a`.
pub open spec fn strings_are1(v: Vec<String>, a: Seq<char>) -> bool {
    v@.len() == 1 && v@[0]@ == a
}

/// `v` holds exactly two strings, `a` then `b`.
pub open spec fn strings_are2(v: Vec<String>, a: Seq<char>, b: Seq<char>) -> bool {
    v@.len() == 2 && v@[0]@ == a && v@[1]@ == b
}

/// The TX framing implied by a protocol preset.
pub fn preset_tx_framing(p: ProtocolPreset) -> (r: TxFramingConfig)
    ensures
        match p {
            ProtocolPreset::AtCommand => r.mode == (TxFramingMode::Line { ending: TxLineEnding::Cr }),
            ProtocolPreset::Slip => r.mode == TxFramingMode::Slip,
            ProtocolPreset::JsonLines | ProtocolPreset::Ndjson => r.mode == (TxFramingMode::Line { ending: TxLineEnding::Lf }),
            ProtocolPreset::Cobs => r.mode == TxFramingMode::Cobs,
            ProtocolPreset::Nmea0183 => r.mode == TxFramingMode::Nmea,
            ProtocolPreset::ModbusAscii => r.mode matches TxFramingMode::StartEnd { start, end, marker_encoding }
                && strings_are1(start, ":"@) && end@ == "\r\n"@ && marker_encoding == PatternEncoding::Utf8,
        },
{
    match p {
        ProtocolPreset::AtCommand => TxFramingConfig { mode: TxFramingMode::Line { ending: TxLineEnding::Cr } },
        ProtocolPreset::Slip => TxFramingConfig { mode: TxFramingMode::Slip },
        ProtocolPreset::JsonLines | ProtocolPreset::Ndjson => TxFramingConfig {
            mode: TxFramingMode::Line { ending: TxLineEnding::Lf },
        },
        ProtocolPreset::Cobs => TxFramingConfig { mode: TxFramingMode::Cobs },
        ProtocolPreset::Nmea0183 => TxFramingConfig { mode: TxFramingMode::Nmea },
        ProtocolPreset::ModbusAscii => {
            let mut start: Vec<String> = Vec::new();
            start.push(":".to_owned());
            TxFramingConfig {
                mode: TxFramingMode::StartEnd {
                    start,
                    end: "\r\n".to_owned(),
                    marker_encoding: PatternEncoding::Utf8,
                },
            }
        },
    }
}

/// The RX framing implied by a protocol preset.
pub fn preset_rx_framing(p: ProtocolPreset) -> (r: RxFramingConfig)
    ensures
        r.max_frames is None,
        !r.include_terminators,
        r.skip_empty == (p == ProtocolPreset::Ndjson),
        match p {
            ProtocolPreset::AtCommand | ProtocolPreset::JsonLines | ProtocolPreset::Ndjson => r.mode
                == (RxFramingMode::Line { ending: LineEnding::Auto }),
            ProtocolPreset::Slip => r.mode == RxFramingMode::Slip,
            ProtocolPreset::Cobs => r.mode == RxFramingMode::Cobs,
            ProtocolPreset::Nmea0183 => r.mode matches RxFramingMode::StartEnd {
                start,
                end,
                marker_encoding,
                include_markers,
            } && strings_are2(start, "$"@, "!"@) && end@ == "\r\n"@ && marker_encoding
                == PatternEncoding::Utf8 && !include_markers,
            ProtocolPreset::ModbusAscii => r.mode matches RxFramingMode::StartEnd {
                start,
                end,
                marker_encoding,
                include_markers,
            } && strings_are1(start, ":"@) && end@ == "\r\n"@ && marker_encoding == PatternEncoding::Utf8
                && !include_markers,
        },
{
    let (mode, skip_empty) = match p {
        ProtocolPreset::AtCommand | ProtocolPreset::JsonLines => (
            RxFramingMode::Line { ending: LineEnding::Auto },
            false,
        ),
        ProtocolPreset::Slip => (RxFramingMode::Slip, false),
        ProtocolPreset::Cobs => (RxFramingMode::Cobs, false),
        ProtocolPreset::Ndjson => (RxFramingMode::Line { ending: LineEnding::Auto }, true),
        ProtocolPreset::Nmea0183 => {
            let mut start: Vec<String> = Vec::new();
            start.push("$".to_owned());
            start.push("!".to_owned());
            (
                RxFramingMode::StartEnd {
                    start,
                    end: "\r\n".to_owned(),
                    marker_encoding: PatternEncoding::Utf8,
                    include_markers: false,
                },
                false,
            )
        },
        ProtocolPreset::ModbusAscii => {
            let mut start: Vec<String> = Vec::new();
            start.push(":".to_owned());
            (
                RxFramingMode::StartEnd {
                    start,
                    end: "\r\n".to_owned(),
                    marker_encoding: PatternEncoding::Utf8,
                    include_markers: false,
                },
                false,
            )
        },
    };
    RxFramingConfig { mode, max_frames: None, include_terminators: false, skip_empty }
}

/// The RX parser implied by a protocol preset.
pub fn preset_rx_parser(p: ProtocolPreset) -> (r: ParserConfig)
    ensures
        r.custom_prompt is None,
        r.parser_type == match p {
            ProtocolPreset::AtCommand => ParserType::AtCommand,
            ProtocolPreset::Slip | ProtocolPreset::Cobs => ParserType::Raw,
            ProtocolPreset::JsonLines | ProtocolPreset::Ndjson => ParserType::JsonLines,
            ProtocolPreset::Nmea0183 => ParserType::Nmea,
            ProtocolPreset::ModbusAscii => ParserType::ModbusAscii,
        },
        r.validate == (p == ProtocolPreset::Nmea0183 || p == ProtocolPreset::ModbusAscii),
{
    let (parser_type, validate) = match p {
        ProtocolPreset::AtCommand => (ParserType::AtCommand, false),
        ProtocolPreset::Slip | ProtocolPreset::Cobs => (ParserType::Raw, false),
        ProtocolPreset::JsonLines | ProtocolPreset::Ndjson => (ParserType::JsonLines, false),
        ProtocolPreset::Nmea0183 => (ParserType::Nmea, true),
        ProtocolPreset::ModbusAscii => (ParserType::ModbusAscii, true),
    };
    ParserConfig { parser_type, custom_prompt: None, validate }
}

// ---- TX framing configuration -----------------------------------------------

/// TX framing configuration for `write`.
#[derive(Debug, Clone, PartialEq)]
pub struct TxFramingConfig {
    /// TX frame boundary mode.
    pub mode: TxFramingMode,
}

/// How TX frames are constructed around a payload.
#[derive(Debug, Clone, PartialEq)]
pub enum TxFramingMode {
    /// Append a line terminator.
    Line { ending: TxLineEnding },
    /// Append a delimiter byte sequence after the payload.
    Delimiter { delimiter: String, delimiter_encoding: PatternEncoding },
    /// Prepend a length prefix encoding the payload length.
    LengthPrefixed { prefix_size: u8, endianness: Endianness },
    /// Write start marker (`start[0]`), payload, end marker.
    StartEnd { start: Vec<String>, end: String, marker_encoding: PatternEncoding },
    /// SLIP: `END [stuffed payload] END`.
    Slip,
    /// COBS: `0x00 [encoded block] 0x00`.
    Cobs,
    /// NMEA-0183 sentence framing `$<payload>*XX\r\n`.
    Nmea,
}

/// Line ending for TX framing.
#[derive(Debug, Clone, Copy, PartialEq, Eq, Structural)]
pub enum TxLineEnding {
    Lf,
    Cr,
    Crlf,
}

// ---- Shared types -----------------------------------------------------------

/// Byte order for length-prefixed framing.
#[derive(Debug, Clone, Copy, PartialEq, Eq, Structural)]
pub enum Endianness {
    Big,
    Little,
}

impl Default for Endianness {
    fn default() -> (r: Self)
        ensures
            r == Endianness::Big,
    {
        Endianness::Big
    }
}

/// Parser configuration: what to do with each frame's content.
#[derive(Debug, Clone, PartialEq)]
pub struct ParserConfig {
    /// Which parser to use.
    pub parser_type: ParserType,
    /// Optional custom prompt regex for the shell prompt parser.
    pub custom_prompt: Option<String>,
    /// Whether a protocol checksum mismatch drops the frame.
    pub validate: bool,
}

/// Supported parser types.
#[derive(Debug, Clone, Copy, PartialEq, Eq, Structural)]
pub enum ParserType {
    AtCommand,
    JsonLines,
    ShellPrompt,
    Raw,
    Nmea,
    ModbusAscii,
}

} // verus!
