//! RX frame decoding.
//!
//! The stateful [`FrameDecoder`] splits a byte stream into frames (line,
//! delimiter, length-prefixed, start/end marker, SLIP, COBS) and runs the
//! configured parser on each. Its behaviour is specified over a
//! [`DecoderModel`]: one push is a run of boundary-search steps (or, for SLIP
//! and COBS, a fold over the bytes), and every frame goes through
//! [`spec_emit`].

use vstd::prelude::*;
use crate::codec::{decode, spec_decoded, Encoding};
use crate::match_config::spec_pattern_codec;
use crate::text::{find_subsequence, lemma_find, lemma_position, position_of, spec_find, spec_position};
use super::codecs::{
    copy_range, extend_bytes, prefixed_codec_error, starts_with, is_blank_frame, read_length_prefix, spec_is_blank, spec_length_prefix, take_prefix,
    SLIP_END, SLIP_ESC, SLIP_ESC_END, SLIP_ESC_ESC,
};
use super::config::{Endianness, LineEnding, ParserConfig, RxFramingConfig, RxFramingMode};
use super::parsers::{
    build_parser, byte_pieces, opt_bytes, texts, spec_build_parser, spec_parse, DecodeErrorModel, FrameDecodeError, FrameParser,
    ParsedFrame, ParsedModel, ParserModel,
};

verus! {

broadcast use vstd::seq_lib::group_seq_properties;

// ---- frames and outcomes ----------------------------------------------------------

/// A decoded frame with optional parsed content.
#[derive(Debug)]
pub struct Frame {
    /// Raw frame bytes (without delimiters/terminators unless included).
    pub data: Vec<u8>,
    /// Frame number since decoder creation (0-based).
    pub index: usize,
    /// Boundary detection mode used.
    pub frame_type: &'static str,
    /// Parsed frame fields, if a parser is configured.
    pub parsed: Option<ParsedFrame>,
}

/// What a [`Frame`] says.
pub struct FrameModel {
    pub data: Seq<u8>,
    pub index: nat,
    pub frame_type: Seq<char>,
    pub parsed: Option<ParsedModel>,
}

pub open spec fn opt_parsed(p: Option<ParsedFrame>) -> Option<ParsedModel> {
    match p {
        Some(x) => Some(x@),
        None => None,
    }
}

impl View for Frame {
    type V = FrameModel;

    open spec fn view(&self) -> FrameModel {
        FrameModel {
            data: self.data@,
            index: self.index as nat,
            frame_type: self.frame_type@,
            parsed: opt_parsed(self.parsed),
        }
    }
}

/// Result of pushing a chunk through a [`FrameDecoder`]: the frames decoded
/// (also those before a stream-fatal error), the frames dropped for a
/// checksum mismatch, and the stream-fatal error, if any.
#[derive(Debug)]
pub struct PushOutcome {
    /// Frames successfully decoded from this chunk.
    pub frames: Vec<Frame>,
    /// Per-frame drops (checksum mismatches with `validate: true`).
    pub frames_dropped: usize,
    /// Stream-fatal error (SLIP malformed escape).
    pub error: Option<FrameDecodeError>,
}

/// What a [`PushOutcome`] says.
pub struct PushModel {
    pub frames: Seq<FrameModel>,
    pub dropped: nat,
    pub error: Option<DecodeErrorModel>,
}

pub open spec fn frames_view(v: Seq<Frame>) -> Seq<FrameModel> {
    v.map_values(|f: Frame| f@)
}

pub open spec fn opt_error(e: Option<FrameDecodeError>) -> Option<DecodeErrorModel> {
    match e {
        Some(x) => Some(x@),
        None => None,
    }
}

impl View for PushOutcome {
    type V = PushModel;

    open spec fn view(&self) -> PushModel {
        PushModel { frames: frames_view(self.frames@), dropped: self.frames_dropped as nat, error: opt_error(self.error) }
    }
}

pub open spec fn no_output() -> PushModel {
    PushModel { frames: Seq::empty(), dropped: 0, error: None }
}

// ---- decoder states ---------------------------------------------------------------

/// Line-decoder state. `Lf`, `Cr`, `Crlf` are fixed; `AutoLf` starts
/// `ending: auto`, moves to `PendingCr` on a trailing bare `\r`, and to
/// `CrMode` once a bare `\r` is confirmed.
#[derive(Debug, Clone, Copy, PartialEq, Eq, Structural)]
pub enum LineState {
    Lf,
    Cr,
    Crlf,
    /// Split on `\n`, strip a preceding `\r`.
    AutoLf,
    /// A `\r` at this index ended the buffer; the next byte decides.
    PendingCr(usize),
    /// Split on bare `\r` only.
    CrMode,
}

/// SLIP decoder state.
enum SlipState {
    /// Discard bytes until the first END marker.
    BeforeFirstEnd,
    /// Inside a frame; `escaped` after an ESC byte.
    InFrame { buf: Vec<u8>, escaped: bool },
}

/// COBS decoder state.
enum CobsState {
    /// Discard bytes until the first 0x00 delimiter.
    BeforeFirstDelim,
    /// Inside a frame: `decoded` so far, data bytes `remaining` in the
    /// current block, and whether the block ends with an implicit zero.
    InFrame { decoded: Vec<u8>, remaining: u8, pending_zero: bool },
}

enum DecoderMode {
    Line(LineState),
    Delimiter(Vec<u8>),
    LengthPrefixed { prefix_size: u8, endianness: Endianness, remaining_offset: usize, next_payload_len: Option<usize> },
    StartEnd { start: Vec<Vec<u8>>, end: Vec<u8>, include_markers: bool, in_frame: bool },
    Slip { state: SlipState },
    Cobs { state: CobsState },
}

/// What a SLIP state is.
pub enum SlipModel {
    BeforeFirstEnd,
    InFrame { buf: Seq<u8>, escaped: bool },
}

/// What a COBS state is.
pub enum CobsModel {
    BeforeFirstDelim,
    InFrame { decoded: Seq<u8>, remaining: u8, pending_zero: bool },
}

/// What a decoder mode is, with its state.
pub enum ModeModel {
    Line(LineState),
    Delimiter(Seq<u8>),
    LengthPrefixed { prefix_size: u8, endianness: Endianness, remaining_offset: nat, next_payload_len: Option<nat> },
    StartEnd { start: Seq<Seq<u8>>, end: Seq<u8>, include_markers: bool, in_frame: bool },
    Slip(SlipModel),
    Cobs(CobsModel),
}

/// What a [`FrameDecoder`] is: its pending bytes, mode and state, the
/// frames emitted so far, its settings and its parser.
pub struct DecoderModel {
    pub buf: Seq<u8>,
    pub mode: ModeModel,
    pub frame_count: nat,
    pub include_terminators: bool,
    pub skip_empty: bool,
    pub parser: Option<ParserModel>,
}

impl SlipState {
    spec fn model(&self) -> SlipModel {
        match self {
            SlipState::BeforeFirstEnd => SlipModel::BeforeFirstEnd,
            SlipState::InFrame { buf, escaped } => SlipModel::InFrame { buf: buf@, escaped: *escaped },
        }
    }
}

impl CobsState {
    spec fn model(&self) -> CobsModel {
        match self {
            CobsState::BeforeFirstDelim => CobsModel::BeforeFirstDelim,
            CobsState::InFrame { decoded, remaining, pending_zero } => CobsModel::InFrame {
                decoded: decoded@,
                remaining: *remaining,
                pending_zero: *pending_zero,
            },
        }
    }
}

pub open spec fn opt_nat(o: Option<usize>) -> Option<nat> {
    match o {
        Some(n) => Some(n as nat),
        None => None,
    }
}

impl DecoderMode {
    spec fn model(&self) -> ModeModel {
        match self {
            DecoderMode::Line(s) => ModeModel::Line(*s),
            DecoderMode::Delimiter(d) => ModeModel::Delimiter(d@),
            DecoderMode::LengthPrefixed { prefix_size, endianness, remaining_offset, next_payload_len } => ModeModel::LengthPrefixed {
                prefix_size: *prefix_size,
                endianness: *endianness,
                remaining_offset: *remaining_offset as nat,
                next_payload_len: opt_nat(*next_payload_len),
            },
            DecoderMode::StartEnd { start, end, include_markers, in_frame } => ModeModel::StartEnd {
                start: byte_pieces(start@),
                end: end@,
                include_markers: *include_markers,
                in_frame: *in_frame,
            },
            DecoderMode::Slip { state } => ModeModel::Slip(state.model()),
            DecoderMode::Cobs { state } => ModeModel::Cobs(state.model()),
        }
    }
}

pub open spec fn opt_parser(p: Option<FrameParser>) -> Option<ParserModel> {
    match p {
        Some(x) => Some(x@),
        None => None,
    }
}

/// The settings a decoder keeps: every COBS state inside a frame has its
/// implicit zero already applied; markers and delimiters are non-empty;
/// a length prefix is 1, 2 or 4 bytes.
pub open spec fn model_wf(m: DecoderModel) -> bool {
    mode_wf(m.mode)
}

/// The settings of a mode hold.
pub open spec fn mode_wf(mode: ModeModel) -> bool {
    match mode {
        ModeModel::Delimiter(d) => d.len() > 0,
        ModeModel::LengthPrefixed { prefix_size, .. } => prefix_size == 1 || prefix_size == 2 || prefix_size == 4,
        ModeModel::StartEnd { start, end, .. } => start.len() > 0 && end.len() > 0 && forall|i: int|
            0 <= i < start.len() ==> #[trigger] start[i].len() > 0,
        ModeModel::Cobs(CobsModel::InFrame { remaining, pending_zero, .. }) => !(remaining == 0 && pending_zero),
        _ => true,
    }
}

/// The name of a mode, as carried by the frames it produces.
pub open spec fn kind_name(mode: ModeModel) -> Seq<char> {
    match mode {
        ModeModel::Line(_) => "line"@,
        ModeModel::Delimiter(_) => "delimiter"@,
        ModeModel::LengthPrefixed { .. } => "length_prefixed"@,
        ModeModel::StartEnd { .. } => "start_end"@,
        ModeModel::Slip(_) => "slip"@,
        ModeModel::Cobs(_) => "cobs"@,
    }
}

// ---- emission ----------------------------------------------------------------------

/// Emitting one frame's bytes: a blank frame under `skip_empty` is skipped;
/// a frame whose parser reports a checksum mismatch is dropped and
/// counted; any other frame gets the next index. Returns the new frame
/// count and output.
pub open spec fn spec_emit(
    count: nat,
    skip_empty: bool,
    parser: Option<ParserModel>,
    out: PushModel,
    data: Seq<u8>,
    frame_type: Seq<char>,
) -> (nat, PushModel) {
    if skip_empty && spec_is_blank(data) {
        (count, out)
    } else {
        match parser {
            None => (
                count + 1,
                PushModel {
                    frames: out.frames.push(FrameModel { data, index: count, frame_type, parsed: None }),
                    ..out
                },
            ),
            Some(p) => match spec_parse(p, data) {
                Ok(pm) => (
                    count + 1,
                    PushModel {
                        frames: out.frames.push(FrameModel { data, index: count, frame_type, parsed: Some(pm) }),
                        ..out
                    },
                ),
                Err(_) => (count, PushModel { dropped: out.dropped + 1, ..out }),
            },
        }
    }
}

/// `m` after emitting the frame `data`.
pub open spec fn emit_model(m: DecoderModel, out: PushModel, data: Seq<u8>, frame_type: Seq<char>) -> (DecoderModel, PushModel) {
    let (c, o) = spec_emit(m.frame_count, m.skip_empty, m.parser, out, data, frame_type);
    (DecoderModel { frame_count: c, ..m }, o)
}

// ---- boundary search ----------------------------------------------------------------

/// Cut a frame of `split` bytes followed by a `term`-byte terminator off
/// the front of the buffer.
pub open spec fn cut(m: DecoderModel, split: int, term: int) -> (DecoderModel, Option<Seq<u8>>) {
    (
        DecoderModel { buf: m.buf.skip(split + term), ..m },
        Some(if m.include_terminators { m.buf.take(split + term) } else { m.buf.take(split) }),
    )
}

pub open spec fn with_line(m: DecoderModel, s: LineState) -> DecoderModel {
    DecoderModel { mode: ModeModel::Line(s), ..m }
}

/// One line-mode boundary search.
pub open spec fn line_step(m: DecoderModel, st: LineState) -> (DecoderModel, Option<Seq<u8>>) {
    let buf = m.buf;
    match st {
        LineState::Crlf => match spec_find(buf, seq![0x0Du8, 0x0Au8]) {
            Some(p) => cut(m, p, 2),
            None => (m, None),
        },
        LineState::AutoLf => match spec_position(buf, 0x0Au8) {
            Some(lf) => if !m.include_terminators && lf > 0 && buf[lf - 1] == 0x0D {
                cut(m, lf - 1, 2)
            } else {
                cut(m, lf, 1)
            },
            None => match spec_position(buf, 0x0Du8) {
                Some(cr) => if cr + 1 < buf.len() {
                    let (m1, f) = cut(m, cr, 1);
                    (with_line(m1, LineState::CrMode), f)
                } else {
                    (with_line(m, LineState::PendingCr(cr as usize)), None)
                },
                None => (m, None),
            },
        },
        LineState::PendingCr(pos) => if pos + 1 >= buf.len() {
            (m, None)
        } else if buf[pos + 1] == 0x0A {
            let (m1, f) = cut(m, pos as int, 2);
            (with_line(m1, LineState::AutoLf), f)
        } else {
            let (m1, f) = cut(m, pos as int, 1);
            (with_line(m1, LineState::CrMode), f)
        },
        _ => {
            let b: u8 = if st == LineState::Lf { 0x0A } else { 0x0D };
            match spec_position(buf, b) {
                Some(p) => cut(m, p, 1),
                None => (m, None),
            }
        },
    }
}

/// One delimiter-mode boundary search.
pub open spec fn delimiter_step(m: DecoderModel, d: Seq<u8>) -> (DecoderModel, Option<Seq<u8>>) {
    match spec_find(m.buf, d) {
        Some(p) => cut(m, p, d.len() as int),
        None => (m, None),
    }
}

pub open spec fn with_length_state(m: DecoderModel, buf: Seq<u8>, off: nat, next: Option<nat>) -> DecoderModel {
    match m.mode {
        ModeModel::LengthPrefixed { prefix_size, endianness, .. } => DecoderModel {
            buf,
            mode: ModeModel::LengthPrefixed { prefix_size, endianness, remaining_offset: off, next_payload_len: next },
            ..m
        },
        _ => m,
    }
}

/// One length-prefixed step: skip what is left of the initial offset,
/// read the header once enough bytes are there, and cut header plus
/// payload once all of it is there.
pub open spec fn length_step(m: DecoderModel) -> (DecoderModel, Option<Seq<u8>>) {
    match m.mode {
        ModeModel::LengthPrefixed { prefix_size, endianness, remaining_offset, next_payload_len } => {
            let drain: nat = if remaining_offset < m.buf.len() { remaining_offset } else { m.buf.len() };
            let buf = m.buf.skip(drain as int);
            let off = (remaining_offset - drain) as nat;
            let size = prefix_size as nat;
            let next: Option<nat> = match next_payload_len {
                Some(n) => Some(n),
                None => if buf.len() < size {
                    None
                } else {
                    Some(spec_length_prefix(buf.take(size as int), prefix_size, endianness))
                },
            };
            match next {
                None => (with_length_state(m, buf, off, None), None),
                Some(n) => if buf.len() < size + n {
                    (with_length_state(m, buf, off, Some(n)), None)
                } else {
                    (
                        with_length_state(m, buf.skip((size + n) as int), off, None),
                        Some(if m.include_terminators { buf.take((size + n) as int) } else { buf.subrange(size as int, (size + n) as int) }),
                    )
                },
            }
        },
        _ => (m, None),
    }
}

/// The earliest start marker among the first `n`, as (position, length);
/// on a tie the earlier marker wins.
pub open spec fn best_start(markers: Seq<Seq<u8>>, buf: Seq<u8>, n: int) -> Option<(int, nat)>
    decreases n,
{
    if n <= 0 {
        None
    } else {
        let acc = best_start(markers, buf, n - 1);
        match spec_find(buf, markers[n - 1]) {
            None => acc,
            Some(p) => match acc {
                None => Some((p, markers[n - 1].len())),
                Some((bp, bl)) => if p < bp { Some((p, markers[n - 1].len())) } else { acc },
            },
        }
    }
}

/// The longest marker length minus one, over the first `n` markers: the
/// bytes kept while waiting for a start marker.
pub open spec fn keep_len(markers: Seq<Seq<u8>>, n: int) -> nat
    decreases n,
{
    if n <= 0 {
        0
    } else {
        let k = keep_len(markers, n - 1);
        let l: nat = if markers[n - 1].len() > 0 { (markers[n - 1].len() - 1) as nat } else { 0 };
        if l > k { l } else { k }
    }
}

pub open spec fn with_start_end(m: DecoderModel, buf: Seq<u8>, in_frame: bool) -> DecoderModel {
    match m.mode {
        ModeModel::StartEnd { start, end, include_markers, .. } => DecoderModel {
            buf,
            mode: ModeModel::StartEnd { start, end, include_markers, in_frame },
            ..m
        },
        _ => m,
    }
}

/// One start/end-marker step: find the earliest start marker (keeping a
/// tail that may hold a partial marker when there is none), then the end
/// marker after it.
pub open spec fn start_end_step(m: DecoderModel) -> (DecoderModel, Option<Seq<u8>>) {
    match m.mode {
        ModeModel::StartEnd { start, end, include_markers, in_frame } => {
            let found: Option<Seq<u8>> = if in_frame {
                Some(m.buf)
            } else {
                match best_start(start, m.buf, start.len() as int) {
                    Some((pos, len)) => Some(if include_markers { m.buf.skip(pos) } else { m.buf.skip(pos).skip(len as int) }),
                    None => None,
                }
            };
            match found {
                None => {
                    let keep = keep_len(start, start.len() as int);
                    let buf = if m.buf.len() > keep { m.buf.skip(m.buf.len() - keep) } else { m.buf };
                    (with_start_end(m, buf, false), None)
                },
                Some(buf) => match spec_find(buf, end) {
                    Some(p) => (
                        with_start_end(m, buf.skip(p + end.len()), false),
                        Some(if include_markers { buf.take(p + end.len()) } else { buf.take(p) }),
                    ),
                    None => (with_start_end(m, buf, true), None),
                },
            }
        },
        _ => (m, None),
    }
}

/// One boundary search in a mode that cuts frames off a buffer.
pub open spec fn mode_step(m: DecoderModel) -> (DecoderModel, Option<Seq<u8>>) {
    match m.mode {
        ModeModel::Line(st) => line_step(m, st),
        ModeModel::Delimiter(d) => delimiter_step(m, d),
        ModeModel::LengthPrefixed { .. } => length_step(m),
        ModeModel::StartEnd { .. } => start_end_step(m),
        _ => (m, None),
    }
}

/// Repeated boundary searches until none finds a frame, emitting each frame.
pub open spec fn run_steps(m: DecoderModel, out: PushModel) -> (DecoderModel, PushModel)
    decreases m.buf.len(),
{
    let (m1, f) = mode_step(m);
    match f {
        None => (m1, out),
        Some(data) => if m1.buf.len() < m.buf.len() {
            let (m2, o2) = emit_model(m1, out, data, kind_name(m.mode));
            run_steps(m2, o2)
        } else {
            (m1, out)
        },
    }
}

// ---- SLIP and COBS ------------------------------------------------------------------

pub open spec fn with_slip(m: DecoderModel, s: SlipModel) -> DecoderModel {
    DecoderModel { mode: ModeModel::Slip(s), ..m }
}

/// One SLIP byte: wait for END; inside a frame END emits, ESC escapes,
/// an escaped byte other than ESC_END/ESC_ESC is a stream error.
pub open spec fn slip_byte(m: DecoderModel, out: PushModel, b: u8) -> (DecoderModel, PushModel) {
    match m.mode {
        ModeModel::Slip(SlipModel::BeforeFirstEnd) => if b == SLIP_END {
            (with_slip(m, SlipModel::InFrame { buf: Seq::empty(), escaped: false }), out)
        } else {
            (m, out)
        },
        ModeModel::Slip(SlipModel::InFrame { buf, escaped }) => if escaped {
            if b == SLIP_ESC_END {
                (with_slip(m, SlipModel::InFrame { buf: buf.push(SLIP_END), escaped: false }), out)
            } else if b == SLIP_ESC_ESC {
                (with_slip(m, SlipModel::InFrame { buf: buf.push(SLIP_ESC), escaped: false }), out)
            } else {
                (
                    with_slip(m, SlipModel::BeforeFirstEnd),
                    PushModel { error: Some(DecodeErrorModel::SlipInvalidEscape(b)), ..out },
                )
            }
        } else if b == SLIP_END {
            emit_model(with_slip(m, SlipModel::InFrame { buf: Seq::empty(), escaped: false }), out, buf, "slip"@)
        } else if b == SLIP_ESC {
            (with_slip(m, SlipModel::InFrame { buf, escaped: true }), out)
        } else {
            (with_slip(m, SlipModel::InFrame { buf: buf.push(b), escaped: false }), out)
        },
        _ => (m, out),
    }
}

/// SLIP decoding of `input`; after a stream error the rest of the input
/// stays pending.
pub open spec fn slip_run(m: DecoderModel, out: PushModel, input: Seq<u8>) -> (DecoderModel, PushModel)
    decreases input.len(),
{
    if input.len() == 0 {
        (m, out)
    } else {
        let (m1, o1) = slip_byte(m, out, input[0]);
        if o1.error is Some {
            (DecoderModel { buf: input.skip(1), ..m1 }, o1)
        } else {
            slip_run(m1, o1, input.skip(1))
        }
    }
}

pub open spec fn with_cobs(m: DecoderModel, s: CobsModel) -> DecoderModel {
    DecoderModel { mode: ModeModel::Cobs(s), ..m }
}

/// A block whose data bytes are all copied adds its implicit zero.
pub open spec fn cobs_flush(s: CobsModel) -> CobsModel {
    match s {
        CobsModel::InFrame { decoded, remaining, pending_zero } => if remaining == 0 && pending_zero {
            CobsModel::InFrame { decoded: decoded.push(0), remaining: 0, pending_zero: false }
        } else {
            s
        },
        _ => s,
    }
}

/// A decoded COBS frame without the implicit zero of its last block.
pub open spec fn cobs_payload(d: Seq<u8>) -> Seq<u8> {
    if d.len() > 0 && d.last() == 0 {
        d.drop_last()
    } else {
        d
    }
}

/// One COBS byte: wait for 0x00; inside a frame copy data bytes, read a
/// code byte (0xFF: 254 bytes, no zero; k: k - 1 bytes and a zero), and
/// on 0x00 emit the frame.
pub open spec fn cobs_byte(m: DecoderModel, out: PushModel, b: u8) -> (DecoderModel, PushModel) {
    match m.mode {
        ModeModel::Cobs(CobsModel::BeforeFirstDelim) => if b == 0 {
            (with_cobs(m, CobsModel::InFrame { decoded: Seq::empty(), remaining: 0, pending_zero: false }), out)
        } else {
            (m, out)
        },
        ModeModel::Cobs(CobsModel::InFrame { decoded, remaining, pending_zero }) => if remaining > 0 {
            (
                with_cobs(
                    m,
                    cobs_flush(CobsModel::InFrame { decoded: decoded.push(b), remaining: (remaining - 1) as u8, pending_zero }),
                ),
                out,
            )
        } else if b == 0 {
            emit_model(with_cobs(m, CobsModel::BeforeFirstDelim), out, cobs_payload(decoded), "cobs"@)
        } else if b == 0xFF {
            (with_cobs(m, CobsModel::InFrame { decoded, remaining: 254, pending_zero: false }), out)
        } else {
            (with_cobs(m, cobs_flush(CobsModel::InFrame { decoded, remaining: (b - 1) as u8, pending_zero: true })), out)
        },
        _ => (m, out),
    }
}

/// COBS decoding of `input`.
pub open spec fn cobs_run(m: DecoderModel, out: PushModel, input: Seq<u8>) -> (DecoderModel, PushModel)
    decreases input.len(),
{
    if input.len() == 0 {
        (m, out)
    } else {
        let (m1, o1) = cobs_byte(m, out, input[0]);
        cobs_run(m1, o1, input.skip(1))
    }
}

// ---- push and flush -----------------------------------------------------------------

/// What one push does: the chunk is appended to the pending bytes, which
/// are then decoded.
pub open spec fn spec_push(m: DecoderModel, chunk: Seq<u8>) -> (DecoderModel, PushModel) {
    let input = m.buf + chunk;
    match m.mode {
        ModeModel::Slip(_) => slip_run(DecoderModel { buf: Seq::empty(), ..m }, no_output(), input),
        ModeModel::Cobs(_) => cobs_run(DecoderModel { buf: Seq::empty(), ..m }, no_output(), input),
        _ => run_steps(DecoderModel { buf: input, ..m }, no_output()),
    }
}

/// What flushing does: a non-empty partial frame (the SLIP/COBS frame in
/// progress, else the pending bytes) is emitted unparsed with the next
/// index.
pub open spec fn spec_flush(m: DecoderModel) -> (DecoderModel, Option<FrameModel>) {
    let (data, m1): (Seq<u8>, DecoderModel) = match m.mode {
        ModeModel::Slip(SlipModel::InFrame { buf, escaped }) => (
            buf,
            with_slip(m, SlipModel::InFrame { buf: Seq::empty(), escaped }),
        ),
        ModeModel::Cobs(CobsModel::InFrame { decoded, remaining, pending_zero }) => (
            decoded,
            with_cobs(m, CobsModel::InFrame { decoded: Seq::empty(), remaining, pending_zero }),
        ),
        _ => (m.buf, DecoderModel { buf: Seq::empty(), ..m }),
    };
    if data.len() == 0 {
        (m, None)
    } else {
        (
            DecoderModel { frame_count: m.frame_count + 1, ..m1 },
            Some(FrameModel { data, index: m.frame_count, frame_type: kind_name(m.mode), parsed: None }),
        )
    }
}

// ---- construction ---------------------------------------------------------------------

/// Why a configuration is refused: a message, or a codec failure whose
/// message starts with the given text.
pub enum ConfigError {
    Message(Seq<char>),
    Codec(Seq<char>),
}

/// The line state an ending starts in.
pub open spec fn line_state_for(e: LineEnding) -> LineState {
    match e {
        LineEnding::Auto => LineState::AutoLf,
        LineEnding::Lf => LineState::Lf,
        LineEnding::Cr => LineState::Cr,
        LineEnding::Crlf => LineState::Crlf,
    }
}

/// The first `n` start markers decoded, or the first failure.
pub open spec fn decode_markers(markers: Seq<Seq<char>>, enc: Encoding, n: int) -> Result<Seq<Seq<u8>>, ConfigError>
    decreases n,
{
    if n <= 0 {
        Ok(Seq::empty())
    } else {
        match decode_markers(markers, enc, n - 1) {
            Err(e) => Err(e),
            Ok(acc) => match spec_decoded(enc, markers[n - 1]) {
                None => Err(ConfigError::Codec("Invalid start marker encoding: "@)),
                Some(b) => if b.len() == 0 {
                    Err(ConfigError::Message("Start and end markers must not be empty"@))
                } else {
                    Ok(acc.push(b))
                },
            },
        }
    }
}

/// The mode and initial state a framing mode configures, or why it is refused.
pub open spec fn spec_mode_for(mode: RxFramingMode) -> Result<ModeModel, ConfigError> {
    match mode {
        RxFramingMode::Line { ending } => Ok(ModeModel::Line(line_state_for(ending))),
        RxFramingMode::Delimiter { delimiter, delimiter_encoding } => match spec_decoded(
            spec_pattern_codec(delimiter_encoding),
            delimiter@,
        ) {
            None => Err(ConfigError::Codec("Invalid delimiter encoding: "@)),
            Some(b) => if b.len() == 0 {
                Err(ConfigError::Message("Delimiter must not be empty"@))
            } else {
                Ok(ModeModel::Delimiter(b))
            },
        },
        RxFramingMode::LengthPrefixed { prefix_size, endianness, initial_offset } => if !(prefix_size == 1
            || prefix_size == 2 || prefix_size == 4) {
            Err(ConfigError::Message("prefix_size must be 1, 2, or 4"@))
        } else {
            Ok(ModeModel::LengthPrefixed {
                prefix_size,
                endianness,
                remaining_offset: match initial_offset {
                    Some(o) => o as nat,
                    None => 0,
                },
                next_payload_len: None,
            })
        },
        RxFramingMode::StartEnd { start, end, marker_encoding, include_markers } => if start@.len() == 0 {
            Err(ConfigError::Message("Start markers must not be empty"@))
        } else {
            let enc = spec_pattern_codec(marker_encoding);
            match decode_markers(texts(start@), enc, start@.len() as int) {
                Err(e) => Err(e),
                Ok(starts) => match spec_decoded(enc, end@) {
                    None => Err(ConfigError::Codec("Invalid end marker encoding: "@)),
                    Some(e) => if e.len() == 0 {
                        Err(ConfigError::Message("Start and end markers must not be empty"@))
                    } else {
                        Ok(ModeModel::StartEnd { start: starts, end: e, include_markers, in_frame: false })
                    },
                },
            }
        },
        RxFramingMode::Slip => Ok(ModeModel::Slip(SlipModel::BeforeFirstEnd)),
        RxFramingMode::Cobs => Ok(ModeModel::Cobs(CobsModel::BeforeFirstDelim)),
    }
}

/// The decoder a configuration creates, or why it is refused: the framing
/// mode is checked first, then the parser.
pub open spec fn spec_new(config: RxFramingConfig, parser_config: Option<ParserConfig>) -> Result<DecoderModel, ConfigError> {
    match spec_mode_for(config.mode) {
        Err(e) => Err(e),
        Ok(mode) => {
            let parser: Result<Option<ParserModel>, Seq<char>> = match parser_config {
                Some(pc) => match spec_build_parser(pc) {
                    Ok(p) => Ok(Some(p)),
                    Err(e) => Err(e),
                },
                None => Ok(None),
            };
            match parser {
                Err(e) => Err(ConfigError::Message(e)),
                Ok(p) => Ok(DecoderModel {
                    buf: Seq::empty(),
                    mode,
                    frame_count: 0,
                    include_terminators: config.include_terminators,
                    skip_empty: config.skip_empty,
                    parser: p,
                }),
            }
        },
    }
}

pub open spec fn opt_config(p: Option<&ParserConfig>) -> Option<ParserConfig> {
    match p {
        Some(c) => Some(*c),
        None => None,
    }
}

pub open spec fn opt_frame(f: Option<Frame>) -> Option<FrameModel> {
    match f {
        Some(x) => Some(x@),
        None => None,
    }
}

// ---- the decoder --------------------------------------------------------------------

/// Stateful frame boundary detector. Push chunks with [`FrameDecoder::push`]
/// to receive decoded [`Frame`]s.
pub struct FrameDecoder {
    /// Bytes of an incomplete frame.
    buf: Vec<u8>,
    /// How frame boundaries are detected, with the detector's state.
    mode: DecoderMode,
    /// Frames emitted so far.
    frame_count: usize,
    /// Include terminators in frame data.
    include_terminators: bool,
    /// Skip frames whose data is empty or whitespace-only.
    skip_empty: bool,
    /// Parser for frame content.
    parser: Option<FrameParser>,
}

impl View for FrameDecoder {
    type V = DecoderModel;

    closed spec fn view(&self) -> DecoderModel {
        DecoderModel {
            buf: self.buf@,
            mode: self.mode.model(),
            frame_count: self.frame_count as nat,
            include_terminators: self.include_terminators,
            skip_empty: self.skip_empty,
            parser: opt_parser(self.parser),
        }
    }
}

/// Emit one frame into `out`: skip a blank frame under `skip_empty`, run
/// the parser, drop and count a frame whose checksum does not match, and
/// give any other frame the next index.
fn emit_frame(
    data: Vec<u8>,
    frame_type: &'static str,
    frame_count: &mut usize,
    skip_empty: bool,
    parser: &Option<FrameParser>,
    out: &mut PushOutcome,
)
    requires
        *old(frame_count) < usize::MAX,
        old(out).frames_dropped < usize::MAX,
    ensures
        (*final(frame_count) as nat, final(out)@) == spec_emit(
            *old(frame_count) as nat,
            skip_empty,
            opt_parser(*parser),
            old(out)@,
            data@,
            frame_type@,
        ),
{
    if skip_empty && is_blank_frame(&data) {
        return;
    }
    let parsed = match parser {
        Some(p) => match p.parse(&data) {
            Ok(pf) => Some(pf),
            Err(_) => {
                // A parser reports only checksum mismatches: drop and count.
                out.frames_dropped = out.frames_dropped + 1;
                return;
            },
        },
        None => None,
    };
    let index = *frame_count;
    *frame_count = index + 1;
    let ghost before = out.frames@;
    let frame = Frame { data, index, frame_type, parsed };
    out.frames.push(frame);
    assert(frames_view(out.frames@) =~= frames_view(before).push(frame@));
}

/// Extract the next frame when `delim` appears in `buf`; the delimiter is
/// always drained and kept in the frame only when `include_terminators`.
pub fn extract_delimited(buf: &mut Vec<u8>, delim: &[u8], include_terminators: bool) -> (r: Option<Vec<u8>>)
    ensures
        match spec_find(old(buf)@, delim@) {
            Some(p) => r matches Some(f) && f@ == (if include_terminators {
                old(buf)@.take(p + delim@.len())
            } else {
                old(buf)@.take(p)
            }) && final(buf)@ == old(buf)@.skip(p + delim@.len()),
            None => r is None && final(buf)@ == old(buf)@,
        },
{
    proof {
        lemma_find(buf@, delim@);
    }
    let n = buf.len();
    match find_subsequence(buf.as_slice(), delim) {
        Some(pos) => {
            assert(pos + delim@.len() <= n);
            let end = pos + delim.len();
            let fb = if include_terminators {
                copy_range(buf.as_slice(), 0, end)
            } else {
                copy_range(buf.as_slice(), 0, pos)
            };
            let _ = take_prefix(buf, end);
            Some(fb)
        },
        None => None,
    }
}

proof fn lemma_best_start(markers: Seq<Seq<u8>>, buf: Seq<u8>, n: int)
    requires
        n <= markers.len(),
    ensures
        best_start(markers, buf, n) matches Some((p, l)) ==> 0 <= p && p + l <= buf.len(),
    decreases n,
{
    if n > 0 {
        lemma_best_start(markers, buf, n - 1);
        lemma_find(buf, markers[n - 1]);
    }
}

proof fn lemma_line_step(m: DecoderModel, st: LineState)
    requires
        m.mode == ModeModel::Line(st),
    ensures
        line_step(m, st).0.buf.len() <= m.buf.len(),
        line_step(m, st).1 is Some ==> line_step(m, st).0.buf.len() < m.buf.len(),
        line_step(m, st).0.mode is Line,
        line_step(m, st).0.frame_count == m.frame_count,
        line_step(m, st).0.skip_empty == m.skip_empty,
        line_step(m, st).0.parser == m.parser,
        line_step(m, st).0.include_terminators == m.include_terminators,
{
    lemma_position(m.buf, 0x0Au8);
    lemma_position(m.buf, 0x0Du8);
    lemma_find(m.buf, seq![0x0Du8, 0x0Au8]);
}

proof fn lemma_start_end_step(m: DecoderModel)
    requires
        model_wf(m),
        m.mode is StartEnd,
    ensures
        start_end_step(m).0.buf.len() <= m.buf.len(),
        start_end_step(m).1 is Some ==> start_end_step(m).0.buf.len() < m.buf.len(),
        model_wf(start_end_step(m).0),
        start_end_step(m).0.mode is StartEnd,
        start_end_step(m).0.frame_count == m.frame_count,
        start_end_step(m).0.skip_empty == m.skip_empty,
        start_end_step(m).0.parser == m.parser,
        start_end_step(m).0.include_terminators == m.include_terminators,
{
    if let ModeModel::StartEnd { start, end, include_markers, in_frame } = m.mode {
        lemma_best_start(start, m.buf, start.len() as int);
        if let Some((pos, len)) = best_start(start, m.buf, start.len() as int) {
            let b1 = if include_markers { m.buf.skip(pos) } else { m.buf.skip(pos).skip(len as int) };
            lemma_find(b1, end);
        }
        lemma_find(m.buf, end);
    }
}

/// Each boundary search keeps the decoder's settings, and one that finds a
/// frame consumes at least one byte.
proof fn lemma_step(m: DecoderModel)
    requires
        model_wf(m),
    ensures
        model_wf(mode_step(m).0),
        mode_step(m).0.frame_count == m.frame_count,
        mode_step(m).0.skip_empty == m.skip_empty,
        mode_step(m).0.parser == m.parser,
        mode_step(m).0.include_terminators == m.include_terminators,
        mode_step(m).0.buf.len() <= m.buf.len(),
        mode_step(m).1 is Some ==> mode_step(m).0.buf.len() < m.buf.len(),
        kind_name(mode_step(m).0.mode) == kind_name(m.mode),
        !(mode_step(m).0.mode is Slip) && !(mode_step(m).0.mode is Cobs) <== !(m.mode is Slip) && !(m.mode is Cobs),
{
    match m.mode {
        ModeModel::Line(st) => {
            lemma_line_step(m, st);
        },
        ModeModel::Delimiter(d) => {
            lemma_find(m.buf, d);
        },
        ModeModel::LengthPrefixed { .. } => {},
        ModeModel::StartEnd { .. } => {
            lemma_start_end_step(m);
        },
        _ => {},
    }
}

proof fn lemma_markers_err(markers: Seq<Seq<char>>, enc: Encoding, k: int, n: int)
    requires
        0 < k <= n,
        decode_markers(markers, enc, k) is Err,
    ensures
        decode_markers(markers, enc, n) == decode_markers(markers, enc, k),
    decreases n - k,
{
    if n > k {
        lemma_markers_err(markers, enc, k, n - 1);
    }
}

proof fn lemma_markers_nonempty(markers: Seq<Seq<char>>, enc: Encoding, n: int)
    requires
        n <= markers.len(),
    ensures
        decode_markers(markers, enc, n) matches Ok(ms) ==> ms.len() == (if n < 0 { 0 } else { n }) && forall|i: int|
            0 <= i < ms.len() ==> #[trigger] ms[i].len() > 0,
    decreases n,
{
    if n > 0 {
        lemma_markers_nonempty(markers, enc, n - 1);
    }
}

/// The earliest start marker in `buf`, as (position, length).
#[verifier::rlimit(40)]
fn find_start(buf: &[u8], start: &Vec<Vec<u8>>) -> (r: Option<(usize, usize)>)
    ensures
        match best_start(byte_pieces(start@), buf@, start@.len() as int) {
            Some((p, l)) => (r matches Some((a, b)) && a == p && b == l),
            None => r is None,
        },
{
    let ghost markers = byte_pieces(start@);
    let mut best: Option<(usize, usize)> = None;
    let mut i: usize = 0;
    while i < start.len()
        invariant
            i <= start@.len(),
            markers == byte_pieces(start@),
            match best_start(markers, buf@, i as int) {
                Some((p, l)) => (best matches Some((a, b)) && a == p && b == l),
                None => best is None,
            },
        decreases start@.len() - i,
    {
        let marker: &Vec<u8> = &start[i];
        assert(markers[i as int] == marker@);
        match find_subsequence(buf, marker.as_slice()) {
            Some(pos) => {
                match best {
                    Some((bp, _)) => {
                        if pos < bp {
                            best = Some((pos, marker.len()));
                        }
                    },
                    None => {
                        best = Some((pos, marker.len()));
                    },
                }
            },
            None => {},
        }
        i += 1;
    }
    best
}

/// The bytes kept while no start marker has been seen.
fn start_keep(start: &Vec<Vec<u8>>) -> (r: usize)
    ensures
        r == keep_len(byte_pieces(start@), start@.len() as int),
{
    let ghost markers = byte_pieces(start@);
    let mut keep: usize = 0;
    let mut i: usize = 0;
    while i < start.len()
        invariant
            i <= start@.len(),
            markers == byte_pieces(start@),
            keep == keep_len(markers, i as int),
        decreases start@.len() - i,
    {
        let marker: &Vec<u8> = &start[i];
        assert(markers[i as int] == marker@);
        let l = if marker.len() > 0 { marker.len() - 1 } else { 0 };
        if l > keep {
            keep = l;
        }
        i += 1;
    }
    keep
}

impl FrameDecoder {
    /// The decoder's settings hold (see [`model_wf`]).
    pub open spec fn wf(&self) -> bool {
        model_wf(self@)
    }

    /// Split off a frame of `split_pos` bytes followed by a `term_len`-byte
    /// terminator, keeping the terminator when `include_terminators`.
    fn take_frame(&mut self, split_pos: usize, term_len: usize) -> (r: Vec<u8>)
        requires
            split_pos + term_len <= old(self)@.buf.len(),
        ensures
            (final(self)@, Some(r@)) == cut(old(self)@, split_pos as int, term_len as int),
    {
        let n = self.buf.len();
        assert(split_pos + term_len <= n);
        let end = split_pos + term_len;
        let fb = if self.include_terminators {
            copy_range(self.buf.as_slice(), 0, end)
        } else {
            copy_range(self.buf.as_slice(), 0, split_pos)
        };
        let _ = take_prefix(&mut self.buf, end);
        fb
    }

    /// Split on the single byte `b`.
    fn match_line_byte(&mut self, b: u8) -> (r: Option<Vec<u8>>)
        ensures
            (final(self)@, opt_bytes(r)) == (match spec_position(old(self)@.buf, b) {
                Some(p) => cut(old(self)@, p, 1),
                None => (old(self)@, None::<Seq<u8>>),
            }),
    {
        match position_of(self.buf.as_slice(), b) {
            Some(pos) => Some(self.take_frame(pos, 1)),
            None => None,
        }
    }

    /// Split on an exact `\r\n`.
    fn match_line_crlf(&mut self) -> (r: Option<Vec<u8>>)
        ensures
            (final(self)@, opt_bytes(r)) == (match spec_find(old(self)@.buf, seq![0x0Du8, 0x0Au8]) {
                Some(p) => cut(old(self)@, p, 2),
                None => (old(self)@, None::<Seq<u8>>),
            }),
    {
        let mut crlf: Vec<u8> = Vec::new();
        crlf.push(0x0D);
        crlf.push(0x0A);
        assert(crlf@ =~= seq![0x0Du8, 0x0Au8]);
        proof {
            lemma_find(self.buf@, crlf@);
        }
        match find_subsequence(self.buf.as_slice(), crlf.as_slice()) {
            Some(pos) => Some(self.take_frame(pos, 2)),
            None => None,
        }
    }

    fn set_line_state(&mut self, st: LineState)
        requires
            old(self)@.mode is Line,
        ensures
            final(self)@ == with_line(old(self)@, st),
    {
        self.mode = DecoderMode::Line(st);
    }

    /// `auto` line endings: split on `\n` (dropping a `\r` before it), or
    /// detect a bare `\r`: confirmed when more bytes follow it, pending when
    /// it ends the buffer.
    fn match_auto_lf(&mut self) -> (r: Option<Vec<u8>>)
        requires
            old(self)@.mode == ModeModel::Line(LineState::AutoLf),
        ensures
            (final(self)@, opt_bytes(r)) == line_step(old(self)@, LineState::AutoLf),
    {
        proof {
            lemma_position(self.buf@, 0x0Au8);
            lemma_position(self.buf@, 0x0Du8);
        }
        if let Some(lf_pos) = position_of(self.buf.as_slice(), 0x0A) {
            if !self.include_terminators && lf_pos > 0 && self.buf[lf_pos - 1] == 0x0D {
                return Some(self.take_frame(lf_pos - 1, 2));
            }
            return Some(self.take_frame(lf_pos, 1));
        }
        if let Some(cr_pos) = position_of(self.buf.as_slice(), 0x0D) {
            if cr_pos + 1 < self.buf.len() {
                let fb = self.take_frame(cr_pos, 1);
                self.set_line_state(LineState::CrMode);
                return Some(fb);
            }
            self.set_line_state(LineState::PendingCr(cr_pos));
            return None;
        }
        None
    }

    /// A `\r` ended the buffer earlier; the byte after it decides between
    /// CRLF and a bare CR.
    fn match_pending_cr(&mut self, cr_pos: usize) -> (r: Option<Vec<u8>>)
        requires
            old(self)@.mode == ModeModel::Line(LineState::PendingCr(cr_pos)),
        ensures
            (final(self)@, opt_bytes(r)) == line_step(old(self)@, LineState::PendingCr(cr_pos)),
    {
        if cr_pos >= self.buf.len() || cr_pos + 1 >= self.buf.len() {
            return None;
        }
        if self.buf[cr_pos + 1] == 0x0A {
            let fb = self.take_frame(cr_pos, 2);
            self.set_line_state(LineState::AutoLf);
            return Some(fb);
        }
        let fb = self.take_frame(cr_pos, 1);
        self.set_line_state(LineState::CrMode);
        Some(fb)
    }

    fn set_length_state(&mut self, off: usize, next: Option<usize>)
        requires
            old(self)@.mode is LengthPrefixed,
        ensures
            final(self)@ == with_length_state(old(self)@, old(self)@.buf, off as nat, opt_nat(next)),
    {
        match &self.mode {
            DecoderMode::LengthPrefixed { prefix_size, endianness, .. } => {
                let (p, e) = (*prefix_size, *endianness);
                self.mode = DecoderMode::LengthPrefixed { prefix_size: p, endianness: e, remaining_offset: off, next_payload_len: next };
            },
            _ => {},
        }
    }

    /// Length-prefixed framing: skip the initial offset, read the header,
    /// then cut header and payload once all of it has arrived.
    fn match_length_prefixed(&mut self) -> (r: Option<Vec<u8>>)
        requires
            old(self)@.mode is LengthPrefixed,
            model_wf(old(self)@),
        ensures
            (final(self)@, opt_bytes(r)) == length_step(old(self)@),
    {
        let (prefix_size, endianness, off0, next0) = match &self.mode {
            DecoderMode::LengthPrefixed { prefix_size, endianness, remaining_offset, next_payload_len } => (
                *prefix_size,
                *endianness,
                *remaining_offset,
                *next_payload_len,
            ),
            _ => {
                return None;
            },
        };
        let drain = if off0 < self.buf.len() { off0 } else { self.buf.len() };
        let _ = take_prefix(&mut self.buf, drain);
        let off = off0 - drain;
        let needed = prefix_size as usize;
        let next = match next0 {
            Some(n) => n,
            None => {
                if self.buf.len() < needed {
                    self.set_length_state(off, None);
                    return None;
                }
                let head = copy_range(self.buf.as_slice(), 0, needed);
                read_length_prefix(head.as_slice(), prefix_size, endianness)
            },
        };
        let total = match needed.checked_add(next) {
            Some(t) => t,
            None => {
                self.set_length_state(off, Some(next));
                return None;
            },
        };
        if self.buf.len() < total {
            self.set_length_state(off, Some(next));
            return None;
        }
        let frame_bytes = if self.include_terminators {
            copy_range(self.buf.as_slice(), 0, total)
        } else {
            copy_range(self.buf.as_slice(), needed, total)
        };
        let _ = take_prefix(&mut self.buf, total);
        self.set_length_state(off, None);
        Some(frame_bytes)
    }

    fn set_in_frame(&mut self, v: bool)
        requires
            old(self)@.mode is StartEnd,
        ensures
            final(self)@ == with_start_end(old(self)@, old(self)@.buf, v),
    {
        match &mut self.mode {
            DecoderMode::StartEnd { in_frame, .. } => {
                *in_frame = v;
            },
            _ => {},
        }
    }

    /// Start/end-marker framing.
    fn match_start_end(&mut self) -> (r: Option<Vec<u8>>)
        requires
            old(self)@.mode is StartEnd,
            model_wf(old(self)@),
        ensures
            (final(self)@, opt_bytes(r)) == start_end_step(old(self)@),
    {
        let (with_markers, in_frame) = match &self.mode {
            DecoderMode::StartEnd { include_markers, in_frame, .. } => (*include_markers, *in_frame),
            _ => {
                return None;
            },
        };
        let ghost m0 = self@;
        if !in_frame {
            proof {
                if let ModeModel::StartEnd { start, .. } = m0.mode {
                    lemma_best_start(start, m0.buf, start.len() as int);
                }
            }
            let best = match &self.mode {
                DecoderMode::StartEnd { start, .. } => find_start(self.buf.as_slice(), start),
                _ => None,
            };
            match best {
                Some((pos, marker_len)) => {
                    let _ = take_prefix(&mut self.buf, pos);
                    if !with_markers {
                        let _ = take_prefix(&mut self.buf, marker_len);
                    }
                },
                None => {
                    let keep = match &self.mode {
                        DecoderMode::StartEnd { start, .. } => start_keep(start),
                        _ => 0,
                    };
                    if self.buf.len() > keep {
                        let n = self.buf.len() - keep;
                        let _ = take_prefix(&mut self.buf, n);
                    }
                    self.set_in_frame(false);
                    return None;
                },
            }
        }
        let ghost b1 = self@.buf;
        let found = match &self.mode {
            DecoderMode::StartEnd { end, .. } => {
                proof {
                    lemma_find(self.buf@, end@);
                }
                let n = self.buf.len();
                match find_subsequence(self.buf.as_slice(), end.as_slice()) {
                    Some(p) => {
                        assert(p + end@.len() <= n);
                        Some((p, p + end.len()))
                    },
                    None => None,
                }
            },
            _ => None,
        };
        match found {
            Some((p, total)) => {
                let fb = if with_markers {
                    copy_range(self.buf.as_slice(), 0, total)
                } else {
                    copy_range(self.buf.as_slice(), 0, p)
                };
                let _ = take_prefix(&mut self.buf, total);
                self.set_in_frame(false);
                Some(fb)
            },
            None => {
                self.set_in_frame(true);
                None
            },
        }
    }

    /// One boundary search in the current mode.
    fn next_frame(&mut self) -> (r: Option<Vec<u8>>)
        requires
            model_wf(old(self)@),
            !(old(self)@.mode is Slip),
            !(old(self)@.mode is Cobs),
        ensures
            (final(self)@, opt_bytes(r)) == mode_step(old(self)@),
    {
        match &self.mode {
            DecoderMode::Line(st) => {
                let st = *st;
                match st {
                    LineState::Lf => self.match_line_byte(0x0A),
                    LineState::Cr => self.match_line_byte(0x0D),
                    LineState::Crlf => self.match_line_crlf(),
                    LineState::AutoLf => self.match_auto_lf(),
                    LineState::PendingCr(pos) => self.match_pending_cr(pos),
                    LineState::CrMode => self.match_line_byte(0x0D),
                }
            },
            DecoderMode::Delimiter(_) => {
                let with_markers = self.include_terminators;
                match &self.mode {
                    DecoderMode::Delimiter(d) => extract_delimited(&mut self.buf, d.as_slice(), with_markers),
                    _ => None,
                }
            },
            DecoderMode::LengthPrefixed { .. } => self.match_length_prefixed(),
            DecoderMode::StartEnd { .. } => self.match_start_end(),
            _ => None,
        }
    }

    /// SLIP decoding of all pending bytes, byte by byte.
    fn slip_decode(&mut self, out: &mut PushOutcome)
        requires
            old(self)@.mode is Slip,
            old(out)@ == no_output(),
            old(self)@.frame_count + old(self)@.buf.len() <= usize::MAX,
        ensures
            (final(self)@, final(out)@) == slip_run(
                DecoderModel { buf: Seq::empty(), ..old(self)@ },
                no_output(),
                old(self)@.buf,
            ),
            final(self)@.mode is Slip,
    {
        let mut input: Vec<u8> = Vec::new();
        std::mem::swap(&mut input, &mut self.buf);
        let mut state = SlipState::BeforeFirstEnd;
        match &mut self.mode {
            DecoderMode::Slip { state: s } => {
                std::mem::swap(&mut state, s);
            },
            _ => {},
        }
        assert(with_slip(self@, state.model()) == DecoderModel { buf: Seq::empty(), ..old(self)@ });
        assert(input@.skip(0) =~= input@);
        let ghost target = slip_run(DecoderModel { buf: Seq::empty(), ..old(self)@ }, no_output(), old(self)@.buf);
        let mut i: usize = 0;
        while i < input.len()
            invariant
                i <= input@.len(),
                self@.buf == Seq::<u8>::empty(),
                self@.mode == ModeModel::Slip(SlipModel::BeforeFirstEnd),
                out@.error is None,
                slip_run(with_slip(self@, state.model()), out@, input@.skip(i as int)) == target,
                target == slip_run(DecoderModel { buf: Seq::empty(), ..old(self)@ }, no_output(), old(self)@.buf),
                self@.frame_count + out@.dropped + (input@.len() - i) <= usize::MAX,
            decreases input@.len() - i,
        {
            let b = input[i];
            assert(input@.skip(i as int)[0] == b);
            assert(input@.skip(i as int).skip(1) =~= input@.skip(i + 1));
            let ghost m0 = with_slip(self@, state.model());
            let ghost o0 = out@;
            let cur = state;
            match cur {
                SlipState::BeforeFirstEnd => {
                    if b == SLIP_END {
                        state = SlipState::InFrame { buf: Vec::new(), escaped: false };
                    } else {
                        state = SlipState::BeforeFirstEnd;
                    }
                },
                SlipState::InFrame { buf, escaped } => {
                    let mut buf = buf;
                    if escaped {
                        if b == SLIP_ESC_END {
                            buf.push(SLIP_END);
                            state = SlipState::InFrame { buf, escaped: false };
                        } else if b == SLIP_ESC_ESC {
                            buf.push(SLIP_ESC);
                            state = SlipState::InFrame { buf, escaped: false };
                        } else {
                            // Malformed escape: drop the frame in progress and
                            // leave the rest pending; resync on the next END.
                            let ghost step = slip_byte(m0, o0, b);
                            assert(step.0 == with_slip(m0, SlipModel::BeforeFirstEnd));
                            out.error = Some(FrameDecodeError::SlipInvalidEscape(b));
                            assert(out@ == step.1);
                            self.buf = copy_range(input.as_slice(), i + 1, input.len());
                            assert(self.buf@ =~= input@.skip(i as int).skip(1));
                            assert(self@ == DecoderModel { buf: input@.skip(i as int).skip(1), ..step.0 });
                            assert(slip_run(m0, o0, input@.skip(i as int)) == (DecoderModel { buf: input@.skip(i as int).skip(1), ..step.0 }, step.1));
                            return;
                        }
                    } else if b == SLIP_END {
                        emit_frame(buf, "slip", &mut self.frame_count, self.skip_empty, &self.parser, out);
                        state = SlipState::InFrame { buf: Vec::new(), escaped: false };
                    } else if b == SLIP_ESC {
                        state = SlipState::InFrame { buf, escaped: true };
                    } else {
                        buf.push(b);
                        state = SlipState::InFrame { buf, escaped: false };
                    }
                },
            }
            i += 1;
        }
        self.mode = DecoderMode::Slip { state };
    }

    /// COBS decoding of all pending bytes, byte by byte.
    fn cobs_decode(&mut self, out: &mut PushOutcome)
        requires
            old(self)@.mode is Cobs,
            model_wf(old(self)@),
            old(out)@ == no_output(),
            old(self)@.frame_count + old(self)@.buf.len() <= usize::MAX,
        ensures
            (final(self)@, final(out)@) == cobs_run(
                DecoderModel { buf: Seq::empty(), ..old(self)@ },
                no_output(),
                old(self)@.buf,
            ),
            model_wf(final(self)@),
            final(self)@.mode is Cobs,
    {
        let mut input: Vec<u8> = Vec::new();
        std::mem::swap(&mut input, &mut self.buf);
        let mut state = CobsState::BeforeFirstDelim;
        match &mut self.mode {
            DecoderMode::Cobs { state: s } => {
                std::mem::swap(&mut state, s);
            },
            _ => {},
        }
        assert(with_cobs(self@, state.model()) == DecoderModel { buf: Seq::empty(), ..old(self)@ });
        assert(input@.skip(0) =~= input@);
        let ghost target = cobs_run(DecoderModel { buf: Seq::empty(), ..old(self)@ }, no_output(), old(self)@.buf);
        let mut i: usize = 0;
        while i < input.len()
            invariant
                i <= input@.len(),
                self@.buf == Seq::<u8>::empty(),
                self@.mode == ModeModel::Cobs(CobsModel::BeforeFirstDelim),
                out@.error is None,
                model_wf(with_cobs(self@, state.model())),
                cobs_run(with_cobs(self@, state.model()), out@, input@.skip(i as int)) == target,
                self@.frame_count + out@.dropped + (input@.len() - i) <= usize::MAX,
            decreases input@.len() - i,
        {
            let b = input[i];
            assert(input@.skip(i as int)[0] == b);
            assert(input@.skip(i as int).skip(1) =~= input@.skip(i + 1));
            let cur = state;
            match cur {
                CobsState::BeforeFirstDelim => {
                    if b == 0 {
                        state = CobsState::InFrame { decoded: Vec::new(), remaining: 0, pending_zero: false };
                    } else {
                        state = CobsState::BeforeFirstDelim;
                    }
                },
                CobsState::InFrame { decoded, remaining, pending_zero } => {
                    let mut decoded = decoded;
                    if remaining > 0 {
                        decoded.push(b);
                        let rem = remaining - 1;
                        if rem == 0 && pending_zero {
                            decoded.push(0);
                            state = CobsState::InFrame { decoded, remaining: 0, pending_zero: false };
                        } else {
                            state = CobsState::InFrame { decoded, remaining: rem, pending_zero };
                        }
                    } else if b == 0 {
                        // Frame delimiter: drop the final block's implicit zero.
                        let n = decoded.len();
                        if n > 0 && decoded[n - 1] == 0 {
                            let _ = decoded.pop();
                        }
                        emit_frame(decoded, "cobs", &mut self.frame_count, self.skip_empty, &self.parser, out);
                        state = CobsState::BeforeFirstDelim;
                    } else if b == 0xFF {
                        state = CobsState::InFrame { decoded, remaining: 254, pending_zero: false };
                    } else {
                        let rem = b - 1;
                        if rem == 0 {
                            decoded.push(0);
                            state = CobsState::InFrame { decoded, remaining: 0, pending_zero: false };
                        } else {
                            state = CobsState::InFrame { decoded, remaining: rem, pending_zero: true };
                        }
                    }
                },
            }
            i += 1;
        }
        self.mode = DecoderMode::Cobs { state };
    }

    /// Feed a chunk of bytes. Returns the frames found, the frames dropped
    /// for a checksum mismatch, and any stream-fatal error (a malformed SLIP
    /// escape), after which the rest of the bytes stay pending.
    pub fn push(&mut self, chunk: &[u8]) -> (outcome: PushOutcome)
        requires
            old(self).wf(),
            old(self)@.frame_count + old(self)@.buf.len() + chunk@.len() <= usize::MAX,
        ensures
            final(self).wf(),
            (final(self)@, outcome@) == spec_push(old(self)@, chunk@),
            final(self)@.frame_count + final(self)@.buf.len() <= old(self)@.frame_count + old(self)@.buf.len()
                + chunk@.len(),
    {
        proof {
            lemma_push_growth(self@, chunk@);
        }
        let mut out = PushOutcome { frames: Vec::new(), frames_dropped: 0, error: None };
        assert(frames_view(out.frames@) =~= Seq::<FrameModel>::empty());
        assert(out@ == no_output());
        extend_bytes(&mut self.buf, chunk);
        let is_slip = match &self.mode {
            DecoderMode::Slip { .. } => true,
            _ => false,
        };
        if is_slip {
            self.slip_decode(&mut out);
            return out;
        }
        let is_cobs = match &self.mode {
            DecoderMode::Cobs { .. } => true,
            _ => false,
        };
        if is_cobs {
            self.cobs_decode(&mut out);
            return out;
        }
        let ghost target = run_steps(self@, no_output());
        loop
            invariant_except_break
                model_wf(self@),
                !(self@.mode is Slip),
                !(self@.mode is Cobs),
                run_steps(self@, out@) == target,
                self@.frame_count + out@.dropped + self@.buf.len() <= usize::MAX,
            ensures
                model_wf(self@),
                (self@, out@) == target,
            decreases self@.buf.len(),
        {
            let ghost before = self@;
            proof {
                lemma_step(before);
            }
            match self.next_frame() {
                None => {
                    break;
                },
                Some(data) => {
                    let ft = self.frame_type_str();
                    emit_frame(data, ft, &mut self.frame_count, self.skip_empty, &self.parser, &mut out);
                },
            }
        }
        out
    }

    fn decode_start_markers(start: &Vec<String>, enc: Encoding) -> (r: Result<Vec<Vec<u8>>, String>)
        ensures
            match decode_markers(texts(start@), enc, start@.len() as int) {
                Ok(ms) => r matches Ok(v) && byte_pieces(v@) == ms,
                Err(ConfigError::Message(t)) => r matches Err(e) && e@ == t,
                Err(ConfigError::Codec(p)) => r matches Err(e) && starts_with(e@, p),
            },
    {
        let ghost names = texts(start@);
        let mut out: Vec<Vec<u8>> = Vec::new();
        let mut i: usize = 0;
        assert(byte_pieces(out@) =~= Seq::<Seq<u8>>::empty());
        while i < start.len()
            invariant
                i <= start@.len(),
                names == texts(start@),
                decode_markers(names, enc, i as int) == Ok::<Seq<Seq<u8>>, ConfigError>(byte_pieces(out@)),
            decreases start@.len() - i,
        {
            let s: &String = &start[i];
            assert(names[i as int] == s@);
            match decode(enc, s.as_str()) {
                Ok(b) => {
                    if b.len() == 0 {
                        proof {
                            lemma_markers_err(names, enc, i + 1, start@.len() as int);
                        }
                        return Err("Start and end markers must not be empty".to_owned());
                    }
                    let ghost before = out@;
                    out.push(b);
                    assert(byte_pieces(out@) =~= byte_pieces(before).push(b@));
                },
                Err(e) => {
                    proof {
                        lemma_markers_err(names, enc, i + 1, start@.len() as int);
                    }
                    return Err(prefixed_codec_error("Invalid start marker encoding: ", &e));
                },
            }
            i += 1;
            proof {
                // The failures of later markers do not matter once one failed;
                // here none has.
                let k = i as int;
                assert(decode_markers(names, enc, k) == Ok::<Seq<Seq<u8>>, ConfigError>(byte_pieces(out@)));
            }
        }
        Ok(out)
    }

    fn mode_for(mode: &RxFramingMode) -> (r: Result<DecoderMode, String>)
        ensures
            match spec_mode_for(*mode) {
                Ok(m) => r matches Ok(d) && d.model() == m,
                Err(ConfigError::Message(t)) => r matches Err(e) && e@ == t,
                Err(ConfigError::Codec(p)) => r matches Err(e) && starts_with(e@, p),
            },
            r matches Ok(d) ==> mode_wf(d.model()),
    {
        match mode {
            RxFramingMode::Line { ending } => {
                let state = match ending {
                    LineEnding::Auto => LineState::AutoLf,
                    LineEnding::Lf => LineState::Lf,
                    LineEnding::Cr => LineState::Cr,
                    LineEnding::Crlf => LineState::Crlf,
                };
                Ok(DecoderMode::Line(state))
            },
            RxFramingMode::Delimiter { delimiter, delimiter_encoding } => {
                match decode(delimiter_encoding.to_encoding(), delimiter.as_str()) {
                    Ok(bytes) => {
                        if bytes.len() == 0 {
                            return Err("Delimiter must not be empty".to_owned());
                        }
                        Ok(DecoderMode::Delimiter(bytes))
                    },
                    Err(e) => Err(prefixed_codec_error("Invalid delimiter encoding: ", &e)),
                }
            },
            RxFramingMode::LengthPrefixed { prefix_size, endianness, initial_offset } => {
                if !(*prefix_size == 1 || *prefix_size == 2 || *prefix_size == 4) {
                    return Err("prefix_size must be 1, 2, or 4".to_owned());
                }
                let off = match initial_offset {
                    Some(o) => *o,
                    None => 0,
                };
                Ok(DecoderMode::LengthPrefixed {
                    prefix_size: *prefix_size,
                    endianness: *endianness,
                    remaining_offset: off,
                    next_payload_len: None,
                })
            },
            RxFramingMode::StartEnd { start, end, marker_encoding, include_markers } => {
                if start.len() == 0 {
                    return Err("Start markers must not be empty".to_owned());
                }
                let enc = marker_encoding.to_encoding();
                proof {
                    lemma_markers_nonempty(texts(start@), enc, start@.len() as int);
                }
                let starts = match Self::decode_start_markers(start, enc) {
                    Ok(v) => v,
                    Err(e) => {
                        return Err(e);
                    },
                };
                match decode(enc, end.as_str()) {
                    Ok(end_bytes) => {
                        if end_bytes.len() == 0 {
                            return Err("Start and end markers must not be empty".to_owned());
                        }
                        Ok(DecoderMode::StartEnd { start: starts, end: end_bytes, include_markers: *include_markers, in_frame: false })
                    },
                    Err(e) => Err(prefixed_codec_error("Invalid end marker encoding: ", &e)),
                }
            },
            RxFramingMode::Slip => Ok(DecoderMode::Slip { state: SlipState::BeforeFirstEnd }),
            RxFramingMode::Cobs => Ok(DecoderMode::Cobs { state: CobsState::BeforeFirstDelim }),
        }
    }

    /// Create a decoder from an RX framing configuration and an optional
    /// parser configuration.
    pub fn new(config: &RxFramingConfig, parser_config: Option<&ParserConfig>) -> (r: Result<FrameDecoder, String>)
        ensures
            match spec_new(*config, opt_config(parser_config)) {
                Ok(m) => r matches Ok(d) && d@ == m && d.wf(),
                Err(ConfigError::Message(t)) => r matches Err(e) && e@ == t,
                Err(ConfigError::Codec(p)) => r matches Err(e) && starts_with(e@, p),
            },
    {
        let mode = match Self::mode_for(&config.mode) {
            Ok(m) => m,
            Err(e) => {
                return Err(e);
            },
        };
        let parser = match parser_config {
            Some(pc) => match build_parser(pc) {
                Ok(p) => Some(p),
                Err(e) => {
                    return Err(e);
                },
            },
            None => None,
        };
        let d = FrameDecoder {
            buf: Vec::new(),
            mode,
            frame_count: 0,
            include_terminators: config.include_terminators,
            skip_empty: config.skip_empty,
            parser,
        };
        Ok(d)
    }

    /// Bytes pending in the incomplete frame buffer.
    pub fn pending_len(&self) -> (r: usize)
        ensures
            r == self@.buf.len(),
    {
        self.buf.len()
    }

    /// Flush any remaining bytes as a partial frame: the SLIP or COBS frame
    /// in progress, else the pending bytes; emitted unparsed, with the next
    /// index.
    pub fn flush_partial(&mut self) -> (r: Option<Frame>)
        requires
            old(self).wf(),
            spec_flush(old(self)@).1 is Some ==> old(self)@.frame_count < usize::MAX,
        ensures
            final(self).wf(),
            (final(self)@, opt_frame(r)) == spec_flush(old(self)@),
    {
        let frame_type = self.frame_type_str();
        let data = match &mut self.mode {
            DecoderMode::Slip { state: SlipState::InFrame { buf, .. } } => {
                if buf.len() == 0 {
                    return None;
                }
                let mut taken: Vec<u8> = Vec::new();
                std::mem::swap(&mut taken, buf);
                taken
            },
            DecoderMode::Cobs { state: CobsState::InFrame { decoded, .. } } => {
                if decoded.len() == 0 {
                    return None;
                }
                let mut taken: Vec<u8> = Vec::new();
                std::mem::swap(&mut taken, decoded);
                taken
            },
            _ => {
                if self.buf.len() == 0 {
                    return None;
                }
                let mut taken: Vec<u8> = Vec::new();
                std::mem::swap(&mut taken, &mut self.buf);
                taken
            },
        };
        let index = self.frame_count;
        self.frame_count = index + 1;
        Some(Frame { data, index, frame_type, parsed: None })
    }

    /// The name of the decoder's mode.
    fn frame_type_str(&self) -> (r: &'static str)
        ensures
            r@ == kind_name(self@.mode),
    {
        match &self.mode {
            DecoderMode::Line(_) => "line",
            DecoderMode::Delimiter(_) => "delimiter",
            DecoderMode::LengthPrefixed { .. } => "length_prefixed",
            DecoderMode::StartEnd { .. } => "start_end",
            DecoderMode::Slip { .. } => "slip",
            DecoderMode::Cobs { .. } => "cobs",
        }
    }
}

// ---- frame numbering --------------------------------------------------------------

/// The frames of `out` are numbered consecutively from `base`, and the
/// decoder's count is just past them.
pub open spec fn numbered(m: DecoderModel, out: PushModel, base: nat) -> bool {
    &&& m.frame_count == base + out.frames.len()
    &&& forall|i: int| 0 <= i < out.frames.len() ==> #[trigger] out.frames[i].index == base + i
}

proof fn lemma_emit_numbered(m: DecoderModel, out: PushModel, base: nat, data: Seq<u8>, ft: Seq<char>)
    requires
        numbered(m, out, base),
    ensures
        numbered(emit_model(m, out, data, ft).0, emit_model(m, out, data, ft).1, base),
        emit_model(m, out, data, ft).0.buf == m.buf,
        emit_model(m, out, data, ft).0.mode == m.mode,
{
}

proof fn lemma_run_steps_numbered(m: DecoderModel, out: PushModel, base: nat)
    requires
        model_wf(m),
        numbered(m, out, base),
    ensures
        numbered(run_steps(m, out).0, run_steps(m, out).1, base),
    decreases m.buf.len(),
{
    lemma_step(m);
    let (m1, f) = mode_step(m);
    if let Some(data) = f {
        if m1.buf.len() < m.buf.len() {
            lemma_emit_numbered(m1, out, base, data, kind_name(m.mode));
            let (m2, o2) = emit_model(m1, out, data, kind_name(m.mode));
            lemma_run_steps_numbered(m2, o2, base);
        }
    }
}

proof fn lemma_slip_run_numbered(m: DecoderModel, out: PushModel, base: nat, input: Seq<u8>)
    requires
        numbered(m, out, base),
    ensures
        numbered(slip_run(m, out, input).0, slip_run(m, out, input).1, base),
    decreases input.len(),
{
    if input.len() > 0 {
        let b = input[0];
        if let ModeModel::Slip(SlipModel::InFrame { buf, escaped }) = m.mode {
            if !escaped && b == SLIP_END {
                lemma_emit_numbered(with_slip(m, SlipModel::InFrame { buf: Seq::empty(), escaped: false }), out, base, buf, "slip"@);
            }
        }
        let (m1, o1) = slip_byte(m, out, b);
        if o1.error is None {
            lemma_slip_run_numbered(m1, o1, base, input.skip(1));
        }
    }
}

proof fn lemma_cobs_run_numbered(m: DecoderModel, out: PushModel, base: nat, input: Seq<u8>)
    requires
        numbered(m, out, base),
    ensures
        numbered(cobs_run(m, out, input).0, cobs_run(m, out, input).1, base),
    decreases input.len(),
{
    if input.len() > 0 {
        let b = input[0];
        if let ModeModel::Cobs(CobsModel::InFrame { decoded, remaining, .. }) = m.mode {
            if remaining == 0 && b == 0 {
                lemma_emit_numbered(with_cobs(m, CobsModel::BeforeFirstDelim), out, base, cobs_payload(decoded), "cobs"@);
            }
        }
        let (m1, o1) = cobs_byte(m, out, b);
        lemma_cobs_run_numbered(m1, o1, base, input.skip(1));
    }
}

/// Frame numbering: the frames one push emits carry consecutive indices
/// starting at the number of frames emitted before it, and the decoder's
/// count grows by the number of frames emitted; frames skipped as blank or
/// dropped for a checksum mismatch take no index.
pub proof fn lemma_push_numbering(m: DecoderModel, chunk: Seq<u8>)
    requires
        model_wf(m),
    ensures
        numbered(spec_push(m, chunk).0, spec_push(m, chunk).1, m.frame_count),
{
    let input = m.buf + chunk;
    match m.mode {
        ModeModel::Slip(_) => {
            lemma_slip_run_numbered(DecoderModel { buf: Seq::empty(), ..m }, no_output(), m.frame_count, input);
        },
        ModeModel::Cobs(_) => {
            lemma_cobs_run_numbered(DecoderModel { buf: Seq::empty(), ..m }, no_output(), m.frame_count, input);
        },
        _ => {
            lemma_run_steps_numbered(DecoderModel { buf: input, ..m }, no_output(), m.frame_count);
        },
    }
}

// ---- flushing ------------------------------------------------------------------------

/// Flushing a COBS frame in progress emits the bytes decoded so far as a
/// `cobs` frame with the next index, leaves the frame open with nothing
/// decoded, and counts the frame; with nothing decoded it emits nothing and
/// changes nothing.
pub proof fn lemma_flush_cobs(m: DecoderModel, d: Seq<u8>, remaining: u8, pending_zero: bool)
    requires
        m.mode == ModeModel::Cobs(CobsModel::InFrame { decoded: d, remaining, pending_zero }),
    ensures
        d.len() > 0 ==> spec_flush(m).1 == Some(
            FrameModel { data: d, index: m.frame_count, frame_type: "cobs"@, parsed: None },
        ),
        d.len() > 0 ==> spec_flush(m).0 == (DecoderModel {
            mode: ModeModel::Cobs(CobsModel::InFrame { decoded: Seq::empty(), remaining, pending_zero }),
            frame_count: m.frame_count + 1,
            ..m
        }),
        d.len() == 0 ==> spec_flush(m) == (m, None::<FrameModel>),
{
}

/// Flushing a SLIP frame in progress emits the bytes received so far as a
/// `slip` frame with the next index, leaves the frame open and empty, and
/// counts the frame; with nothing received it emits nothing.
pub proof fn lemma_flush_slip(m: DecoderModel, b: Seq<u8>, escaped: bool)
    requires
        m.mode == ModeModel::Slip(SlipModel::InFrame { buf: b, escaped }),
    ensures
        b.len() > 0 ==> spec_flush(m).1 == Some(
            FrameModel { data: b, index: m.frame_count, frame_type: "slip"@, parsed: None },
        ),
        b.len() > 0 ==> spec_flush(m).0 == (DecoderModel {
            mode: ModeModel::Slip(SlipModel::InFrame { buf: Seq::empty(), escaped }),
            frame_count: m.frame_count + 1,
            ..m
        }),
        b.len() == 0 ==> spec_flush(m) == (m, None::<FrameModel>),
{
}

/// Flushing a decoder that cuts frames out of its pending bytes (line,
/// delimiter, length prefix, start/end markers) emits all pending bytes,
/// unparsed, as one frame with the next index and leaves nothing pending;
/// with nothing pending it emits nothing.
pub proof fn lemma_flush_pending(m: DecoderModel)
    requires
        !(m.mode is Slip),
        !(m.mode is Cobs),
    ensures
        m.buf.len() > 0 ==> (spec_flush(m).1 matches Some(f) && f.data == m.buf && f.index == m.frame_count
            && f.parsed is None && (m.mode is Line ==> f.frame_type == "line"@) && (m.mode is Delimiter
            ==> f.frame_type == "delimiter"@) && (m.mode is LengthPrefixed ==> f.frame_type
            == "length_prefixed"@) && (m.mode is StartEnd ==> f.frame_type == "start_end"@)),
        m.buf.len() > 0 ==> spec_flush(m).0 == (DecoderModel {
            buf: Seq::empty(),
            frame_count: m.frame_count + 1,
            ..m
        }),
        m.buf.len() == 0 ==> spec_flush(m) == (m, None::<FrameModel>),
{
}

// ---- growth of the counters ------------------------------------------------------------

proof fn lemma_run_steps_growth(m: DecoderModel, out: PushModel)
    requires
        model_wf(m),
    ensures
        run_steps(m, out).0.frame_count + run_steps(m, out).0.buf.len() <= m.frame_count + m.buf.len(),
    decreases m.buf.len(),
{
    lemma_step(m);
    let (m1, f) = mode_step(m);
    if let Some(data) = f {
        if m1.buf.len() < m.buf.len() {
            let (m2, o2) = emit_model(m1, out, data, kind_name(m.mode));
            lemma_run_steps_growth(m2, o2);
        }
    }
}

proof fn lemma_slip_run_growth(m: DecoderModel, out: PushModel, input: Seq<u8>)
    requires
        m.buf.len() == 0,
    ensures
        slip_run(m, out, input).0.frame_count + slip_run(m, out, input).0.buf.len() <= m.frame_count + input.len(),
    decreases input.len(),
{
    if input.len() > 0 {
        let (m1, o1) = slip_byte(m, out, input[0]);
        assert(m1.buf == m.buf && m1.frame_count <= m.frame_count + 1);
        if o1.error is None {
            lemma_slip_run_growth(m1, o1, input.skip(1));
        }
    }
}

proof fn lemma_cobs_run_growth(m: DecoderModel, out: PushModel, input: Seq<u8>)
    requires
        m.buf.len() == 0,
    ensures
        cobs_run(m, out, input).0.frame_count + cobs_run(m, out, input).0.buf.len() <= m.frame_count + input.len(),
    decreases input.len(),
{
    if input.len() > 0 {
        let (m1, o1) = cobs_byte(m, out, input[0]);
        assert(m1.buf == m.buf && m1.frame_count <= m.frame_count + 1);
        lemma_cobs_run_growth(m1, o1, input.skip(1));
    }
}

/// A push emits at most one frame per byte it consumes: the frame count
/// plus the pending bytes grow by at most the chunk's length.
pub proof fn lemma_push_growth(m: DecoderModel, chunk: Seq<u8>)
    requires
        model_wf(m),
    ensures
        spec_push(m, chunk).0.frame_count + spec_push(m, chunk).0.buf.len() <= m.frame_count + m.buf.len()
            + chunk.len(),
{
    let input = m.buf + chunk;
    match m.mode {
        ModeModel::Slip(_) => {
            lemma_slip_run_growth(DecoderModel { buf: Seq::empty(), ..m }, no_output(), input);
        },
        ModeModel::Cobs(_) => {
            lemma_cobs_run_growth(DecoderModel { buf: Seq::empty(), ..m }, no_output(), input);
        },
        _ => {
            lemma_run_steps_growth(DecoderModel { buf: input, ..m }, no_output());
        },
    }
}

// ---- what an emitted frame is ------------------------------------------------------------

/// An emitted frame is not blank when blank frames are skipped, and its
/// parsed fields are what the configured parser makes of its bytes (none
/// without a parser).
pub open spec fn frame_kept(skip_empty: bool, parser: Option<ParserModel>, f: FrameModel) -> bool {
    &&& skip_empty ==> !spec_is_blank(f.data)
    &&& match parser {
        None => f.parsed is None,
        Some(p) => f.parsed matches Some(pm) && spec_parse(p, f.data) == Ok::<ParsedModel, DecodeErrorModel>(pm),
    }
}

/// Every frame of `out` is kept by the settings of `m`.
pub open spec fn all_kept(m: DecoderModel, out: PushModel) -> bool {
    forall|i: int| 0 <= i < out.frames.len() ==> frame_kept(m.skip_empty, m.parser, #[trigger] out.frames[i])
}

proof fn lemma_emit_kept(m: DecoderModel, out: PushModel, data: Seq<u8>, ft: Seq<char>)
    requires
        all_kept(m, out),
    ensures
        all_kept(emit_model(m, out, data, ft).0, emit_model(m, out, data, ft).1),
{
    let (m1, o1) = emit_model(m, out, data, ft);
    assert forall|i: int| 0 <= i < o1.frames.len() implies frame_kept(m1.skip_empty, m1.parser, #[trigger] o1.frames[i]) by {
        if i < out.frames.len() {
            assert(o1.frames[i] == out.frames[i]);
        }
    }
}

proof fn lemma_run_steps_kept(m: DecoderModel, out: PushModel)
    requires
        model_wf(m),
        all_kept(m, out),
    ensures
        all_kept(run_steps(m, out).0, run_steps(m, out).1),
    decreases m.buf.len(),
{
    lemma_step(m);
    let (m1, f) = mode_step(m);
    if let Some(data) = f {
        if m1.buf.len() < m.buf.len() {
            lemma_emit_kept(m1, out, data, kind_name(m.mode));
            let (m2, o2) = emit_model(m1, out, data, kind_name(m.mode));
            lemma_run_steps_kept(m2, o2);
        }
    }
}

proof fn lemma_slip_run_kept(m: DecoderModel, out: PushModel, input: Seq<u8>)
    requires
        all_kept(m, out),
    ensures
        all_kept(slip_run(m, out, input).0, slip_run(m, out, input).1),
    decreases input.len(),
{
    if input.len() > 0 {
        let b = input[0];
        if let ModeModel::Slip(SlipModel::InFrame { buf, escaped }) = m.mode {
            if !escaped && b == SLIP_END {
                lemma_emit_kept(with_slip(m, SlipModel::InFrame { buf: Seq::empty(), escaped: false }), out, buf, "slip"@);
            }
        }
        let (m1, o1) = slip_byte(m, out, b);
        if o1.error is None {
            lemma_slip_run_kept(m1, o1, input.skip(1));
        }
    }
}

proof fn lemma_cobs_run_kept(m: DecoderModel, out: PushModel, input: Seq<u8>)
    requires
        all_kept(m, out),
    ensures
        all_kept(cobs_run(m, out, input).0, cobs_run(m, out, input).1),
    decreases input.len(),
{
    if input.len() > 0 {
        let b = input[0];
        if let ModeModel::Cobs(CobsModel::InFrame { decoded, remaining, .. }) = m.mode {
            if remaining == 0 && b == 0 {
                lemma_emit_kept(with_cobs(m, CobsModel::BeforeFirstDelim), out, cobs_payload(decoded), "cobs"@);
            }
        }
        let (m1, o1) = cobs_byte(m, out, b);
        lemma_cobs_run_kept(m1, o1, input.skip(1));
    }
}

/// Emitted frames law: every frame one push emits is non-blank when blank
/// frames are skipped, and carries exactly what the configured parser makes
/// of its bytes; a frame the parser refuses (a checksum mismatch) never
/// reaches the output, and a decoder without a parser attaches nothing.
pub proof fn lemma_push_frames_kept(m: DecoderModel, chunk: Seq<u8>)
    requires
        model_wf(m),
    ensures
        forall|i: int| 0 <= i < spec_push(m, chunk).1.frames.len() ==> frame_kept(
            m.skip_empty,
            m.parser,
            #[trigger] spec_push(m, chunk).1.frames[i],
        ),
{
    let input = m.buf + chunk;
    match m.mode {
        ModeModel::Slip(_) => {
            lemma_slip_run_kept(DecoderModel { buf: Seq::empty(), ..m }, no_output(), input);
            lemma_slip_run_settings(DecoderModel { buf: Seq::empty(), ..m }, no_output(), input);
        },
        ModeModel::Cobs(_) => {
            lemma_cobs_run_kept(DecoderModel { buf: Seq::empty(), ..m }, no_output(), input);
            lemma_cobs_run_settings(DecoderModel { buf: Seq::empty(), ..m }, no_output(), input);
        },
        _ => {
            lemma_run_steps_kept(DecoderModel { buf: input, ..m }, no_output());
            lemma_run_steps_settings(DecoderModel { buf: input, ..m }, no_output());
        },
    }
}

proof fn lemma_run_steps_settings(m: DecoderModel, out: PushModel)
    requires
        model_wf(m),
    ensures
        run_steps(m, out).0.skip_empty == m.skip_empty,
        run_steps(m, out).0.parser == m.parser,
    decreases m.buf.len(),
{
    lemma_step(m);
    let (m1, f) = mode_step(m);
    if let Some(data) = f {
        if m1.buf.len() < m.buf.len() {
            let (m2, o2) = emit_model(m1, out, data, kind_name(m.mode));
            lemma_run_steps_settings(m2, o2);
        }
    }
}

proof fn lemma_slip_run_settings(m: DecoderModel, out: PushModel, input: Seq<u8>)
    ensures
        slip_run(m, out, input).0.skip_empty == m.skip_empty,
        slip_run(m, out, input).0.parser == m.parser,
    decreases input.len(),
{
    if input.len() > 0 {
        let (m1, o1) = slip_byte(m, out, input[0]);
        if o1.error is None {
            lemma_slip_run_settings(m1, o1, input.skip(1));
        }
    }
}

proof fn lemma_cobs_run_settings(m: DecoderModel, out: PushModel, input: Seq<u8>)
    ensures
        cobs_run(m, out, input).0.skip_empty == m.skip_empty,
        cobs_run(m, out, input).0.parser == m.parser,
    decreases input.len(),
{
    if input.len() > 0 {
        let (m1, o1) = cobs_byte(m, out, input[0]);
        lemma_cobs_run_settings(m1, o1, input.skip(1));
    }
}

} // verus!
