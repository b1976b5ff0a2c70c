//! What the decoder makes of what the TX framing produces: for every mode,
//! decoding the framed payload on a fresh decoder emits exactly the payload,
//! and frames are numbered consecutively from the decoder's frame count.
//! For the NMEA-0183 and Modbus ASCII presets, the decoded frame also
//! parses with a valid checksum.

use vstd::prelude::*;
use crate::checksums::{spec_lrc, spec_xor};
use crate::text::{
    all_ascii, ascii_chars, lemma_ascii_encode, spec_hex_upper, lemma_find, lemma_find_is, lemma_position, lemma_position_is, occurs_at, spec_find, spec_position,
};
use crate::codec::{lemma_hex_roundtrip, spec_decoded, spec_hex_spaced, str_bytes, Encoding};
use crate::match_config::{spec_pattern_codec, PatternEncoding};
use super::codecs::{
    lemma_lead_nonzero_bound, lead_nonzero, slip_escape, spec_cobs, spec_length_header, spec_length_prefix,
    spec_slip_stuff, spec_tx_frame, SLIP_END, SLIP_ESC, has_line_break, has_unprintable,
    hex2, nmea_body, nmea_has_checksum, nmea_lead, spec_is_blank,
};
use super::config::{
    strings_are1, strings_are2, Endianness, ParserConfig, ParserType, RxFramingConfig, RxFramingMode, TxFramingMode,
    TxLineEnding,
};
use super::parsers::{
    all_hex_digits, lemma_hex_digit_upper, lemma_hex_upper_pairs, lemma_modbus_lrc_accepted,
    lemma_nmea_checksum_accepted, nmea_model, ParsedModel, ParserModel,
};
use super::decoder::{
    best_start, cut, kind_name, line_step, mode_step, run_steps, start_end_step, with_start_end, LineState,
    cobs_byte, cobs_flush, cobs_payload, cobs_run, emit_model, no_output, slip_byte, slip_run, spec_push, with_cobs,
    with_slip, decode_markers, spec_mode_for, spec_new, CobsModel, DecoderModel, FrameModel, ModeModel, PushModel, SlipModel,
};

verus! {

broadcast use vstd::seq_lib::group_seq_properties;

// ---- SLIP -----------------------------------------------------------------------------

proof fn lemma_slip_one(m: DecoderModel, o: PushModel, b: u8)
    requires
        slip_byte(m, o, b).1.error is None,
    ensures
        slip_run(m, o, seq![b]) == slip_byte(m, o, b),
{
    let (m1, o1) = slip_byte(m, o, b);
    assert(seq![b][0] == b);
    assert(seq![b].skip(1) =~= Seq::<u8>::empty());
    assert(slip_run(m1, o1, Seq::<u8>::empty()) == (m1, o1));
}

pub(crate) proof fn lemma_slip_concat(m: DecoderModel, o: PushModel, a: Seq<u8>, b: Seq<u8>)
    requires
        o.error is None,
        slip_run(m, o, a).1.error is None,
    ensures
        slip_run(m, o, a + b) == slip_run(slip_run(m, o, a).0, slip_run(m, o, a).1, b),
    decreases a.len(),
{
    if a.len() == 0 {
        assert(a + b =~= b);
    } else {
        let (m1, o1) = slip_byte(m, o, a[0]);
        assert((a + b)[0] == a[0]);
        assert((a + b).skip(1) =~= a.skip(1) + b);
        lemma_slip_concat(m1, o1, a.skip(1), b);
    }
}

proof fn lemma_slip_escape(m: DecoderModel, o: PushModel, d: Seq<u8>, x: u8)
    requires
        m.mode == ModeModel::Slip(SlipModel::InFrame { buf: d, escaped: false }),
        o.error is None,
    ensures
        slip_run(m, o, slip_escape(x)) == (with_slip(m, SlipModel::InFrame { buf: d.push(x), escaped: false }), o),
{
    let e = slip_escape(x);
    if x == SLIP_END || x == SLIP_ESC {
        let (m1, o1) = slip_byte(m, o, SLIP_ESC);
        assert(e =~= seq![SLIP_ESC] + seq![e[1]]);
        lemma_slip_one(m, o, SLIP_ESC);
        lemma_slip_concat(m, o, seq![SLIP_ESC], seq![e[1]]);
        lemma_slip_one(m1, o1, e[1]);
    } else {
        assert(e =~= seq![x]);
        lemma_slip_one(m, o, x);
    }
}

proof fn lemma_slip_stuff(m: DecoderModel, o: PushModel, d: Seq<u8>, p: Seq<u8>)
    requires
        m.mode == ModeModel::Slip(SlipModel::InFrame { buf: d, escaped: false }),
        o.error is None,
    ensures
        slip_run(m, o, spec_slip_stuff(p)) == (with_slip(m, SlipModel::InFrame { buf: d + p, escaped: false }), o),
    decreases p.len(),
{
    if p.len() == 0 {
        assert(d + p =~= d);
    } else {
        let q = p.drop_last();
        lemma_slip_stuff(m, o, d, q);
        lemma_slip_concat(m, o, spec_slip_stuff(q), slip_escape(p.last()));
        let m1 = with_slip(m, SlipModel::InFrame { buf: d + q, escaped: false });
        lemma_slip_escape(m1, o, d + q, p.last());
        assert((d + q).push(p.last()) =~= d + p);
    }
}

/// SLIP round trip: a fresh SLIP decoder (waiting for its first END, with
/// nothing pending) decodes what SLIP TX framing makes of any payload into
/// exactly that payload, emitted once.
pub proof fn lemma_slip_roundtrip(m: DecoderModel, p: Seq<u8>)
    requires
        m.mode == ModeModel::Slip(SlipModel::BeforeFirstEnd),
        m.buf == Seq::<u8>::empty(),
    ensures
        spec_tx_frame(TxFramingMode::Slip, p) matches Some(framed) && spec_push(m, framed) == emit_model(
            with_slip(m, SlipModel::InFrame { buf: Seq::empty(), escaped: false }),
            no_output(),
            p,
            "slip"@,
        ),
{
    let framed = seq![SLIP_END] + spec_slip_stuff(p) + seq![SLIP_END];
    let m0 = DecoderModel { buf: Seq::<u8>::empty(), ..m };
    assert(m0 == m);
    assert(m.buf + framed =~= framed);
    let o = no_output();
    let start = with_slip(m, SlipModel::InFrame { buf: Seq::empty(), escaped: false });
    assert(framed =~= seq![SLIP_END] + (spec_slip_stuff(p) + seq![SLIP_END]));
    lemma_slip_one(m, o, SLIP_END);
    lemma_slip_concat(m, o, seq![SLIP_END], spec_slip_stuff(p) + seq![SLIP_END]);
    lemma_slip_stuff(start, o, Seq::empty(), p);
    lemma_slip_concat(start, o, spec_slip_stuff(p), seq![SLIP_END]);
    let full = with_slip(m, SlipModel::InFrame { buf: Seq::<u8>::empty() + p, escaped: false });
    assert(Seq::<u8>::empty() + p =~= p);
    lemma_slip_one(full, o, SLIP_END);
}

// ---- COBS -----------------------------------------------------------------------------

proof fn lemma_cobs_one(m: DecoderModel, o: PushModel, b: u8)
    ensures
        cobs_run(m, o, seq![b]) == cobs_byte(m, o, b),
{
    let (m1, o1) = cobs_byte(m, o, b);
    assert(seq![b][0] == b);
    assert(seq![b].skip(1) =~= Seq::<u8>::empty());
    assert(cobs_run(m1, o1, Seq::<u8>::empty()) == (m1, o1));
}

pub(crate) proof fn lemma_cobs_concat(m: DecoderModel, o: PushModel, a: Seq<u8>, b: Seq<u8>)
    ensures
        cobs_run(m, o, a + b) == cobs_run(cobs_run(m, o, a).0, cobs_run(m, o, a).1, b),
    decreases a.len(),
{
    if a.len() == 0 {
        assert(a + b =~= b);
    } else {
        let (m1, o1) = cobs_byte(m, o, a[0]);
        assert((a + b)[0] == a[0]);
        assert((a + b).skip(1) =~= a.skip(1) + b);
        lemma_cobs_concat(m1, o1, a.skip(1), b);
    }
}

proof fn lemma_cobs_data(m: DecoderModel, o: PushModel, d: Seq<u8>, r: Seq<u8>, pz: bool)
    requires
        0 < r.len() <= 254,
        m.mode == ModeModel::Cobs(CobsModel::InFrame { decoded: d, remaining: r.len() as u8, pending_zero: pz }),
    ensures
        cobs_run(m, o, r) == (
            with_cobs(m, cobs_flush(CobsModel::InFrame { decoded: d + r, remaining: 0, pending_zero: pz })),
            o,
        ),
    decreases r.len(),
{
    let m1 = cobs_byte(m, o, r[0]).0;
    if r.len() == 1 {
        assert(d.push(r[0]) =~= d + r);
        assert(r =~= seq![r[0]]);
        lemma_cobs_one(m, o, r[0]);
    } else {
        let d1 = d.push(r[0]);
        assert(m1 == with_cobs(m, CobsModel::InFrame { decoded: d1, remaining: (r.len() - 1) as u8, pending_zero: pz }));
        lemma_cobs_data(m1, o, d1, r.skip(1), pz);
        assert(d1 + r.skip(1) =~= d + r);
    }
}

/// Decoding the COBS blocks of `p` inside a frame appends `p` and the
/// implicit zero of the last block.
#[verifier::rlimit(50)]
#[verifier::spinoff_prover]
proof fn lemma_cobs_blocks(m: DecoderModel, o: PushModel, d: Seq<u8>, p: Seq<u8>)
    requires
        m.mode == ModeModel::Cobs(CobsModel::InFrame { decoded: d, remaining: 0, pending_zero: false }),
    ensures
        cobs_run(m, o, spec_cobs(p)) == (
            with_cobs(m, CobsModel::InFrame { decoded: d + p + seq![0u8], remaining: 0, pending_zero: false }),
            o,
        ),
    decreases p.len(),
{
    let k = lead_nonzero(p);
    lemma_lead_nonzero_bound(p);
    if k < 254 && k < p.len() {
        let code = (k + 1) as u8;
        let run = p.take(k as int);
        let rest = p.skip(k + 1 as int);
        assert(spec_cobs(p) == seq![code] + run + spec_cobs(rest));
        assert(seq![code] + run + spec_cobs(rest) =~= seq![code] + (run + spec_cobs(rest)));
        lemma_cobs_concat(m, o, seq![code], run + spec_cobs(rest));
        lemma_cobs_one(m, o, code);
        lemma_cobs_concat(cobs_run(m, o, seq![code]).0, o, run, spec_cobs(rest));
        let after_code = cobs_run(m, o, seq![code]).0;
        let d2 = d + run + seq![0u8];
        assert(d2 =~= d + p.take(k + 1 as int));
        if k == 0 {
            assert(run =~= Seq::<u8>::empty());
            assert(after_code == with_cobs(m, CobsModel::InFrame { decoded: d.push(0), remaining: 0, pending_zero: false }));
            assert(d.push(0) =~= d2);
            assert(run + spec_cobs(rest) =~= spec_cobs(rest));
        } else {
            assert(after_code == with_cobs(m, CobsModel::InFrame { decoded: d, remaining: k as u8, pending_zero: true }));
            lemma_cobs_data(after_code, o, d, run, true);
            assert((d + run).push(0) =~= d2);
            assert(cobs_run(after_code, o, run).0 == with_cobs(m, CobsModel::InFrame { decoded: d2, remaining: 0, pending_zero: false }));
        }
        let m2 = with_cobs(m, CobsModel::InFrame { decoded: d2, remaining: 0, pending_zero: false });
        assert(cobs_run(after_code, o, run) == (m2, o));
        lemma_cobs_blocks(m2, o, d2, rest);
        assert(d2 + rest + seq![0u8] =~= d + p + seq![0u8]);
        assert(cobs_run(m, o, spec_cobs(p)) == cobs_run(after_code, o, run + spec_cobs(rest)));
        assert(cobs_run(after_code, o, run + spec_cobs(rest)) == cobs_run(m2, o, spec_cobs(rest)));
        assert(cobs_run(m, o, spec_cobs(p)) == (with_cobs(m, CobsModel::InFrame { decoded: d + p + seq![0u8], remaining: 0, pending_zero: false }), o));
    } else if k >= 254 {
        let run = p.take(254);
        let rest = p.skip(254);
        assert(spec_cobs(p) == seq![0xFFu8] + run + spec_cobs(rest));
        assert(seq![0xFFu8] + run + spec_cobs(rest) =~= seq![0xFFu8] + (run + spec_cobs(rest)));
        lemma_cobs_concat(m, o, seq![0xFFu8], run + spec_cobs(rest));
        lemma_cobs_one(m, o, 0xFFu8);
        let after_code = cobs_run(m, o, seq![0xFFu8]).0;
        assert(after_code == with_cobs(m, CobsModel::InFrame { decoded: d, remaining: 254, pending_zero: false }));
        lemma_cobs_concat(after_code, o, run, spec_cobs(rest));
        lemma_cobs_data(after_code, o, d, run, false);
        let d2 = d + run;
        let m2 = with_cobs(m, CobsModel::InFrame { decoded: d2, remaining: 0, pending_zero: false });
        lemma_cobs_blocks(m2, o, d2, rest);
        assert(d2 + rest + seq![0u8] =~= d + p + seq![0u8]);
        assert(cobs_run(m, o, spec_cobs(p)) == (with_cobs(m, CobsModel::InFrame { decoded: d + p + seq![0u8], remaining: 0, pending_zero: false }), o));
    } else {
        let code = (p.len() + 1) as u8;
        assert(spec_cobs(p) == seq![code] + p);
        lemma_cobs_concat(m, o, seq![code], p);
        lemma_cobs_one(m, o, code);
        let after_code = cobs_run(m, o, seq![code]).0;
        if p.len() == 0 {
            assert(seq![code] + p =~= seq![code]);
            assert(d + p + seq![0u8] =~= d.push(0));
        } else {
            assert(after_code == with_cobs(m, CobsModel::InFrame { decoded: d, remaining: p.len() as u8, pending_zero: true }));
            lemma_cobs_data(after_code, o, d, p, true);
            assert((d + p).push(0) =~= d + p + seq![0u8]);
        }
        assert(cobs_run(m, o, spec_cobs(p)) == (with_cobs(m, CobsModel::InFrame { decoded: d + p + seq![0u8], remaining: 0, pending_zero: false }), o));
    }
}

/// COBS round trip: a fresh COBS decoder (waiting for its first delimiter,
/// with nothing pending) decodes what COBS TX framing makes of any payload
/// into exactly that payload, emitted once.
pub proof fn lemma_cobs_roundtrip(m: DecoderModel, p: Seq<u8>)
    requires
        m.mode == ModeModel::Cobs(CobsModel::BeforeFirstDelim),
        m.buf == Seq::<u8>::empty(),
    ensures
        spec_tx_frame(TxFramingMode::Cobs, p) matches Some(framed) && spec_push(m, framed) == emit_model(
            with_cobs(m, CobsModel::BeforeFirstDelim),
            no_output(),
            p,
            "cobs"@,
        ),
{
    let framed = seq![0u8] + spec_cobs(p) + seq![0u8];
    assert(m.buf + framed =~= framed);
    let o = no_output();
    let start = with_cobs(m, CobsModel::InFrame { decoded: Seq::empty(), remaining: 0, pending_zero: false });
    assert(framed =~= seq![0u8] + (spec_cobs(p) + seq![0u8]));
    lemma_cobs_concat(m, o, seq![0u8], spec_cobs(p) + seq![0u8]);
    lemma_cobs_one(m, o, 0u8);
    lemma_cobs_concat(start, o, spec_cobs(p), seq![0u8]);
    lemma_cobs_blocks(start, o, Seq::empty(), p);
    let d = Seq::<u8>::empty() + p + seq![0u8];
    assert(d =~= p.push(0));
    assert(cobs_payload(d) =~= p);
    let full = with_cobs(m, CobsModel::InFrame { decoded: d, remaining: 0, pending_zero: false });
    lemma_cobs_one(full, o, 0u8);
}

// ---- boundary-search modes ---------------------------------------------------------

proof fn lemma_run_one(m: DecoderModel, o: PushModel, m1: DecoderModel, p: Seq<u8>)
    requires
        mode_step(m) == (m1, Some(p)),
        m1.buf.len() < m.buf.len(),
        mode_step(emit_model(m1, o, p, kind_name(m.mode)).0) == (emit_model(m1, o, p, kind_name(m.mode)).0, None::<Seq<u8>>),
    ensures
        run_steps(m, o) == emit_model(m1, o, p, kind_name(m.mode)),
{
    let (m2, o2) = emit_model(m1, o, p, kind_name(m.mode));
    assert(run_steps(m2, o2) == (m2, o2));
}

/// The RX line state that splits what a TX line ending appends.
pub open spec fn rx_line_state(e: TxLineEnding) -> LineState {
    match e {
        TxLineEnding::Lf => LineState::Lf,
        TxLineEnding::Cr => LineState::Cr,
        TxLineEnding::Crlf => LineState::Crlf,
    }
}

/// The payload holds no line terminator of the given ending.
pub open spec fn line_free(e: TxLineEnding, p: Seq<u8>) -> bool {
    match e {
        TxLineEnding::Lf => forall|i: int| 0 <= i < p.len() ==> p[i] != 0x0A,
        TxLineEnding::Cr => forall|i: int| 0 <= i < p.len() ==> p[i] != 0x0D,
        TxLineEnding::Crlf => forall|i: int| !occurs_at(p, seq![0x0Du8, 0x0Au8], i),
    }
}

proof fn lemma_byte_line_found(m0: DecoderModel, st: LineState, b: u8, p: Seq<u8>)
    requires
        st == LineState::Lf || st == LineState::Cr,
        b == (if st == LineState::Lf { 0x0Au8 } else { 0x0Du8 }),
        m0.mode == ModeModel::Line(st),
        !m0.include_terminators,
        forall|i: int| 0 <= i < p.len() ==> p[i] != b,
        m0.buf == p.push(b),
    ensures
        mode_step(m0) == (DecoderModel { buf: Seq::<u8>::empty(), ..m0 }, Some(p)),
{
    let framed = p.push(b);
    let n = p.len() as int;
    assert(framed.skip(n + 1) =~= Seq::<u8>::empty());
    assert(framed.take(n) =~= p);
    lemma_position_is(framed, b, n);
    assert(line_step(m0, st) == cut(m0, n, 1));
}

proof fn lemma_crlf_line_found(m0: DecoderModel, p: Seq<u8>)
    requires
        m0.mode == ModeModel::Line(LineState::Crlf),
        !m0.include_terminators,
        forall|i: int| !occurs_at(p, seq![0x0Du8, 0x0Au8], i),
        m0.buf == p + seq![0x0Du8, 0x0Au8],
    ensures
        mode_step(m0) == (DecoderModel { buf: Seq::<u8>::empty(), ..m0 }, Some(p)),
{
    let crlf = seq![0x0Du8, 0x0Au8];
    let framed = p + crlf;
    let n = p.len() as int;
    assert(framed.skip(n + 2) =~= Seq::<u8>::empty());
    assert(framed.take(n) =~= p);
    assert(framed.subrange(n, n + 2) =~= crlf);
    assert forall|j: int| 0 <= j < n implies !occurs_at(framed, crlf, j) by {
        if j + 2 <= n {
            assert(framed.subrange(j, j + 2) =~= p.subrange(j, j + 2));
            assert(!occurs_at(p, crlf, j));
        } else {
            assert(framed.subrange(j, j + 2)[1] == framed[n]);
        }
    }
    lemma_find_is(framed, crlf, n);
    assert(line_step(m0, LineState::Crlf) == cut(m0, n, 2));
}

proof fn lemma_line_step_found(m0: DecoderModel, ending: TxLineEnding, p: Seq<u8>, term: Seq<u8>)
    requires
        m0.mode == ModeModel::Line(rx_line_state(ending)),
        !m0.include_terminators,
        line_free(ending, p),
        term == (match ending {
            TxLineEnding::Lf => seq![0x0Au8],
            TxLineEnding::Cr => seq![0x0Du8],
            TxLineEnding::Crlf => seq![0x0Du8, 0x0Au8],
        }),
        m0.buf == p + term,
    ensures
        mode_step(m0) == (DecoderModel { buf: Seq::<u8>::empty(), ..m0 }, Some(p)),
{
    match ending {
        TxLineEnding::Lf => {
            assert(p + term =~= p.push(0x0A));
            lemma_byte_line_found(m0, LineState::Lf, 0x0A, p);
        },
        TxLineEnding::Cr => {
            assert(p + term =~= p.push(0x0D));
            lemma_byte_line_found(m0, LineState::Cr, 0x0D, p);
        },
        TxLineEnding::Crlf => {
            lemma_crlf_line_found(m0, p);
        },
    }
}

proof fn lemma_line_step_idle(m: DecoderModel, ending: TxLineEnding)
    requires
        m.mode == ModeModel::Line(rx_line_state(ending)),
        m.buf == Seq::<u8>::empty(),
    ensures
        mode_step(m) == (m, None::<Seq<u8>>),
{
    lemma_find(Seq::<u8>::empty(), seq![0x0Du8, 0x0Au8]);
    lemma_position(Seq::<u8>::empty(), 0x0Au8);
    lemma_position(Seq::<u8>::empty(), 0x0Du8);
}

/// Line round trip: a line decoder with the matching fixed ending and
/// nothing pending decodes a TX-framed line without terminators inside
/// into exactly that line.
pub proof fn lemma_line_roundtrip(m: DecoderModel, ending: TxLineEnding, p: Seq<u8>)
    requires
        m.mode == ModeModel::Line(rx_line_state(ending)),
        m.buf == Seq::<u8>::empty(),
        !m.include_terminators,
        line_free(ending, p),
    ensures
        spec_tx_frame(TxFramingMode::Line { ending }, p) matches Some(framed) && spec_push(m, framed) == emit_model(
            m,
            no_output(),
            p,
            "line"@,
        ),
{
    let o = no_output();
    let term = match ending {
        TxLineEnding::Lf => seq![0x0Au8],
        TxLineEnding::Cr => seq![0x0Du8],
        TxLineEnding::Crlf => seq![0x0Du8, 0x0Au8],
    };
    let framed = p + term;
    assert(spec_tx_frame(TxFramingMode::Line { ending }, p) == Some(framed));
    let m0 = DecoderModel { buf: m.buf + framed, ..m };
    assert(m.buf + framed =~= framed);
    lemma_line_step_found(m0, ending, p, term);
    let m1 = DecoderModel { buf: Seq::<u8>::empty(), ..m0 };
    assert(m1 == m);
    lemma_line_step_idle(emit_model(m1, o, p, kind_name(m0.mode)).0, ending);
    lemma_run_one(m0, o, m1, p);
}

/// Delimiter round trip: a delimiter decoder with nothing pending decodes a
/// TX-framed payload into exactly that payload when the delimiter first
/// occurs in the framed bytes right after the payload.
pub proof fn lemma_delimiter_roundtrip(
    m: DecoderModel,
    delimiter: String,
    enc: PatternEncoding,
    d: Seq<u8>,
    p: Seq<u8>,
)
    requires
        spec_decoded(spec_pattern_codec(enc), delimiter@) == Some(d),
        d.len() > 0,
        m.mode == ModeModel::Delimiter(d),
        m.buf == Seq::<u8>::empty(),
        !m.include_terminators,
        forall|j: int| 0 <= j < p.len() ==> !occurs_at(p + d, d, j),
    ensures
        spec_tx_frame(TxFramingMode::Delimiter { delimiter, delimiter_encoding: enc }, p) == Some(p + d),
        spec_push(m, p + d) == emit_model(m, no_output(), p, "delimiter"@),
{
    let o = no_output();
    let framed = p + d;
    let n = p.len() as int;
    let m0 = DecoderModel { buf: m.buf + framed, ..m };
    assert(m.buf + framed =~= framed);
    assert(framed.subrange(n, n + d.len()) =~= d);
    lemma_find_is(framed, d, n);
    lemma_find(Seq::<u8>::empty(), d);
    assert(framed.skip(n + d.len()) =~= Seq::<u8>::empty());
    assert(framed.take(n) =~= p);
    let m1 = DecoderModel { buf: Seq::<u8>::empty(), ..m0 };
    assert(m1 == m);
    lemma_run_one(m0, o, m1, p);
}

/// The largest length a prefix of `size` bytes carries, plus one.
pub open spec fn prefix_capacity(size: u8) -> nat {
    if size == 1 {
        0x100
    } else if size == 2 {
        0x1_0000
    } else {
        0x1_0000_0000
    }
}

/// Reading back the header written for a length gives that length.
pub proof fn lemma_length_header_roundtrip(n: nat, size: u8, e: Endianness)
    requires
        size == 1 || size == 2 || size == 4,
        n < prefix_capacity(size),
    ensures
        spec_length_header(n, size, e).len() == size,
        spec_length_prefix(spec_length_header(n, size, e), size, e) == n,
{
    let h = spec_length_header(n, size, e);
    if size == 1 {
        assert((n as u8) as nat == n);
    } else if size == 2 {
        let hi = n / 256;
        let lo = n % 256;
        assert(hi < 256);
        assert((hi as u8) as nat == hi);
        assert((lo as u8) as nat == lo);
        assert(hi * 256 + lo == n);
    } else {
        let v = n % 0x1_0000_0000;
        assert(v == n);
        let b3 = v / 0x100_0000;
        let b2 = v / 0x1_0000 % 256;
        let b1 = v / 256 % 256;
        let b0 = v % 256;
        assert(b3 < 256);
        assert((b3 as u8) as nat == b3);
        assert((b2 as u8) as nat == b2);
        assert((b1 as u8) as nat == b1);
        assert((b0 as u8) as nat == b0);
        assert(((b3 * 256 + b2) * 256 + b1) * 256 + b0 == v) by (nonlinear_arith)
            requires
                b3 == v / 0x100_0000,
                b2 == v / 0x1_0000 % 256,
                b1 == v / 256 % 256,
                b0 == v % 256,
                v < 0x1_0000_0000,
        ;
    }
}

/// Length-prefixed round trip: a length-prefixed decoder with the same
/// prefix size and byte order, no offset left and nothing pending decodes
/// a TX-framed payload into exactly that payload.
pub proof fn lemma_length_prefixed_roundtrip(m: DecoderModel, size: u8, e: Endianness, p: Seq<u8>)
    requires
        size == 1 || size == 2 || size == 4,
        p.len() < prefix_capacity(size),
        m.mode == (ModeModel::LengthPrefixed { prefix_size: size, endianness: e, remaining_offset: 0, next_payload_len: None }),
        m.buf == Seq::<u8>::empty(),
        !m.include_terminators,
    ensures
        spec_tx_frame(TxFramingMode::LengthPrefixed { prefix_size: size, endianness: e }, p) matches Some(framed)
            && spec_push(m, framed) == emit_model(m, no_output(), p, "length_prefixed"@),
{
    let o = no_output();
    let h = spec_length_header(p.len(), size, e);
    lemma_length_header_roundtrip(p.len(), size, e);
    let framed = h + p;
    let m0 = DecoderModel { buf: m.buf + framed, ..m };
    assert(m.buf + framed =~= framed);
    assert(framed.skip(0) =~= framed);
    assert(framed.take(size as int) =~= h);
    assert(framed.subrange(size as int, size + p.len()) =~= p);
    assert(framed.skip(size + p.len()) =~= Seq::<u8>::empty());
    let m1 = DecoderModel { buf: Seq::<u8>::empty(), ..m0 };
    assert(m1 == m);
    assert(Seq::<u8>::empty().skip(0) =~= Seq::<u8>::empty());
    lemma_run_one(m0, o, m1, p);
}

proof fn lemma_best_start_first(markers: Seq<Seq<u8>>, buf: Seq<u8>, n: int)
    requires
        1 <= n <= markers.len(),
        spec_find(buf, markers[0]) == Some(0int),
    ensures
        best_start(markers, buf, n) == Some((0int, markers[0].len())),
    decreases n,
{
    if n > 1 {
        lemma_best_start_first(markers, buf, n - 1);
        lemma_find(buf, markers[n - 1]);
    } else {
        assert(best_start(markers, buf, 0) is None);
    }
}

proof fn lemma_best_start_empty(markers: Seq<Seq<u8>>, n: int)
    requires
        n <= markers.len(),
        forall|i: int| 0 <= i < markers.len() ==> #[trigger] markers[i].len() > 0,
    ensures
        best_start(markers, Seq::<u8>::empty(), n) is None,
    decreases n,
{
    if n > 0 {
        lemma_best_start_empty(markers, n - 1);
        lemma_find(Seq::<u8>::empty(), markers[n - 1]);
    }
}

#[verifier::rlimit(80)]
#[verifier::spinoff_prover]
proof fn lemma_start_end_found(m0: DecoderModel, starts: Seq<Seq<u8>>, e: Seq<u8>, p: Seq<u8>)
    requires
        starts.len() > 0,
        e.len() > 0,
        m0.mode == (ModeModel::StartEnd { start: starts, end: e, include_markers: false, in_frame: false }),
        m0.buf == starts[0] + p + e,
        forall|j: int| 0 <= j < p.len() ==> !occurs_at(p + e, e, j),
    ensures
        mode_step(m0) == (DecoderModel { buf: Seq::<u8>::empty(), ..m0 }, Some(p)),
{
    let s0 = starts[0];
    let framed = s0 + p + e;
    assert(framed.subrange(0, s0.len() as int) =~= s0);
    lemma_find_is(framed, s0, 0);
    lemma_best_start_first(starts, framed, starts.len() as int);
    let rest = framed.skip(0).skip(s0.len() as int);
    assert(rest =~= p + e);
    let n = p.len() as int;
    assert(rest.subrange(n, n + e.len()) =~= e);
    lemma_find_is(rest, e, n);
    assert(rest.skip(n + e.len()) =~= Seq::<u8>::empty());
    assert(rest.take(n) =~= p);
    let found: Option<Seq<u8>> = Some(rest);
    assert(start_end_step(m0) == (
        with_start_end(m0, rest.skip(n + e.len()), false),
        Some(rest.take(n)),
    ));
}

proof fn lemma_start_end_idle(m: DecoderModel, starts: Seq<Seq<u8>>, e: Seq<u8>)
    requires
        forall|i: int| 0 <= i < starts.len() ==> #[trigger] starts[i].len() > 0,
        m.mode == (ModeModel::StartEnd { start: starts, end: e, include_markers: false, in_frame: false }),
        m.buf == Seq::<u8>::empty(),
    ensures
        mode_step(m) == (m, None::<Seq<u8>>),
{
    lemma_best_start_empty(starts, starts.len() as int);
}

/// Start/end-marker round trip: a start/end decoder whose first start
/// marker and end marker are the TX markers, outside a frame with nothing
/// pending, decodes a TX-framed payload into exactly that payload when the
/// end marker first occurs right after the payload.
pub proof fn lemma_start_end_roundtrip(
    m: DecoderModel,
    start: Vec<String>,
    end: String,
    enc: PatternEncoding,
    starts: Seq<Seq<u8>>,
    e: Seq<u8>,
    p: Seq<u8>,
)
    requires
        start@.len() > 0,
        spec_decoded(spec_pattern_codec(enc), start@[0]@) == Some(starts[0]),
        spec_decoded(spec_pattern_codec(enc), end@) == Some(e),
        starts.len() > 0,
        forall|i: int| 0 <= i < starts.len() ==> #[trigger] starts[i].len() > 0,
        e.len() > 0,
        m.mode == (ModeModel::StartEnd { start: starts, end: e, include_markers: false, in_frame: false }),
        m.buf == Seq::<u8>::empty(),
        forall|j: int| 0 <= j < p.len() ==> !occurs_at(p + e, e, j),
    ensures
        spec_tx_frame(TxFramingMode::StartEnd { start, end, marker_encoding: enc }, p) == Some(starts[0] + p + e),
        spec_push(m, starts[0] + p + e) == emit_model(m, no_output(), p, "start_end"@),
{
    let o = no_output();
    let framed = starts[0] + p + e;
    let m0 = DecoderModel { buf: m.buf + framed, ..m };
    assert(m.buf + framed =~= framed);
    lemma_start_end_found(m0, starts, e, p);
    let m1 = DecoderModel { buf: Seq::<u8>::empty(), ..m0 };
    assert(m1 == m);
    lemma_start_end_idle(emit_model(m1, o, p, kind_name(m0.mode)).0, starts, e);
    lemma_run_one(m0, o, m1, p);
}

// ---- NMEA-0183 end to end ----------------------------------------------------------

proof fn lemma_nmea_tx_frame(p: Seq<u8>)
    requires
        !has_unprintable(p),
        spec_position(p, 0x2Au8) is None,
        p.len() > 0 ==> p[0] != 0x24 && p[0] != 0x21,
    ensures
        spec_tx_frame(TxFramingMode::Nmea, p) == Some(
            seq![0x24u8] + (p + seq![0x2Au8] + hex2(spec_xor(p))) + seq![0x0Du8, 0x0Au8],
        ),
{
    lemma_position(p, 0x2Au8);
    assert(!has_line_break(p)) by {
        if has_line_break(p) {
            let i = choose|i: int| 0 <= i < p.len() && (#[trigger] p[i] == 0x0D || p[i] == 0x0A);
            assert(0x20 <= p[i] && p[i] <= 0x7E);
        }
    }
    assert(nmea_body(p) == p);
    assert(!nmea_has_checksum(p)) by {
        if p.len() >= 3 {
            assert(p[p.len() - 3] != 0x2A);
        }
    }
    assert(seq![nmea_lead(p)] + p + seq![0x2Au8] + hex2(spec_xor(p)) + seq![0x0Du8, 0x0Au8] =~= seq![0x24u8] + (p
        + seq![0x2Au8] + hex2(spec_xor(p))) + seq![0x0Du8, 0x0Au8]);
}

/// NMEA-0183 end to end: a printable sentence body (with a comma, without
/// `*`, not starting with `$` or `!`) framed by NMEA TX framing and pushed
/// into an NMEA-0183 decoder (start markers `$` and `!`, end `\r\n`, NMEA
/// parser) outside a frame with nothing pending comes out as one frame, the
/// body with its `*` checksum, that parses with a valid checksum whether
/// or not checksums are enforced; nothing is dropped.
#[verifier::rlimit(100)]
#[verifier::spinoff_prover]
pub proof fn lemma_nmea_end_to_end(m: DecoderModel, validate: bool, p: Seq<u8>)
    requires
        m.mode == (ModeModel::StartEnd {
            start: seq![seq![0x24u8], seq![0x21u8]],
            end: seq![0x0Du8, 0x0Au8],
            include_markers: false,
            in_frame: false,
        }),
        m.buf == Seq::<u8>::empty(),
        m.parser == Some(ParserModel::Nmea(validate)),
        !has_unprintable(p),
        spec_position(p, 0x2Cu8) is Some,
        spec_position(p, 0x2Au8) is None,
        p.len() > 0 ==> p[0] != 0x24 && p[0] != 0x21,
    ensures
        ({
            let q = p + seq![0x2Au8] + hex2(spec_xor(p));
            let framed = seq![0x24u8] + q + seq![0x0Du8, 0x0Au8];
            &&& spec_tx_frame(TxFramingMode::Nmea, p) == Some(framed)
            &&& spec_push(m, framed).1 == (PushModel {
                frames: seq![
                    FrameModel {
                        data: q,
                        index: m.frame_count,
                        frame_type: "start_end"@,
                        parsed: Some(nmea_model(p, Some(true))),
                    },
                ],
                dropped: 0,
                error: None,
            })
        }),
{
    let x = spec_xor(p);
    let q = p + seq![0x2Au8] + hex2(x);
    let e = seq![0x0Du8, 0x0Au8];
    let starts = seq![seq![0x24u8], seq![0x21u8]];
    let framed = seq![0x24u8] + q + e;
    lemma_nmea_tx_frame(p);
    lemma_hex_digit_upper(x / 16);
    lemma_hex_digit_upper(x % 16);
    assert forall|j: int| 0 <= j < q.len() implies q[j] != 0x0D by {
        if j < p.len() {
            assert(q[j] == p[j]);
            assert(0x20 <= p[j]) by {
                if !(0x20 <= p[j] && p[j] <= 0x7E) {
                    assert(has_unprintable(p));
                }
            }
        }
    }
    assert forall|j: int| 0 <= j < q.len() implies !occurs_at(q + e, e, j) by {
        if occurs_at(q + e, e, j) {
            assert((q + e).subrange(j, j + e.len())[0] == (q + e)[j]);
            assert((q + e)[j] == q[j]);
        }
    }
    assert(starts[0] == seq![0x24u8]);
    assert(forall|i: int| 0 <= i < starts.len() ==> #[trigger] starts[i].len() > 0);
    let o = no_output();
    let m0 = DecoderModel { buf: m.buf + framed, ..m };
    assert(m.buf + framed =~= starts[0] + q + e);
    lemma_start_end_found(m0, starts, e, q);
    let m1 = DecoderModel { buf: Seq::<u8>::empty(), ..m0 };
    assert(m1 == m);
    lemma_start_end_idle(emit_model(m1, o, q, kind_name(m0.mode)).0, starts, e);
    lemma_run_one(m0, o, m1, q);
    assert(all_ascii(p)) by {
        assert forall|i: int| 0 <= i < p.len() implies p[i] < 128 by {
            if !(0x20 <= p[i] && p[i] <= 0x7E) {
                assert(has_unprintable(p));
            }
        }
    }
    lemma_nmea_checksum_accepted(validate, p);
    assert(!spec_is_blank(q)) by {
        assert(q[p.len() as int] == 0x2Au8);
    }
    assert(no_output().frames.push(
        FrameModel { data: q, index: m.frame_count, frame_type: "start_end"@, parsed: Some(nmea_model(p, Some(true))) },
    ) =~= seq![
        FrameModel { data: q, index: m.frame_count, frame_type: "start_end"@, parsed: Some(nmea_model(p, Some(true))) },
    ]);
}

// ---- Modbus ASCII end to end --------------------------------------------------------

/// Modbus ASCII end to end: the hex text of a PDU (address, function code,
/// data) and its LRC, between `:` and `\r\n` as Modbus ASCII TX framing
/// writes it, pushed into a Modbus ASCII decoder (start marker `:`, end
/// `\r\n`, Modbus ASCII parser) outside a frame with nothing pending,
/// comes out as one frame that parses into that PDU with a valid LRC,
/// whether or not checksums are enforced; nothing is dropped.
#[verifier::rlimit(60)]
#[verifier::spinoff_prover]
pub proof fn lemma_modbus_end_to_end(m: DecoderModel, validate: bool, pdu: Seq<u8>)
    requires
        m.mode == (ModeModel::StartEnd {
            start: seq![seq![0x3Au8]],
            end: seq![0x0Du8, 0x0Au8],
            include_markers: false,
            in_frame: false,
        }),
        m.buf == Seq::<u8>::empty(),
        m.parser == Some(ParserModel::ModbusAscii(validate)),
        pdu.len() >= 2,
    ensures
        ({
            let t = spec_hex_upper(pdu.push(spec_lrc(pdu)));
            spec_push(m, seq![0x3Au8] + t + seq![0x0Du8, 0x0Au8]).1 == (PushModel {
                frames: seq![
                    FrameModel {
                        data: t,
                        index: m.frame_count,
                        frame_type: "start_end"@,
                        parsed: Some(
                            ParsedModel::ModbusAscii {
                                address: pdu[0],
                                function_code: pdu[1],
                                data: pdu.skip(2),
                                checksum_valid: Some(true),
                            },
                        ),
                    },
                ],
                dropped: 0,
                error: None,
            })
        }),
{
    let x = pdu.push(spec_lrc(pdu));
    let t = spec_hex_upper(x);
    let e = seq![0x0Du8, 0x0Au8];
    let starts = seq![seq![0x3Au8]];
    let framed = seq![0x3Au8] + t + e;
    lemma_hex_upper_pairs(x);
    assert forall|j: int| 0 <= j < t.len() implies !occurs_at(t + e, e, j) by {
        if occurs_at(t + e, e, j) {
            assert((t + e).subrange(j, j + e.len())[0] == (t + e)[j]);
            assert((t + e)[j] == t[j]);
            assert(all_hex_digits(t));
        }
    }
    assert(starts[0] == seq![0x3Au8]);
    assert(forall|i: int| 0 <= i < starts.len() ==> #[trigger] starts[i].len() > 0);
    let o = no_output();
    let m0 = DecoderModel { buf: m.buf + framed, ..m };
    assert(m.buf + framed =~= starts[0] + t + e);
    lemma_start_end_found(m0, starts, e, t);
    let m1 = DecoderModel { buf: Seq::<u8>::empty(), ..m0 };
    assert(m1 == m);
    lemma_start_end_idle(emit_model(m1, o, t, kind_name(m0.mode)).0, starts, e);
    lemma_run_one(m0, o, m1, t);
    lemma_modbus_lrc_accepted(validate, pdu);
    assert(!spec_is_blank(t)) by {
        assert(t.len() > 0);
        assert(all_hex_digits(t));
    }
    let f = FrameModel {
        data: t,
        index: m.frame_count,
        frame_type: "start_end"@,
        parsed: Some(
            ParsedModel::ModbusAscii { address: pdu[0], function_code: pdu[1], data: pdu.skip(2), checksum_valid: Some(true) },
        ),
    };
    assert(no_output().frames.push(f) =~= seq![f]);
}

// ---- the presets' decoders ------------------------------------------------------------

proof fn lemma_utf8_one(c: char, b: u8)
    requires
        b < 128,
        c == b as char,
    ensures
        spec_decoded(spec_pattern_codec(PatternEncoding::Utf8), seq![c]) == Some(seq![b]),
{
    lemma_ascii_encode(seq![b]);
    assert(ascii_chars(seq![b]) =~= seq![c]);
}

proof fn lemma_utf8_crlf()
    ensures
        spec_decoded(spec_pattern_codec(PatternEncoding::Utf8), seq!['\r', '\n']) == Some(seq![0x0Du8, 0x0Au8]),
{
    lemma_ascii_encode(seq![0x0Du8, 0x0Au8]);
    assert(ascii_chars(seq![0x0Du8, 0x0Au8]) =~= seq!['\r', '\n']);
}

/// The NMEA-0183 preset (start markers `$` and `!`, end `\r\n`, UTF-8
/// markers dropped, NMEA parser) configures the decoder of the NMEA
/// end-to-end law, with nothing pending and no frames yet.
pub proof fn lemma_nmea_preset_decoder(c: RxFramingConfig, pc: ParserConfig)
    requires
        c.mode matches RxFramingMode::StartEnd { start, end, marker_encoding, include_markers } && strings_are2(
            start,
            "$"@,
            "!"@,
        ) && end@ == "\r\n"@ && marker_encoding == PatternEncoding::Utf8 && !include_markers,
        pc.parser_type == ParserType::Nmea,
    ensures
        spec_new(c, Some(pc)) matches Ok(m) && m.mode == (ModeModel::StartEnd {
            start: seq![seq![0x24u8], seq![0x21u8]],
            end: seq![0x0Du8, 0x0Au8],
            include_markers: false,
            in_frame: false,
        }) && m.buf == Seq::<u8>::empty() && m.frame_count == 0 && m.parser == Some(ParserModel::Nmea(pc.validate)),
{
    reveal_strlit("$");
    reveal_strlit("!");
    reveal_strlit("\r\n");
    lemma_utf8_one('$', 0x24);
    lemma_utf8_one('!', 0x21);
    lemma_utf8_crlf();
    if let RxFramingMode::StartEnd { start, end, marker_encoding, include_markers } = c.mode {
        let t = crate::framing::parsers::texts(start@);
        assert(t[0] == "$"@ && t[1] == "!"@);
        let enc = spec_pattern_codec(PatternEncoding::Utf8);
        assert(decode_markers(t, enc, 0) == Ok::<Seq<Seq<u8>>, super::decoder::ConfigError>(Seq::empty()));
        assert("$"@ =~= seq!['$']);
        assert(t[0] =~= seq!['$']);
        assert(spec_decoded(enc, t[0]) == Some(seq![0x24u8]));
        assert(Seq::<Seq<u8>>::empty().push(seq![0x24u8]) =~= seq![seq![0x24u8]]);
        assert(decode_markers(t, enc, 1) == Ok::<Seq<Seq<u8>>, super::decoder::ConfigError>(seq![seq![0x24u8]]));
        assert("!"@ =~= seq!['!']);
        assert(t[1] =~= seq!['!']);
        assert(spec_decoded(enc, t[1]) == Some(seq![0x21u8]));
        assert(seq![seq![0x24u8]].push(seq![0x21u8]) =~= seq![seq![0x24u8], seq![0x21u8]]);
        assert(decode_markers(t, enc, 2) == Ok::<Seq<Seq<u8>>, super::decoder::ConfigError>(
            seq![seq![0x24u8], seq![0x21u8]],
        ));
        assert("\r\n"@ =~= seq!['\r', '\n']);
        assert(spec_decoded(enc, end@) == Some(seq![0x0Du8, 0x0Au8]));
    }
}

/// The Modbus ASCII preset (start marker `:`, end `\r\n`, UTF-8 markers
/// dropped, Modbus ASCII parser) configures the decoder of the Modbus
/// end-to-end law, with nothing pending and no frames yet.
pub proof fn lemma_modbus_preset_decoder(c: RxFramingConfig, pc: ParserConfig)
    requires
        c.mode matches RxFramingMode::StartEnd { start, end, marker_encoding, include_markers } && strings_are1(
            start,
            ":"@,
        ) && end@ == "\r\n"@ && marker_encoding == PatternEncoding::Utf8 && !include_markers,
        pc.parser_type == ParserType::ModbusAscii,
    ensures
        spec_new(c, Some(pc)) matches Ok(m) && m.mode == (ModeModel::StartEnd {
            start: seq![seq![0x3Au8]],
            end: seq![0x0Du8, 0x0Au8],
            include_markers: false,
            in_frame: false,
        }) && m.buf == Seq::<u8>::empty() && m.frame_count == 0 && m.parser == Some(
            ParserModel::ModbusAscii(pc.validate),
        ),
{
    reveal_strlit(":");
    reveal_strlit("\r\n");
    lemma_utf8_one(':', 0x3A);
    lemma_utf8_crlf();
    if let RxFramingMode::StartEnd { start, end, marker_encoding, include_markers } = c.mode {
        let t = crate::framing::parsers::texts(start@);
        assert(t[0] == ":"@);
        let enc = spec_pattern_codec(PatternEncoding::Utf8);
        assert(decode_markers(t, enc, 0) == Ok::<Seq<Seq<u8>>, super::decoder::ConfigError>(Seq::empty()));
        assert(":"@ =~= seq![':']);
        assert(t[0] =~= seq![':']);
        assert(spec_decoded(enc, t[0]) == Some(seq![0x3Au8]));
        assert(Seq::<Seq<u8>>::empty().push(seq![0x3Au8]) =~= seq![seq![0x3Au8]]);
        assert(decode_markers(t, enc, 1) == Ok::<Seq<Seq<u8>>, super::decoder::ConfigError>(seq![seq![0x3Au8]]));
        assert("\r\n"@ =~= seq!['\r', '\n']);
        assert(spec_decoded(enc, end@) == Some(seq![0x0Du8, 0x0Au8]));
    }
}

/// NMEA-0183 preset end to end: a decoder created from the NMEA-0183 preset
/// configuration decodes the NMEA TX framing of a printable sentence body
/// (with a comma, without `*`, not starting with `$` or `!`) into one frame
/// numbered 0 that parses with a valid checksum, and drops nothing.
pub proof fn lemma_nmea_preset_end_to_end(c: RxFramingConfig, pc: ParserConfig, p: Seq<u8>)
    requires
        c.mode matches RxFramingMode::StartEnd { start, end, marker_encoding, include_markers } && strings_are2(
            start,
            "$"@,
            "!"@,
        ) && end@ == "\r\n"@ && marker_encoding == PatternEncoding::Utf8 && !include_markers,
        pc.parser_type == ParserType::Nmea,
        !has_unprintable(p),
        spec_position(p, 0x2Cu8) is Some,
        spec_position(p, 0x2Au8) is None,
        p.len() > 0 ==> p[0] != 0x24 && p[0] != 0x21,
    ensures
        spec_tx_frame(TxFramingMode::Nmea, p) matches Some(framed) && spec_new(c, Some(pc)) matches Ok(m) && spec_push(
            m,
            framed,
        ).1 == (PushModel {
            frames: seq![
                FrameModel {
                    data: p + seq![0x2Au8] + hex2(spec_xor(p)),
                    index: 0,
                    frame_type: "start_end"@,
                    parsed: Some(nmea_model(p, Some(true))),
                },
            ],
            dropped: 0,
            error: None,
        }),
{
    lemma_nmea_preset_decoder(c, pc);
    let m = spec_new(c, Some(pc))->Ok_0;
    lemma_nmea_end_to_end(m, pc.validate, p);
}

/// Modbus ASCII preset end to end: a decoder created from the Modbus ASCII
/// preset configuration decodes the hex text of a PDU and its LRC between
/// `:` and `\r\n` into one frame numbered 0 that parses into that PDU
/// with a valid LRC, and drops nothing.
pub proof fn lemma_modbus_preset_end_to_end(c: RxFramingConfig, pc: ParserConfig, pdu: Seq<u8>)
    requires
        c.mode matches RxFramingMode::StartEnd { start, end, marker_encoding, include_markers } && strings_are1(
            start,
            ":"@,
        ) && end@ == "\r\n"@ && marker_encoding == PatternEncoding::Utf8 && !include_markers,
        pc.parser_type == ParserType::ModbusAscii,
        pdu.len() >= 2,
    ensures
        spec_new(c, Some(pc)) matches Ok(m) && spec_push(
            m,
            seq![0x3Au8] + spec_hex_upper(pdu.push(spec_lrc(pdu))) + seq![0x0Du8, 0x0Au8],
        ).1 == (PushModel {
            frames: seq![
                FrameModel {
                    data: spec_hex_upper(pdu.push(spec_lrc(pdu))),
                    index: 0,
                    frame_type: "start_end"@,
                    parsed: Some(
                        ParsedModel::ModbusAscii {
                            address: pdu[0],
                            function_code: pdu[1],
                            data: pdu.skip(2),
                            checksum_valid: Some(true),
                        },
                    ),
                },
            ],
            dropped: 0,
            error: None,
        }),
{
    lemma_modbus_preset_decoder(c, pc);
    let m = spec_new(c, Some(pc))->Ok_0;
    lemma_modbus_end_to_end(m, pc.validate, pdu);
}

// ---- hex patterns --------------------------------------------------------------------

/// A hex-encoded delimiter stands for the bytes its hex text denotes: TX
/// framing appends exactly those bytes to the payload, and an RX decoder
/// configured with it splits on exactly those bytes.
pub proof fn lemma_hex_delimiter(h: String, d: Seq<u8>, p: Seq<u8>)
    requires
        spec_decoded(Encoding::Hex, h@) == Some(d),
        d.len() > 0,
    ensures
        spec_tx_frame(TxFramingMode::Delimiter { delimiter: h, delimiter_encoding: PatternEncoding::Hex }, p)
            == Some(p + d),
        spec_mode_for(RxFramingMode::Delimiter { delimiter: h, delimiter_encoding: PatternEncoding::Hex })
            == Ok::<ModeModel, super::decoder::ConfigError>(ModeModel::Delimiter(d)),
{
}

/// The hex text that the hex codec writes for bytes `d`, given as a hex
/// delimiter, delimits with `d` on both TX and RX.
pub proof fn lemma_hex_delimiter_text(h: String, d: Seq<u8>, p: Seq<u8>)
    requires
        h@ == ascii_chars(spec_hex_spaced(d)),
        d.len() > 0,
    ensures
        spec_tx_frame(TxFramingMode::Delimiter { delimiter: h, delimiter_encoding: PatternEncoding::Hex }, p)
            == Some(p + d),
        spec_mode_for(RxFramingMode::Delimiter { delimiter: h, delimiter_encoding: PatternEncoding::Hex })
            == Ok::<ModeModel, super::decoder::ConfigError>(ModeModel::Delimiter(d)),
{
    lemma_hex_roundtrip(d);
    lemma_hex_delimiter(h, d, p);
}

/// Hex start and end markers stand for the bytes their hex text denotes:
/// TX framing puts exactly those bytes around the payload.
pub proof fn lemma_hex_markers(start: Vec<String>, end: String, s: Seq<u8>, e: Seq<u8>, p: Seq<u8>)
    requires
        start@.len() > 0,
        spec_decoded(Encoding::Hex, start@[0]@) == Some(s),
        spec_decoded(Encoding::Hex, end@) == Some(e),
        s.len() > 0,
        e.len() > 0,
    ensures
        spec_tx_frame(TxFramingMode::StartEnd { start, end, marker_encoding: PatternEncoding::Hex }, p) == Some(
            s + p + e,
        ),
{
}

/// A UTF-8 delimiter stands for its UTF-8 bytes and a Base64 delimiter for
/// the bytes its Base64 text decodes to, on TX and on RX.
pub proof fn lemma_text_and_base64_delimiters(h: String, d: Seq<u8>, p: Seq<u8>)
    requires
        d.len() > 0,
    ensures
        d == str_bytes(h@) ==> spec_tx_frame(
            TxFramingMode::Delimiter { delimiter: h, delimiter_encoding: PatternEncoding::Utf8 },
            p,
        ) == Some(p + d),
        d == str_bytes(h@) ==> spec_mode_for(
            RxFramingMode::Delimiter { delimiter: h, delimiter_encoding: PatternEncoding::Utf8 },
        ) == Ok::<ModeModel, super::decoder::ConfigError>(ModeModel::Delimiter(d)),
        spec_decoded(Encoding::Base64, h@) == Some(d) ==> spec_tx_frame(
            TxFramingMode::Delimiter { delimiter: h, delimiter_encoding: PatternEncoding::Base64 },
            p,
        ) == Some(p + d),
        spec_decoded(Encoding::Base64, h@) == Some(d) ==> spec_mode_for(
            RxFramingMode::Delimiter { delimiter: h, delimiter_encoding: PatternEncoding::Base64 },
        ) == Ok::<ModeModel, super::decoder::ConfigError>(ModeModel::Delimiter(d)),
{
}

} // verus!
