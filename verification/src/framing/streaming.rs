//! How the cut of a stream into pushes affects decoding. For SLIP, COBS,
//! fixed line endings, delimiters, length prefixes and start/end framing
//! with one-byte start markers, pushing a stream in two chunks decodes it
//! as pushing it at once: the second push continues where the first
//! stopped, and the two outcomes together are the outcome of the single
//! push. Auto line endings are not among them: whether a bare `\r` ends a
//! line is decided from what has arrived so far.

use vstd::prelude::*;
use crate::text::{lemma_find, lemma_find_is, lemma_position, lemma_position_is, occurs_at, spec_find, spec_position};
use super::codecs::spec_length_prefix;
use super::decoder::{
    best_start, cobs_byte, cobs_run, emit_model, mode_step, no_output, run_steps, slip_byte, slip_run, spec_emit, spec_push,
    CobsModel, DecoderModel, LineState, ModeModel, PushModel, SlipModel,
};
use super::roundtrip::{lemma_cobs_concat, lemma_slip_concat};

verus! {

broadcast use vstd::seq_lib::group_seq_properties;

/// The outcome of one push followed by the outcome of the next: frames in
/// order, drops added up, and the later push's stream error.
pub open spec fn join_out(a: PushModel, b: PushModel) -> PushModel {
    PushModel { frames: a.frames + b.frames, dropped: a.dropped + b.dropped, error: b.error }
}

proof fn lemma_join_assoc(a: PushModel, b: PushModel, c: PushModel)
    ensures
        join_out(join_out(a, b), c) == join_out(a, join_out(b, c)),
{
    assert(a.frames + b.frames + c.frames =~= a.frames + (b.frames + c.frames));
}

proof fn lemma_join_none(a: PushModel)
    requires
        a.error is None,
    ensures
        join_out(a, no_output()) == a,
{
    assert(a.frames + Seq::empty() =~= a.frames);
}

proof fn lemma_emit_join(m: DecoderModel, out: PushModel, data: Seq<u8>, ft: Seq<char>)
    requires
        out.error is None,
    ensures
        emit_model(m, out, data, ft).0 == emit_model(m, no_output(), data, ft).0,
        emit_model(m, out, data, ft).1 == join_out(out, emit_model(m, no_output(), data, ft).1),
        emit_model(m, no_output(), data, ft).1.error is None,
{
    let (c, o) = spec_emit(m.frame_count, m.skip_empty, m.parser, out, data, ft);
    let (c2, o2) = spec_emit(m.frame_count, m.skip_empty, m.parser, no_output(), data, ft);
    assert(out.frames + Seq::<super::decoder::FrameModel>::empty() =~= out.frames);
    assert(o.frames =~= out.frames + o2.frames);
}

// ---- COBS -----------------------------------------------------------------------------

proof fn lemma_cobs_byte_join(m: DecoderModel, out: PushModel, b: u8)
    requires
        out.error is None,
    ensures
        cobs_byte(m, out, b).0 == cobs_byte(m, no_output(), b).0,
        cobs_byte(m, out, b).1 == join_out(out, cobs_byte(m, no_output(), b).1),
        cobs_byte(m, no_output(), b).1.error is None,
        cobs_byte(m, out, b).0.buf == m.buf,
        cobs_byte(m, out, b).0.mode is Cobs || !(m.mode is Cobs),
{
    lemma_join_none(out);
    match m.mode {
        ModeModel::Cobs(CobsModel::InFrame { decoded, remaining, pending_zero }) => {
            if remaining == 0 && b == 0 {
                let m1 = super::decoder::with_cobs(m, CobsModel::BeforeFirstDelim);
                lemma_emit_join(m1, out, super::decoder::cobs_payload(decoded), "cobs"@);
            }
        },
        _ => {},
    }
}

proof fn lemma_cobs_run_join(m: DecoderModel, out: PushModel, x: Seq<u8>)
    requires
        out.error is None,
    ensures
        cobs_run(m, out, x).0 == cobs_run(m, no_output(), x).0,
        cobs_run(m, out, x).1 == join_out(out, cobs_run(m, no_output(), x).1),
        cobs_run(m, no_output(), x).1.error is None,
        cobs_run(m, out, x).0.buf == m.buf,
        cobs_run(m, out, x).0.mode is Cobs || !(m.mode is Cobs),
    decreases x.len(),
{
    if x.len() == 0 {
        lemma_join_none(out);
    } else {
        lemma_cobs_byte_join(m, out, x[0]);
        let (m1, p1) = cobs_byte(m, no_output(), x[0]);
        lemma_cobs_run_join(m1, join_out(out, p1), x.skip(1));
        lemma_cobs_run_join(m1, p1, x.skip(1));
        lemma_join_assoc(out, p1, cobs_run(m1, no_output(), x.skip(1)).1);
    }
}

/// Chunking law for COBS: pushing `a` and then `b` leaves the decoder as
/// pushing `a + b` does, and the two outcomes joined are its outcome.
pub proof fn lemma_cobs_push_split(m: DecoderModel, a: Seq<u8>, b: Seq<u8>)
    requires
        m.mode is Cobs,
    ensures
        ({
            let (m1, o1) = spec_push(m, a);
            let (m2, o2) = spec_push(m1, b);
            spec_push(m, a + b) == (m2, join_out(o1, o2))
        }),
{
    let m0 = DecoderModel { buf: Seq::empty(), ..m };
    let (m1, o1) = spec_push(m, a);
    lemma_cobs_run_join(m0, no_output(), m.buf + a);
    assert(m1.buf == Seq::<u8>::empty());
    assert(m1.mode is Cobs);
    assert(DecoderModel { buf: Seq::empty(), ..m1 } == m1);
    assert(m1.buf + b =~= b);
    assert(m.buf + (a + b) =~= (m.buf + a) + b);
    lemma_cobs_concat(m0, no_output(), m.buf + a, b);
    lemma_cobs_run_join(m1, o1, b);
}

// ---- SLIP -----------------------------------------------------------------------------

proof fn lemma_slip_byte_join(m: DecoderModel, out: PushModel, b: u8)
    requires
        out.error is None,
    ensures
        slip_byte(m, out, b).0 == slip_byte(m, no_output(), b).0,
        slip_byte(m, out, b).1 == join_out(out, slip_byte(m, no_output(), b).1),
        slip_byte(m, out, b).0.buf == m.buf,
        slip_byte(m, out, b).0.mode is Slip || !(m.mode is Slip),
{
    lemma_join_none(out);
    match m.mode {
        ModeModel::Slip(SlipModel::InFrame { buf, escaped }) => {
            if !escaped && b == super::codecs::SLIP_END {
                let m1 = super::decoder::with_slip(m, SlipModel::InFrame { buf: Seq::empty(), escaped: false });
                lemma_emit_join(m1, out, buf, "slip"@);
            } else if escaped && b != super::codecs::SLIP_ESC_END && b != super::codecs::SLIP_ESC_ESC {
                assert(out.frames + Seq::<super::decoder::FrameModel>::empty() =~= out.frames);
            }
        },
        _ => {},
    }
}

proof fn lemma_slip_run_join(m: DecoderModel, out: PushModel, x: Seq<u8>)
    requires
        out.error is None,
    ensures
        slip_run(m, out, x).0 == slip_run(m, no_output(), x).0,
        slip_run(m, out, x).1 == join_out(out, slip_run(m, no_output(), x).1),
        slip_run(m, out, x).1.error is None ==> slip_run(m, out, x).0.buf == m.buf,
        slip_run(m, out, x).0.mode is Slip || !(m.mode is Slip),
    decreases x.len(),
{
    if x.len() == 0 {
        lemma_join_none(out);
    } else {
        lemma_slip_byte_join(m, out, x[0]);
        let (m1, p1) = slip_byte(m, no_output(), x[0]);
        if p1.error is None {
            lemma_slip_run_join(m1, join_out(out, p1), x.skip(1));
            lemma_slip_run_join(m1, p1, x.skip(1));
            lemma_join_assoc(out, p1, slip_run(m1, no_output(), x.skip(1)).1);
        }
    }
}

/// Chunking law for SLIP: when the first push meets no stream error,
/// pushing `a` and then `b` leaves the decoder as pushing `a + b` does,
/// and the two outcomes joined are its outcome.
pub proof fn lemma_slip_push_split(m: DecoderModel, a: Seq<u8>, b: Seq<u8>)
    requires
        m.mode is Slip,
        spec_push(m, a).1.error is None,
    ensures
        ({
            let (m1, o1) = spec_push(m, a);
            let (m2, o2) = spec_push(m1, b);
            spec_push(m, a + b) == (m2, join_out(o1, o2))
        }),
{
    let m0 = DecoderModel { buf: Seq::empty(), ..m };
    let (m1, o1) = spec_push(m, a);
    lemma_slip_run_join(m0, no_output(), m.buf + a);
    assert(m1.buf == Seq::<u8>::empty());
    assert(m1.mode is Slip);
    assert(DecoderModel { buf: Seq::empty(), ..m1 } == m1);
    assert(m1.buf + b =~= b);
    assert(m.buf + (a + b) =~= (m.buf + a) + b);
    lemma_slip_concat(m0, no_output(), m.buf + a, b);
    lemma_slip_run_join(m1, o1, b);
}

// ---- fixed line endings and delimiters ---------------------------------------------

/// A boundary search that keeps no state between pushes: a fixed line
/// ending (`\n`, `\r` or `\r\n`) or a non-empty delimiter.
pub open spec fn stateless_mode(mode: ModeModel) -> bool {
    match mode {
        ModeModel::Line(st) => st == LineState::Lf || st == LineState::Cr || st == LineState::Crlf,
        ModeModel::Delimiter(d) => d.len() > 0,
        _ => false,
    }
}

/// `m` with `b` appended to its pending bytes.
pub open spec fn with_more(m: DecoderModel, b: Seq<u8>) -> DecoderModel {
    DecoderModel { buf: m.buf + b, ..m }
}

proof fn lemma_find_extend(x: Seq<u8>, b: Seq<u8>, t: Seq<u8>)
    requires
        spec_find(x, t) is Some,
    ensures
        spec_find(x + b, t) == spec_find(x, t),
{
    lemma_find(x, t);
    let p = spec_find(x, t)->0;
    assert(x.subrange(p, p + t.len()) =~= (x + b).subrange(p, p + t.len()));
    assert forall|j: int| 0 <= j < p implies !occurs_at(x + b, t, j) by {
        assert(x.subrange(j, j + t.len()) =~= (x + b).subrange(j, j + t.len()));
        assert(!occurs_at(x, t, j));
    }
    lemma_find_is(x + b, t, p);
}

proof fn lemma_position_extend(x: Seq<u8>, b: Seq<u8>, c: u8)
    requires
        spec_position(x, c) is Some,
    ensures
        spec_position(x + b, c) == spec_position(x, c),
{
    lemma_position(x, c);
    let p = spec_position(x, c)->0;
    assert forall|j: int| 0 <= j < p implies (x + b)[j] != c by {
        assert((x + b)[j] == x[j]);
    }
    lemma_position_is(x + b, c, p);
}

proof fn lemma_cut_extend(m: DecoderModel, b: Seq<u8>, p: int, term: int)
    requires
        0 <= p,
        0 < term,
        p + term <= m.buf.len(),
    ensures
        super::decoder::cut(with_more(m, b), p, term) == (
            with_more(super::decoder::cut(m, p, term).0, b),
            super::decoder::cut(m, p, term).1,
        ),
        super::decoder::cut(m, p, term).0.buf.len() < m.buf.len(),
        super::decoder::cut(m, p, term).0.mode == m.mode,
{
    let x = m.buf;
    assert((x + b).skip(p + term) =~= x.skip(p + term) + b);
    assert((x + b).take(p + term) =~= x.take(p + term));
    assert((x + b).take(p) =~= x.take(p));
}

#[verifier::rlimit(30)]
proof fn lemma_step_extend_crlf(m: DecoderModel, b: Seq<u8>)
    requires
        m.mode == ModeModel::Line(LineState::Crlf),
    ensures
        mode_step(m).1 is None ==> mode_step(m).0 == m,
        mode_step(m).1 is Some ==> mode_step(with_more(m, b)) == (with_more(mode_step(m).0, b), mode_step(m).1),
        mode_step(m).1 is Some ==> mode_step(m).0.buf.len() < m.buf.len(),
        mode_step(m).0.mode == m.mode,
{
    let t = seq![0x0Du8, 0x0Au8];
    lemma_find(m.buf, t);
    if spec_find(m.buf, t) is Some {
        lemma_find_extend(m.buf, b, t);
        lemma_cut_extend(m, b, spec_find(m.buf, t)->0, 2);
    }
}

#[verifier::rlimit(30)]
proof fn lemma_step_extend_byte(m: DecoderModel, b: Seq<u8>)
    requires
        m.mode == ModeModel::Line(LineState::Lf) || m.mode == ModeModel::Line(LineState::Cr),
    ensures
        mode_step(m).1 is None ==> mode_step(m).0 == m,
        mode_step(m).1 is Some ==> mode_step(with_more(m, b)) == (with_more(mode_step(m).0, b), mode_step(m).1),
        mode_step(m).1 is Some ==> mode_step(m).0.buf.len() < m.buf.len(),
        mode_step(m).0.mode == m.mode,
{
    let c: u8 = if m.mode == ModeModel::Line(LineState::Lf) { 0x0A } else { 0x0D };
    lemma_position(m.buf, c);
    if spec_position(m.buf, c) is Some {
        lemma_position_extend(m.buf, b, c);
        lemma_cut_extend(m, b, spec_position(m.buf, c)->0, 1);
    }
}

#[verifier::rlimit(30)]
proof fn lemma_step_extend_delimiter(m: DecoderModel, b: Seq<u8>, d: Seq<u8>)
    requires
        m.mode == ModeModel::Delimiter(d),
        d.len() > 0,
    ensures
        mode_step(m).1 is None ==> mode_step(m).0 == m,
        mode_step(m).1 is Some ==> mode_step(with_more(m, b)) == (with_more(mode_step(m).0, b), mode_step(m).1),
        mode_step(m).1 is Some ==> mode_step(m).0.buf.len() < m.buf.len(),
        mode_step(m).0.mode == m.mode,
{
    lemma_find(m.buf, d);
    if spec_find(m.buf, d) is Some {
        lemma_find_extend(m.buf, b, d);
        lemma_cut_extend(m, b, spec_find(m.buf, d)->0, d.len() as int);
    }
}

proof fn lemma_step_extend(m: DecoderModel, b: Seq<u8>)
    requires
        stateless_mode(m.mode),
    ensures
        mode_step(m).1 is None ==> mode_step(m).0 == m,
        mode_step(m).1 is Some ==> mode_step(with_more(m, b)) == (with_more(mode_step(m).0, b), mode_step(m).1),
        mode_step(m).1 is Some ==> mode_step(m).0.buf.len() < m.buf.len(),
        mode_step(m).0.mode == m.mode,
{
    match m.mode {
        ModeModel::Line(st) => {
            if st == LineState::Crlf {
                lemma_step_extend_crlf(m, b);
            } else {
                lemma_step_extend_byte(m, b);
            }
        },
        ModeModel::Delimiter(d) => {
            lemma_step_extend_delimiter(m, b, d);
        },
        _ => {},
    }
}

/// A length-prefixed mode with a 1-, 2- or 4-byte header.
pub open spec fn length_mode(mode: ModeModel) -> bool {
    mode matches ModeModel::LengthPrefixed { prefix_size, .. } && (prefix_size == 1 || prefix_size == 2 || prefix_size
        == 4)
}

/// A mode whose decoding does not depend on how the stream was cut into
/// pushes: a fixed line ending, a delimiter, a length prefix, or start/end
/// markers whose start markers are single bytes.
pub open spec fn chunk_stable(mode: ModeModel) -> bool {
    stateless_mode(mode) || length_mode(mode) || byte_start_mode(mode)
}

proof fn lemma_length_step_shape(m: DecoderModel)
    requires
        length_mode(m.mode),
    ensures
        length_mode(mode_step(m).0.mode),
        super::decoder::kind_name(mode_step(m).0.mode) == super::decoder::kind_name(m.mode),
        mode_step(m).1 is Some ==> mode_step(m).0.buf.len() < m.buf.len(),
{
}

#[verifier::rlimit(40)]
proof fn lemma_step_extend_length(m: DecoderModel, b: Seq<u8>)
    requires
        length_mode(m.mode),
    ensures
        mode_step(m).1 is Some ==> mode_step(with_more(m, b)) == (with_more(mode_step(m).0, b), mode_step(m).1),
        mode_step(m).1 is None ==> mode_step(with_more(m, b)) == mode_step(with_more(mode_step(m).0, b)),
{
    match m.mode {
        ModeModel::LengthPrefixed { prefix_size, endianness, remaining_offset, next_payload_len } => {
            let x = m.buf;
            let xb = x + b;
            let drain: nat = if remaining_offset < x.len() { remaining_offset } else { x.len() };
            let drain2: nat = if remaining_offset < xb.len() { remaining_offset } else { xb.len() };
            let y = x.skip(drain as int);
            let size = prefix_size as nat;
            if remaining_offset <= x.len() {
                assert(xb.skip(drain2 as int) =~= y + b);
                if y.len() >= size {
                    assert((y + b).take(size as int) =~= y.take(size as int));
                }
                let n = match next_payload_len {
                    Some(n) => n,
                    None => spec_length_prefix(y.take(size as int), prefix_size, endianness),
                };
                if y.len() >= size + n {
                    assert((y + b).skip((size + n) as int) =~= y.skip((size + n) as int) + b);
                    assert((y + b).take((size + n) as int) =~= y.take((size + n) as int));
                    assert((y + b).subrange(size as int, (size + n) as int) =~= y.subrange(size as int, (size + n) as int));
                }
                if mode_step(m).1 is None {
                    assert(mode_step(m).0.buf + b =~= y + b);
                }
            } else {
                assert(y =~= Seq::<u8>::empty());
                let m1 = mode_step(m).0;
                assert(m1.buf + b =~= b);
                let off1 = (remaining_offset - x.len()) as nat;
                let d1: nat = if off1 < b.len() { off1 } else { b.len() };
                assert(xb.skip(drain2 as int) =~= b.skip(d1 as int));
            }
        },
        _ => {},
    }
}

proof fn lemma_run_join(m: DecoderModel, out: PushModel)
    requires
        out.error is None,
    ensures
        run_steps(m, out).0 == run_steps(m, no_output()).0,
        run_steps(m, out).1 == join_out(out, run_steps(m, no_output()).1),
        run_steps(m, no_output()).1.error is None,
    decreases m.buf.len(),
{
    let (m1, f) = mode_step(m);
    match f {
        None => {
            lemma_join_none(out);
        },
        Some(data) => {
            if m1.buf.len() < m.buf.len() {
                lemma_emit_join(m1, out, data, super::decoder::kind_name(m.mode));
                let (m2, p2) = emit_model(m1, no_output(), data, super::decoder::kind_name(m.mode));
                lemma_run_join(m2, join_out(out, p2));
                lemma_run_join(m2, p2);
                lemma_join_assoc(out, p2, run_steps(m2, no_output()).1);
            } else {
                lemma_join_none(out);
            }
        },
    }
}

// ---- start/end markers with one-byte start markers -------------------------------------

/// A start/end mode whose start markers are single bytes, with a non-empty
/// end marker.
pub open spec fn byte_start_mode(mode: ModeModel) -> bool {
    mode matches ModeModel::StartEnd { start, end, .. } && start.len() > 0 && end.len() > 0 && forall|i: int|
        0 <= i < start.len() ==> #[trigger] start[i].len() == 1
}

/// A found position moved by `k`.
pub open spec fn shift(r: Option<(int, nat)>, k: int) -> Option<(int, nat)> {
    match r {
        Some((p, l)) => Some((p + k, l)),
        None => None,
    }
}

proof fn lemma_occurs_one(h: Seq<u8>, c: Seq<u8>, i: int)
    requires
        c.len() == 1,
    ensures
        occurs_at(h, c, i) <==> (0 <= i < h.len() && h[i] == c[0]),
{
    if 0 <= i < h.len() {
        if h[i] == c[0] {
            assert(h.subrange(i, i + 1) =~= c);
        } else {
            assert(h.subrange(i, i + 1)[0] == h[i]);
        }
    }
}

proof fn lemma_find_one_shift(pre: Seq<u8>, x: Seq<u8>, c: Seq<u8>)
    requires
        c.len() == 1,
        forall|j: int| 0 <= j < pre.len() ==> pre[j] != c[0],
    ensures
        spec_find(pre + x, c) == (match spec_find(x, c) {
            Some(p) => Some(p + pre.len()),
            None => None::<int>,
        }),
{
    let h = pre + x;
    lemma_find(x, c);
    lemma_find(h, c);
    match spec_find(x, c) {
        Some(p) => {
            lemma_occurs_one(x, c, p);
            lemma_occurs_one(h, c, p + pre.len());
            assert forall|j: int| 0 <= j < p + pre.len() implies !occurs_at(h, c, j) by {
                lemma_occurs_one(h, c, j);
                if j >= pre.len() {
                    lemma_occurs_one(x, c, j - pre.len());
                    assert(h[j] == x[j - pre.len()]);
                } else if 0 <= j {
                    assert(h[j] == pre[j]);
                }
            }
            lemma_find_is(h, c, p + pre.len());
        },
        None => {
            if spec_find(h, c) is Some {
                let q = spec_find(h, c)->0;
                lemma_occurs_one(h, c, q);
                if q >= pre.len() {
                    lemma_occurs_one(x, c, q - pre.len());
                    assert(h[q] == x[q - pre.len()]);
                } else {
                    assert(h[q] == pre[q]);
                }
            }
        },
    }
}

proof fn lemma_best_start_shift(markers: Seq<Seq<u8>>, pre: Seq<u8>, x: Seq<u8>, n: int)
    requires
        0 <= n <= markers.len(),
        forall|i: int| 0 <= i < markers.len() ==> #[trigger] markers[i].len() == 1,
        forall|i: int, j: int| #![trigger pre[j], markers[i]] 0 <= i < n && 0 <= j < pre.len() ==> pre[j] != markers[i][0],
    ensures
        best_start(markers, pre + x, n) == shift(best_start(markers, x, n), pre.len() as int),
    decreases n,
{
    if n > 0 {
        lemma_best_start_shift(markers, pre, x, n - 1);
        let mk = markers[n - 1];
        assert(mk.len() == 1);
        assert forall|j: int| 0 <= j < pre.len() implies pre[j] != mk[0] by {
            assert(pre[j] != markers[n - 1][0]);
        }
        lemma_find_one_shift(pre, x, mk);
    }
}

proof fn lemma_best_start_none(markers: Seq<Seq<u8>>, x: Seq<u8>, n: int)
    requires
        0 <= n <= markers.len(),
        forall|i: int| 0 <= i < markers.len() ==> #[trigger] markers[i].len() == 1,
        best_start(markers, x, n) is None,
    ensures
        forall|i: int, j: int| #![trigger x[j], markers[i]] 0 <= i < n && 0 <= j < x.len() ==> x[j] != markers[i][0],
    decreases n,
{
    if n > 0 {
        let mk = markers[n - 1];
        lemma_find(x, mk);
        let acc = best_start(markers, x, n - 1);
        if acc is Some {
            match spec_find(x, mk) {
                None => {},
                Some(p) => {},
            }
        }
        assert(acc is None);
        lemma_best_start_none(markers, x, n - 1);
        assert forall|i: int, j: int| #![trigger x[j], markers[i]] 0 <= i < n && 0 <= j < x.len() implies x[j] != markers[i][0] by {
            if i == n - 1 {
                lemma_occurs_one(x, mk, j);
            }
        }
    }
}

proof fn lemma_best_start_in(markers: Seq<Seq<u8>>, x: Seq<u8>, n: int)
    requires
        0 <= n <= markers.len(),
        forall|i: int| 0 <= i < markers.len() ==> #[trigger] markers[i].len() == 1,
    ensures
        best_start(markers, x, n) matches Some((p, l)) ==> 0 <= p < x.len() && l == 1,
    decreases n,
{
    if n > 0 {
        lemma_best_start_in(markers, x, n - 1);
        lemma_find(x, markers[n - 1]);
        if spec_find(x, markers[n - 1]) is Some {
            lemma_occurs_one(x, markers[n - 1], spec_find(x, markers[n - 1])->0);
        }
    }
}

proof fn lemma_best_start_extend(markers: Seq<Seq<u8>>, x: Seq<u8>, b: Seq<u8>, n: int)
    requires
        0 <= n <= markers.len(),
        forall|i: int| 0 <= i < markers.len() ==> #[trigger] markers[i].len() == 1,
    ensures
        best_start(markers, x, n) is Some ==> best_start(markers, x + b, n) == best_start(markers, x, n),
        best_start(markers, x, n) is None ==> (best_start(markers, x + b, n) matches Some((p, l)) ==> p >= x.len()),
    decreases n,
{
    if n > 0 {
        lemma_best_start_extend(markers, x, b, n - 1);
        lemma_best_start_in(markers, x, n - 1);
        let mk = markers[n - 1];
        lemma_find(x, mk);
        lemma_find(x + b, mk);
        if spec_find(x, mk) is Some {
            lemma_find_extend(x, b, mk);
            lemma_occurs_one(x, mk, spec_find(x, mk)->0);
        } else if spec_find(x + b, mk) is Some {
            let q = spec_find(x + b, mk)->0;
            lemma_occurs_one(x + b, mk, q);
            if q < x.len() {
                assert((x + b)[q] == x[q]);
                lemma_occurs_one(x, mk, q);
            }
        }
    }
}

/// The end-marker search on `y`, the bytes after the start marker.
proof fn lemma_end_search_extend(y: Seq<u8>, b: Seq<u8>, e: Seq<u8>)
    requires
        e.len() > 0,
        spec_find(y, e) is Some,
    ensures
        ({
            let p = spec_find(y, e)->0;
            &&& spec_find(y + b, e) == Some(p)
            &&& 0 <= p && p + e.len() <= y.len()
            &&& (y + b).skip(p + e.len()) == y.skip(p + e.len()) + b
            &&& (y + b).take(p + e.len()) == y.take(p + e.len())
            &&& (y + b).take(p) == y.take(p)
        }),
{
    lemma_find(y, e);
    lemma_find_extend(y, b, e);
    let p = spec_find(y, e)->0;
    assert((y + b).skip(p + e.len()) =~= y.skip(p + e.len()) + b);
    assert((y + b).take(p + e.len()) =~= y.take(p + e.len()));
    assert((y + b).take(p) =~= y.take(p));
}

proof fn lemma_start_end_shape(m: DecoderModel)
    requires
        byte_start_mode(m.mode),
    ensures
        byte_start_mode(mode_step(m).0.mode),
        super::decoder::kind_name(mode_step(m).0.mode) == super::decoder::kind_name(m.mode),
{
}

#[verifier::rlimit(40)]
proof fn lemma_step_extend_in_frame(m: DecoderModel, b: Seq<u8>)
    requires
        byte_start_mode(m.mode),
        m.mode->in_frame,
    ensures
        mode_step(m).1 is Some ==> mode_step(with_more(m, b)) == (with_more(mode_step(m).0, b), mode_step(m).1),
        mode_step(m).1 is None ==> mode_step(with_more(m, b)) == mode_step(with_more(mode_step(m).0, b)),
        mode_step(m).1 is Some ==> mode_step(m).0.buf.len() < m.buf.len(),
{
    lemma_find(m.buf, m.mode->end);
    if spec_find(m.buf, m.mode->end) is Some {
        lemma_end_search_extend(m.buf, b, m.mode->end);
    }
}

#[verifier::rlimit(100)]
#[verifier::spinoff_prover]
proof fn lemma_step_extend_found_start(m: DecoderModel, b: Seq<u8>)
    requires
        byte_start_mode(m.mode),
        !m.mode->in_frame,
        best_start(m.mode->start, m.buf, m.mode->start.len() as int) is Some,
    ensures
        mode_step(m).1 is Some ==> mode_step(with_more(m, b)) == (with_more(mode_step(m).0, b), mode_step(m).1),
        mode_step(m).1 is None ==> mode_step(with_more(m, b)) == mode_step(with_more(mode_step(m).0, b)),
        mode_step(m).1 is Some ==> mode_step(m).0.buf.len() < m.buf.len(),
{
    let start = m.mode->start;
    let x = m.buf;
    let n = start.len() as int;
    lemma_best_start_extend(start, x, b, n);
    lemma_best_start_in(start, x, n);
    let (pos, len) = best_start(start, x, n)->0;
    let y = if m.mode->include_markers { x.skip(pos) } else { x.skip(pos).skip(len as int) };
    assert((x + b).skip(pos) =~= x.skip(pos) + b);
    assert((x + b).skip(pos).skip(len as int) =~= x.skip(pos).skip(len as int) + b);
    lemma_find(y, m.mode->end);
    if spec_find(y, m.mode->end) is Some {
        lemma_end_search_extend(y, b, m.mode->end);
    } else {
        assert(mode_step(m).0.buf + b =~= y + b);
    }
}

#[verifier::rlimit(40)]
proof fn lemma_step_extend_no_start(m: DecoderModel, b: Seq<u8>)
    requires
        byte_start_mode(m.mode),
        !m.mode->in_frame,
        best_start(m.mode->start, m.buf, m.mode->start.len() as int) is None,
    ensures
        mode_step(m).1 is None,
        mode_step(with_more(m, b)) == mode_step(with_more(mode_step(m).0, b)),
{
    let start = m.mode->start;
    let x = m.buf;
    let n = start.len() as int;
    lemma_keep_zero(start, n);
    lemma_best_start_none(start, x, n);
    let m1 = mode_step(m).0;
    assert(m1.buf =~= Seq::<u8>::empty());
    assert(with_more(m1, b).buf =~= b);
    lemma_best_start_shift(start, x, b, n);
    lemma_best_start_in(start, b, n);
    let xb = x + b;
    match best_start(start, b, n) {
        Some((pos, len)) => {
            assert(xb.skip(pos + x.len()) =~= b.skip(pos));
        },
        None => {
            assert(xb.skip(xb.len() as int) =~= b.skip(b.len() as int));
        },
    }
}

proof fn lemma_step_extend_start_end(m: DecoderModel, b: Seq<u8>)
    requires
        byte_start_mode(m.mode),
    ensures
        mode_step(m).1 is Some ==> mode_step(with_more(m, b)) == (with_more(mode_step(m).0, b), mode_step(m).1),
        mode_step(m).1 is None ==> mode_step(with_more(m, b)) == mode_step(with_more(mode_step(m).0, b)),
        mode_step(m).1 is Some ==> mode_step(m).0.buf.len() < m.buf.len(),
        byte_start_mode(mode_step(m).0.mode),
        super::decoder::kind_name(mode_step(m).0.mode) == super::decoder::kind_name(m.mode),
{
    lemma_start_end_shape(m);
    if m.mode->in_frame {
        lemma_step_extend_in_frame(m, b);
    } else if best_start(m.mode->start, m.buf, m.mode->start.len() as int) is Some {
        lemma_step_extend_found_start(m, b);
    } else {
        lemma_step_extend_no_start(m, b);
    }
}

proof fn lemma_keep_zero(markers: Seq<Seq<u8>>, n: int)
    requires
        0 <= n <= markers.len(),
        forall|i: int| 0 <= i < markers.len() ==> #[trigger] markers[i].len() == 1,
    ensures
        super::decoder::keep_len(markers, n) == 0,
    decreases n,
{
    if n > 0 {
        lemma_keep_zero(markers, n - 1);
    }
}

proof fn lemma_step_extend_any(m: DecoderModel, b: Seq<u8>)
    requires
        chunk_stable(m.mode),
    ensures
        mode_step(m).1 is Some ==> mode_step(with_more(m, b)) == (with_more(mode_step(m).0, b), mode_step(m).1),
        mode_step(m).1 is None ==> mode_step(with_more(m, b)) == mode_step(with_more(mode_step(m).0, b)),
        mode_step(m).1 is Some ==> mode_step(m).0.buf.len() < m.buf.len(),
        chunk_stable(mode_step(m).0.mode),
        super::decoder::kind_name(mode_step(m).0.mode) == super::decoder::kind_name(m.mode),
{
    if stateless_mode(m.mode) {
        lemma_step_extend(m, b);
    } else if length_mode(m.mode) {
        lemma_step_extend_length(m, b);
        lemma_length_step_shape(m);
    } else {
        lemma_step_extend_start_end(m, b);
    }
}

proof fn lemma_run_same_step(x: DecoderModel, y: DecoderModel, out: PushModel)
    requires
        mode_step(x) == mode_step(y),
        mode_step(x).1 is Some ==> mode_step(x).0.buf.len() < x.buf.len() && mode_step(y).0.buf.len() < y.buf.len(),
        super::decoder::kind_name(x.mode) == super::decoder::kind_name(y.mode),
    ensures
        run_steps(x, out) == run_steps(y, out),
{
}

proof fn lemma_run_extend(m: DecoderModel, out: PushModel, b: Seq<u8>)
    requires
        chunk_stable(m.mode),
    ensures
        run_steps(with_more(m, b), out) == run_steps(with_more(run_steps(m, out).0, b), run_steps(m, out).1),
        chunk_stable(run_steps(m, out).0.mode),
    decreases m.buf.len(),
{
    lemma_step_extend_any(m, b);
    let (m1, f) = mode_step(m);
    let mb = with_more(m, b);
    lemma_step_extend_any(mb, Seq::empty());
    match f {
        None => {
            let m1b = with_more(m1, b);
            lemma_step_extend_any(m1b, Seq::empty());
            lemma_run_same_step(mb, m1b, out);
        },
        Some(data) => {
            let k = super::decoder::kind_name(m.mode);
            let (m2, o2) = emit_model(m1, out, data, k);
            assert(emit_model(with_more(m1, b), out, data, k) == (with_more(m2, b), o2));
            lemma_run_extend(m2, o2, b);
        },
    }
}

proof fn lemma_push_is_run(m: DecoderModel, a: Seq<u8>)
    requires
        chunk_stable(m.mode),
    ensures
        spec_push(m, a) == run_steps(with_more(m, a), no_output()),
{
}

/// Chunking law for fixed line endings, delimiters, length prefixes and
/// start/end markers with single-byte start markers:
/// pushing `a` and then `b` leaves the decoder as pushing `a + b` does, and
/// the two outcomes joined are its outcome.
pub proof fn lemma_chunked_push_split(m: DecoderModel, a: Seq<u8>, b: Seq<u8>)
    requires
        chunk_stable(m.mode),
    ensures
        ({
            let (m1, o1) = spec_push(m, a);
            let (m2, o2) = spec_push(m1, b);
            spec_push(m, a + b) == (m2, join_out(o1, o2))
        }),
{
    let r1 = run_steps(with_more(m, a), no_output());
    let r2 = run_steps(with_more(r1.0, b), no_output());
    lemma_split_first(m, a);
    lemma_split_second(m, a, b);
    lemma_split_whole(m, a, b);
    assert(spec_push(m, a) == r1);
    assert(spec_push(r1.0, b) == r2);
    assert(spec_push(m, a + b) == (r2.0, join_out(r1.1, r2.1)));
}

proof fn lemma_split_first(m: DecoderModel, a: Seq<u8>)
    requires
        chunk_stable(m.mode),
    ensures
        spec_push(m, a) == run_steps(with_more(m, a), no_output()),
        chunk_stable(run_steps(with_more(m, a), no_output()).0.mode),
        run_steps(with_more(m, a), no_output()).1.error is None,
{
    lemma_push_is_run(m, a);
    lemma_run_extend(with_more(m, a), no_output(), Seq::empty());
    lemma_run_join(with_more(m, a), no_output());
}

proof fn lemma_split_second(m: DecoderModel, a: Seq<u8>, b: Seq<u8>)
    requires
        chunk_stable(m.mode),
    ensures
        spec_push(run_steps(with_more(m, a), no_output()).0, b) == run_steps(
            with_more(run_steps(with_more(m, a), no_output()).0, b),
            no_output(),
        ),
{
    lemma_split_first(m, a);
    lemma_push_is_run(run_steps(with_more(m, a), no_output()).0, b);
}

#[verifier::rlimit(60)]
proof fn lemma_split_whole(m: DecoderModel, a: Seq<u8>, b: Seq<u8>)
    requires
        chunk_stable(m.mode),
    ensures
        ({
            let r1 = run_steps(with_more(m, a), no_output());
            let r2 = run_steps(with_more(r1.0, b), no_output());
            spec_push(m, a + b) == (r2.0, join_out(r1.1, r2.1))
        }),
{
    let ma = with_more(m, a);
    let r1 = run_steps(ma, no_output());
    let r2 = run_steps(with_more(r1.0, b), no_output());
    let mab = with_more(m, a + b);
    assert(spec_push(m, a + b) == run_steps(mab, no_output())) by {
        lemma_push_is_run(m, a + b);
    }
    assert(mab == with_more(ma, b)) by {
        assert(m.buf + (a + b) =~= (m.buf + a) + b);
    }
    assert(run_steps(with_more(ma, b), no_output()) == run_steps(with_more(r1.0, b), r1.1)) by {
        lemma_run_extend(ma, no_output(), b);
    }
    assert(run_steps(with_more(r1.0, b), r1.1) == (r2.0, join_out(r1.1, r2.1))) by {
        lemma_split_first(m, a);
        lemma_run_join(with_more(r1.0, b), r1.1);
    }
}

} // verus!
