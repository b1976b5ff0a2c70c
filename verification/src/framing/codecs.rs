//! TX framing codecs and byte helpers: `TxFramingMode::encode`, SLIP
//! (RFC 1055) and COBS stuffing, length prefixes, and blank-frame tests.

use vstd::prelude::*;
use crate::checksums::{spec_xor, xor_checksum};
use crate::codec::{self, spec_decoded, is_hex_digit, hex_value, CodecError};
use crate::match_config::spec_pattern_codec;
use crate::text::{ascii_chars, ascii_string, decimal_string, hex_digit_upper, nibble_upper, spec_decimal};
use super::config::{Endianness, TxFramingMode, TxLineEnding};

verus! {

broadcast use vstd::seq_lib::group_seq_properties;

// ---- byte-vector helpers ------------------------------------------------------

/// Append `s` to `v`.
pub fn extend_bytes(v: &mut Vec<u8>, s: &[u8])
    ensures
        final(v)@ == old(v)@ + s@,
{
    let mut i: usize = 0;
    while i < s.len()
        invariant
            i <= s.len(),
            v@ == old(v)@ + s@.take(i as int),
        decreases s.len() - i,
    {
        v.push(s[i]);
        i += 1;
        assert(v@ =~= old(v)@ + s@.take(i as int));
    }
    assert(s@.take(i as int) =~= s@);
}

/// A copy of `s[lo..hi]`.
pub fn copy_range(s: &[u8], lo: usize, hi: usize) -> (r: Vec<u8>)
    requires
        lo <= hi <= s.len(),
    ensures
        r@ == s@.subrange(lo as int, hi as int),
{
    let mut v: Vec<u8> = Vec::new();
    let mut i = lo;
    while i < hi
        invariant
            lo <= i <= hi,
            hi <= s.len(),
            v@ == s@.subrange(lo as int, i as int),
        decreases hi - i,
    {
        v.push(s[i]);
        i += 1;
        assert(v@ =~= s@.subrange(lo as int, i as int));
    }
    v
}

/// Remove the first `n` bytes of `buf` and return them.
pub fn take_prefix(buf: &mut Vec<u8>, n: usize) -> (r: Vec<u8>)
    requires
        n <= old(buf)@.len(),
    ensures
        r@ == old(buf)@.take(n as int),
        final(buf)@ == old(buf)@.skip(n as int),
{
    let mut rest = buf.split_off(n);
    std::mem::swap(buf, &mut rest);
    rest
}

// ---- blank frames -------------------------------------------------------------

/// ASCII whitespace for `skip_empty`: space, `\t`, `\n`, `\x0b`, `\x0c`, `\r`.
pub open spec fn is_blank_byte(b: u8) -> bool {
    b == 0x20 || (0x09 <= b && b <= 0x0D)
}

/// Frame data that is empty or consists only of ASCII whitespace.
pub open spec fn spec_is_blank(data: Seq<u8>) -> bool {
    forall|i: int| 0 <= i < data.len() ==> is_blank_byte(#[trigger] data[i])
}

/// Return whether frame data is empty or contains only ASCII whitespace
/// (space, `\t`, `\r`, `\n`, `\x0b`, or `\x0c`) for `skip_empty`.
pub fn is_blank_frame(data: &[u8]) -> (r: bool)
    ensures
        r == spec_is_blank(data@),
{
    let mut i: usize = 0;
    while i < data.len()
        invariant
            i <= data.len(),
            forall|j: int| 0 <= j < i ==> is_blank_byte(#[trigger] data@[j]),
        decreases data.len() - i,
    {
        let b = data[i];
        if !(b == 0x20 || (0x09 <= b && b <= 0x0D)) {
            return false;
        }
        i += 1;
    }
    true
}

// ---- SLIP ---------------------------------------------------------------------

pub const SLIP_END: u8 = 0xC0;
pub const SLIP_ESC: u8 = 0xDB;
pub const SLIP_ESC_END: u8 = 0xDC;
pub const SLIP_ESC_ESC: u8 = 0xDD;

/// The SLIP encoding of one payload byte.
pub open spec fn slip_escape(b: u8) -> Seq<u8> {
    if b == SLIP_END {
        seq![SLIP_ESC, SLIP_ESC_END]
    } else if b == SLIP_ESC {
        seq![SLIP_ESC, SLIP_ESC_ESC]
    } else {
        seq![b]
    }
}

/// SLIP byte stuffing of a whole payload.
pub open spec fn spec_slip_stuff(p: Seq<u8>) -> Seq<u8>
    decreases p.len(),
{
    if p.len() == 0 {
        Seq::empty()
    } else {
        spec_slip_stuff(p.drop_last()) + slip_escape(p.last())
    }
}

/// SLIP stuffing law: the stuffed payload never holds an `END` byte, so
/// the only `END` bytes of a SLIP frame are its delimiters.
pub proof fn lemma_slip_stuff_no_end(p: Seq<u8>)
    ensures
        forall|i: int| 0 <= i < spec_slip_stuff(p).len() ==> #[trigger] spec_slip_stuff(p)[i] != SLIP_END,
    decreases p.len(),
{
    if p.len() > 0 {
        lemma_slip_stuff_no_end(p.drop_last());
        let a = spec_slip_stuff(p.drop_last());
        let e = slip_escape(p.last());
        assert forall|i: int| 0 <= i < (a + e).len() implies #[trigger] (a + e)[i] != SLIP_END by {
            if i >= a.len() {
                assert((a + e)[i] == e[i - a.len()]);
            } else {
                assert((a + e)[i] == a[i]);
            }
        }
    }
}

/// Byte-stuff a payload for SLIP TX framing: `END` becomes `ESC ESC_END`,
/// `ESC` becomes `ESC ESC_ESC`, all other bytes pass through.
pub fn slip_stuff(payload: &[u8]) -> (out: Vec<u8>)
    ensures
        out@ == spec_slip_stuff(payload@),
{
    let mut out: Vec<u8> = Vec::new();
    let mut i: usize = 0;
    while i < payload.len()
        invariant
            i <= payload.len(),
            out@ == spec_slip_stuff(payload@.take(i as int)),
        decreases payload.len() - i,
    {
        assert(payload@.take(i as int + 1).drop_last() =~= payload@.take(i as int));
        let b = payload[i];
        if b == SLIP_END {
            out.push(SLIP_ESC);
            out.push(SLIP_ESC_END);
        } else if b == SLIP_ESC {
            out.push(SLIP_ESC);
            out.push(SLIP_ESC_ESC);
        } else {
            out.push(b);
        }
        i += 1;
        assert(out@ =~= spec_slip_stuff(payload@.take(i as int)));
    }
    assert(payload@.take(i as int) =~= payload@);
    out
}

// ---- COBS ---------------------------------------------------------------------

/// Number of leading non-zero bytes of `p`.
pub open spec fn lead_nonzero(p: Seq<u8>) -> nat
    decreases p.len(),
{
    if p.len() == 0 || p[0] == 0 {
        0
    } else {
        1 + lead_nonzero(p.skip(1))
    }
}

pub proof fn lemma_lead_nonzero_bound(p: Seq<u8>)
    ensures
        lead_nonzero(p) <= p.len(),
        lead_nonzero(p) < p.len() ==> p[lead_nonzero(p) as int] == 0,
        forall|i: int| 0 <= i < lead_nonzero(p) ==> p[i] != 0,
    decreases p.len(),
{
    if p.len() > 0 && p[0] != 0 {
        lemma_lead_nonzero_bound(p.skip(1));
        assert forall|i: int| 0 <= i < lead_nonzero(p) implies p[i] != 0 by {
            if i > 0 {
                assert(p[i] == p.skip(1)[i - 1]);
            }
        }
    }
}

pub proof fn lemma_lead_nonzero_concat(a: Seq<u8>, b: Seq<u8>)
    requires
        forall|i: int| 0 <= i < a.len() ==> a[i] != 0,
    ensures
        lead_nonzero(a + b) == a.len() + lead_nonzero(b),
    decreases a.len(),
{
    if a.len() > 0 {
        assert((a + b).skip(1) =~= a.skip(1) + b);
        lemma_lead_nonzero_concat(a.skip(1), b);
    } else {
        assert(a + b =~= b);
    }
}

/// Plain COBS encoding of a payload (delimiter 0x00), block by block: a
/// zero within the next 254 bytes closes a block of code `k + 1`; 254
/// non-zero bytes form a block of code 0xFF; the rest forms the last block.
pub open spec fn spec_cobs(p: Seq<u8>) -> Seq<u8>
    decreases p.len(),
{
    let k = lead_nonzero(p);
    if k < 254 && k < p.len() {
        proof { lemma_lead_nonzero_bound(p); }
        seq![(k + 1) as u8] + p.take(k as int) + spec_cobs(p.skip(k + 1 as int))
    } else if k >= 254 {
        proof { lemma_lead_nonzero_bound(p); }
        seq![0xFFu8] + p.take(254) + spec_cobs(p.skip(254))
    } else {
        seq![(p.len() + 1) as u8] + p
    }
}

/// COBS stuffing law: the stuffed payload never holds a zero byte, so the
/// only zeros of a COBS frame are its delimiters.
pub proof fn lemma_cobs_no_zero(p: Seq<u8>)
    ensures
        forall|i: int| 0 <= i < spec_cobs(p).len() ==> #[trigger] spec_cobs(p)[i] != 0,
    decreases p.len(),
{
    lemma_lead_nonzero_bound(p);
    let k = lead_nonzero(p);
    let c = spec_cobs(p);
    if k < 254 && k < p.len() {
        let rest = p.skip(k + 1 as int);
        lemma_cobs_no_zero(rest);
        let head = seq![(k + 1) as u8] + p.take(k as int);
        assert(c == head + spec_cobs(rest));
        assert forall|i: int| 0 <= i < c.len() implies #[trigger] c[i] != 0 by {
            if i >= head.len() {
                assert(c[i] == spec_cobs(rest)[i - head.len()]);
            } else if i > 0 {
                assert(c[i] == p[i - 1]);
            }
        }
    } else if k >= 254 {
        let rest = p.skip(254);
        lemma_cobs_no_zero(rest);
        let head = seq![0xFFu8] + p.take(254);
        assert(c == head + spec_cobs(rest));
        assert forall|i: int| 0 <= i < c.len() implies #[trigger] c[i] != 0 by {
            if i >= head.len() {
                assert(c[i] == spec_cobs(rest)[i - head.len()]);
            } else if i > 0 {
                assert(c[i] == p[i - 1]);
            }
        }
    } else {
        assert forall|i: int| 0 <= i < c.len() implies #[trigger] c[i] != 0 by {
            if i > 0 {
                assert(c[i] == p[i - 1]);
            }
        }
    }
}

proof fn lemma_cobs_zero_step(run: Seq<u8>, rest: Seq<u8>)
    requires
        run.len() < 254,
        forall|i: int| 0 <= i < run.len() ==> run[i] != 0,
    ensures
        spec_cobs(run + seq![0u8] + rest) == seq![(run.len() + 1) as u8] + run + spec_cobs(rest),
{
    let p = run + seq![0u8] + rest;
    lemma_lead_nonzero_concat(run, seq![0u8] + rest);
    assert(p =~= run + (seq![0u8] + rest));
    assert(lead_nonzero(seq![0u8] + rest) == 0);
    assert(p.take(run.len() as int) =~= run);
    assert(p.skip(run.len() + 1 as int) =~= rest);
}

proof fn lemma_cobs_full_step(run: Seq<u8>, rest: Seq<u8>)
    requires
        run.len() == 254,
        forall|i: int| 0 <= i < run.len() ==> run[i] != 0,
    ensures
        spec_cobs(run + rest) == seq![0xFFu8] + run + spec_cobs(rest),
{
    lemma_lead_nonzero_concat(run, rest);
    assert((run + rest).take(254) =~= run);
    assert((run + rest).skip(254) =~= rest);
}

proof fn lemma_cobs_last(run: Seq<u8>)
    requires
        run.len() < 254,
        forall|i: int| 0 <= i < run.len() ==> run[i] != 0,
    ensures
        spec_cobs(run) == seq![(run.len() + 1) as u8] + run,
{
    lemma_lead_nonzero_concat(run, Seq::empty());
    assert(run + Seq::<u8>::empty() =~= run);
}

/// COBS-encode a payload for TX framing using plain COBS (delimiter 0x00).
/// The caller wraps the result as `[0x00][block][0x00]`.
pub fn cobs_stuff(payload: &[u8]) -> (out: Vec<u8>)
    ensures
        out@ == spec_cobs(payload@),
{
    let mut out: Vec<u8> = Vec::new();
    let mut code_index: usize = 0;
    out.push(0x00);
    let mut code: u8 = 1;
    let ghost mut closed: Seq<u8> = Seq::empty();
    let mut i: usize = 0;
    while i < payload.len()
        invariant
            i <= payload.len(),
            1 <= code < 255,
            code_index == closed.len(),
            out@.len() == code_index + code,
            out@.take(code_index as int) == closed,
            forall|j: int| code_index < j < out@.len() ==> out@[j] != 0,
            spec_cobs(payload@) == closed + spec_cobs(out@.skip(code_index + 1) + payload@.skip(i as int)),
        decreases payload.len() - i,
    {
        let b = payload[i];
        let ghost run = out@.skip(code_index + 1);
        let ghost rest = payload@.skip(i + 1);
        assert(payload@.skip(i as int) =~= seq![b] + rest);
        if b == 0x00 {
            proof {
                assert(run + payload@.skip(i as int) =~= run + seq![0u8] + rest);
                lemma_cobs_zero_step(run, rest);
            }
            out.set(code_index, code);
            proof {
                closed = closed + seq![code] + run;
                assert(out@ =~= closed);
            }
            code = 1;
            code_index = out.len();
            out.push(0x00);
            assert(out@.take(code_index as int) =~= closed);
            assert(out@.skip(code_index + 1) =~= Seq::<u8>::empty());
            assert(Seq::<u8>::empty() + rest =~= rest);
        } else {
            out.push(b);
            code = code + 1;
            assert(out@.skip(code_index + 1) =~= run.push(b));
            assert(run.push(b) + rest =~= run + payload@.skip(i as int));
            if code == 0xFF {
                let ghost full = out@.skip(code_index + 1);
                proof {
                    lemma_cobs_full_step(full, rest);
                }
                out.set(code_index, 0xFF);
                proof {
                    closed = closed + seq![0xFFu8] + full;
                    assert(out@ =~= closed);
                }
                code = 1;
                code_index = out.len();
                out.push(0x00);
                assert(out@.take(code_index as int) =~= closed);
                assert(out@.skip(code_index + 1) =~= Seq::<u8>::empty());
                assert(Seq::<u8>::empty() + rest =~= rest);
            }
        }
        i += 1;
    }
    proof {
        let run = out@.skip(code_index + 1);
        assert(payload@.skip(i as int) =~= Seq::<u8>::empty());
        assert(run + Seq::<u8>::empty() =~= run);
        lemma_cobs_last(run);
    }
    out.set(code_index, code);
    assert(out@ =~= closed + seq![code] + out@.skip(code_index + 1));
    out
}

// ---- length prefixes ------------------------------------------------------------

/// The length encoded by a `size`-byte prefix in the given byte order.
pub open spec fn spec_length_prefix(b: Seq<u8>, size: u8, e: Endianness) -> nat {
    if size == 1 {
        b[0] as nat
    } else if size == 2 {
        match e {
            Endianness::Big => b[0] as nat * 256 + b[1] as nat,
            Endianness::Little => b[1] as nat * 256 + b[0] as nat,
        }
    } else if size == 4 {
        match e {
            Endianness::Big => ((b[0] as nat * 256 + b[1] as nat) * 256 + b[2] as nat) * 256 + b[3] as nat,
            Endianness::Little => ((b[3] as nat * 256 + b[2] as nat) * 256 + b[1] as nat) * 256 + b[0] as nat,
        }
    } else {
        0
    }
}

/// Read a length prefix of `prefix_size` (1, 2 or 4) bytes; any other size
/// reads as 0.
pub fn read_length_prefix(bytes: &[u8], prefix_size: u8, endianness: Endianness) -> (r: usize)
    requires
        (prefix_size == 1 || prefix_size == 2 || prefix_size == 4) ==> bytes@.len() >= prefix_size,
    ensures
        r as nat == spec_length_prefix(bytes@, prefix_size, endianness),
{
    if prefix_size == 1 {
        bytes[0] as usize
    } else if prefix_size == 2 {
        let (hi, lo) = match endianness {
            Endianness::Big => (bytes[0], bytes[1]),
            Endianness::Little => (bytes[1], bytes[0]),
        };
        (hi as usize) * 256 + lo as usize
    } else if prefix_size == 4 {
        let (b3, b2, b1, b0) = match endianness {
            Endianness::Big => (bytes[0], bytes[1], bytes[2], bytes[3]),
            Endianness::Little => (bytes[3], bytes[2], bytes[1], bytes[0]),
        };
        let v: u32 = (((b3 as u32) * 256 + b2 as u32) * 256 + b1 as u32) * 256 + b0 as u32;
        v as usize
    } else {
        0
    }
}

/// The `size`-byte header carrying `len` in the given byte order (the
/// 4-byte header carries `len` modulo 2^32).
pub open spec fn spec_length_header(len: nat, size: u8, e: Endianness) -> Seq<u8> {
    if size == 1 {
        seq![len as u8]
    } else if size == 2 {
        let hi = (len / 256) as u8;
        let lo = (len % 256) as u8;
        match e {
            Endianness::Big => seq![hi, lo],
            Endianness::Little => seq![lo, hi],
        }
    } else {
        let v = len % 0x1_0000_0000;
        let b3 = (v / 0x100_0000) as u8;
        let b2 = (v / 0x1_0000 % 256) as u8;
        let b1 = (v / 256 % 256) as u8;
        let b0 = (v % 256) as u8;
        match e {
            Endianness::Big => seq![b3, b2, b1, b0],
            Endianness::Little => seq![b0, b1, b2, b3],
        }
    }
}

fn length_header(len: usize, size: u8, e: Endianness) -> (r: Vec<u8>)
    requires
        size == 1 ==> len <= 255,
        size == 2 ==> len <= 65535,
        size == 1 || size == 2 || size == 4,
    ensures
        r@ == spec_length_header(len as nat, size, e),
{
    let mut r: Vec<u8> = Vec::new();
    if size == 1 {
        r.push(len as u8);
    } else if size == 2 {
        let hi = (len / 256) as u8;
        let lo = (len % 256) as u8;
        match e {
            Endianness::Big => {
                r.push(hi);
                r.push(lo);
            },
            Endianness::Little => {
                r.push(lo);
                r.push(hi);
            },
        }
    } else {
        let v: u64 = (len as u64) % 0x1_0000_0000;
        let b3 = (v / 0x100_0000) as u8;
        let b2 = (v / 0x1_0000 % 256) as u8;
        let b1 = (v / 256 % 256) as u8;
        let b0 = (v % 256) as u8;
        match e {
            Endianness::Big => {
                r.push(b3);
                r.push(b2);
                r.push(b1);
                r.push(b0);
            },
            Endianness::Little => {
                r.push(b0);
                r.push(b1);
                r.push(b2);
                r.push(b3);
            },
        }
    }
    assert(r@ =~= spec_length_header(len as nat, size, e));
    r
}

// ---- NMEA TX ------------------------------------------------------------------

/// The NMEA payload carries a trailing `*HH` checksum.
pub open spec fn nmea_has_checksum(body: Seq<u8>) -> bool {
    body.len() >= 3 && body[body.len() - 3] == 0x2A && is_hex_digit(body[body.len() - 2]) && is_hex_digit(
        body[body.len() - 1],
    )
}

/// The checksum value declared by a trailing `*HH`.
pub open spec fn nmea_declared(body: Seq<u8>) -> u8 {
    (hex_value(body[body.len() - 2]).unwrap() * 16 + hex_value(body[body.len() - 1]).unwrap()) as u8
}

/// Two uppercase hex digits of a byte.
pub open spec fn hex2(b: u8) -> Seq<u8> {
    seq![hex_digit_upper(b / 16), hex_digit_upper(b % 16)]
}

/// The sentence body after an optional leading `$`/`!`.
pub open spec fn nmea_body(p: Seq<u8>) -> Seq<u8> {
    if p.len() > 0 && (p[0] == 0x24 || p[0] == 0x21) {
        p.skip(1)
    } else {
        p
    }
}

/// The leading character of the framed sentence.
pub open spec fn nmea_lead(p: Seq<u8>) -> u8 {
    if p.len() > 0 && (p[0] == 0x24 || p[0] == 0x21) {
        p[0]
    } else {
        0x24
    }
}

/// The bytes covered by the XOR checksum.
pub open spec fn nmea_checked_part(body: Seq<u8>) -> Seq<u8> {
    if nmea_has_checksum(body) {
        body.take(body.len() - 3)
    } else {
        body
    }
}

/// The NMEA TX framing of a payload, `None` when it is refused.
pub open spec fn spec_nmea_frame(p: Seq<u8>) -> Option<Seq<u8>> {
    let body = nmea_body(p);
    let computed = spec_xor(nmea_checked_part(body));
    if has_line_break(p) {
        None
    } else if has_unprintable(p) {
        None
    } else if nmea_has_checksum(body) {
        if computed != nmea_declared(body) {
            None
        } else {
            Some(seq![nmea_lead(p)] + body + seq![0x0Du8, 0x0Au8])
        }
    } else {
        Some(seq![nmea_lead(p)] + body + seq![0x2Au8] + hex2(computed) + seq![0x0Du8, 0x0Au8])
    }
}

/// The message with which NMEA TX framing refuses a payload.
pub open spec fn spec_nmea_error(p: Seq<u8>) -> Seq<char> {
    let body = nmea_body(p);
    if has_line_break(p) {
        "TX NMEA payload must not contain \\r or \\n"@
    } else if has_unprintable(p) {
        "TX NMEA payload must be printable ASCII"@
    } else {
        "TX NMEA checksum mismatch: payload declares "@ + ascii_chars(hex2(nmea_declared(body))) + ", computed "@
            + ascii_chars(hex2(spec_xor(nmea_checked_part(body))))
    }
}

fn hex2_string(b: u8) -> (s: String)
    ensures
        s@ == ascii_chars(hex2(b)),
{
    let mut v: Vec<u8> = Vec::new();
    v.push(nibble_upper(b / 16));
    v.push(nibble_upper(b % 16));
    assert(v@ =~= hex2(b));
    ascii_string(v)
}

pub(crate) fn hex_val(c: u8) -> (r: u8)
    requires
        is_hex_digit(c),
    ensures
        r == hex_value(c).unwrap(),
        r < 16,
{
    if c <= 57 {
        c - 48
    } else if c <= 70 {
        c - 55
    } else {
        c - 87
    }
}

pub(crate) fn is_hex(c: u8) -> (r: bool)
    ensures
        r == is_hex_digit(c),
{
    (48 <= c && c <= 57) || (65 <= c && c <= 70) || (97 <= c && c <= 102)
}

/// The payload contains a `\r` or `\n` byte.
pub open spec fn has_line_break(p: Seq<u8>) -> bool {
    exists|i: int| 0 <= i < p.len() && (#[trigger] p[i] == 0x0D || p[i] == 0x0A)
}

/// The payload contains a byte outside printable ASCII (0x20..=0x7E).
pub open spec fn has_unprintable(p: Seq<u8>) -> bool {
    exists|i: int| 0 <= i < p.len() && !(0x20 <= #[trigger] p[i] && p[i] <= 0x7E)
}

fn nmea_payload_error(payload: &[u8]) -> (r: Option<String>)
    ensures
        r is None <==> !has_line_break(payload@) && !has_unprintable(payload@),
        r matches Some(e) ==> e@ == spec_nmea_error(payload@),
{
    let mut i: usize = 0;
    while i < payload.len()
        invariant
            i <= payload.len(),
            forall|j: int| 0 <= j < i ==> !(#[trigger] payload@[j] == 0x0D || payload@[j] == 0x0A),
        decreases payload.len() - i,
    {
        if payload[i] == 0x0D || payload[i] == 0x0A {
            assert(has_line_break(payload@)) by {
                assert(payload@[i as int] == 0x0D || payload@[i as int] == 0x0A);
            }
            return Some("TX NMEA payload must not contain \\r or \\n".to_owned());
        }
        i += 1;
    }
    assert(!has_line_break(payload@));
    i = 0;
    while i < payload.len()
        invariant
            i <= payload.len(),
            !has_line_break(payload@),
            forall|j: int| 0 <= j < i ==> 0x20 <= #[trigger] payload@[j] && payload@[j] <= 0x7E,
        decreases payload.len() - i,
    {
        if !(0x20 <= payload[i] && payload[i] <= 0x7E) {
            assert(has_unprintable(payload@)) by {
                assert(!(0x20 <= payload@[i as int] && payload@[i as int] <= 0x7E));
            }
            return Some("TX NMEA payload must be printable ASCII".to_owned());
        }
        i += 1;
    }
    None
}

/// The message refusing a payload whose declared checksum differs.
fn nmea_mismatch_message(declared: u8, computed: u8) -> (s: String)
    ensures
        s@ == "TX NMEA checksum mismatch: payload declares "@ + ascii_chars(hex2(declared)) + ", computed "@
            + ascii_chars(hex2(computed)),
{
    let mut msg = "TX NMEA checksum mismatch: payload declares ".to_owned();
    let a = hex2_string(declared);
    msg.append(a.as_str());
    msg.append(", computed ");
    let b = hex2_string(computed);
    msg.append(b.as_str());
    msg
}

/// The framed sentence: lead, body, `*HH` unless the body declares its
/// checksum, and `\r\n`.
fn nmea_assemble(lead: u8, body: &[u8], existing: bool, computed: u8) -> (r: Vec<u8>)
    ensures
        r@ == seq![lead] + body@ + (if existing { Seq::<u8>::empty() } else { seq![0x2Au8] + hex2(computed) }) + seq![0x0Du8, 0x0Au8],
{
    let mut framed: Vec<u8> = Vec::new();
    framed.push(lead);
    extend_bytes(&mut framed, body);
    if !existing {
        framed.push(0x2A);
        framed.push(nibble_upper(computed / 16));
        framed.push(nibble_upper(computed % 16));
    }
    framed.push(0x0D);
    framed.push(0x0A);
    assert(framed@ =~= seq![lead] + body@ + (if existing { Seq::<u8>::empty() } else { seq![0x2Au8] + hex2(computed) }) + seq![0x0Du8, 0x0Au8]);
    framed
}

#[verifier::rlimit(30)]
fn nmea_frame(payload: &[u8]) -> (r: Result<Vec<u8>, String>)
    ensures
        match spec_nmea_frame(payload@) {
            Some(v) => r matches Ok(x) && x@ == v,
            None => r matches Err(e) && e@ == spec_nmea_error(payload@),
        },
{
    if let Some(e) = nmea_payload_error(payload) {
        return Err(e);
    }
    let has_lead = payload.len() > 0 && (payload[0] == 0x24 || payload[0] == 0x21);
    let lead: u8 = if has_lead { payload[0] } else { 0x24 };
    let body_start: usize = if has_lead { 1 } else { 0 };
    let body = copy_range(payload, body_start, payload.len());
    assert(body@ =~= nmea_body(payload@));
    assert(lead == nmea_lead(payload@));
    let n = body.len();
    let existing = n >= 3 && body[n - 3] == 0x2A && is_hex(body[n - 2]) && is_hex(body[n - 1]);
    assert(existing == nmea_has_checksum(body@));
    let checked = if existing { copy_range(body.as_slice(), 0, n - 3) } else { copy_range(body.as_slice(), 0, n) };
    assert(checked@ =~= nmea_checked_part(body@));
    let computed = xor_checksum(checked.as_slice());
    if existing {
        let received = hex_val(body[n - 2]) * 16 + hex_val(body[n - 1]);
        assert(received == nmea_declared(body@));
        if computed != received {
            return Err(nmea_mismatch_message(received, computed));
        }
    }
    let framed = nmea_assemble(lead, body.as_slice(), existing, computed);
    proof {
        if existing {
            assert(framed@ =~= seq![lead] + body@ + seq![0x0Du8, 0x0Au8]);
        } else {
            assert(framed@ =~= seq![lead] + body@ + seq![0x2Au8] + hex2(computed) + seq![0x0Du8, 0x0Au8]);
        }
    }
    Ok(framed)
}

// ---- TxFramingMode::encode ------------------------------------------------------

/// The bytes a TX framing mode sends for a payload, `None` when refused.
pub open spec fn spec_tx_frame(mode: TxFramingMode, p: Seq<u8>) -> Option<Seq<u8>> {
    match mode {
        TxFramingMode::Line { ending } => Some(
            p + match ending {
                TxLineEnding::Lf => seq![0x0Au8],
                TxLineEnding::Cr => seq![0x0Du8],
                TxLineEnding::Crlf => seq![0x0Du8, 0x0Au8],
            },
        ),
        TxFramingMode::Delimiter { delimiter, delimiter_encoding } => match spec_decoded(
            spec_pattern_codec(delimiter_encoding),
            delimiter@,
        ) {
            Some(d) => if d.len() == 0 {
                None
            } else {
                Some(p + d)
            },
            None => None,
        },
        TxFramingMode::LengthPrefixed { prefix_size, endianness } => {
            if !(prefix_size == 1 || prefix_size == 2 || prefix_size == 4) {
                None
            } else if prefix_size == 1 && p.len() > 255 {
                None
            } else if prefix_size == 2 && p.len() > 65535 {
                None
            } else {
                Some(spec_length_header(p.len(), prefix_size, endianness) + p)
            }
        },
        TxFramingMode::StartEnd { start, end, marker_encoding } => {
            if start@.len() == 0 {
                None
            } else {
                match (
                    spec_decoded(spec_pattern_codec(marker_encoding), start@[0]@),
                    spec_decoded(spec_pattern_codec(marker_encoding), end@),
                ) {
                    (Some(s), Some(e)) => if s.len() == 0 || e.len() == 0 {
                        None
                    } else {
                        Some(s + p + e)
                    },
                    _ => None,
                }
            }
        },
        TxFramingMode::Slip => Some(seq![SLIP_END] + spec_slip_stuff(p) + seq![SLIP_END]),
        TxFramingMode::Cobs => Some(seq![0u8] + spec_cobs(p) + seq![0u8]),
        TxFramingMode::Nmea => spec_nmea_frame(p),
    }
}

/// `e` starts with `prefix`.
pub open spec fn starts_with(e: Seq<char>, prefix: Seq<char>) -> bool {
    prefix.len() <= e.len() && e.take(prefix.len() as int) == prefix
}

/// The message with which a TX framing mode refuses a payload; where the
/// message embeds a codec error, the part fixed here is a prefix of it.
pub open spec fn tx_error_ok(mode: TxFramingMode, p: Seq<u8>, e: Seq<char>) -> bool {
    match mode {
        TxFramingMode::Delimiter { delimiter, delimiter_encoding } => match spec_decoded(
            spec_pattern_codec(delimiter_encoding),
            delimiter@,
        ) {
            Some(d) => e == "TX delimiter must not be empty"@,
            None => starts_with(e, "Invalid TX delimiter encoding: "@),
        },
        TxFramingMode::LengthPrefixed { prefix_size, endianness } => {
            if !(prefix_size == 1 || prefix_size == 2 || prefix_size == 4) {
                e == "TX prefix_size must be 1, 2, or 4"@
            } else if prefix_size == 1 {
                e == "TX payload length "@ + ascii_chars(spec_decimal(p.len())) + " exceeds maximum 255 for prefix_size=1"@
            } else {
                e == "TX payload length "@ + ascii_chars(spec_decimal(p.len())) + " exceeds maximum 65535 for prefix_size=2"@
            }
        },
        TxFramingMode::StartEnd { start, end, marker_encoding } => {
            if start@.len() == 0 {
                e == "TX start markers must not be empty"@
            } else if spec_decoded(spec_pattern_codec(marker_encoding), start@[0]@) is None {
                starts_with(e, "Invalid TX start marker encoding: "@)
            } else if spec_decoded(spec_pattern_codec(marker_encoding), end@) is None {
                starts_with(e, "Invalid TX end marker encoding: "@)
            } else {
                e == "TX start and end markers must not be empty"@
            }
        },
        TxFramingMode::Nmea => e == spec_nmea_error(p),
        _ => false,
    }
}

/// `prefix` followed by the description of a codec error.
pub(crate) fn prefixed_codec_error(prefix: &str, e: &CodecError) -> (s: String)
    ensures
        starts_with(s@, prefix@),
{
    let mut s = prefix.to_owned();
    let m = codec::codec_error_message(e);
    s.append(m.as_str());
    assert(s@.take(prefix@.len() as int) =~= prefix@);
    s
}

impl TxFramingMode {
    /// Apply this TX framing mode and return bytes for the UART.
    pub fn encode(&self, payload: &[u8]) -> (r: Result<Vec<u8>, String>)
        requires
            payload@.len() <= usize::MAX / 2,
        ensures
            match spec_tx_frame(*self, payload@) {
                Some(v) => r matches Ok(x) && x@ == v,
                None => r matches Err(e) && tx_error_ok(*self, payload@, e@),
            },
    {
        match self {
            TxFramingMode::Line { ending } => {
                let mut framed = vstd::slice::slice_to_vec(payload);
                match ending {
                    TxLineEnding::Lf => framed.push(0x0A),
                    TxLineEnding::Cr => framed.push(0x0D),
                    TxLineEnding::Crlf => {
                        framed.push(0x0D);
                        framed.push(0x0A);
                    },
                }
                assert(framed@ =~= spec_tx_frame(*self, payload@).unwrap());
                Ok(framed)
            },
            TxFramingMode::Delimiter { delimiter, delimiter_encoding } => {
                let delim_bytes = match codec::decode(delimiter_encoding.to_encoding(), delimiter.as_str()) {
                    Ok(d) => d,
                    Err(e) => return Err(prefixed_codec_error("Invalid TX delimiter encoding: ", &e)),
                };
                if delim_bytes.len() == 0 {
                    return Err("TX delimiter must not be empty".to_owned());
                }
                let mut framed = vstd::slice::slice_to_vec(payload);
                extend_bytes(&mut framed, delim_bytes.as_slice());
                Ok(framed)
            },
            TxFramingMode::LengthPrefixed { prefix_size, endianness } => {
                let size = *prefix_size;
                if !(size == 1 || size == 2 || size == 4) {
                    return Err("TX prefix_size must be 1, 2, or 4".to_owned());
                }
                let len = payload.len();
                if size == 1 && len > 255 {
                    let mut m = "TX payload length ".to_owned();
                    let d = decimal_string(len as u64);
                    m.append(d.as_str());
                    m.append(" exceeds maximum 255 for prefix_size=1");
                    return Err(m);
                }
                if size == 2 && len > 65535 {
                    let mut m = "TX payload length ".to_owned();
                    let d = decimal_string(len as u64);
                    m.append(d.as_str());
                    m.append(" exceeds maximum 65535 for prefix_size=2");
                    return Err(m);
                }
                let mut framed = length_header(len, size, *endianness);
                extend_bytes(&mut framed, payload);
                Ok(framed)
            },
            TxFramingMode::StartEnd { start, end, marker_encoding } => {
                if start.len() == 0 {
                    return Err("TX start markers must not be empty".to_owned());
                }
                let enc = marker_encoding.to_encoding();
                let start_bytes = match codec::decode(enc, start[0].as_str()) {
                    Ok(d) => d,
                    Err(e) => return Err(prefixed_codec_error("Invalid TX start marker encoding: ", &e)),
                };
                let end_bytes = match codec::decode(enc, end.as_str()) {
                    Ok(d) => d,
                    Err(e) => return Err(prefixed_codec_error("Invalid TX end marker encoding: ", &e)),
                };
                if start_bytes.len() == 0 || end_bytes.len() == 0 {
                    return Err("TX start and end markers must not be empty".to_owned());
                }
                let mut framed = start_bytes;
                extend_bytes(&mut framed, payload);
                extend_bytes(&mut framed, end_bytes.as_slice());
                Ok(framed)
            },
            TxFramingMode::Slip => {
                let mut framed: Vec<u8> = Vec::new();
                framed.push(SLIP_END);
                let stuffed = slip_stuff(payload);
                extend_bytes(&mut framed, stuffed.as_slice());
                framed.push(SLIP_END);
                assert(framed@ =~= spec_tx_frame(*self, payload@).unwrap());
                Ok(framed)
            },
            TxFramingMode::Cobs => {
                let mut framed: Vec<u8> = Vec::new();
                framed.push(0x00);
                let stuffed = cobs_stuff(payload);
                extend_bytes(&mut framed, stuffed.as_slice());
                framed.push(0x00);
                assert(framed@ =~= spec_tx_frame(*self, payload@).unwrap());
                Ok(framed)
            },
            TxFramingMode::Nmea => nmea_frame(payload),
        }
    }
}

} // verus!
