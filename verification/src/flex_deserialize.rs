//! Unsigned integer fields that accept both JSON numbers and JSON strings.
//!
//! Some MCP clients send integer arguments as strings (`"5000"` instead of
//! `5000`). These wrappers hold the integer; the coercion functions here
//! decide what a number, a negative number or a string becomes, and the
//! deserializers built on them accept both forms.

use vstd::prelude::*;
use vstd::std_specs::convert::FromSpecImpl;
use crate::codec::{str_trim, trim_str};
use crate::error::{debug_text, str_debug};
use crate::text::{ascii_chars, decimal_string, spec_decimal, str_chars};

verus! {

/// A `u64` read from a JSON number or a string holding a decimal integer.
#[derive(Debug, Clone, Copy, PartialEq, Eq, Structural)]
pub struct FlexibleU64(pub u64);

/// An `Option<u64>` read from a JSON number, a decimal string, or null
/// (a blank string also reads as `None`).
#[derive(Debug, Clone, Copy, PartialEq, Eq, Structural)]
pub struct FlexibleOptionU64(pub Option<u64>);

/// A `u32` read from a JSON number or a decimal string.
#[derive(Debug, Clone, Copy, PartialEq, Eq, Structural)]
pub struct FlexibleU32(pub u32);

/// A `usize` read from a JSON number or a decimal string.
#[derive(Debug, Clone, Copy, PartialEq, Eq, Structural)]
pub struct FlexibleUsize(pub usize);

impl Default for FlexibleU64 {
    fn default() -> (r: Self)
        ensures
            r.0 == 0,
    {
        FlexibleU64(0)
    }
}

impl Default for FlexibleOptionU64 {
    fn default() -> (r: Self)
        ensures
            r.0 is None,
    {
        FlexibleOptionU64(None)
    }
}

impl Default for FlexibleU32 {
    fn default() -> (r: Self)
        ensures
            r.0 == 0,
    {
        FlexibleU32(0)
    }
}

impl Default for FlexibleUsize {
    fn default() -> (r: Self)
        ensures
            r.0 == 0,
    {
        FlexibleUsize(0)
    }
}

impl From<FlexibleU64> for u64 {
    fn from(v: FlexibleU64) -> (r: u64) {
        v.0
    }
}

impl FromSpecImpl<FlexibleU64> for u64 {
    open spec fn obeys_from_spec() -> bool {
        true
    }

    open spec fn from_spec(v: FlexibleU64) -> u64 {
        v.0
    }
}

impl From<u64> for FlexibleU64 {
    fn from(v: u64) -> (r: FlexibleU64) {
        FlexibleU64(v)
    }
}

impl FromSpecImpl<u64> for FlexibleU64 {
    open spec fn obeys_from_spec() -> bool {
        true
    }

    open spec fn from_spec(v: u64) -> FlexibleU64 {
        FlexibleU64(v)
    }
}

impl From<FlexibleOptionU64> for Option<u64> {
    fn from(v: FlexibleOptionU64) -> (r: Option<u64>) {
        v.0
    }
}

impl FromSpecImpl<FlexibleOptionU64> for Option<u64> {
    open spec fn obeys_from_spec() -> bool {
        true
    }

    open spec fn from_spec(v: FlexibleOptionU64) -> Option<u64> {
        v.0
    }
}

impl From<Option<u64>> for FlexibleOptionU64 {
    fn from(v: Option<u64>) -> (r: FlexibleOptionU64) {
        FlexibleOptionU64(v)
    }
}

impl FromSpecImpl<Option<u64>> for FlexibleOptionU64 {
    open spec fn obeys_from_spec() -> bool {
        true
    }

    open spec fn from_spec(v: Option<u64>) -> FlexibleOptionU64 {
        FlexibleOptionU64(v)
    }
}

impl From<FlexibleU32> for u32 {
    fn from(v: FlexibleU32) -> (r: u32) {
        v.0
    }
}

impl FromSpecImpl<FlexibleU32> for u32 {
    open spec fn obeys_from_spec() -> bool {
        true
    }

    open spec fn from_spec(v: FlexibleU32) -> u32 {
        v.0
    }
}

impl From<u32> for FlexibleU32 {
    fn from(v: u32) -> (r: FlexibleU32) {
        FlexibleU32(v)
    }
}

impl FromSpecImpl<u32> for FlexibleU32 {
    open spec fn obeys_from_spec() -> bool {
        true
    }

    open spec fn from_spec(v: u32) -> FlexibleU32 {
        FlexibleU32(v)
    }
}

impl From<FlexibleUsize> for usize {
    fn from(v: FlexibleUsize) -> (r: usize) {
        v.0
    }
}

impl FromSpecImpl<FlexibleUsize> for usize {
    open spec fn obeys_from_spec() -> bool {
        true
    }

    open spec fn from_spec(v: FlexibleUsize) -> usize {
        v.0
    }
}

impl From<usize> for FlexibleUsize {
    fn from(v: usize) -> (r: FlexibleUsize) {
        FlexibleUsize(v)
    }
}

impl FromSpecImpl<usize> for FlexibleUsize {
    open spec fn obeys_from_spec() -> bool {
        true
    }

    open spec fn from_spec(v: usize) -> FlexibleUsize {
        FlexibleUsize(v)
    }
}

// ---- decimal parsing -----------------------------------------------------------------

/// An ASCII decimal digit.
pub open spec fn is_digit_char(c: char) -> bool {
    '0' <= c && c <= '9'
}

/// The value of a string of decimal digits, most significant first.
pub open spec fn digits_value(d: Seq<char>) -> nat
    decreases d.len(),
{
    if d.len() == 0 {
        0
    } else {
        digits_value(d.drop_last()) * 10 + (d.last() as nat - '0' as nat) as nat
    }
}

/// What `str::parse` accepts for an unsigned integer: an optional `+` and
/// one or more decimal digits; the value is then checked against the type.
pub open spec fn spec_parse_unsigned(s: Seq<char>) -> Option<nat> {
    let d = unsigned_digits(s);
    if d.len() > 0 && all_digits(d) {
        Some(digits_value(d))
    } else {
        None
    }
}

/// The digits after an optional leading `+`.
pub open spec fn unsigned_digits(s: Seq<char>) -> Seq<char> {
    if s.len() > 0 && s[0] == '+' {
        s.skip(1)
    } else {
        s
    }
}

/// Every character is a decimal digit.
pub open spec fn all_digits(d: Seq<char>) -> bool {
    forall|i: int| 0 <= i < d.len() ==> is_digit_char(#[trigger] d[i])
}

fn digits_from(c: &[char], start: usize) -> (r: bool)
    ensures
        r == forall|j: int| start <= j < c@.len() ==> is_digit_char(#[trigger] c@[j]),
{
    let mut i = start;
    while i < c.len()
        invariant
            start <= i,
            forall|j: int| start <= j < i && j < c@.len() ==> is_digit_char(#[trigger] c@[j]),
        decreases c@.len() - i,
    {
        if !('0' <= c[i] && c[i] <= '9') {
            assert(!is_digit_char(c@[i as int]));
            return false;
        }
        i += 1;
    }
    true
}

/// Parse an unsigned decimal integer no larger than `max`.
pub fn parse_unsigned(s: &str, max: u64) -> (r: Option<u64>)
    ensures
        match spec_parse_unsigned(s@) {
            Some(v) => if v <= max { r == Some(v as u64) } else { r is None },
            None => r is None,
        },
{
    let chars = str_chars(s);
    let start: usize = if chars.len() > 0 && chars[0] == '+' { 1 } else { 0 };
    let ghost d = unsigned_digits(s@);
    assert(d =~= chars@.skip(start as int));
    if start >= chars.len() {
        return None;
    }
    if !digits_from(chars.as_slice(), start) {
        assert(!all_digits(d)) by {
            let j = choose|j: int| start <= j < chars@.len() && !is_digit_char(#[trigger] chars@[j]);
            assert(d[j - start] == chars@[j]);
        }
        assert(spec_parse_unsigned(s@) is None);
        return None;
    }
    assert(all_digits(d)) by {
        assert forall|i: int| 0 <= i < d.len() implies is_digit_char(#[trigger] d[i]) by {
            assert(d[i] == chars@[start + i]);
        }
    }
    let mut value: u64 = 0;
    let mut overflow = false;
    let mut i = start;
    while i < chars.len()
        invariant
            start <= i <= chars@.len(),
            forall|j: int| start <= j < chars@.len() ==> is_digit_char(#[trigger] chars@[j]),
            !overflow ==> value as nat == digits_value(chars@.subrange(start as int, i as int)) && value <= max,
            overflow ==> digits_value(chars@.subrange(start as int, i as int)) > max,
        decreases chars@.len() - i,
    {
        let c = chars[i];
        assert(is_digit_char(chars@[i as int]));
        let digit = (c as u32 - '0' as u32) as u64;
        let ghost prev = chars@.subrange(start as int, i as int);
        assert(chars@.subrange(start as int, i + 1).drop_last() =~= prev);
        assert(chars@.subrange(start as int, i + 1).last() == c);
        if !overflow {
            if digit > max || value > (max - digit) / 10 {
                overflow = true;
                if digit <= max {
                    let q = (max - digit) / 10;
                    assert(value * 10 + digit > max) by (nonlinear_arith)
                        requires
                            q == (max - digit) / 10,
                            value > q,
                            digit <= max,
                    ;
                }
            } else {
                assert(value * 10 + digit <= max) by (nonlinear_arith)
                    requires
                        value <= (max - digit) / 10,
                        digit <= max,
                ;
                value = value * 10 + digit;
            }
        } else {
            assert(digits_value(prev) * 10 + digit > max) by (nonlinear_arith)
                requires
                    digits_value(prev) > max,
            ;
        }
        i += 1;
    }
    assert(chars@.subrange(start as int, chars@.len() as int) =~= d);
    if overflow {
        None
    } else {
        Some(value)
    }
}

// ---- signed decimals -------------------------------------------------------------------

/// Decimal text of a signed integer.
pub open spec fn spec_signed_decimal(v: int) -> Seq<u8> {
    if v < 0 {
        seq![0x2Du8] + spec_decimal((-v) as nat)
    } else {
        spec_decimal(v as nat)
    }
}

/// The decimal text of a signed integer.
pub fn signed_decimal_string(v: i64) -> (s: String)
    ensures
        s@ == ascii_chars(spec_signed_decimal(v as int)),
{
    if v >= 0 {
        decimal_string(v as u64)
    } else {
        let magnitude: u64 = ((-(v + 1)) as u64) + 1;
        assert(magnitude == -(v as int));
        let mut s = "-".to_owned();
        proof {
            reveal_strlit("-");
        }
        let d = decimal_string(magnitude);
        s.append(d.as_str());
        assert(ascii_chars(seq![0x2Du8] + spec_decimal(magnitude as nat)) =~= seq!['-'] + ascii_chars(
            spec_decimal(magnitude as nat),
        ));
        s
    }
}

// ---- coercions ----------------------------------------------------------------------------

/// The message refusing a string that is not a decimal integer.
pub open spec fn invalid_string_message(kind: Seq<char>, v: Seq<char>) -> Seq<char> {
    "invalid "@ + kind + " string: "@ + str_debug(v)
}

/// The message refusing a number out of a type's range.
pub open spec fn range_message(v: int, kind: Seq<char>) -> Seq<char> {
    "value "@ + ascii_chars(spec_signed_decimal(v)) + " out of range for "@ + kind
}

fn invalid_string(kind: &str, v: &str) -> (m: String)
    ensures
        m@ == invalid_string_message(kind@, v@),
{
    let mut m = "invalid ".to_owned();
    m.append(kind);
    m.append(" string: ");
    let d = debug_text(v);
    m.append(d.as_str());
    m
}

fn out_of_range(v: i64, kind: &str) -> (m: String)
    ensures
        m@ == range_message(v as int, kind@),
{
    let mut m = "value ".to_owned();
    let d = signed_decimal_string(v);
    m.append(d.as_str());
    m.append(" out of range for ");
    m.append(kind);
    m
}

fn out_of_range_unsigned(v: u64, kind: &str) -> (m: String)
    ensures
        m@ == range_message(v as int, kind@),
{
    let mut m = "value ".to_owned();
    let d = decimal_string(v);
    m.append(d.as_str());
    m.append(" out of range for ");
    m.append(kind);
    m
}

/// A string read as a `u64` field: trimmed, then parsed.
pub fn u64_from_str(v: &str) -> (r: Result<u64, String>)
    ensures
        match spec_parse_unsigned(str_trim(v@)) {
            Some(n) => if n <= u64::MAX {
                r == Ok::<u64, String>(n as u64)
            } else {
                r matches Err(m) && m@ == invalid_string_message("u64"@, v@)
            },
            None => r matches Err(m) && m@ == invalid_string_message("u64"@, v@),
        },
{
    match parse_unsigned(trim_str(v), u64::MAX) {
        Some(n) => Ok(n),
        None => Err(invalid_string("u64", v)),
    }
}

/// A negative number is refused for a `u64` field.
pub fn u64_from_i64(v: i64) -> (r: Result<u64, String>)
    ensures
        v >= 0 ==> r == Ok::<u64, String>(v as u64),
        v < 0 ==> (r matches Err(m) && m@ == "negative value "@ + ascii_chars(spec_signed_decimal(v as int))
            + " not allowed for u64 field"@),
{
    if v >= 0 {
        Ok(v as u64)
    } else {
        let mut m = "negative value ".to_owned();
        let d = signed_decimal_string(v);
        m.append(d.as_str());
        m.append(" not allowed for u64 field");
        Err(m)
    }
}

/// A string read as an optional `u64` field: blank reads as `None`.
pub fn option_u64_from_str(v: &str) -> (r: Result<Option<u64>, String>)
    ensures
        str_trim(v@).len() == 0 ==> r == Ok::<Option<u64>, String>(None),
        str_trim(v@).len() > 0 ==> match spec_parse_unsigned(str_trim(v@)) {
            Some(n) => if n <= u64::MAX {
                r == Ok::<Option<u64>, String>(Some(n as u64))
            } else {
                r matches Err(m) && m@ == invalid_string_message("u64"@, v@)
            },
            None => r matches Err(m) && m@ == invalid_string_message("u64"@, v@),
        },
{
    let t = trim_str(v);
    if t.is_empty() {
        return Ok(None);
    }
    match parse_unsigned(t, u64::MAX) {
        Some(n) => Ok(Some(n)),
        None => Err(invalid_string("u64", v)),
    }
}

/// A number read as a `u32` field.
pub fn u32_from_u64(v: u64) -> (r: Result<u32, String>)
    ensures
        v <= u32::MAX ==> r == Ok::<u32, String>(v as u32),
        v > u32::MAX ==> (r matches Err(m) && m@ == range_message(v as int, "u32"@)),
{
    if v <= u32::MAX as u64 {
        Ok(v as u32)
    } else {
        Err(out_of_range_unsigned(v, "u32"))
    }
}

/// A signed number read as a `u32` field.
pub fn u32_from_i64(v: i64) -> (r: Result<u32, String>)
    ensures
        0 <= v <= u32::MAX ==> r == Ok::<u32, String>(v as u32),
        !(0 <= v <= u32::MAX) ==> (r matches Err(m) && m@ == range_message(v as int, "u32"@)),
{
    if 0 <= v && v <= u32::MAX as i64 {
        Ok(v as u32)
    } else {
        Err(out_of_range(v, "u32"))
    }
}

/// A string read as a `u32` field: trimmed, then parsed.
pub fn u32_from_str(v: &str) -> (r: Result<u32, String>)
    ensures
        match spec_parse_unsigned(str_trim(v@)) {
            Some(n) => if n <= u32::MAX {
                r == Ok::<u32, String>(n as u32)
            } else {
                r matches Err(m) && m@ == invalid_string_message("u32"@, v@)
            },
            None => r matches Err(m) && m@ == invalid_string_message("u32"@, v@),
        },
{
    match parse_unsigned(trim_str(v), u32::MAX as u64) {
        Some(n) => Ok(n as u32),
        None => Err(invalid_string("u32", v)),
    }
}

/// A number read as a `usize` field.
pub fn usize_from_u64(v: u64) -> (r: Result<usize, String>)
    ensures
        v <= usize::MAX ==> r == Ok::<usize, String>(v as usize),
        v > usize::MAX ==> (r matches Err(m) && m@ == range_message(v as int, "usize"@)),
{
    if v as u128 <= usize::MAX as u128 {
        Ok(v as usize)
    } else {
        Err(out_of_range_unsigned(v, "usize"))
    }
}

/// A signed number read as a `usize` field.
pub fn usize_from_i64(v: i64) -> (r: Result<usize, String>)
    ensures
        0 <= v <= usize::MAX ==> r == Ok::<usize, String>(v as usize),
        !(0 <= v <= usize::MAX) ==> (r matches Err(m) && m@ == range_message(v as int, "usize"@)),
{
    if 0 <= v && v as i128 <= usize::MAX as i128 {
        Ok(v as usize)
    } else {
        Err(out_of_range(v, "usize"))
    }
}

/// A string read as a `usize` field: trimmed, then parsed.
pub fn usize_from_str(v: &str) -> (r: Result<usize, String>)
    ensures
        match spec_parse_unsigned(str_trim(v@)) {
            Some(n) => if n <= usize::MAX {
                r == Ok::<usize, String>(n as usize)
            } else {
                r matches Err(m) && m@ == invalid_string_message("usize"@, v@)
            },
            None => r matches Err(m) && m@ == invalid_string_message("usize"@, v@),
        },
{
    match parse_unsigned(trim_str(v), usize::MAX as u64) {
        Some(n) => Ok(n as usize),
        None => Err(invalid_string("usize", v)),
    }
}

} // verus!
