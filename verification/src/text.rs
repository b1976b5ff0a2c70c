//! Byte-string helpers shared by the codecs: equality, ASCII strings,
//! decimal and hexadecimal rendering, and subsequence search.

use vstd::prelude::*;
use vstd::utf8::*;

verus! {

broadcast use vstd::seq_lib::group_seq_properties;

/// Declares `std::string::FromUtf8Error` so that verified code can carry it.
#[verifier::external_type_specification]
#[verifier::external_body]
pub struct ExFromUtf8Error(std::string::FromUtf8Error);

/// Every byte of `b` is below 0x80.
pub open spec fn all_ascii(b: Seq<u8>) -> bool {
    forall|i: int| 0 <= i < b.len() ==> b[i] < 128
}

/// The characters denoted by ASCII bytes, one per byte.
pub open spec fn ascii_chars(b: Seq<u8>) -> Seq<char> {
    b.map_values(|x: u8| x as char)
}

/// Calls `String::from_utf8`, whose documentation states that it succeeds
/// exactly on valid UTF-8 input and then holds the decoded characters.
#[verifier::external_body]
fn string_from_utf8(v: Vec<u8>) -> (r: Result<String, std::string::FromUtf8Error>)
    ensures
        r is Ok <==> valid_utf8(v@),
        r matches Ok(s) ==> s@ == decode_utf8(v@),
{
    String::from_utf8(v)
}

/// ASCII bytes are the UTF-8 encoding of their characters.
pub proof fn lemma_ascii_encode(v: Seq<u8>)
    requires
        all_ascii(v),
    ensures
        encode_utf8(ascii_chars(v)) == v,
        is_ascii_chars(ascii_chars(v)),
{
    let c = ascii_chars(v);
    assert forall|i: int| 0 <= i < c.len() implies (c[i] as u32) < 128 by {
        assert(c[i] == (v[i] as char));
    }
    assert(is_ascii_chars(c));
    is_ascii_chars_encode_utf8(c);
    assert forall|i: int| 0 <= i < v.len() implies (c[i] as u8) == v[i] by {
        let x = v[i];
        assert(c[i] == (x as char));
        assert(((x as char) as u8) == x);
    }
    assert(encode_utf8(c) =~= v);
}

/// The `String` holding exactly the characters of the ASCII bytes `v`.
pub fn ascii_string(v: Vec<u8>) -> (s: String)
    requires
        all_ascii(v@),
    ensures
        s@ == ascii_chars(v@),
{
    proof {
        lemma_ascii_encode(v@);
        encode_utf8_valid_utf8(ascii_chars(v@));
        encode_utf8_decode_utf8(ascii_chars(v@));
    }
    match string_from_utf8(v) {
        Ok(s) => s,
        Err(_) => {
            assert(false);
            String::new()
        },
    }
}

/// Byte-wise equality of two slices.
pub fn bytes_eq(a: &[u8], b: &[u8]) -> (r: bool)
    ensures
        r == (a@ == b@),
{
    if a.len() != b.len() {
        return false;
    }
    let mut i: usize = 0;
    while i < a.len()
        invariant
            a.len() == b.len(),
            i <= a.len(),
            forall|j: int| 0 <= j < i ==> a@[j] == b@[j],
        decreases a.len() - i,
    {
        if a[i] != b[i] {
            return false;
        }
        i += 1;
    }
    assert(a@ =~= b@);
    true
}

/// Character-wise equality of two string slices.
pub fn str_eq(a: &str, b: &str) -> (r: bool)
    ensures
        r == (a@ == b@),
{
    proof {
        encode_utf8_decode_utf8(a@);
        encode_utf8_decode_utf8(b@);
    }
    bytes_eq(a.as_bytes(), b.as_bytes())
}

/// `needle` occurs in `hay` starting at index `i`.
pub open spec fn occurs_at(hay: Seq<u8>, needle: Seq<u8>, i: int) -> bool {
    0 <= i && i + needle.len() <= hay.len() && hay.subrange(i, i + needle.len()) == needle
}

/// The first index at which `needle` occurs in `hay`, if any.
pub open spec fn spec_find(hay: Seq<u8>, needle: Seq<u8>) -> Option<int> {
    if exists|i: int| occurs_at(hay, needle, i) {
        Some(choose|i: int| occurs_at(hay, needle, i) && forall|j: int| 0 <= j < i ==> !occurs_at(hay, needle, j))
    } else {
        None
    }
}

/// The first occurrence of `needle` in `hay` is `spec_find`.
pub proof fn lemma_find_is(hay: Seq<u8>, needle: Seq<u8>, i: int)
    requires
        occurs_at(hay, needle, i),
        forall|j: int| 0 <= j < i ==> !occurs_at(hay, needle, j),
    ensures
        spec_find(hay, needle) == Some(i),
{
    let k = choose|k: int| occurs_at(hay, needle, k) && forall|j: int| 0 <= j < k ==> !occurs_at(hay, needle, j);
    assert(occurs_at(hay, needle, k) && forall|j: int| 0 <= j < k ==> !occurs_at(hay, needle, j));
    if k < i {
        assert(!occurs_at(hay, needle, k));
    }
    if i < k {
        assert(!occurs_at(hay, needle, i));
    }
}

/// Whether `needle` occurs in `hay` at index `i`.
fn matches_at(hay: &[u8], needle: &[u8], i: usize) -> (r: bool)
    requires
        i + needle.len() <= hay.len(),
    ensures
        r == occurs_at(hay@, needle@, i as int),
{
    let mut k: usize = 0;
    while k < needle.len()
        invariant
            i + needle.len() <= hay.len(),
            k <= needle.len(),
            forall|j: int| 0 <= j < k ==> hay@[i + j] == needle@[j],
        decreases needle.len() - k,
    {
        if hay[i + k] != needle[k] {
            assert(hay@.subrange(i as int, i + needle.len())[k as int] != needle@[k as int]);
            return false;
        }
        k += 1;
    }
    assert(hay@.subrange(i as int, i + needle.len()) =~= needle@);
    true
}

/// The first position of `needle` inside `hay`.
pub fn find_subsequence(hay: &[u8], needle: &[u8]) -> (r: Option<usize>)
    ensures
        match r {
            Some(i) => spec_find(hay@, needle@) == Some(i as int),
            None => spec_find(hay@, needle@) is None,
        },
{
    if needle.len() > hay.len() {
        assert forall|j: int| !occurs_at(hay@, needle@, j) by {}
        return None;
    }
    let last = hay.len() - needle.len();
    let mut i: usize = 0;
    loop
        invariant
            last == hay.len() - needle.len(),
            needle.len() <= hay.len(),
            i <= last,
            forall|j: int| 0 <= j < i ==> !occurs_at(hay@, needle@, j),
        decreases last - i,
    {
        if matches_at(hay, needle, i) {
            proof {
                lemma_find_is(hay@, needle@, i as int);
            }
            return Some(i);
        }
        if i == last {
            assert forall|j: int| !occurs_at(hay@, needle@, j) by {
                if 0 <= j && j <= i {
                }
            }
            return None;
        }
        i += 1;
    }
}

/// Index of the first occurrence of `b` in `s`, if any.
pub open spec fn spec_position<A>(s: Seq<A>, b: A) -> Option<int> {
    if exists|i: int| 0 <= i < s.len() && s[i] == b {
        Some(choose|i: int| 0 <= i < s.len() && s[i] == b && forall|j: int| 0 <= j < i ==> s[j] != b)
    } else {
        None
    }
}

proof fn lemma_first_of<A>(s: Seq<A>, b: A, i: int)
    requires
        0 <= i < s.len(),
        s[i] == b,
    ensures
        exists|k: int| 0 <= k < s.len() && s[k] == b && forall|j: int| 0 <= j < k ==> s[j] != b,
    decreases i,
{
    if exists|j: int| 0 <= j < i && s[j] == b {
        let j = choose|j: int| 0 <= j < i && s[j] == b;
        lemma_first_of(s, b, j);
    } else {
        assert(0 <= i < s.len() && s[i] == b && forall|j: int| 0 <= j < i ==> s[j] != b);
    }
}

/// What `spec_position` denotes: the first index holding `b`.
pub proof fn lemma_position<A>(s: Seq<A>, b: A)
    ensures
        match spec_position(s, b) {
            Some(p) => 0 <= p < s.len() && s[p] == b && forall|j: int| 0 <= j < p ==> s[j] != b,
            None => forall|j: int| 0 <= j < s.len() ==> s[j] != b,
        },
{
    if exists|i: int| 0 <= i < s.len() && s[i] == b {
        let i = choose|i: int| 0 <= i < s.len() && s[i] == b;
        lemma_first_of(s, b, i);
    }
}

/// The first index holding `b` is `spec_position`.
pub proof fn lemma_position_is<A>(s: Seq<A>, b: A, k: int)
    requires
        0 <= k < s.len(),
        s[k] == b,
        forall|j: int| 0 <= j < k ==> s[j] != b,
    ensures
        spec_position(s, b) == Some(k),
{
    lemma_position(s, b);
    let p = spec_position(s, b)->0;
    if p < k {
        assert(s[p] != b);
    }
    if k < p {
        assert(s[k] != b);
    }
}

proof fn lemma_first_occurs(hay: Seq<u8>, needle: Seq<u8>, i: int)
    requires
        occurs_at(hay, needle, i),
    ensures
        exists|k: int| occurs_at(hay, needle, k) && forall|j: int| 0 <= j < k ==> !occurs_at(hay, needle, j),
    decreases i,
{
    if exists|j: int| 0 <= j < i && occurs_at(hay, needle, j) {
        let j = choose|j: int| 0 <= j < i && occurs_at(hay, needle, j);
        lemma_first_occurs(hay, needle, j);
    } else {
        assert(occurs_at(hay, needle, i) && forall|j: int| 0 <= j < i ==> !occurs_at(hay, needle, j));
    }
}

/// What `spec_find` denotes: the first index at which `needle` occurs.
pub proof fn lemma_find(hay: Seq<u8>, needle: Seq<u8>)
    ensures
        match spec_find(hay, needle) {
            Some(p) => occurs_at(hay, needle, p) && forall|j: int| 0 <= j < p ==> !occurs_at(hay, needle, j),
            None => forall|j: int| !occurs_at(hay, needle, j),
        },
{
    if exists|i: int| occurs_at(hay, needle, i) {
        let i = choose|i: int| occurs_at(hay, needle, i);
        lemma_first_occurs(hay, needle, i);
    }
}

/// The first position of byte `b` in `s`.
pub fn position_of(s: &[u8], b: u8) -> (r: Option<usize>)
    ensures
        match r {
            Some(i) => spec_position(s@, b) == Some(i as int) && i < s.len() && s@[i as int] == b,
            None => spec_position(s@, b) is None,
        },
{
    let mut i: usize = 0;
    while i < s.len()
        invariant
            i <= s.len(),
            forall|j: int| 0 <= j < i ==> s@[j] != b,
        decreases s.len() - i,
    {
        if s[i] == b {
            proof {
                let k = choose|k: int| 0 <= k < s@.len() && s@[k] == b && forall|j: int| 0 <= j < k ==> s@[j] != b;
                assert(0 <= k < s@.len() && s@[k] == b && forall|j: int| 0 <= j < k ==> s@[j] != b);
                if k < i {
                }
                if i < k {
                    assert(s@[i as int] != b);
                }
            }
            return Some(i);
        }
        i += 1;
    }
    None
}

/// Decimal digits of `n`, most significant first, without leading zeros.
pub open spec fn spec_decimal(n: nat) -> Seq<u8>
    decreases n,
{
    if n < 10 {
        seq![(48 + n) as u8]
    } else {
        spec_decimal(n / 10).push((48 + n % 10) as u8)
    }
}

proof fn lemma_decimal_ascii(n: nat)
    ensures
        all_ascii(spec_decimal(n)),
    decreases n,
{
    if n >= 10 {
        lemma_decimal_ascii(n / 10);
    }
}

fn push_decimal(n: u64, out: &mut Vec<u8>)
    ensures
        final(out)@ == old(out)@ + spec_decimal(n as nat),
    decreases n,
{
    if n >= 10 {
        push_decimal(n / 10, out);
    }
    out.push((48 + n % 10) as u8);
}

/// The decimal rendering of `n` as a string.
pub fn decimal_string(n: u64) -> (s: String)
    ensures
        s@ == ascii_chars(spec_decimal(n as nat)),
{
    let mut v: Vec<u8> = Vec::new();
    push_decimal(n, &mut v);
    proof {
        lemma_decimal_ascii(n as nat);
        assert(v@ =~= spec_decimal(n as nat));
    }
    ascii_string(v)
}

/// Uppercase hexadecimal digit for a nibble.
pub open spec fn hex_digit_upper(d: u8) -> u8 {
    if d < 10 {
        (48 + d) as u8
    } else {
        (55 + d) as u8
    }
}

/// Lowercase hexadecimal digit for a nibble.
pub open spec fn hex_digit_lower(d: u8) -> u8 {
    if d < 10 {
        (48 + d) as u8
    } else {
        (87 + d) as u8
    }
}

/// Uppercase two-digit hexadecimal rendering of every byte, concatenated.
pub open spec fn spec_hex_upper(b: Seq<u8>) -> Seq<u8>
    decreases b.len(),
{
    if b.len() == 0 {
        Seq::empty()
    } else {
        spec_hex_upper(b.drop_last()) + seq![hex_digit_upper(b.last() / 16), hex_digit_upper(b.last() % 16)]
    }
}

proof fn lemma_hex_upper_ascii(b: Seq<u8>)
    ensures
        all_ascii(spec_hex_upper(b)),
        spec_hex_upper(b).len() == 2 * b.len(),
    decreases b.len(),
{
    if b.len() > 0 {
        lemma_hex_upper_ascii(b.drop_last());
    }
}

/// The uppercase hex digit of a nibble.
pub fn nibble_upper(d: u8) -> (r: u8)
    requires
        d < 16,
    ensures
        r == hex_digit_upper(d),
{
    if d < 10 {
        48 + d
    } else {
        55 + d
    }
}

/// The lowercase hex digit of a nibble.
pub fn nibble_lower(d: u8) -> (r: u8)
    requires
        d < 16,
    ensures
        r == hex_digit_lower(d),
{
    if d < 10 {
        48 + d
    } else {
        87 + d
    }
}

/// Format a byte slice as uppercase hex with no separator (e.g. "4F1A").
pub fn hex_upper(bytes: &[u8]) -> (s: String)
    ensures
        s@ == ascii_chars(spec_hex_upper(bytes@)),
{
    let mut v: Vec<u8> = Vec::new();
    let mut i: usize = 0;
    while i < bytes.len()
        invariant
            i <= bytes.len(),
            v@ == spec_hex_upper(bytes@.take(i as int)),
        decreases bytes.len() - i,
    {
        assert(bytes@.take(i as int + 1).drop_last() =~= bytes@.take(i as int));
        let b = bytes[i];
        v.push(nibble_upper(b / 16));
        v.push(nibble_upper(b % 16));
        i += 1;
        assert(v@ =~= spec_hex_upper(bytes@.take(i as int)));
    }
    assert(bytes@.take(i as int) =~= bytes@);
    proof {
        lemma_hex_upper_ascii(bytes@);
    }
    ascii_string(v)
}

/// The characters of `s`, in order.
pub fn str_chars(s: &str) -> (v: Vec<char>)
    ensures
        v@ == s@,
{
    broadcast use vstd::string::group_string_axioms;
    let mut v: Vec<char> = Vec::new();
    for c in it: s.chars()
        invariant
            it.seq() == s@,
            v@ == s@.take(it.index()),
    {
        v.push(c);
        assert(v@ =~= s@.take(it.index() + 1));
    }
    assert(v@.len() == s@.len());
    assert(v@ =~= s@);
    v
}

/// Collects characters into a `String` (`FromIterator<char>`), whose
/// documentation states that the string holds those characters in order.
#[verifier::external_body]
pub(crate) fn string_of_chars(v: &[char]) -> (s: String)
    ensures
        s@ == v@,
{
    v.iter().collect()
}

/// A copy of `s[lo..hi]`.
pub fn copy_chars(s: &[char], lo: usize, hi: usize) -> (r: Vec<char>)
    requires
        lo <= hi <= s.len(),
    ensures
        r@ == s@.subrange(lo as int, hi as int),
{
    let mut v: Vec<char> = Vec::new();
    let mut i = lo;
    while i < hi
        invariant
            lo <= i <= hi,
            hi <= s.len(),
            v@ == s@.subrange(lo as int, i as int),
        decreases hi - i,
    {
        v.push(s[i]);
        i += 1;
        assert(v@ =~= s@.subrange(lo as int, i as int));
    }
    v
}

/// The first position of character `c` in `s`.
pub fn char_position(s: &[char], c: char) -> (r: Option<usize>)
    ensures
        match r {
            Some(i) => spec_position(s@, c) == Some(i as int) && i < s.len(),
            None => spec_position(s@, c) is None,
        },
{
    let mut i: usize = 0;
    while i < s.len()
        invariant
            i <= s.len(),
            forall|j: int| 0 <= j < i ==> s@[j] != c,
        decreases s.len() - i,
    {
        if s[i] == c {
            proof {
                lemma_position_is(s@, c, i as int);
            }
            return Some(i);
        }
        i += 1;
    }
    proof {
        lemma_position(s@, c);
    }
    None
}

/// `p` is a prefix of `t`.
pub open spec fn has_prefix<A>(t: Seq<A>, p: Seq<A>) -> bool {
    p.len() <= t.len() && t.take(p.len() as int) == p
}

/// `p` is a suffix of `t`.
pub open spec fn has_suffix<A>(t: Seq<A>, p: Seq<A>) -> bool {
    p.len() <= t.len() && t.skip(t.len() - p.len()) == p
}

/// Whether the characters `t` begin with the characters of `p`.
pub fn chars_start_with(t: &[char], p: &str) -> (r: bool)
    ensures
        r == has_prefix(t@, p@),
{
    let pc = str_chars(p);
    if pc.len() > t.len() {
        return false;
    }
    let mut i: usize = 0;
    while i < pc.len()
        invariant
            i <= pc@.len() <= t@.len(),
            pc@ == p@,
            forall|j: int| 0 <= j < i ==> t@[j] == pc@[j],
        decreases pc.len() - i,
    {
        if t[i] != pc[i] {
            assert(t@.take(pc@.len() as int)[i as int] != pc@[i as int]);
            return false;
        }
        i += 1;
    }
    assert(t@.take(pc@.len() as int) =~= pc@);
    true
}

/// Whether the characters `t` end with the characters of `p`.
pub fn chars_end_with(t: &[char], p: &str) -> (r: bool)
    ensures
        r == has_suffix(t@, p@),
{
    let pc = str_chars(p);
    if pc.len() > t.len() {
        return false;
    }
    let off = t.len() - pc.len();
    let mut i: usize = 0;
    while i < pc.len()
        invariant
            i <= pc@.len() <= t@.len(),
            off == t@.len() - pc@.len(),
            t@.len() <= usize::MAX,
            pc@ == p@,
            forall|j: int| 0 <= j < i ==> t@[off + j] == pc@[j],
        decreases pc.len() - i,
    {
        if t[off + i] != pc[i] {
            assert(t@.skip(off as int)[i as int] != pc@[i as int]);
            return false;
        }
        i += 1;
    }
    assert(t@.skip(off as int) =~= pc@);
    true
}

} // verus!
