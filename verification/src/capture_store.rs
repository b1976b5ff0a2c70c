//! Policy of the persistent capture store: the portable filename contract,
//! which directory entries count as committed captures, and the per-file,
//! file-count and total-byte quotas checked before a commit.
//!
//! The file work itself (locking, scanning, temp write, no-clobber commit)
//! runs outside the library and consults these decisions.

use vstd::prelude::*;
use crate::codec::str_bytes;
use crate::text::{
    ascii_chars, bytes_eq, decimal_string, find_subsequence, has_prefix, has_suffix, position_of,
    spec_decimal, spec_find, spec_position,
};
use crate::framing::codecs::copy_range;

verus! {

broadcast use vstd::seq_lib::group_seq_properties;

/// Declares `std::path::PathBuf`, the path of a committed capture.
#[verifier::external_type_specification]
#[verifier::external_body]
pub struct ExPathBuf(std::path::PathBuf);

/// Name of the advisory cross-process lock file inside the capture root.
pub const CAPTURE_LOCK_FILE: &'static str = ".serial-mcp-captures.lock";

/// Reserved internal prefix for same-root temp files.
pub const CAPTURE_TEMP_PREFIX: &'static str = ".serial-mcp-capture-";

/// The shared reserved prefix for all internal `.serial-mcp-*` entries.
pub const CAPTURE_RESERVED_PREFIX: &'static str = ".serial-mcp-";

/// Maximum portable capture filename length, including the `.jsonl` suffix.
pub const MAX_CAPTURE_FILENAME_LEN: usize = 120;

/// Required case-sensitive suffix for committed capture files.
pub const CAPTURE_FILENAME_SUFFIX: &'static str = ".jsonl";

/// Error surfaced whenever persistent capture is not configured.
pub const CAPTURE_DISABLED_ERROR: &'static str = "Persistent capture is disabled; start serial-mcp with --capture-dir <absolute-directory>";

/// Quota limits for a capture root.
#[derive(Debug, Clone, Copy, PartialEq, Eq, Structural)]
pub struct CaptureLimits {
    /// Per-file byte ceiling (the bounded JSONL snapshot must fit).
    pub max_file_bytes: u64,
    /// Total bytes across all committed managed files.
    pub max_total_bytes: u64,
    /// Total number of committed managed files.
    pub max_files: usize,
}

/// Outcome of a successful capture commit.
#[derive(Debug)]
pub struct CaptureWriteResult {
    /// Canonical absolute path of the committed file inside the root.
    pub path: std::path::PathBuf,
    /// Exact bytes committed.
    pub bytes_written: u64,
    /// Managed file count including this file.
    pub files_used: usize,
    /// Total managed bytes including this file.
    pub total_bytes_used: u64,
    /// Post-commit durability warning, if the root could not be synced.
    pub durability_warning: Option<String>,
}

/// Usage of committed managed files in a root.
#[derive(Debug, Clone, Copy, PartialEq, Eq, Structural)]
pub struct RootUsage {
    pub files: usize,
    pub total_bytes: u64,
}

// ---- filenames -------------------------------------------------------------------------

/// An ASCII letter or digit.
pub open spec fn is_alnum(c: u8) -> bool {
    (48 <= c && c <= 57) || (65 <= c && c <= 90) || (97 <= c && c <= 122)
}

/// A character allowed after the first: alphanumeric, `.`, `_`, `-`.
pub open spec fn name_char_ok(c: u8) -> bool {
    is_alnum(c) || c == 0x2E || c == 0x5F || c == 0x2D
}

/// ASCII uppercase of one byte.
pub open spec fn ascii_upper(c: u8) -> u8 {
    if 97 <= c && c <= 122 {
        (c - 32) as u8
    } else {
        c
    }
}

/// A Windows device stem (`CON`, `PRN`, `AUX`, `NUL`, `COM1`-`COM9`,
/// `LPT1`-`LPT9`), compared case-insensitively.
pub open spec fn is_reserved_stem(stem: Seq<u8>) -> bool {
    let u = stem.map_values(|c: u8| ascii_upper(c));
    ||| u == str_bytes("CON"@)
    ||| u == str_bytes("PRN"@)
    ||| u == str_bytes("AUX"@)
    ||| u == str_bytes("NUL"@)
    ||| (u.len() == 4 && (u.take(3) == str_bytes("COM"@) || u.take(3) == str_bytes("LPT"@)) && 49 <= u[3] && u[3] <= 57)
}

/// The part of a name before its first `.`.
pub open spec fn name_stem(b: Seq<u8>) -> Seq<u8> {
    match spec_position(b, 0x2Eu8) {
        Some(p) => b.take(p),
        None => b,
    }
}

/// The portable capture filename contract, checked in order: non-empty,
/// at most 120 bytes, ASCII, not `.`/`..`, no separators, ends `.jsonl`,
/// no reserved internal prefix, starts alphanumeric, only alphanumerics,
/// `.`, `_`, `-`, and no Windows device stem.
pub open spec fn spec_validate_name(b: Seq<u8>) -> Result<(), Seq<char>> {
    if b.len() == 0 {
        Err("capture filename is empty"@)
    } else if b.len() > MAX_CAPTURE_FILENAME_LEN {
        Err("capture filename exceeds 120 characters (including '.jsonl')"@)
    } else if exists|i: int| 0 <= i < b.len() && b[i] >= 128 {
        Err("capture filename must be ASCII"@)
    } else if b == seq![0x2Eu8] || b == seq![0x2Eu8, 0x2Eu8] {
        Err("capture filename must not be '.' or '..'"@)
    } else if exists|i: int| 0 <= i < b.len() && (b[i] == 0x2F || b[i] == 0x5C) {
        Err("capture filename must not contain path separators"@)
    } else if !has_suffix(b, str_bytes(".jsonl"@)) {
        Err("capture filename must end with '.jsonl'"@)
    } else if spec_find(b, str_bytes(".serial-mcp-"@)) is Some {
        Err("capture filename must not contain the reserved internal prefix '.serial-mcp-'"@)
    } else if !is_alnum(b[0]) {
        Err("capture filename must start with an alphanumeric character"@)
    } else if exists|i: int| 1 <= i < b.len() && !name_char_ok(b[i]) {
        Err("capture filename may only contain alphanumeric, '.', '_', and '-'"@)
    } else if is_reserved_stem(name_stem(b)) {
        Err("capture filename uses reserved stem '"@ + ascii_chars(name_stem(b)) + "' (Windows device names are rejected)"@)
    } else {
        Ok(())
    }
}

fn bytes_end_with(b: &[u8], suffix: &[u8]) -> (r: bool)
    ensures
        r == has_suffix(b@, suffix@),
{
    if suffix.len() > b.len() {
        return false;
    }
    let off = b.len() - suffix.len();
    let tail = copy_range(b, off, b.len());
    assert(tail@ =~= b@.skip(off as int));
    bytes_eq(tail.as_slice(), suffix)
}

fn is_windows_reserved_stem(stem: &[u8]) -> (r: bool)
    ensures
        r == is_reserved_stem(stem@),
{
    let mut upper: Vec<u8> = Vec::new();
    let mut i: usize = 0;
    while i < stem.len()
        invariant
            i <= stem@.len(),
            upper@ == stem@.take(i as int).map_values(|c: u8| ascii_upper(c)),
        decreases stem@.len() - i,
    {
        let c = stem[i];
        let u = if 97 <= c && c <= 122 { c - 32 } else { c };
        upper.push(u);
        i += 1;
        assert(upper@ =~= stem@.take(i as int).map_values(|c: u8| ascii_upper(c)));
    }
    assert(stem@.take(i as int) =~= stem@);
    let u = upper.as_slice();
    if bytes_eq(u, "CON".as_bytes()) || bytes_eq(u, "PRN".as_bytes()) || bytes_eq(u, "AUX".as_bytes()) || bytes_eq(
        u,
        "NUL".as_bytes(),
    ) {
        return true;
    }
    if u.len() != 4 {
        return false;
    }
    let head = copy_range(u, 0, 3);
    assert(head@ =~= u@.take(3));
    (bytes_eq(head.as_slice(), "COM".as_bytes()) || bytes_eq(head.as_slice(), "LPT".as_bytes())) && 49 <= u[3] && u[3]
        <= 57
}

fn all_ascii_bytes(b: &[u8]) -> (r: bool)
    ensures
        r == !(exists|i: int| 0 <= i < b@.len() && b@[i] >= 128),
{
    let mut i: usize = 0;
    while i < b.len()
        invariant
            i <= b@.len(),
            forall|j: int| 0 <= j < i ==> b@[j] < 128,
        decreases b@.len() - i,
    {
        if b[i] >= 128 {
            assert(0 <= i < b@.len() && b@[i as int] >= 128);
            return false;
        }
        i += 1;
    }
    true
}

fn has_separator(b: &[u8]) -> (r: bool)
    ensures
        r == exists|i: int| 0 <= i < b@.len() && (b@[i] == 0x2F || b@[i] == 0x5C),
{
    let mut i: usize = 0;
    while i < b.len()
        invariant
            i <= b@.len(),
            forall|j: int| 0 <= j < i ==> !(b@[j] == 0x2F || b@[j] == 0x5C),
        decreases b@.len() - i,
    {
        if b[i] == 0x2F || b[i] == 0x5C {
            assert(0 <= i < b@.len() && (b@[i as int] == 0x2F || b@[i as int] == 0x5C));
            return true;
        }
        i += 1;
    }
    false
}

fn tail_chars_ok(b: &[u8]) -> (r: bool)
    ensures
        r == !(exists|i: int| 1 <= i < b@.len() && !name_char_ok(b@[i])),
{
    let mut i: usize = 1;
    while i < b.len()
        invariant
            1 <= i,
            i <= b@.len() || b@.len() == 0,
            forall|j: int| 1 <= j < i && j < b@.len() ==> name_char_ok(#[trigger] b@[j]),
        decreases b@.len() - i,
    {
        let c = b[i];
        if !((48 <= c && c <= 57) || (65 <= c && c <= 90) || (97 <= c && c <= 122) || c == 0x2E || c == 0x5F || c
            == 0x2D) {
            assert(1 <= i < b@.len() && !name_char_ok(b@[i as int]));
            return false;
        }
        i += 1;
    }
    true
}

/// Validate a portable capture filename (see [`spec_validate_name`]).
pub fn validate_capture_filename(name: &str) -> (r: Result<(), String>)
    ensures
        match spec_validate_name(str_bytes(name@)) {
            Ok(_) => r is Ok,
            Err(e) => r matches Err(m) && m@ == e,
        },
{
    let b = name.as_bytes();
    let n = b.len();
    if n == 0 {
        return Err("capture filename is empty".to_owned());
    }
    if n > MAX_CAPTURE_FILENAME_LEN {
        return Err("capture filename exceeds 120 characters (including '.jsonl')".to_owned());
    }
    if !all_ascii_bytes(b) {
        return Err("capture filename must be ASCII".to_owned());
    }
    if (n == 1 && b[0] == 0x2E) || (n == 2 && b[0] == 0x2E && b[1] == 0x2E) {
        assert(b@ =~= seq![0x2Eu8] || b@ =~= seq![0x2Eu8, 0x2Eu8]);
        return Err("capture filename must not be '.' or '..'".to_owned());
    }
    assert(b@ != seq![0x2Eu8]) by {
        if b@ == seq![0x2Eu8] {
            assert(b@[0] == 0x2E);
        }
    }
    assert(b@ != seq![0x2Eu8, 0x2Eu8]) by {
        if b@ == seq![0x2Eu8, 0x2Eu8] {
            assert(b@[0] == 0x2E && b@[1] == 0x2E);
        }
    }
    if has_separator(b) {
        return Err("capture filename must not contain path separators".to_owned());
    }
    if !bytes_end_with(b, ".jsonl".as_bytes()) {
        return Err("capture filename must end with '.jsonl'".to_owned());
    }
    if find_subsequence(b, ".serial-mcp-".as_bytes()).is_some() {
        return Err("capture filename must not contain the reserved internal prefix '.serial-mcp-'".to_owned());
    }
    let c0 = b[0];
    if !((48 <= c0 && c0 <= 57) || (65 <= c0 && c0 <= 90) || (97 <= c0 && c0 <= 122)) {
        return Err("capture filename must start with an alphanumeric character".to_owned());
    }
    if !tail_chars_ok(b) {
        return Err("capture filename may only contain alphanumeric, '.', '_', and '-'".to_owned());
    }
    let stem = match position_of(b, 0x2E) {
        Some(p) => copy_range(b, 0, p),
        None => copy_range(b, 0, n),
    };
    assert(stem@ =~= name_stem(b@));
    if is_windows_reserved_stem(stem.as_slice()) {
        proof {
            assert forall|j: int| 0 <= j < stem@.len() implies stem@[j] < 128 by {
                assert(stem@[j] == b@[j]);
            }
        }
        let mut msg = "capture filename uses reserved stem '".to_owned();
        let text = crate::text::ascii_string(stem);
        msg.append(text.as_str());
        msg.append("' (Windows device names are rejected)");
        return Err(msg);
    }
    Ok(())
}

/// Whether `name` is a committed-managed capture filename: a valid portable
/// `.jsonl` name.
pub fn is_managed_capture_filename(name: &str) -> (r: bool)
    ensures
        r == spec_validate_name(str_bytes(name@)) is Ok,
{
    validate_capture_filename(name).is_ok()
}

/// Whether a directory entry name counts toward the quotas: not the lock
/// file, not a temp file, and a managed capture filename.
pub open spec fn spec_counted_entry(b: Seq<u8>) -> bool {
    b != str_bytes(".serial-mcp-captures.lock"@) && !has_prefix(b, str_bytes(".serial-mcp-capture-"@))
        && spec_validate_name(b) is Ok
}

/// Whether a directory entry name counts toward the quotas.
pub fn is_counted_entry(name: &str) -> (r: bool)
    ensures
        r == spec_counted_entry(str_bytes(name@)),
{
    let b = name.as_bytes();
    if bytes_eq(b, ".serial-mcp-captures.lock".as_bytes()) {
        return false;
    }
    let t = ".serial-mcp-capture-".as_bytes();
    if b.len() >= t.len() {
        let head = copy_range(b, 0, t.len());
        assert(head@ =~= b@.take(t@.len() as int));
        if bytes_eq(head.as_slice(), t) {
            return false;
        }
    }
    is_managed_capture_filename(name)
}

// ---- quotas --------------------------------------------------------------------------

/// Check capture limits: all positive, per-file within total.
pub fn validate_limits(limits: CaptureLimits) -> (r: Result<(), String>)
    ensures
        (limits.max_file_bytes == 0 || limits.max_total_bytes == 0 || limits.max_files == 0) ==> (r matches Err(e)
            && e@ == "capture limits must all be > 0"@),
        !(limits.max_file_bytes == 0 || limits.max_total_bytes == 0 || limits.max_files == 0) ==> (r is Ok <==> limits.max_file_bytes
            <= limits.max_total_bytes),
        (limits.max_file_bytes > 0 && limits.max_total_bytes > 0 && limits.max_files > 0 && limits.max_file_bytes
            > limits.max_total_bytes) ==> (r matches Err(e) && e@ == "capture per-file limit ("@ + ascii_chars(
            spec_decimal(limits.max_file_bytes as nat),
        ) + ") must be <= total limit ("@ + ascii_chars(spec_decimal(limits.max_total_bytes as nat)) + ")"@),
{
    if limits.max_file_bytes == 0 || limits.max_total_bytes == 0 || limits.max_files == 0 {
        return Err("capture limits must all be > 0".to_owned());
    }
    if limits.max_file_bytes > limits.max_total_bytes {
        let mut msg = "capture per-file limit (".to_owned();
        let a = decimal_string(limits.max_file_bytes);
        msg.append(a.as_str());
        msg.append(") must be <= total limit (");
        let b = decimal_string(limits.max_total_bytes);
        msg.append(b.as_str());
        msg.append(")");
        return Err(msg);
    }
    Ok(())
}

/// The message refusing a file over the per-file quota.
pub open spec fn file_quota_message(len: nat, max: nat) -> Seq<char> {
    "capture file exceeds per-file quota: "@ + ascii_chars(spec_decimal(len)) + " bytes > --capture-max-file-bytes "@
        + ascii_chars(spec_decimal(max))
}

/// The checks before any file work: the filename contract, then the
/// per-file quota. Returns the byte count as a `u64` counter.
pub fn precheck_capture(name: &str, bytes_len: usize, limits: CaptureLimits) -> (r: Result<u64, String>)
    ensures
        match spec_validate_name(str_bytes(name@)) {
            Err(e) => r matches Err(m) && m@ == e,
            Ok(_) => if bytes_len > limits.max_file_bytes {
                r matches Err(m) && m@ == file_quota_message(bytes_len as nat, limits.max_file_bytes as nat)
            } else {
                r == Ok::<u64, String>(bytes_len as u64)
            },
        },
{
    match validate_capture_filename(name) {
        Err(e) => {
            return Err(e);
        },
        Ok(_) => {},
    }
    let len = bytes_len as u64;
    if len > limits.max_file_bytes {
        let mut msg = "capture file exceeds per-file quota: ".to_owned();
        let a = decimal_string(len);
        msg.append(a.as_str());
        msg.append(" bytes > --capture-max-file-bytes ");
        let b = decimal_string(limits.max_file_bytes);
        msg.append(b.as_str());
        return Err(msg);
    }
    Ok(len)
}

/// Add one counted entry of `entry_len` bytes to a usage tally.
pub fn tally_entry(usage: RootUsage, entry_len: u64) -> (r: Result<RootUsage, String>)
    ensures
        usage.files + 1 > usize::MAX ==> (r matches Err(e) && e@ == "capture file count overflow"@),
        usage.files + 1 <= usize::MAX && usage.total_bytes + entry_len > u64::MAX ==> (r matches Err(e) && e@
            == "capture total byte count overflow"@),
        usage.files + 1 <= usize::MAX && usage.total_bytes + entry_len <= u64::MAX ==> r == Ok::<RootUsage, String>(
            RootUsage { files: (usage.files + 1) as usize, total_bytes: (usage.total_bytes + entry_len) as u64 },
        ),
{
    let files = match usage.files.checked_add(1) {
        Some(f) => f,
        None => {
            return Err("capture file count overflow".to_owned());
        },
    };
    let total_bytes = match usage.total_bytes.checked_add(entry_len) {
        Some(t) => t,
        None => {
            return Err("capture total byte count overflow".to_owned());
        },
    };
    Ok(RootUsage { files, total_bytes })
}

/// What a directory scan does with one entry of the capture root.
#[derive(Debug, Clone, Copy, PartialEq, Eq, Structural)]
pub enum EntryStep {
    /// Not a committed managed file: leave it out of the usage.
    Skip,
    /// A symlink with a managed name: the scan is refused.
    RejectSymlink,
    /// A managed regular file, added to the usage.
    Counted(RootUsage),
}

/// One step of the usage scan: an entry named `name` (a symlink or not, a
/// regular file or not, `len` bytes long) on top of `usage`. Only counted
/// names matter; a symlink among them refuses the scan, other non-regular
/// entries are skipped, and regular files are tallied.
pub fn scan_entry(usage: RootUsage, name: &str, is_symlink: bool, is_file: bool, len: u64) -> (r: Result<
    EntryStep,
    String,
>)
    ensures
        !spec_counted_entry(str_bytes(name@)) ==> r == Ok::<EntryStep, String>(EntryStep::Skip),
        spec_counted_entry(str_bytes(name@)) && is_symlink ==> r == Ok::<EntryStep, String>(
            EntryStep::RejectSymlink,
        ),
        spec_counted_entry(str_bytes(name@)) && !is_symlink && !is_file ==> r == Ok::<EntryStep, String>(
            EntryStep::Skip,
        ),
        spec_counted_entry(str_bytes(name@)) && !is_symlink && is_file ==> match r {
            Ok(step) => usage.files + 1 <= usize::MAX && usage.total_bytes + len <= u64::MAX && step
                == EntryStep::Counted(
                RootUsage { files: (usage.files + 1) as usize, total_bytes: (usage.total_bytes + len) as u64 },
            ),
            Err(e) => (usage.files + 1 > usize::MAX && e@ == "capture file count overflow"@) || (usage.files + 1
                <= usize::MAX && usage.total_bytes + len > u64::MAX && e@ == "capture total byte count overflow"@),
        },
{
    if !is_counted_entry(name) {
        return Ok(EntryStep::Skip);
    }
    if is_symlink {
        return Ok(EntryStep::RejectSymlink);
    }
    if !is_file {
        return Ok(EntryStep::Skip);
    }
    match tally_entry(usage, len) {
        Ok(u) => Ok(EntryStep::Counted(u)),
        Err(e) => Err(e),
    }
}

/// The count and total quotas for one more file of `bytes_len` bytes on
/// top of the current usage; returns the usage including the new file.
pub fn check_root_quota(usage: RootUsage, bytes_len: u64, limits: CaptureLimits) -> (r: Result<RootUsage, String>)
    ensures
        usage.files + 1 > usize::MAX ==> (r matches Err(e) && e@ == "capture file count overflow"@),
        usage.files + 1 <= usize::MAX && usage.files + 1 > limits.max_files ==> (r matches Err(e) && e@
            == "capture file-count quota exceeded: "@ + ascii_chars(spec_decimal((usage.files + 1) as nat))
            + " files > --capture-max-files "@ + ascii_chars(spec_decimal(limits.max_files as nat))),
        usage.files + 1 <= limits.max_files && usage.total_bytes + bytes_len > u64::MAX ==> (r matches Err(e) && e@
            == "capture total byte quota overflow"@),
        usage.files + 1 <= limits.max_files && usage.total_bytes + bytes_len <= u64::MAX && usage.total_bytes
            + bytes_len > limits.max_total_bytes ==> (r matches Err(e) && e@ == "capture total-byte quota exceeded: "@
            + ascii_chars(spec_decimal((usage.total_bytes + bytes_len) as nat)) + " bytes > --capture-max-total-bytes "@
            + ascii_chars(spec_decimal(limits.max_total_bytes as nat))),
        usage.files + 1 <= limits.max_files && usage.total_bytes + bytes_len <= limits.max_total_bytes ==> r == Ok::<
            RootUsage,
            String,
        >(RootUsage { files: (usage.files + 1) as usize, total_bytes: (usage.total_bytes + bytes_len) as u64 }),
{
    let new_files = match usage.files.checked_add(1) {
        Some(f) => f,
        None => {
            return Err("capture file count overflow".to_owned());
        },
    };
    if new_files > limits.max_files {
        let mut msg = "capture file-count quota exceeded: ".to_owned();
        let a = decimal_string(new_files as u64);
        msg.append(a.as_str());
        msg.append(" files > --capture-max-files ");
        let b = decimal_string(limits.max_files as u64);
        msg.append(b.as_str());
        return Err(msg);
    }
    let new_total = match usage.total_bytes.checked_add(bytes_len) {
        Some(t) => t,
        None => {
            return Err("capture total byte quota overflow".to_owned());
        },
    };
    if new_total > limits.max_total_bytes {
        let mut msg = "capture total-byte quota exceeded: ".to_owned();
        let a = decimal_string(new_total);
        msg.append(a.as_str());
        msg.append(" bytes > --capture-max-total-bytes ");
        let b = decimal_string(limits.max_total_bytes);
        msg.append(b.as_str());
        return Err(msg);
    }
    Ok(RootUsage { files: new_files, total_bytes: new_total })
}

/// Quota law: a commit that passes the quota check leaves the root within
/// every quota, given the usage it started from.
pub proof fn lemma_quota_respected(usage: RootUsage, bytes_len: u64, limits: CaptureLimits, after: RootUsage)
    requires
        usage.files + 1 <= limits.max_files,
        usage.total_bytes + bytes_len <= limits.max_total_bytes,
        after == (RootUsage { files: (usage.files + 1) as usize, total_bytes: (usage.total_bytes + bytes_len) as u64 }),
    ensures
        after.files <= limits.max_files,
        after.total_bytes <= limits.max_total_bytes,
        after.total_bytes == usage.total_bytes + bytes_len,
{
}

} // verus!
