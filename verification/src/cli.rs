//! Command-line decisions of the server: version-flag detection, transport
//! and allowlist parsing, and the startup checks on buffer and capture
//! limits. Reading the arguments and printing stay with the binary.

use vstd::prelude::*;
use crate::capture_store::CaptureLimits;
use crate::codec::{str_trim, trim_str};
use crate::framing::parsers::{char_pieces, split_chars, split_seq};
use crate::limits::{DEFAULT_CAPTURE_MAX_FILES, DEFAULT_CAPTURE_MAX_FILE_BYTES, DEFAULT_CAPTURE_MAX_TOTAL_BYTES};
use crate::text::{ascii_chars, decimal_string, spec_decimal, str_chars, str_eq, string_of_chars};

verus! {

// ---- version flag ----------------------------------------------------------------------

/// The options that take the following argument as their value.
pub open spec fn spec_value_taking(a: Seq<char>) -> bool {
    a == "--transport"@ || a == "--allowlist"@ || a == "--bind"@ || a == "--max-program-buffered-bytes"@ || a
        == "--max-tool-buffered-bytes"@ || a == "--profiles-path"@ || a == "--capture-dir"@ || a
        == "--capture-max-file-bytes"@ || a == "--capture-max-total-bytes"@ || a == "--capture-max-files"@
}

/// Whether `a` is a bare option that consumes the next argument as its value
/// (`--opt=value` carries its value and is not one).
pub fn is_value_taking_option(a: &str) -> (r: bool)
    ensures
        r == spec_value_taking(a@),
{
    str_eq(a, "--transport") || str_eq(a, "--allowlist") || str_eq(a, "--bind") || str_eq(
        a,
        "--max-program-buffered-bytes",
    ) || str_eq(a, "--max-tool-buffered-bytes") || str_eq(a, "--profiles-path") || str_eq(a, "--capture-dir")
        || str_eq(a, "--capture-max-file-bytes") || str_eq(a, "--capture-max-total-bytes") || str_eq(
        a,
        "--capture-max-files",
    )
}

/// Scanning the arguments from position `i`, with `expect_value` set when
/// the previous argument was a bare value-taking option: is there a `-V` or
/// `--version` that is neither such a value nor after a `--` separator?
pub open spec fn version_scan(args: Seq<String>, i: int, expect_value: bool) -> bool
    decreases args.len() - i,
{
    if i >= args.len() || i < 0 {
        false
    } else if expect_value {
        version_scan(args, i + 1, false)
    } else if args[i]@ == "--"@ {
        false
    } else if spec_value_taking(args[i]@) {
        version_scan(args, i + 1, true)
    } else if args[i]@ == "-V"@ || args[i]@ == "--version"@ {
        true
    } else {
        version_scan(args, i + 1, false)
    }
}

/// Whether the arguments (without the program name) ask for the version:
/// a `-V` or `--version` that is not the value of a preceding bare
/// value-taking option and does not follow a `--` separator.
pub fn argv_has_version_flag(args: &Vec<String>) -> (r: bool)
    ensures
        r == version_scan(args@, 0, false),
{
    let n = args.len();
    let mut i: usize = 0;
    let mut expect_value = false;
    let mut found = false;
    while i < n
        invariant
            n == args@.len(),
            i <= n,
            version_scan(args@, 0, false) == if found {
                true
            } else {
                version_scan(args@, i as int, expect_value)
            },
        decreases n - i + (if found { 0int } else { 1int }),
    {
        if found {
            i = n;
        } else {
            let a: &str = args[i].as_str();
            if expect_value {
                expect_value = false;
            } else if str_eq(a, "--") {
                proof {
                    reveal_strlit("--");
                }
                assert(version_scan(args@, i as int, false) == false);
                i = n;
                found = false;
                assert(version_scan(args@, n as int, expect_value) == false);
                continue;
            } else if is_value_taking_option(a) {
                expect_value = true;
            } else if str_eq(a, "-V") || str_eq(a, "--version") {
                found = true;
                continue;
            }
            i += 1;
        }
    }
    found
}

// ---- transport ---------------------------------------------------------------------------

/// The MCP transport the server speaks.
#[derive(Debug, Clone, Copy, PartialEq, Eq, Structural)]
pub enum Transport {
    Stdio,
    Http,
}

/// The transport named on the command line: `http`, or `stdio` (also when
/// none is named); any other name is refused.
pub open spec fn spec_transport(name: Option<Seq<char>>) -> Result<Transport, Seq<char>> {
    match name {
        None => Ok(Transport::Stdio),
        Some(s) => if s == "http"@ {
            Ok(Transport::Http)
        } else if s == "stdio"@ {
            Ok(Transport::Stdio)
        } else {
            Err("unknown transport '"@ + s + "', expected 'stdio' or 'http'"@)
        },
    }
}

/// The view of an optional string slice.
pub open spec fn opt_view(o: Option<&str>) -> Option<Seq<char>> {
    match o {
        Some(s) => Some(s@),
        None => None,
    }
}

/// Choose the transport from the `--transport` value.
pub fn parse_transport(name: Option<&str>) -> (r: Result<Transport, String>)
    ensures
        match spec_transport(opt_view(name)) {
            Ok(t) => r == Ok::<Transport, String>(t),
            Err(e) => r matches Err(m) && m@ == e,
        },
{
    match name {
        None => Ok(Transport::Stdio),
        Some(s) => {
            if str_eq(s, "http") {
                Ok(Transport::Http)
            } else if str_eq(s, "stdio") {
                Ok(Transport::Stdio)
            } else {
                let mut m = "unknown transport '".to_owned();
                m.append(s);
                m.append("', expected 'stdio' or 'http'");
                Err(m)
            }
        },
    }
}

// ---- allowlist ---------------------------------------------------------------------------

/// The non-empty trimmed pieces, in order.
pub open spec fn trimmed_nonempty(pieces: Seq<Seq<char>>) -> Seq<Seq<char>>
    decreases pieces.len(),
{
    if pieces.len() == 0 {
        Seq::empty()
    } else {
        let rest = trimmed_nonempty(pieces.drop_last());
        let t = str_trim(pieces.last());
        if t.len() == 0 {
            rest
        } else {
            rest.push(t)
        }
    }
}

/// The allowlist patterns of a comma-separated list: each piece trimmed,
/// empty pieces dropped.
pub open spec fn spec_allowlist(s: Seq<char>) -> Seq<Seq<char>> {
    trimmed_nonempty(split_seq(s, ','))
}

/// The views of a sequence of strings.
pub open spec fn string_views(v: Seq<String>) -> Seq<Seq<char>> {
    v.map_values(|x: String| x@)
}

/// Split the `--allowlist` value into its port patterns.
pub fn parse_allowlist(s: &str) -> (r: Vec<String>)
    ensures
        string_views(r@) == spec_allowlist(s@),
{
    let chars = str_chars(s);
    let pieces = split_chars(chars.as_slice(), ',');
    let ghost ps = char_pieces(pieces@);
    let mut out: Vec<String> = Vec::new();
    let mut i: usize = 0;
    while i < pieces.len()
        invariant
            i <= pieces@.len(),
            ps == char_pieces(pieces@),
            ps == split_seq(chars@, ','),
            chars@ == s@,
            string_views(out@) == trimmed_nonempty(ps.take(i as int)),
        decreases pieces@.len() - i,
    {
        let piece = string_of_chars(pieces[i].as_slice());
        let t = trim_str(piece.as_str());
        assert(ps.take(i + 1).drop_last() =~= ps.take(i as int));
        assert(ps[i as int] == pieces@[i as int]@);
        if t.unicode_len() > 0 {
            let owned = t.to_owned();
            let ghost before = out@;
            out.push(owned);
            assert(string_views(out@) =~= string_views(before).push(owned@));
        }
        i += 1;
    }
    assert(ps.take(pieces@.len() as int) =~= ps);
    out
}

// ---- startup limit checks --------------------------------------------------------------

/// Why the buffer budget limits are refused, if they are.
pub open spec fn budget_limits_error(program: usize, tool: usize) -> Option<Seq<char>> {
    if program == 0 {
        Some("--max-program-buffered-bytes must be > 0"@)
    } else if tool == 0 {
        Some("--max-tool-buffered-bytes must be > 0"@)
    } else if tool > program {
        Some(
            "--max-tool-buffered-bytes ("@ + ascii_chars(spec_decimal(tool as nat))
                + ") must be <= --max-program-buffered-bytes ("@ + ascii_chars(spec_decimal(program as nat)) + ")"@,
        )
    } else {
        None
    }
}

/// Check the program pool and per-tool ceiling given on the command line.
pub fn validate_budget_limits(program: usize, tool: usize) -> (r: Result<(), String>)
    ensures
        match budget_limits_error(program, tool) {
            None => r is Ok,
            Some(e) => r matches Err(m) && m@ == e,
        },
{
    if program == 0 {
        return Err("--max-program-buffered-bytes must be > 0".to_owned());
    }
    if tool == 0 {
        return Err("--max-tool-buffered-bytes must be > 0".to_owned());
    }
    if tool > program {
        let mut m = "--max-tool-buffered-bytes (".to_owned();
        let a = decimal_string(tool as u64);
        m.append(a.as_str());
        m.append(") must be <= --max-program-buffered-bytes (");
        let b = decimal_string(program as u64);
        m.append(b.as_str());
        m.append(")");
        return Err(m);
    }
    Ok(())
}

/// An option's value, or its default.
pub open spec fn or_default<T>(o: Option<T>, d: T) -> T {
    match o {
        Some(v) => v,
        None => d,
    }
}

/// The capture limits the command line asks for, or why they are refused:
/// a quota without a capture directory, a zero quota, or a per-file quota
/// above the total quota.
pub open spec fn spec_capture_limits(
    capture_dir_given: bool,
    file_bytes: Option<u64>,
    total_bytes: Option<u64>,
    files: Option<usize>,
) -> Result<CaptureLimits, Seq<char>> {
    let limits = CaptureLimits {
        max_file_bytes: or_default(file_bytes, DEFAULT_CAPTURE_MAX_FILE_BYTES),
        max_total_bytes: or_default(total_bytes, DEFAULT_CAPTURE_MAX_TOTAL_BYTES),
        max_files: or_default(files, DEFAULT_CAPTURE_MAX_FILES),
    };
    if (file_bytes is Some || total_bytes is Some || files is Some) && !capture_dir_given {
        Err(
            "--capture-max-file-bytes/--capture-max-total-bytes/--capture-max-files require --capture-dir"@,
        )
    } else if limits.max_file_bytes == 0 || limits.max_total_bytes == 0 || limits.max_files == 0 {
        Err("capture quota limits must all be > 0"@)
    } else if limits.max_file_bytes > limits.max_total_bytes {
        Err(
            "--capture-max-file-bytes ("@ + ascii_chars(spec_decimal(limits.max_file_bytes as nat))
                + ") must be <= --capture-max-total-bytes ("@ + ascii_chars(
                spec_decimal(limits.max_total_bytes as nat),
            ) + ")"@,
        )
    } else {
        Ok(limits)
    }
}

/// Resolve the capture quota options against their defaults and check them.
pub fn capture_limits_from_options(
    capture_dir_given: bool,
    file_bytes: Option<u64>,
    total_bytes: Option<u64>,
    files: Option<usize>,
) -> (r: Result<CaptureLimits, String>)
    ensures
        match spec_capture_limits(capture_dir_given, file_bytes, total_bytes, files) {
            Ok(l) => r == Ok::<CaptureLimits, String>(l),
            Err(e) => r matches Err(m) && m@ == e,
        },
{
    let supplied = file_bytes.is_some() || total_bytes.is_some() || files.is_some();
    if supplied && !capture_dir_given {
        return Err(
            "--capture-max-file-bytes/--capture-max-total-bytes/--capture-max-files require --capture-dir".to_owned(),
        );
    }
    let limits = CaptureLimits {
        max_file_bytes: match file_bytes {
            Some(v) => v,
            None => DEFAULT_CAPTURE_MAX_FILE_BYTES,
        },
        max_total_bytes: match total_bytes {
            Some(v) => v,
            None => DEFAULT_CAPTURE_MAX_TOTAL_BYTES,
        },
        max_files: match files {
            Some(v) => v,
            None => DEFAULT_CAPTURE_MAX_FILES,
        },
    };
    if limits.max_file_bytes == 0 || limits.max_total_bytes == 0 || limits.max_files == 0 {
        return Err("capture quota limits must all be > 0".to_owned());
    }
    if limits.max_file_bytes > limits.max_total_bytes {
        let mut m = "--capture-max-file-bytes (".to_owned();
        let a = decimal_string(limits.max_file_bytes);
        m.append(a.as_str());
        m.append(") must be <= --capture-max-total-bytes (");
        let b = decimal_string(limits.max_total_bytes);
        m.append(b.as_str());
        m.append(")");
        return Err(m);
    }
    Ok(limits)
}

} // verus!
