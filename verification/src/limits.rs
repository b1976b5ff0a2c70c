//! Size, timeout and buffer limits shared by the serial tools.

use vstd::prelude::*;

verus! {

pub const MIN_READ_BYTES: usize = 1;

/// 1 MiB.
pub const MAX_READ_BYTES: usize = 1048576;

pub const MIN_STREAM_CHUNK_BYTES: usize = 1;

/// 64 KiB.
pub const MAX_STREAM_CHUNK_BYTES: usize = 65536;

/// 5 minutes.
pub const MAX_TIMEOUT_MS: u64 = 300000;

pub const MIN_POLL_INTERVAL_MS: u64 = 10;

/// 1 MiB.
pub const MAX_WRITE_BYTES: usize = 1048576;

/// Default program-wide buffer budget: 1 GiB.
pub const DEFAULT_MAX_PROGRAM_BUFFERED_BYTES: usize = 1073741824;

/// Default per-tool buffer budget: 1 MiB.
pub const DEFAULT_MAX_TOOL_BUFFERED_BYTES: usize = 1048576;

/// Default per-connection RX capture ring: 256 KiB.
pub const DEFAULT_RX_BUFFER_SIZE: usize = 262144;

/// Per-connection RX capture ring ceiling: 16 MiB.
pub const MAX_RX_BUFFER_SIZE: usize = 16777216;

/// Default per-file quota for a capture JSONL snapshot: 16 MiB.
pub const DEFAULT_CAPTURE_MAX_FILE_BYTES: u64 = 16777216;

/// Default total-byte quota across committed capture files: 256 MiB.
pub const DEFAULT_CAPTURE_MAX_TOTAL_BYTES: u64 = 268435456;

/// Default file-count quota across committed capture files.
pub const DEFAULT_CAPTURE_MAX_FILES: usize = 256;

} // verus!
