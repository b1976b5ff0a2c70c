//! Per-connection in-memory event log with ring-buffer semantics.
//!
//! Stores typed [`LogEvent`] entries with millisecond Unix timestamps. When
//! the buffer holds `capacity` entries, recording drops the oldest ones, so
//! the log always holds the most recent entries, at most `capacity` of them.

use vstd::prelude::*;
use std::collections::VecDeque;
use crate::codec::str_bytes;
use crate::text::{ascii_chars, decimal_string, spec_decimal};
use crate::framing::codecs::extend_bytes;

verus! {

broadcast use vstd::seq_lib::group_seq_properties;

/// A single log event with timestamp, direction, and event data.
#[derive(Debug, Clone, PartialEq)]
pub struct LogEntry {
    /// Milliseconds since Unix epoch.
    pub timestamp_ms: u64,
    /// `"rx"`, `"tx"`, or `None` for non-directional events.
    pub direction: Option<String>,
    /// The typed event payload.
    pub event: LogEvent,
}

/// Typed event payloads stored in the log buffer.
#[derive(Debug, Clone, PartialEq)]
pub enum LogEvent {
    /// RX data chunk received from the device.
    RxData { bytes: usize },
    /// TX data chunk sent to the device.
    TxData { bytes: usize },
    /// Connection opened.
    Open,
    /// Connection closed (explicitly by user).
    Close,
    /// Port disconnected (fatal I/O error).
    Disconnect { error: String },
    /// Reconnect attempt started.
    ReconnectStart { attempt: u32 },
    /// Reconnect succeeded.
    ReconnectSuccess,
    /// Reconnect attempt failed.
    ReconnectFailed { attempt: u32, error: String },
    /// Max reconnect attempts exhausted.
    ReconnectExhausted,
    /// Match found in read/subscribe.
    MatchFound { pattern: String, mode: String },
    /// Data truncated (bytes_returned < bytes_observed).
    Truncated { observed: usize, returned: usize },
    /// Notification dropped (encoding error or peer disconnect).
    NotificationDropped { reason: String },
    /// Read operation started.
    ReadStarted,
    /// Read operation completed.
    ReadCompleted { bytes: usize },
    /// Write operation started.
    WriteStarted,
    /// Write operation completed.
    WriteCompleted { bytes: usize },
    /// Subscribe started.
    SubscribeStarted,
    /// Subscribe stopped.
    SubscribeStopped { reason: String },
    /// Generic error.
    Error { message: String },
}

/// A copy of an event.
pub fn copy_event(e: &LogEvent) -> (r: LogEvent)
    ensures
        r == *e,
{
    match e {
        LogEvent::RxData { bytes } => LogEvent::RxData { bytes: *bytes },
        LogEvent::TxData { bytes } => LogEvent::TxData { bytes: *bytes },
        LogEvent::Open => LogEvent::Open,
        LogEvent::Close => LogEvent::Close,
        LogEvent::Disconnect { error } => LogEvent::Disconnect { error: error.clone() },
        LogEvent::ReconnectStart { attempt } => LogEvent::ReconnectStart { attempt: *attempt },
        LogEvent::ReconnectSuccess => LogEvent::ReconnectSuccess,
        LogEvent::ReconnectFailed { attempt, error } => LogEvent::ReconnectFailed { attempt: *attempt, error: error.clone() },
        LogEvent::ReconnectExhausted => LogEvent::ReconnectExhausted,
        LogEvent::MatchFound { pattern, mode } => LogEvent::MatchFound { pattern: pattern.clone(), mode: mode.clone() },
        LogEvent::Truncated { observed, returned } => LogEvent::Truncated { observed: *observed, returned: *returned },
        LogEvent::NotificationDropped { reason } => LogEvent::NotificationDropped { reason: reason.clone() },
        LogEvent::ReadStarted => LogEvent::ReadStarted,
        LogEvent::ReadCompleted { bytes } => LogEvent::ReadCompleted { bytes: *bytes },
        LogEvent::WriteStarted => LogEvent::WriteStarted,
        LogEvent::WriteCompleted { bytes } => LogEvent::WriteCompleted { bytes: *bytes },
        LogEvent::SubscribeStarted => LogEvent::SubscribeStarted,
        LogEvent::SubscribeStopped { reason } => LogEvent::SubscribeStopped { reason: reason.clone() },
        LogEvent::Error { message } => LogEvent::Error { message: message.clone() },
    }
}

/// A copy of an entry.
pub fn copy_entry(e: &LogEntry) -> (r: LogEntry)
    ensures
        r == *e,
{
    let direction = match &e.direction {
        Some(d) => Some(d.clone()),
        None => None,
    };
    LogEntry { timestamp_ms: e.timestamp_ms, direction, event: copy_event(&e.event) }
}

/// What a log is: its entries, oldest first, with its settings.
pub struct LogModel {
    pub entries: Seq<LogEntry>,
    pub capacity: nat,
    pub enabled: bool,
}

/// The last `cap` entries of `s` (all of them when there are fewer).
pub open spec fn keep_last(s: Seq<LogEntry>, cap: nat) -> Seq<LogEntry> {
    if s.len() > cap {
        s.skip(s.len() - cap)
    } else {
        s
    }
}

/// An entry's direction is the given text.
pub open spec fn direction_is(d: Option<String>, want: Option<Seq<char>>) -> bool {
    match (d, want) {
        (Some(x), Some(w)) => x@ == w,
        (None, None) => true,
        _ => false,
    }
}

/// What recording does: a disabled log is unchanged; an enabled one gets
/// `e` appended and keeps its last `capacity` entries.
pub open spec fn spec_record(m: LogModel, e: LogEntry) -> LogModel {
    if m.enabled {
        LogModel { entries: keep_last(m.entries.push(e), m.capacity), ..m }
    } else {
        m
    }
}

/// Recording appends one entry with the given direction and event and the
/// time of recording.
pub open spec fn recorded(old_log: LogModel, new_log: LogModel, direction: Option<Seq<char>>, event: LogEvent) -> bool {
    exists|e: LogEntry| #[trigger] spec_record(old_log, e) == new_log && direction_is(e.direction, direction) && e.event == event
}

/// Milliseconds since the Unix epoch, 0 when the clock reads earlier.
#[verifier::external_body]
fn now_ms() -> u64 {
    std::time::SystemTime::now().duration_since(std::time::UNIX_EPOCH).map(|d| d.as_millis() as u64).unwrap_or(0)
}

pub open spec fn opt_str(d: Option<&str>) -> Option<Seq<char>> {
    match d {
        Some(s) => Some(s@),
        None => None,
    }
}

/// Bounded ring buffer of timestamped log events.
#[derive(Debug)]
pub struct LogBuffer {
    events: VecDeque<LogEntry>,
    capacity: usize,
    enabled: bool,
}

impl View for LogBuffer {
    type V = LogModel;

    closed spec fn view(&self) -> LogModel {
        LogModel { entries: self.events@, capacity: self.capacity as nat, enabled: self.enabled }
    }
}

impl LogBuffer {
    /// The log never holds more entries than its capacity.
    pub open spec fn wf(&self) -> bool {
        self@.entries.len() <= self@.capacity
    }

    /// Create an empty log buffer with the given capacity and enabled flag.
    pub fn new(capacity: usize, enabled: bool) -> (r: Self)
        ensures
            r@ == (LogModel { entries: Seq::empty(), capacity: capacity as nat, enabled }),
            r.wf(),
    {
        LogBuffer { events: VecDeque::new(), capacity, enabled }
    }

    /// Return whether logging is enabled.
    pub fn is_enabled(&self) -> (r: bool)
        ensures
            r == self@.enabled,
    {
        self.enabled
    }

    /// Return the configured capacity (maximum number of events).
    pub fn capacity(&self) -> (r: usize)
        ensures
            r == self@.capacity,
    {
        self.capacity
    }

    /// Record an entry with a given timestamp.
    pub fn record_at(&mut self, timestamp_ms: u64, direction: Option<&str>, event: LogEvent)
        requires
            old(self).wf(),
        ensures
            final(self).wf(),
            exists|e: LogEntry| #[trigger] spec_record(old(self)@, e) == final(self)@ && e.timestamp_ms == timestamp_ms
                && direction_is(e.direction, opt_str(direction)) && e.event == event,
    {
        let d = match direction {
            Some(s) => Some(s.to_owned()),
            None => None,
        };
        let entry = LogEntry { timestamp_ms, direction: d, event };
        let ghost e = entry;
        if !self.enabled {
            assert(spec_record(old(self)@, e) == self@);
            return;
        }
        let ghost pushed = self.events@.push(entry);
        self.events.push_back(entry);
        while self.events.len() > self.capacity
            invariant
                self.capacity == old(self)@.capacity,
                self.enabled == old(self)@.enabled,
                pushed.len() <= self.capacity + 1,
                self.events@.len() <= pushed.len(),
                self.events@.len() == pushed.len() || self.events@.len() >= self.capacity,
                self.events@ == pushed.skip(pushed.len() - self.events@.len()),
            decreases self.events@.len(),
        {
            let _ = self.events.pop_front();
        }
        assert(self.events@ =~= keep_last(pushed, self.capacity as nat));
        assert(spec_record(old(self)@, e) == self@);
    }

    /// Record a typed event with an optional direction, stamped with the
    /// current time.
    pub fn record(&mut self, direction: Option<&str>, event: LogEvent)
        requires
            old(self).wf(),
        ensures
            final(self).wf(),
            recorded(old(self)@, final(self)@, opt_str(direction), event),
    {
        let t = now_ms();
        self.record_at(t, direction, event);
    }

    /// Return a snapshot of all entries in the buffer, oldest first.
    pub fn snapshot(&self) -> (r: Vec<LogEntry>)
        ensures
            r@ == self@.entries,
    {
        let mut out: Vec<LogEntry> = Vec::new();
        let mut i: usize = 0;
        while i < self.events.len()
            invariant
                i <= self.events@.len(),
                out@ == self.events@.take(i as int),
            decreases self.events@.len() - i,
        {
            let e = copy_entry(&self.events[i]);
            out.push(e);
            i += 1;
            assert(out@ =~= self.events@.take(i as int));
        }
        assert(self.events@.take(i as int) =~= self.events@);
        out
    }

    /// Clear all entries from the buffer.
    pub fn clear(&mut self)
        ensures
            final(self)@ == (LogModel { entries: Seq::empty(), ..old(self)@ }),
            final(self).wf(),
    {
        self.events.clear();
    }

    pub fn rx_data(&mut self, bytes: usize)
        requires
            old(self).wf(),
        ensures
            final(self).wf(),
            recorded(old(self)@, final(self)@, Some("rx"@), LogEvent::RxData { bytes }),
    {
        self.record(Some("rx"), LogEvent::RxData { bytes });
    }

    pub fn tx_data(&mut self, bytes: usize)
        requires
            old(self).wf(),
        ensures
            final(self).wf(),
            recorded(old(self)@, final(self)@, Some("tx"@), LogEvent::TxData { bytes }),
    {
        self.record(Some("tx"), LogEvent::TxData { bytes });
    }

    pub fn opened(&mut self)
        requires
            old(self).wf(),
        ensures
            final(self).wf(),
            recorded(old(self)@, final(self)@, None, LogEvent::Open),
    {
        self.record(None, LogEvent::Open);
    }

    pub fn closed(&mut self)
        requires
            old(self).wf(),
        ensures
            final(self).wf(),
            recorded(old(self)@, final(self)@, None, LogEvent::Close),
    {
        self.record(None, LogEvent::Close);
    }

    pub fn match_found(&mut self, pattern: &str, mode: &str)
        requires
            old(self).wf(),
        ensures
            final(self).wf(),
            exists|p: String, md: String| p@ == pattern@ && md@ == mode@ && recorded(
                old(self)@,
                final(self)@,
                None,
                LogEvent::MatchFound { pattern: p, mode: md },
            ),
    {
        let p = pattern.to_owned();
        let md = mode.to_owned();
        let ghost ev = LogEvent::MatchFound { pattern: p, mode: md };
        self.record(None, LogEvent::MatchFound { pattern: p, mode: md });
        assert(recorded(old(self)@, self@, None, ev));
    }

    pub fn truncated(&mut self, observed: usize, returned: usize)
        requires
            old(self).wf(),
        ensures
            final(self).wf(),
            recorded(old(self)@, final(self)@, None, LogEvent::Truncated { observed, returned }),
    {
        self.record(None, LogEvent::Truncated { observed, returned });
    }

    pub fn notification_dropped(&mut self, reason: &str)
        requires
            old(self).wf(),
        ensures
            final(self).wf(),
            exists|r: String| r@ == reason@ && recorded(
                old(self)@,
                final(self)@,
                None,
                LogEvent::NotificationDropped { reason: r },
            ),
    {
        let r = reason.to_owned();
        let ghost ev = LogEvent::NotificationDropped { reason: r };
        self.record(None, LogEvent::NotificationDropped { reason: r });
        assert(recorded(old(self)@, self@, None, ev));
    }
}

impl LogBuffer {
    /// A new log buffer behind an `Arc`, to hand to the server's tasks.
    pub fn new_shared(capacity: usize, enabled: bool) -> (r: std::sync::Arc<LogBuffer>)
        ensures
            (*r)@ == (LogModel { entries: Seq::empty(), capacity: capacity as nat, enabled }),
            (*r).wf(),
    {
        std::sync::Arc::new(LogBuffer::new(capacity, enabled))
    }
}

impl Default for LogBuffer {
    fn default() -> (r: Self)
        ensures
            r@ == (LogModel { entries: Seq::empty(), capacity: 1024, enabled: false }),
    {
        LogBuffer::new(1024, false)
    }
}

/// Ring-buffer law: recording keeps the log within its capacity and keeps
/// the newest entries in order, ending with the one just recorded (when
/// the log is enabled and has room for any entry at all).
pub proof fn lemma_record_keeps_newest(m: LogModel, e: LogEntry)
    requires
        m.entries.len() <= m.capacity,
    ensures
        spec_record(m, e).entries.len() <= m.capacity,
        m.enabled && m.capacity > 0 ==> spec_record(m, e).entries.last() == e,
        m.enabled ==> spec_record(m, e).entries == keep_last(m.entries.push(e), m.capacity),
        m.enabled && m.entries.len() < m.capacity ==> spec_record(m, e).entries == m.entries.push(e),
{
}

// ---- JSONL snapshots -----------------------------------------------------------------

/// A bounded point-in-time JSONL serialization of a log.
#[derive(Debug, Clone, PartialEq, Eq)]
pub struct JsonlSnapshot {
    /// Serialized bytes: one JSON object per line with trailing newline.
    pub bytes: Vec<u8>,
    /// Number of events serialized.
    pub events: usize,
}

/// The message refusing a snapshot larger than `max_bytes`.
pub open spec fn quota_message(max_bytes: u64) -> Seq<char> {
    "log snapshot exceeds capture per-file quota ("@ + ascii_chars(spec_decimal(max_bytes as nat))
        + " bytes); reduce log_capacity or raise --capture-max-file-bytes"@
}

/// The size of the JSONL text of the first `k` lines, or why it is refused:
/// each line with its newline is added with checked arithmetic, and no
/// prefix may exceed `max_bytes`.
pub open spec fn jsonl_size(lines: Seq<String>, max_bytes: u64, k: int) -> Result<nat, Seq<char>>
    decreases k,
{
    if k <= 0 {
        Ok(0)
    } else {
        match jsonl_size(lines, max_bytes, k - 1) {
            Err(e) => Err(e),
            Ok(size) => {
                let need = str_bytes(lines[k - 1]@).len() + 1;
                if need > u64::MAX {
                    Err("log snapshot line size overflow"@)
                } else if size + need > u64::MAX {
                    Err("log snapshot size overflow"@)
                } else if size + need > max_bytes {
                    Err(quota_message(max_bytes))
                } else {
                    Ok(size + need)
                }
            },
        }
    }
}

/// The JSONL text of the first `k` lines: each line's bytes and a newline.
pub open spec fn jsonl_text(lines: Seq<String>, k: int) -> Seq<u8>
    decreases k,
{
    if k <= 0 {
        Seq::empty()
    } else {
        jsonl_text(lines, k - 1) + str_bytes(lines[k - 1]@).push(0x0Au8)
    }
}

proof fn lemma_jsonl_len(lines: Seq<String>, max_bytes: u64, k: int)
    requires
        0 <= k <= lines.len(),
        jsonl_size(lines, max_bytes, k) is Ok,
    ensures
        jsonl_size(lines, max_bytes, k) == Ok::<nat, Seq<char>>(jsonl_text(lines, k).len()),
    decreases k,
{
    if k > 0 {
        lemma_jsonl_len(lines, max_bytes, k - 1);
    }
}

proof fn lemma_jsonl_err_stays(lines: Seq<String>, max_bytes: u64, k: int, n: int)
    requires
        0 < k <= n,
        jsonl_size(lines, max_bytes, k) is Err,
    ensures
        jsonl_size(lines, max_bytes, n) == jsonl_size(lines, max_bytes, k),
    decreases n - k,
{
    if n > k {
        lemma_jsonl_err_stays(lines, max_bytes, k, n - 1);
    }
}

/// Assemble already-serialized entries into a bounded JSONL snapshot: one
/// line per entry with a trailing newline, refused (with no output) when
/// the text would exceed `max_bytes`.
pub fn jsonl_assemble(lines: &Vec<String>, max_bytes: u64) -> (r: Result<JsonlSnapshot, String>)
    ensures
        match jsonl_size(lines@, max_bytes, lines@.len() as int) {
            Ok(_) => r matches Ok(s) && s.bytes@ == jsonl_text(lines@, lines@.len() as int) && s.events == lines@.len(),
            Err(e) => r matches Err(m) && m@ == e,
        },
{
    let mut out: Vec<u8> = Vec::new();
    let mut count: usize = 0;
    while count < lines.len()
        invariant
            count <= lines@.len(),
            jsonl_size(lines@, max_bytes, count as int) is Ok,
            out@ == jsonl_text(lines@, count as int),
            out@.len() <= max_bytes,
        decreases lines@.len() - count,
    {
        proof {
            lemma_jsonl_len(lines@, max_bytes, count as int);
        }
        let line: &String = &lines[count];
        let bytes = line.as_str().as_bytes();
        let out_len = out.len() as u64;
        let line_len = bytes.len() as u64;
        if line_len == u64::MAX {
            proof {
                lemma_jsonl_err_stays(lines@, max_bytes, count + 1, lines@.len() as int);
            }
            return Err("log snapshot line size overflow".to_owned());
        }
        let needed = line_len + 1;
        if out_len > u64::MAX - needed {
            proof {
                lemma_jsonl_err_stays(lines@, max_bytes, count + 1, lines@.len() as int);
            }
            return Err("log snapshot size overflow".to_owned());
        }
        let projected = out_len + needed;
        if projected > max_bytes {
            proof {
                lemma_jsonl_err_stays(lines@, max_bytes, count + 1, lines@.len() as int);
            }
            let mut msg = "log snapshot exceeds capture per-file quota (".to_owned();
            let d = decimal_string(max_bytes);
            msg.append(d.as_str());
            msg.append(" bytes); reduce log_capacity or raise --capture-max-file-bytes");
            return Err(msg);
        }
        extend_bytes(&mut out, bytes);
        out.push(0x0A);
        count = count + 1;
    }
    Ok(JsonlSnapshot { bytes: out, events: count })
}

} // verus!
