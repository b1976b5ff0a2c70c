# serial_mcp

The decision logic of a serial-port MCP server, written in Verus: stream
framing and protocol parsing for RX and TX, payload encodings, buffer
budgets, the event log, capture-file quotas, command-line checks and profile
learning. Verus checks every executable function in `src/` against its
contract (a few helpers state none and are only checked to be free of
panics and overflow), except the trusted wrappers around outside crates
described at the end.

## Layout

- `src/framing/` — configuration and presets (`config`), TX framing and the
  byte-level codecs (`codecs`), frame parsers for AT, JSON lines, shell
  prompts, NMEA-0183 and Modbus ASCII (`parsers`), the streaming RX decoder
  (`decoder`), and the laws that relate them: TX framing decoded by RX
  framing gives the payload back (`roundtrip`), and, for fixed line endings,
  delimiters, length prefixes, single-byte start markers, SLIP and COBS, the
  cut of a stream into pushes does not change what is decoded (`streaming`).
  Auto line-ending mode and multi-byte start markers can decode differently
  depending on where a stream is cut.
- `src/codec.rs` — UTF-8, text (ANSI-stripped), hex and Base64 payload
  encodings, with decode-after-encode proved.
- `src/buffer_budget.rs`, `src/log_buffer.rs`, `src/capture_store.rs`,
  `src/flex_deserialize.rs`, `src/learning.rs`, `src/cli.rs`,
  `src/error.rs` — budgets, the ring-buffer log, capture filename and quota
  rules, lenient integer fields, profile learning decisions, command-line
  checks and error messages.
- `src/text.rs`, `src/checksums.rs`, `src/limits.rs`, `src/match_config.rs`
  — shared text helpers, XOR and LRC checksums, limits, pattern encodings.
- `app/` — what the library leaves to its host: JSON shapes of the library
  types, the capture store's file work, shared logs, command-line reading.
- `tests/` — executable tests of the library.

Calls into `base64`, `hex`, `regex`, `serde_json` and `std` that the logic
needs are made through small trusted wrappers whose contracts state what
those crates document.
