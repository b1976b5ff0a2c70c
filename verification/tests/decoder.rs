use serial_mcp::checksums::{lrc, xor_checksum};
use serial_mcp::framing::codecs::{slip_stuff, SLIP_END, SLIP_ESC, SLIP_ESC_END, SLIP_ESC_ESC};
use serial_mcp::framing::decoder::FrameDecoder;
use serial_mcp::framing::parsers::{FrameDecodeError, ParsedFrame};
use serial_mcp::framing::{
    preset_rx_framing, preset_rx_parser, Endianness, LineEnding, ParserConfig, ParserType,
    ProtocolPreset, RxFramingConfig, RxFramingMode, TxFramingMode,
};
use serial_mcp::match_config::PatternEncoding;


// ── Line decoder (auto) ──────────────────────────

#[test]
fn decoder_line_decoder_single_line() {
    let config = RxFramingConfig {
        mode: RxFramingMode::Line {
            ending: LineEnding::Auto,
        },
        ..Default::default()
    };
    let mut dec = FrameDecoder::new(&config, None).unwrap();
    let frames = dec.push(b"hello\n").frames;
    assert_eq!(frames.len(), 1);
    assert_eq!(frames[0].data, b"hello");
    assert_eq!(frames[0].index, 0);
    assert_eq!(frames[0].frame_type, "line");
}

#[test]
fn decoder_line_decoder_crlf() {
    let config = RxFramingConfig {
        mode: RxFramingMode::Line {
            ending: LineEnding::Auto,
        },
        ..Default::default()
    };
    let mut dec = FrameDecoder::new(&config, None).unwrap();
    let frames = dec.push(b"hello\r\nworld\n").frames;
    assert_eq!(frames.len(), 2);
    assert_eq!(frames[0].data, b"hello");
    assert_eq!(frames[1].data, b"world");
}

#[test]
fn decoder_line_decoder_partial_across_chunks() {
    let config = RxFramingConfig::default();
    let mut dec = FrameDecoder::new(&config, None).unwrap();
    let frames = dec.push(b"hel").frames;
    assert!(frames.is_empty());
    let frames = dec.push(b"lo\nwor").frames;
    assert_eq!(frames.len(), 1);
    assert_eq!(frames[0].data, b"hello");
    let frames = dec.push(b"ld\n").frames;
    assert_eq!(frames.len(), 1);
    assert_eq!(frames[0].data, b"world");
}

#[test]
fn decoder_line_decoder_empty_lines() {
    let config = RxFramingConfig::default();
    let mut dec = FrameDecoder::new(&config, None).unwrap();
    let frames = dec.push(b"\n\n\n").frames;
    assert_eq!(frames.len(), 3);
    for f in &frames {
        assert!(f.data.is_empty());
    }
}

#[test]
fn decoder_line_decoder_include_terminators() {
    let config = RxFramingConfig {
        mode: RxFramingMode::Line {
            ending: LineEnding::Auto,
        },
        include_terminators: true,
        ..Default::default()
    };
    let mut dec = FrameDecoder::new(&config, None).unwrap();
    let frames = dec.push(b"hello\r\n").frames;
    assert_eq!(frames.len(), 1);
    assert_eq!(frames[0].data, b"hello\r\n");
}

// ── Line decoder: new ending modes ────────────────────────────────────

#[test]
fn decoder_line_decoder_lf_preserves_cr() {
    let config = RxFramingConfig {
        mode: RxFramingMode::Line {
            ending: LineEnding::Lf,
        },
        ..Default::default()
    };
    let mut dec = FrameDecoder::new(&config, None).unwrap();
    let frames = dec.push(b"hello\r\n").frames;
    assert_eq!(frames.len(), 1);
    assert_eq!(frames[0].data, b"hello\r");
    assert_eq!(frames[0].frame_type, "line");
}

#[test]
fn decoder_line_decoder_cr_splits_on_bare_cr() {
    let config = RxFramingConfig {
        mode: RxFramingMode::Line {
            ending: LineEnding::Cr,
        },
        ..Default::default()
    };
    let mut dec = FrameDecoder::new(&config, None).unwrap();
    let frames = dec.push(b"a\rb\r").frames;
    assert_eq!(frames.len(), 2);
    assert_eq!(frames[0].data, b"a");
    assert_eq!(frames[1].data, b"b");
}

#[test]
fn decoder_line_decoder_cr_with_include_terminators() {
    let config = RxFramingConfig {
        mode: RxFramingMode::Line {
            ending: LineEnding::Cr,
        },
        include_terminators: true,
        ..Default::default()
    };
    let mut dec = FrameDecoder::new(&config, None).unwrap();
    let frames = dec.push(b"a\r").frames;
    assert_eq!(frames.len(), 1);
    assert_eq!(frames[0].data, b"a\r");
}

#[test]
fn decoder_line_decoder_crlf_exact_only() {
    let config = RxFramingConfig {
        mode: RxFramingMode::Line {
            ending: LineEnding::Crlf,
        },
        ..Default::default()
    };
    let mut dec = FrameDecoder::new(&config, None).unwrap();
    // CRLF split across chunks: "\r" in first, "\n" in second.
    let frames = dec.push(b"a\r").frames;
    assert!(frames.is_empty());
    let frames = dec.push(b"\nb").frames;
    assert_eq!(frames.len(), 1);
    assert_eq!(frames[0].data, b"a");
}

#[test]
fn decoder_line_decoder_crlf_no_split_on_bare_cr() {
    let config = RxFramingConfig {
        mode: RxFramingMode::Line {
            ending: LineEnding::Crlf,
        },
        ..Default::default()
    };
    let mut dec = FrameDecoder::new(&config, None).unwrap();
    let frames = dec.push(b"a\rb\n").frames;
    assert_eq!(frames.len(), 0, "bare \\r should not split in crlf mode");
}

#[test]
fn decoder_line_decoder_crlf_include_terminators() {
    let config = RxFramingConfig {
        mode: RxFramingMode::Line {
            ending: LineEnding::Crlf,
        },
        include_terminators: true,
        ..Default::default()
    };
    let mut dec = FrameDecoder::new(&config, None).unwrap();
    let frames = dec.push(b"hello\r\n").frames;
    assert_eq!(frames.len(), 1);
    assert_eq!(frames[0].data, b"hello\r\n");
}

// ── Line decoder: auto promotion (bare-CR detection) ──────────────────

fn auto_config() -> RxFramingConfig {
    RxFramingConfig {
        mode: RxFramingMode::Line {
            ending: LineEnding::Auto,
        },
        ..Default::default()
    }
}

fn auto_config_include_terms() -> RxFramingConfig {
    RxFramingConfig {
        mode: RxFramingMode::Line {
            ending: LineEnding::Auto,
        },
        include_terminators: true,
        ..Default::default()
    }
}

#[test]
fn decoder_auto_does_not_promote_on_crlf() {
    let mut dec = FrameDecoder::new(&auto_config(), None).unwrap();
    let frames = dec.push(b"a\r\nb\r\n").frames;
    assert_eq!(frames.len(), 2);
    assert_eq!(frames[0].data, b"a");
    assert_eq!(frames[1].data, b"b");
    // After CRLF, decoder stays in AutoLf — next bare \r still triggers promotion.
    let frames = dec.push(b"c\r").frames;
    assert!(frames.is_empty(), "pending CR after CRLF");
    // Push "d" — confirmation byte stays buffered as start of next line.
    let frames = dec.push(b"d").frames;
    assert_eq!(frames.len(), 1, "bare CR confirmed on next non-\\n byte");
    assert_eq!(frames[0].data, b"c");
    // Now in CrMode. Buffer has "d". Push "e\r" → "de\r" → frame "de".
    let frames = dec.push(b"e\r").frames;
    assert_eq!(frames.len(), 1);
    assert_eq!(frames[0].data, b"de");
}

#[test]
fn decoder_auto_does_not_promote_on_lf() {
    let mut dec = FrameDecoder::new(&auto_config(), None).unwrap();
    let frames = dec.push(b"a\nb\n").frames;
    assert_eq!(frames.len(), 2);
    assert_eq!(frames[0].data, b"a");
    assert_eq!(frames[1].data, b"b");
}

#[test]
fn decoder_auto_promotes_on_next_non_lf_byte() {
    let mut dec = FrameDecoder::new(&auto_config(), None).unwrap();
    // Push "line1\r" → \r at end, no frame emitted, enters PendingCr.
    let frames = dec.push(b"line1\r").frames;
    assert!(frames.is_empty());
    // Push "x" → non-\n byte confirms bare CR. Emit "line1", enter CrMode.
    // The "x" stays buffered as the start of the next line.
    let frames = dec.push(b"x").frames;
    assert_eq!(frames.len(), 1);
    assert_eq!(frames[0].data, b"line1");
    // In CrMode: push "more\r" → split on \r. Buffer had "x" + "more\r".
    let frames = dec.push(b"more\r").frames;
    assert_eq!(frames.len(), 1);
    assert_eq!(frames[0].data, b"xmore");
}

#[test]
fn decoder_auto_crlf_after_pending_cr_cancels_promotion() {
    let mut dec = FrameDecoder::new(&auto_config(), None).unwrap();
    // Push "a\r" → pending CR.
    let frames = dec.push(b"a\r").frames;
    assert!(frames.is_empty());
    // Push "\nb" → \n arrives, CRLF recognized. "b" stays buffered.
    let frames = dec.push(b"\nb").frames;
    assert_eq!(frames.len(), 1);
    assert_eq!(frames[0].data, b"a");
    // Back to AutoLf. Buffer has "b". Push "c\n" → "bc\n" → frame "bc".
    let frames = dec.push(b"c\n").frames;
    assert_eq!(frames.len(), 1);
    assert_eq!(frames[0].data, b"bc");
}

#[test]
fn decoder_auto_flush_partial_emits_pending_cr() {
    let mut dec = FrameDecoder::new(&auto_config(), None).unwrap();
    let frames = dec.push(b"tail\r").frames;
    assert!(frames.is_empty());
    let partial = dec.flush_partial().expect("partial frame");
    assert_eq!(partial.data, b"tail\r");
    assert_eq!(partial.frame_type, "line");
}

#[test]
fn decoder_auto_flush_partial_emits_pending_cr_include_terminators() {
    let mut dec = FrameDecoder::new(&auto_config_include_terms(), None).unwrap();
    let frames = dec.push(b"tail\r").frames;
    assert!(frames.is_empty());
    let partial = dec.flush_partial().expect("partial frame");
    // include_terminators=true → the \r is included (already in buffer).
    assert_eq!(partial.data, b"tail\r");
}

#[test]
fn decoder_auto_promotes_and_stays_in_cr_mode() {
    let mut dec = FrameDecoder::new(&auto_config(), None).unwrap();
    // Promote to CrMode.
    dec.push(b"a\r");
    dec.push(b"b");
    // In CrMode: \n is NOT a terminator, \r is.
    // Buffer has "b" from confirmation, then "x\ny\r" → "bx\ny\r" → split on \r.
    let frames = dec.push(b"x\ny\r").frames;
    assert_eq!(frames.len(), 1);
    assert_eq!(frames[0].data, b"bx\ny");
}

#[test]
fn decoder_auto_promotion_include_terminators() {
    let mut dec = FrameDecoder::new(&auto_config_include_terms(), None).unwrap();
    let frames = dec.push(b"line1\r").frames;
    assert!(frames.is_empty());
    let frames = dec.push(b"x").frames;
    assert_eq!(frames.len(), 1);
    assert_eq!(frames[0].data, b"line1\r");
}

#[test]
fn decoder_auto_pending_cr_then_flush_keeps_frame_index_monotonic() {
    let mut dec = FrameDecoder::new(&auto_config(), None).unwrap();
    // Two LF lines.
    let frames = dec.push(b"a\nb\n").frames;
    assert_eq!(frames.len(), 2);
    assert_eq!(frames[0].index, 0);
    assert_eq!(frames[1].index, 1);
    // Pending CR, then flush.
    dec.push(b"c\r");
    let partial = dec.flush_partial().expect("partial frame");
    assert_eq!(partial.index, 2);
}

fn slip_rx_config() -> RxFramingConfig {
    RxFramingConfig {
        mode: RxFramingMode::Slip,
        ..Default::default()
    }
}

#[test]
fn decoder_rx_slip_skips_to_first_end() {
    let mut dec = FrameDecoder::new(&slip_rx_config(), None).unwrap();
    let frames = dec.push(b"junk\xC0hi\xC0").frames;
    assert_eq!(frames.len(), 1);
    assert_eq!(frames[0].data, b"hi");
}

#[test]
fn decoder_rx_slip_decodes_basic_frame() {
    let mut dec = FrameDecoder::new(&slip_rx_config(), None).unwrap();
    let frames = dec.push(b"\xC0hello\xC0").frames;
    assert_eq!(frames.len(), 1);
    assert_eq!(frames[0].data, b"hello");
}

#[test]
fn decoder_rx_slip_decodes_esc_end() {
    let mut dec = FrameDecoder::new(&slip_rx_config(), None).unwrap();
    let frames = dec.push(b"\xC0\xDB\xDC\xC0").frames;
    assert_eq!(frames.len(), 1);
    assert_eq!(frames[0].data, b"\xC0");
}

#[test]
fn decoder_rx_slip_decodes_esc_esc() {
    let mut dec = FrameDecoder::new(&slip_rx_config(), None).unwrap();
    let frames = dec.push(b"\xC0\xDB\xDD\xC0").frames;
    assert_eq!(frames.len(), 1);
    assert_eq!(frames[0].data, b"\xDB");
}

#[test]
fn decoder_rx_slip_malformed_escape_returns_err() {
    let mut dec = FrameDecoder::new(&slip_rx_config(), None).unwrap();
    let result = dec.push(b"\xC0\xDB\x41\xC0");
    assert!(result.error.is_some(), "expected decode error");
    match result.error {
        Some(FrameDecodeError::SlipInvalidEscape(b)) => assert_eq!(b, 0x41),
        other => panic!("unexpected error variant: {other:?}"),
    }
}

#[test]
fn decoder_rx_slip_resyncs_after_malformed_escape() {
    let mut dec = FrameDecoder::new(&slip_rx_config(), None).unwrap();
    // Malformed escape.
    let result = dec.push(b"\xC0\xDB\x41\xC0");
    assert!(result.error.is_some());
    // After resync, decoder is in BeforeFirstEnd. The trailing END from
    // the malformed chunk remains in buf_outer. Push a valid frame —
    // two consecutive ENDs produce one empty frame then "ok".
    let frames = dec.push(b"\xC0ok\xC0").frames;
    assert_eq!(frames.len(), 2);
    assert!(frames[0].data.is_empty());
    assert_eq!(frames[1].data, b"ok");
}

#[test]
fn decoder_rx_slip_resync_clears_stale_in_progress_buf() {
    let mut dec = FrameDecoder::new(&slip_rx_config(), None).unwrap();
    // Partial frame "hello", then malformed escape.
    let result = dec.push(b"\xC0hello\xDB\x41");
    assert!(result.error.is_some());
    // After resync, "hello" must be cleared. Push a new frame.
    let frames = dec.push(b"\xC0world\xC0").frames;
    assert_eq!(frames.len(), 1);
    assert_eq!(frames[0].data, b"world");
}

#[test]
fn push_survives_frames_decoded_before_slip_invalid_escape() {
    // Two good SLIP frames, then a malformed escape → 2 frames survive.
    let mut dec = FrameDecoder::new(&slip_rx_config(), None).unwrap();
    // Build: C0 aa C0 bb C0 DB 41 (two valid frames, then malformed).
    let mut chunk = vec![SLIP_END];
    chunk.extend_from_slice(b"aa");
    chunk.push(SLIP_END);
    // One SLIP_END separates frames — no empty frame between them.
    chunk.extend_from_slice(b"bb");
    chunk.push(SLIP_END);
    // Now append a malformed escape: ESC followed by invalid byte.
    chunk.push(SLIP_ESC);
    chunk.push(0x41); // Invalid escape byte
    let result = dec.push(&chunk);
    assert_eq!(result.frames.len(), 2, "frames before error should survive");
    assert_eq!(result.frames[0].data, b"aa");
    assert_eq!(result.frames[1].data, b"bb");
    assert_eq!(result.frames_dropped, 0);
    assert!(matches!(
        result.error,
        Some(FrameDecodeError::SlipInvalidEscape(0x41))
    ));
}

#[test]
fn decoder_rx_slip_two_frames_in_one_chunk() {
    let mut dec = FrameDecoder::new(&slip_rx_config(), None).unwrap();
    let frames = dec.push(b"\xC0aa\xC0bb\xC0").frames;
    assert_eq!(frames.len(), 2);
    assert_eq!(frames[0].data, b"aa");
    assert_eq!(frames[1].data, b"bb");
}

#[test]
fn decoder_rx_slip_cross_chunk_frame() {
    let mut dec = FrameDecoder::new(&slip_rx_config(), None).unwrap();
    let frames = dec.push(b"\xC0hel").frames;
    assert!(frames.is_empty());
    let frames = dec.push(b"lo\xC0").frames;
    assert_eq!(frames.len(), 1);
    assert_eq!(frames[0].data, b"hello");
}

#[test]
fn decoder_rx_slip_truncated_escape_holds_pending() {
    let mut dec = FrameDecoder::new(&slip_rx_config(), None).unwrap();
    let frames = dec.push(b"\xC0\xDB").frames;
    assert!(frames.is_empty());
    let frames = dec.push(b"\xDC\xC0").frames;
    assert_eq!(frames.len(), 1);
    assert_eq!(frames[0].data, b"\xC0");
}

#[test]
fn decoder_rx_slip_flush_partial_emits_pending() {
    let mut dec = FrameDecoder::new(&slip_rx_config(), None).unwrap();
    let frames = dec.push(b"\xC0hel").frames;
    assert!(frames.is_empty());
    let partial = dec.flush_partial().expect("partial frame");
    assert_eq!(partial.data, b"hel");
    assert_eq!(partial.frame_type, "slip");
}

#[test]
fn decoder_roundtrip_slip_arbitrary_binary() {
    let payload: &[u8] = &[SLIP_END, SLIP_ESC, 0x41, SLIP_ESC, SLIP_ESC_END, SLIP_END];
    let mode = TxFramingMode::Slip;
    let framed = mode.encode(payload).unwrap();
    let mut dec = FrameDecoder::new(&slip_rx_config(), None).unwrap();
    let frames = dec.push(&framed).frames;
    assert_eq!(frames.len(), 1);
    assert_eq!(frames[0].data, payload);
}

#[test]
fn decoder_roundtrip_slip_empty_payload() {
    let mode = TxFramingMode::Slip;
    let framed = mode.encode(b"").unwrap();
    assert_eq!(framed, &[SLIP_END, SLIP_END]);
    let mut dec = FrameDecoder::new(&slip_rx_config(), None).unwrap();
    let frames = dec.push(&framed).frames;
    assert_eq!(frames.len(), 1);
    assert!(frames[0].data.is_empty());
}

#[test]
fn decoder_rx_slip_decodes_large_payload_preserves_bytes() {
    // Push a 4096-byte SLIP frame with a known repeating pattern
    // (0x00..=0xFF cycling) stuffed via slip_stuff, wrapped in END
    // markers. Assert exactly one decoded frame whose payload matches
    // the original byte-for-byte, and frame_type == "slip".
    let payload: Vec<u8> = (0..4096).map(|i| (i % 256) as u8).collect();
    let stuffed = slip_stuff(&payload);
    let mut framed = vec![SLIP_END];
    framed.extend_from_slice(&stuffed);
    framed.push(SLIP_END);

    let mut dec = FrameDecoder::new(&slip_rx_config(), None).unwrap();
    let frames = dec.push(&framed).frames;
    assert_eq!(frames.len(), 1, "expected exactly one frame");
    assert_eq!(
        frames[0].data, payload,
        "decoded payload must match original"
    );
    assert_eq!(frames[0].frame_type, "slip");
}

#[test]
fn decoder_slip_parser_error_propagates_and_resets_state() {
    // SLIP-frame a NMEA sentence with a BAD checksum. The NmeaParser with
    // validate:true returns Err(ChecksumMismatch) when it sees the bad *XX.
    // This exercises slip_decode's parser-Err path:
    // drain consumed bytes, reset state to BeforeFirstEnd, return Err.
    // Then push a well-formed SLIP-framed NMEA sentence and confirm the
    // decoder recovers (state was reset — no stale escaped/buf corruption).

    let bad_body = b"GPGLL,3751.65,N,12226.54,W*00"; // wrong checksum (correct is 7E)
    let good_body = b"GPGLL,3751.65,N,12226.54,W";
    let good_cs = xor_checksum(good_body);
    let good_sentence = format!("GPGLL,3751.65,N,12226.54,W*{good_cs:02X}");

    let framing = RxFramingConfig {
        mode: RxFramingMode::Slip,
        ..Default::default()
    };
    let parser = ParserConfig {
        parser_type: ParserType::Nmea,
        custom_prompt: None,
        validate: true,
    };
    let mut dec = FrameDecoder::new(&framing, Some(&parser)).unwrap();

    // Push 1: bad-checksum frame → dropped (frames_dropped=1, no error).
    let mut push1 = vec![SLIP_END];
    push1.extend_from_slice(bad_body);
    push1.push(SLIP_END);
    let result = dec.push(&push1);
    assert!(
        result.frames.is_empty(),
        "bad-checksum frame should be dropped, not emitted"
    );
    assert_eq!(result.frames_dropped, 1, "checksum drop should be counted");
    assert!(result.error.is_none(), "checksum drop should not set error");

    // Push 2: good-checksum frame → decoder was NOT reset by the checksum
    // drop (state stayed InFrame with empty buf). The leading SLIP_END
    // produces an empty frame; the good sentence produces a parsed Nmea frame.
    let mut push2 = vec![SLIP_END];
    push2.extend_from_slice(good_sentence.as_bytes());
    push2.push(SLIP_END);
    let result2 = dec.push(&push2);
    // First frame is empty (leading SLIP_END with empty buf), second has our NMEA.
    assert!(
        result2.frames.len() >= 2,
        "expected at least 2 frames, got {}",
        result2.frames.len()
    );
    // Find the Nmea frame (skip the empty one).
    let nmea_frame = result2
        .frames
        .iter()
        .find(|f| matches!(f.parsed, Some(ParsedFrame::Nmea { .. })))
        .expect("expected a clean Nmea frame after recovery");
    assert!(
        matches!(
            &nmea_frame.parsed,
            Some(ParsedFrame::Nmea {
                checksum_valid: Some(true),
                ..
            })
        ),
        "expected a clean Nmea frame after recovery, got {:?}",
        nmea_frame.parsed
    );
}

// ── Delimiter decoder ───────────────────────────────────────────────

#[test]
fn decoder_delimiter_decoder_basic() {
    let config = RxFramingConfig {
        mode: RxFramingMode::Delimiter {
            delimiter: "|".into(),
            delimiter_encoding: PatternEncoding::Utf8,
        },
        ..Default::default()
    };
    let mut dec = FrameDecoder::new(&config, None).unwrap();
    let frames = dec.push(b"a|b|c|").frames;
    assert_eq!(frames.len(), 3);
    assert_eq!(frames[0].data, b"a");
    assert_eq!(frames[1].data, b"b");
    assert_eq!(frames[2].data, b"c");
}

#[test]
fn decoder_delimiter_decoder_multi_byte() {
    let config = RxFramingConfig {
        mode: RxFramingMode::Delimiter {
            delimiter: "AA".into(),
            delimiter_encoding: PatternEncoding::Utf8,
        },
        ..Default::default()
    };
    let mut dec = FrameDecoder::new(&config, None).unwrap();
    let frames = dec.push(b"xAAyAAz").frames;
    assert_eq!(frames.len(), 2);
    assert_eq!(frames[0].data, b"x");
    assert_eq!(frames[1].data, b"y");
}

#[test]
fn decoder_delimiter_decoder_partial_delimiter() {
    let config = RxFramingConfig {
        mode: RxFramingMode::Delimiter {
            delimiter: "AB".into(),
            delimiter_encoding: PatternEncoding::Utf8,
        },
        ..Default::default()
    };
    let mut dec = FrameDecoder::new(&config, None).unwrap();
    let frames = dec.push(b"xA").frames;
    assert!(frames.is_empty());
    let frames = dec.push(b"By").frames;
    assert_eq!(frames.len(), 1);
    assert_eq!(frames[0].data, b"x");
}

// ── Length-prefixed decoder ─────────────────────────────────────────

#[test]
fn decoder_length_prefixed_basic() {
    let config = RxFramingConfig {
        mode: RxFramingMode::LengthPrefixed {
            prefix_size: 1,
            endianness: Endianness::Big,
            initial_offset: None,
        },
        ..Default::default()
    };
    let mut dec = FrameDecoder::new(&config, None).unwrap();
    let frames = dec.push(b"\x05hello\x02wo\x02rb").frames;
    assert_eq!(frames.len(), 3);
    assert_eq!(frames[0].data, b"hello");
    assert_eq!(frames[1].data, b"wo");
    assert_eq!(frames[2].data, b"rb");
}

#[test]
fn decoder_length_prefixed_u16_big_endian() {
    let config = RxFramingConfig {
        mode: RxFramingMode::LengthPrefixed {
            prefix_size: 2,
            endianness: Endianness::Big,
            initial_offset: None,
        },
        ..Default::default()
    };
    let mut dec = FrameDecoder::new(&config, None).unwrap();
    let mut buf = vec![0x00, 0x05];
    buf.extend_from_slice(b"hello");
    let frames = dec.push(&buf).frames;
    assert_eq!(frames.len(), 1);
    assert_eq!(frames[0].data, b"hello");
}

// ── Start/end marker decoder ────────────────────────────────────────

#[test]
fn decoder_start_end_basic() {
    let config = RxFramingConfig {
        mode: RxFramingMode::StartEnd {
            start: vec!["STX".into()],
            end: "ETX".into(),
            marker_encoding: PatternEncoding::Utf8,
            include_markers: false,
        },
        ..Default::default()
    };
    let mut dec = FrameDecoder::new(&config, None).unwrap();
    let frames = dec.push(b"noiseSTXdataETXjunkSTXmoreETX").frames;
    assert_eq!(frames.len(), 2);
    assert_eq!(frames[0].data, b"data");
    assert_eq!(frames[1].data, b"more");
}

#[test]
fn decoder_start_end_include_markers() {
    let config = RxFramingConfig {
        mode: RxFramingMode::StartEnd {
            start: vec!["<".into()],
            end: ">".into(),
            marker_encoding: PatternEncoding::Utf8,
            include_markers: true,
        },
        ..Default::default()
    };
    let mut dec = FrameDecoder::new(&config, None).unwrap();
    let frames = dec.push(b"<data>").frames;
    assert_eq!(frames.len(), 1);
    assert_eq!(frames[0].data, b"<data>");
}

#[test]
fn decoder_combined_line_at_parser() {
    let config = RxFramingConfig {
        mode: RxFramingMode::Line {
            ending: LineEnding::Auto,
        },
        ..Default::default()
    };
    let parser = ParserConfig {
        parser_type: ParserType::AtCommand,
        custom_prompt: None,
        validate: false,
    };
    let mut dec = FrameDecoder::new(&config, Some(&parser)).unwrap();
    let frames = dec.push(b"OK\nERROR\n+CGREG: 0,1\n").frames;
    assert_eq!(frames.len(), 3);
    assert!(
        matches!(frames[0].parsed, Some(ParsedFrame::AtCommand { ref status, .. }) if status.as_deref() == Some("OK"))
    );
    assert!(
        matches!(frames[1].parsed, Some(ParsedFrame::AtCommand { ref status, .. }) if status.as_deref() == Some("ERROR"))
    );
    assert!(
        matches!(frames[2].parsed, Some(ParsedFrame::AtCommand { ref command, .. }) if command.as_deref() == Some("CGREG"))
    );
}

// ── Negative / edge-case tests ───────────────────────────────────────

#[test]
fn decoder_line_decoder_no_terminator_then_flush() {
    let config = RxFramingConfig::default();
    let mut dec = FrameDecoder::new(&config, None).unwrap();
    let frames = dec.push(b"hello").frames;
    assert!(frames.is_empty());
    assert_eq!(dec.pending_len(), 5);
    let partial = dec.flush_partial().expect("partial frame");
    assert_eq!(partial.data, b"hello");
    assert_eq!(partial.index, 0);
    assert_eq!(partial.frame_type, "line");
    assert!(partial.parsed.is_none());
}

#[test]
fn decoder_delimiter_decoder_empty_rejected() {
    let config = RxFramingConfig {
        mode: RxFramingMode::Delimiter {
            delimiter: "".into(),
            delimiter_encoding: PatternEncoding::Utf8,
        },
        ..Default::default()
    };
    match FrameDecoder::new(&config, None) {
        Ok(_) => panic!("empty delimiter should be rejected"),
        Err(err) => assert!(err.contains("Delimiter must not be empty"), "got: {err}"),
    }
}

#[test]
fn decoder_length_prefixed_zero_payload() {
    let config = RxFramingConfig {
        mode: RxFramingMode::LengthPrefixed {
            prefix_size: 1,
            endianness: Endianness::Big,
            initial_offset: None,
        },
        ..Default::default()
    };
    let mut dec = FrameDecoder::new(&config, None).unwrap();
    let frames = dec.push(b"\x00\x05hello").frames;
    assert_eq!(frames.len(), 2);
    assert!(frames[0].data.is_empty());
    assert_eq!(frames[1].data, b"hello");
}

#[test]
fn decoder_length_prefixed_incomplete_payload() {
    let config = RxFramingConfig {
        mode: RxFramingMode::LengthPrefixed {
            prefix_size: 1,
            endianness: Endianness::Big,
            initial_offset: None,
        },
        ..Default::default()
    };
    let mut dec = FrameDecoder::new(&config, None).unwrap();
    let frames = dec.push(b"\x0aABC").frames;
    assert!(frames.is_empty());
    assert!(dec.pending_len() >= 3);
}

#[test]
fn decoder_length_prefixed_invalid_prefix_size() {
    let config = RxFramingConfig {
        mode: RxFramingMode::LengthPrefixed {
            prefix_size: 3,
            endianness: Endianness::Big,
            initial_offset: None,
        },
        ..Default::default()
    };
    match FrameDecoder::new(&config, None) {
        Ok(_) => panic!("prefix_size=3 should be rejected"),
        Err(err) => assert!(err.contains("prefix_size must be 1, 2, or 4"), "got: {err}"),
    }
}

#[test]
fn decoder_length_prefixed_u32_big_endian() {
    let config = RxFramingConfig {
        mode: RxFramingMode::LengthPrefixed {
            prefix_size: 4,
            endianness: Endianness::Big,
            initial_offset: None,
        },
        ..Default::default()
    };
    let mut dec = FrameDecoder::new(&config, None).unwrap();
    let mut buf = vec![0x00, 0x00, 0x00, 0x05];
    buf.extend_from_slice(b"hello");
    let frames = dec.push(&buf).frames;
    assert_eq!(frames.len(), 1);
    assert_eq!(frames[0].data, b"hello");
}

#[test]
fn decoder_length_prefixed_u32_little_endian() {
    let config = RxFramingConfig {
        mode: RxFramingMode::LengthPrefixed {
            prefix_size: 4,
            endianness: Endianness::Little,
            initial_offset: None,
        },
        ..Default::default()
    };
    let mut dec = FrameDecoder::new(&config, None).unwrap();
    let mut buf = vec![0x05, 0x00, 0x00, 0x00];
    buf.extend_from_slice(b"hello");
    let frames = dec.push(&buf).frames;
    assert_eq!(frames.len(), 1);
    assert_eq!(frames[0].data, b"hello");
}

#[test]
fn decoder_start_end_no_start_marker() {
    let config = RxFramingConfig {
        mode: RxFramingMode::StartEnd {
            start: vec!["STX".into()],
            end: "ETX".into(),
            marker_encoding: PatternEncoding::Utf8,
            include_markers: false,
        },
        ..Default::default()
    };
    let mut dec = FrameDecoder::new(&config, None).unwrap();
    let frames = dec.push(b"noise_without_markers").frames;
    assert!(frames.is_empty());
    assert!(dec.pending_len() <= 2);
}

#[test]
fn decoder_start_end_start_no_end_then_flush() {
    let config = RxFramingConfig {
        mode: RxFramingMode::StartEnd {
            start: vec!["<".into()],
            end: ">".into(),
            marker_encoding: PatternEncoding::Utf8,
            include_markers: false,
        },
        ..Default::default()
    };
    let mut dec = FrameDecoder::new(&config, None).unwrap();
    let frames = dec.push(b"<data_without_end").frames;
    assert!(frames.is_empty(), "no end marker yet");
    let partial = dec.flush_partial().expect("partial frame after flush");
    assert_eq!(partial.data, b"data_without_end");
}

#[test]
fn decoder_start_end_empty_markers_rejected() {
    let config = RxFramingConfig {
        mode: RxFramingMode::StartEnd {
            start: vec!["".into()],
            end: "X".into(),
            marker_encoding: PatternEncoding::Utf8,
            include_markers: false,
        },
        ..Default::default()
    };
    match FrameDecoder::new(&config, None) {
        Ok(_) => panic!("empty markers should be rejected"),
        Err(err) => assert!(
            err.contains("Start and end markers must not be empty"),
            "got: {err}"
        ),
    }
}

#[test]
fn decoder_start_end_start_split_across_chunks() {
    let config = RxFramingConfig {
        mode: RxFramingMode::StartEnd {
            start: vec!["ABC".into()],
            end: "X".into(),
            marker_encoding: PatternEncoding::Utf8,
            include_markers: false,
        },
        ..Default::default()
    };
    let mut dec = FrameDecoder::new(&config, None).unwrap();
    let frames = dec.push(b"AB").frames;
    assert!(frames.is_empty());
    let frames = dec.push(b"CdX").frames;
    assert_eq!(frames.len(), 1);
    assert_eq!(frames[0].data, b"d");
}

#[test]
fn decoder_delimiter_invalid_encoding_rejected() {
    let config = RxFramingConfig {
        mode: RxFramingMode::Delimiter {
            delimiter: "!!!".into(),
            delimiter_encoding: PatternEncoding::Base64,
        },
        ..Default::default()
    };
    match FrameDecoder::new(&config, None) {
        Ok(_) => panic!("expected error for invalid delimiter encoding"),
        Err(err) => assert!(err.contains("Invalid delimiter encoding"), "got: {err}"),
    }
}

#[test]
fn decoder_start_end_invalid_encoding_rejected() {
    let config = RxFramingConfig {
        mode: RxFramingMode::StartEnd {
            start: vec!["!!!".into()],
            end: "X".into(),
            marker_encoding: PatternEncoding::Base64,
            include_markers: false,
        },
        ..Default::default()
    };
    match FrameDecoder::new(&config, None) {
        Ok(_) => panic!("expected error for invalid marker encoding"),
        Err(err) => assert!(err.contains("Invalid start marker encoding"), "got: {err}"),
    }
}

#[test]
fn decoder_max_frames_zero_edge() {
    let config = RxFramingConfig {
        mode: RxFramingMode::Line {
            ending: LineEnding::Auto,
        },
        max_frames: Some(0),
        ..Default::default()
    };
    let mut dec = FrameDecoder::new(&config, None).unwrap();
    let frames = dec.push(b"hello\n").frames;
    assert_eq!(frames.len(), 1);
    assert_eq!(frames[0].data, b"hello");
}

#[test]
fn decoder_length_prefixed_initial_offset() {
    let config = RxFramingConfig {
        mode: RxFramingMode::LengthPrefixed {
            prefix_size: 1,
            endianness: Endianness::Big,
            initial_offset: Some(4),
        },
        ..Default::default()
    };
    let mut dec = FrameDecoder::new(&config, None).unwrap();
    let frames = dec.push(b"XXXX\x05hello").frames;
    assert_eq!(frames.len(), 1);
    assert_eq!(frames[0].data, b"hello");
}

#[test]
fn decoder_delimiter_include_terminators() {
    let config = RxFramingConfig {
        mode: RxFramingMode::Delimiter {
            delimiter: "|".into(),
            delimiter_encoding: PatternEncoding::Utf8,
        },
        include_terminators: true,
        ..Default::default()
    };
    let mut dec = FrameDecoder::new(&config, None).unwrap();
    let frames = dec.push(b"a|b|").frames;
    assert_eq!(frames.len(), 2);
    assert_eq!(frames[0].data, b"a|");
    assert_eq!(frames[1].data, b"b|");
}

#[test]
fn decoder_flush_partial_empty_buffer() {
    let config = RxFramingConfig::default();
    let mut dec = FrameDecoder::new(&config, None).unwrap();
    assert!(dec.flush_partial().is_none(), "empty buf => no frame");
}

#[test]
fn decoder_combined_line_json_parser() {
    let config = RxFramingConfig {
        mode: RxFramingMode::Line {
            ending: LineEnding::Auto,
        },
        ..Default::default()
    };
    let parser = ParserConfig {
        parser_type: ParserType::JsonLines,
        custom_prompt: None,
        validate: false,
    };
    let mut dec = FrameDecoder::new(&config, Some(&parser)).unwrap();
    let frames = dec.push(b"{\"a\":1}\n{\"b\":2}\n").frames;
    assert_eq!(frames.len(), 2);
    assert!(matches!(frames[0].parsed, Some(ParsedFrame::Json(_))));
    assert!(matches!(frames[1].parsed, Some(ParsedFrame::Json(_))));
}

// ── Coverage gap tests ──────────────────────────────────────────────

#[test]
fn decoder_delimiter_decoder_empty_segments() {
    let config = RxFramingConfig {
        mode: RxFramingMode::Delimiter {
            delimiter: "|".into(),
            delimiter_encoding: PatternEncoding::Utf8,
        },
        ..Default::default()
    };
    let mut dec = FrameDecoder::new(&config, None).unwrap();
    let frames = dec.push(b"||").frames;
    assert_eq!(frames.len(), 2);
    assert!(frames[0].data.is_empty());
    assert!(frames[1].data.is_empty());

    let mut dec = FrameDecoder::new(&config, None).unwrap();
    let frames = dec.push(b"a||b|").frames;
    assert_eq!(frames.len(), 3);
    assert_eq!(frames[0].data, b"a");
    assert!(frames[1].data.is_empty());
    assert_eq!(frames[2].data, b"b");
}

#[test]
fn decoder_length_prefixed_prefix_split_across_chunks() {
    let config = RxFramingConfig {
        mode: RxFramingMode::LengthPrefixed {
            prefix_size: 2,
            endianness: Endianness::Big,
            initial_offset: None,
        },
        ..Default::default()
    };
    let mut dec = FrameDecoder::new(&config, None).unwrap();
    let frames = dec.push(b"\x00").frames;
    assert!(frames.is_empty());
    let frames = dec.push(b"\x05hello").frames;
    assert_eq!(frames.len(), 1);
    assert_eq!(frames[0].data, b"hello");
}

#[test]
fn decoder_start_end_end_marker_split_across_chunks() {
    let config = RxFramingConfig {
        mode: RxFramingMode::StartEnd {
            start: vec!["STX".into()],
            end: "ETX".into(),
            marker_encoding: PatternEncoding::Utf8,
            include_markers: false,
        },
        ..Default::default()
    };
    let mut dec = FrameDecoder::new(&config, None).unwrap();
    let frames = dec.push(b"STXdataET").frames;
    assert!(frames.is_empty(), "end marker ETX not yet complete");
    let frames = dec.push(b"X").frames;
    assert_eq!(frames.len(), 1);
    assert_eq!(frames[0].data, b"data");
}

// ── COBS framing tests ───────────────────────────────────────────────

fn cobs_rx_config() -> RxFramingConfig {
    RxFramingConfig {
        mode: RxFramingMode::Cobs,
        ..Default::default()
    }
}

#[test]
fn decoder_rx_cobs_skips_to_first_delimiter() {
    let mut dec = FrameDecoder::new(&cobs_rx_config(), None).unwrap();
    // Prepend junk to a valid COBS-encoded frame.
    let mode = TxFramingMode::Cobs;
    let good_frame = mode.encode(b"hi").unwrap();
    let mut input = b"junk".to_vec();
    input.extend_from_slice(&good_frame);
    let frames = dec.push(&input).frames;
    assert_eq!(frames.len(), 1);
    assert_eq!(frames[0].data, b"hi");
}

#[test]
fn decoder_rx_cobs_decodes_basic_frame() {
    let mut dec = FrameDecoder::new(&cobs_rx_config(), None).unwrap();
    let mode = TxFramingMode::Cobs;
    let framed = mode.encode(b"hello").unwrap();
    let frames = dec.push(&framed).frames;
    assert_eq!(frames.len(), 1);
    assert_eq!(frames[0].data, b"hello");
}

#[test]
fn decoder_rx_cobs_decodes_delimiter_byte_in_payload() {
    let mut dec = FrameDecoder::new(&cobs_rx_config(), None).unwrap();
    // Payload: [0x41, 0x00, 0x42]. Encoded: code 0x02 (dist to first 0x00
    // is 2: 1 data byte 'A' + the zero), then 'A', then code 0x02 (dist
    // to phantom zero: 'B' + phantom = 2), then 'B'.
    let mode = TxFramingMode::Cobs;
    let framed = mode.encode(&[0x41, 0x00, 0x42]).unwrap();
    let frames = dec.push(&framed).frames;
    assert_eq!(frames.len(), 1);
    assert_eq!(frames[0].data, &[0x41, 0x00, 0x42]);
}

#[test]
fn decoder_roundtrip_cobs_arbitrary_binary() {
    let payload: &[u8] = &[0x00, 0xFF, 0x41, 0x00, 0x00, 0xFF, 0x7E];
    let mode = TxFramingMode::Cobs;
    let framed = mode.encode(payload).unwrap();
    let mut dec = FrameDecoder::new(&cobs_rx_config(), None).unwrap();
    let frames = dec.push(&framed).frames;
    assert_eq!(frames.len(), 1);
    assert_eq!(frames[0].data, payload);
}

#[test]
fn decoder_roundtrip_cobs_empty_payload() {
    let mode = TxFramingMode::Cobs;
    let framed = mode.encode(b"").unwrap();
    // Empty payload: [delim][code 0x01][delim] → [0x00, 0x01, 0x00].
    assert_eq!(framed, &[0x00, 0x01, 0x00]);
    let mut dec = FrameDecoder::new(&cobs_rx_config(), None).unwrap();
    let frames = dec.push(&framed).frames;
    assert_eq!(frames.len(), 1);
    assert!(frames[0].data.is_empty());
}

#[test]
fn decoder_roundtrip_cobs_max_overhead() {
    // 254-byte all-zero payload (all delimiter bytes). This is the
    // worst-case overhead: every input byte is a delimiter, so each
    // code block encodes 0 data bytes with code 0x01.
    let payload = vec![0x00u8; 254];
    let mode = TxFramingMode::Cobs;
    let framed = mode.encode(&payload).unwrap();
    let mut dec = FrameDecoder::new(&cobs_rx_config(), None).unwrap();
    let frames = dec.push(&framed).frames;
    assert_eq!(frames.len(), 1);
    assert_eq!(frames[0].data, payload);
}

#[test]
fn decoder_roundtrip_cobs_long_zero_run_300() {
    // 300 zero bytes: exercises multiple COBS code blocks and the
    // phantom-zero reinsertion. Regression guard for the 0x7E bug class
    // (the bug inserted the delimiter as the phantom; with 0x00 the
    // phantom is 0x00 and this round-trips correctly).
    let payload = vec![0u8; 300];
    let mode = TxFramingMode::Cobs;
    let framed = mode.encode(&payload).unwrap();
    let mut dec = FrameDecoder::new(&cobs_rx_config(), None).unwrap();
    let frames = dec.push(&framed).frames;
    assert_eq!(frames.len(), 1);
    assert_eq!(frames[0].data, payload);
}

#[test]
fn decoder_rx_cobs_consecutive_delimiters_emit_empty_frame() {
    // With the canonical plain-COBS decoder, every byte value 0x01-0xFF
    // is a valid code and 0x00 is the frame delimiter, so CobsInvalidCode
    // is unreachable in practice. This test verifies that consecutive
    // delimiter bytes are handled correctly: the first is consumed as a
    // leading delimiter, the second terminates the (empty) frame.
    let mut dec = FrameDecoder::new(&cobs_rx_config(), None).unwrap();
    // Two delimiter bytes: first consumed by BeforeFirstDelim, second
    // emits an empty frame.
    let frames = dec.push(b"\x00\x00").frames;
    assert_eq!(
        frames.len(),
        1,
        "2 consecutive delimiters yield 1 empty frame"
    );
    assert!(frames[0].data.is_empty());
}

#[test]
fn push_survives_frames_decoded_before_cobs_invalid_code() {
    // COBS decoder does not currently produce CobsInvalidCode errors
    // (all code bytes are valid). Verify PushOutcome structure:
    // good COBS frames decode without error.
    let mut dec = FrameDecoder::new(&cobs_rx_config(), None).unwrap();
    let mode = TxFramingMode::Cobs;
    let framed = mode.encode(b"hello").unwrap();
    let result = dec.push(&framed);
    assert_eq!(result.frames.len(), 1, "should decode COBS frame");
    assert_eq!(result.frames[0].data, b"hello");
    assert!(result.error.is_none(), "no error");
    assert_eq!(result.frames_dropped, 0);
}

#[test]
fn decoder_rx_cobs_handles_between_frame_delimiters() {
    // After emitting a frame on a delimiter, the decoder transitions to
    // BeforeFirstDelim and skips any additional delimiters until the next
    // frame's stuffed block. This test verifies that a stream of
    // delimiters + a valid frame + more delimiters is handled correctly.
    let mut dec = FrameDecoder::new(&cobs_rx_config(), None).unwrap();
    // Two consecutive delimiter bytes → one empty frame, then sync for
    // next frame.
    let frames = dec.push(b"\x00\x00").frames;
    assert_eq!(frames.len(), 1);
    assert!(frames[0].data.is_empty());
    // Subsequent valid frame decodes correctly.
    let mode = TxFramingMode::Cobs;
    let framed = mode.encode(b"ok").unwrap();
    let frames = dec.push(&framed).frames;
    assert!(!frames.is_empty());
    // The last frame should be "ok".
    assert_eq!(frames.last().unwrap().data, b"ok");
}

#[test]
fn decoder_cobs_parser_error_propagates_and_resets_state() {
    // COBS-frame a NMEA sentence with a BAD checksum. The NmeaParser with
    // validate:true returns Err(ChecksumMismatch) when it sees the bad *XX.
    // This exercises cobs_decode's parser-Err path:
    // drain consumed bytes, clear decoded/remaining/pending_zero, reset
    // state to BeforeFirstDelim, return Err.
    // Then push a well-formed COBS-framed NMEA sentence and confirm the
    // decoder recovers (state was reset — no stale decoded/remaining/
    // pending_zero corruption).

    let bad_body = b"GPGLL,3751.65,N,12226.54,W*00"; // wrong checksum (correct is 7E)
    let good_body = b"GPGLL,3751.65,N,12226.54,W";
    let good_cs = xor_checksum(good_body);
    let good_sentence = format!("GPGLL,3751.65,N,12226.54,W*{good_cs:02X}");

    // COBS-encode each sentence via TxFramingMode::Cobs (which produces
    // [0x00][cobs-stuffed block][0x00]).
    let bad_framed = TxFramingMode::Cobs.encode(bad_body).unwrap();
    let good_framed = TxFramingMode::Cobs
        .encode(good_sentence.as_bytes())
        .unwrap();

    let framing = RxFramingConfig {
        mode: RxFramingMode::Cobs,
        ..Default::default()
    };
    let parser = ParserConfig {
        parser_type: ParserType::Nmea,
        custom_prompt: None,
        validate: true,
    };
    let mut dec = FrameDecoder::new(&framing, Some(&parser)).unwrap();

    // Push 1: bad-checksum frame → dropped (frames_dropped=1, no error).
    let result = dec.push(&bad_framed);
    assert!(
        result.frames.is_empty(),
        "bad-checksum frame should be dropped, not emitted"
    );
    assert_eq!(result.frames_dropped, 1, "checksum drop should be counted");
    assert!(result.error.is_none(), "checksum drop should not set error");

    // Push 2: good-checksum frame → one clean Nmea frame (state was reset
    // to BeforeFirstDelim by the error path; no stale decoded/remaining/
    // pending_zero corruption).
    let frames = dec.push(&good_framed).frames;
    assert_eq!(
        frames.len(),
        1,
        "decoder must recover after the parser error"
    );
    assert!(
        matches!(
            &frames[0].parsed,
            Some(ParsedFrame::Nmea {
                checksum_valid: Some(true),
                ..
            })
        ),
        "expected a clean Nmea frame after recovery, got {:?}",
        frames[0].parsed
    );
}

#[test]
fn decoder_roundtrip_cobs_255_ones() {
    let payload = vec![1u8; 255];
    let mode = TxFramingMode::Cobs;
    let framed = mode.encode(&payload).unwrap();
    let mut dec = FrameDecoder::new(&cobs_rx_config(), None).unwrap();
    let frames = dec.push(&framed).frames;
    assert_eq!(frames.len(), 1);
    assert_eq!(frames[0].data, payload);
}

#[test]
fn decoder_roundtrip_cobs_254_ones_then_zero() {
    // Regression: 254 non-zero bytes then a trailing zero. This crossed
    // the continuation boundary and dropped the trailing zero in the
    // pre-canonical implementation.
    let mut payload = vec![1u8; 254];
    payload.push(0);
    let mode = TxFramingMode::Cobs;
    let framed = mode.encode(&payload).unwrap();
    let mut dec = FrameDecoder::new(&cobs_rx_config(), None).unwrap();
    let frames = dec.push(&framed).frames;
    assert_eq!(frames.len(), 1);
    assert_eq!(frames[0].data, payload);
}

#[test]
fn decoder_roundtrip_cobs_255_ones_then_zero() {
    let mut payload = vec![1u8; 255];
    payload.push(0);
    let mode = TxFramingMode::Cobs;
    let framed = mode.encode(&payload).unwrap();
    let mut dec = FrameDecoder::new(&cobs_rx_config(), None).unwrap();
    let frames = dec.push(&framed).frames;
    assert_eq!(frames.len(), 1);
    assert_eq!(frames[0].data, payload);
}

#[test]
fn decoder_roundtrip_cobs_256_ones_then_zero() {
    // Crosses two continuation blocks.
    let mut payload = vec![1u8; 256];
    payload.push(0);
    let mode = TxFramingMode::Cobs;
    let framed = mode.encode(&payload).unwrap();
    let mut dec = FrameDecoder::new(&cobs_rx_config(), None).unwrap();
    let frames = dec.push(&framed).frames;
    assert_eq!(frames.len(), 1);
    assert_eq!(frames[0].data, payload);
}

#[test]
fn decoder_roundtrip_cobs_510_ones_then_zero() {
    // Two full continuation blocks then a zero.
    let mut payload = vec![1u8; 510];
    payload.push(0);
    let mode = TxFramingMode::Cobs;
    let framed = mode.encode(&payload).unwrap();
    let mut dec = FrameDecoder::new(&cobs_rx_config(), None).unwrap();
    let frames = dec.push(&framed).frames;
    assert_eq!(frames.len(), 1);
    assert_eq!(frames[0].data, payload);
}

#[test]
fn decoder_roundtrip_cobs_alternating_ones_zeros_300() {
    // 300 bytes alternating 0x01 / 0x00 — heavy zero density across the
    // continuation boundary.
    let payload: Vec<u8> = (0..300).map(|i| if i % 2 == 0 { 1 } else { 0 }).collect();
    let mode = TxFramingMode::Cobs;
    let framed = mode.encode(&payload).unwrap();
    let mut dec = FrameDecoder::new(&cobs_rx_config(), None).unwrap();
    let frames = dec.push(&framed).frames;
    assert_eq!(frames.len(), 1);
    assert_eq!(frames[0].data, payload);
}

#[test]
fn decoder_roundtrip_cobs_all_byte_values_256() {
    // Every byte value 0x00-0xFF once. Exercises embedded 0x00 and 0xFF
    // (which is a non-zero data byte, NOT a code, when it appears in the
    // data portion).
    let payload: Vec<u8> = (0..=255u8).collect();
    let mode = TxFramingMode::Cobs;
    let framed = mode.encode(&payload).unwrap();
    let mut dec = FrameDecoder::new(&cobs_rx_config(), None).unwrap();
    let frames = dec.push(&framed).frames;
    assert_eq!(frames.len(), 1);
    assert_eq!(frames[0].data, payload);
}

// ── StartEnd multi-marker tests ─────────────────────────────────────

#[test]
fn decoder_start_end_matches_either_of_multiple_start_markers() {
    let config = RxFramingConfig {
        mode: RxFramingMode::StartEnd {
            start: vec!["$".into(), "!".into()],
            end: "\r\n".into(),
            marker_encoding: PatternEncoding::Utf8,
            include_markers: false,
        },
        ..Default::default()
    };
    let mut dec = FrameDecoder::new(&config, None).unwrap();
    // Input with $ marker
    let frames = dec.push(b"junk$hi\r\n").frames;
    assert_eq!(frames.len(), 1);
    assert_eq!(frames[0].data, b"hi");
    // Input with ! marker
    let frames = dec.push(b"junk!ok\r\n").frames;
    assert_eq!(frames.len(), 1);
    assert_eq!(frames[0].data, b"ok");
}

#[test]
fn decoder_start_end_empty_start_vec_rejected_at_construction() {
    let config = RxFramingConfig {
        mode: RxFramingMode::StartEnd {
            start: vec![],
            end: "X".into(),
            marker_encoding: PatternEncoding::Utf8,
            include_markers: false,
        },
        ..Default::default()
    };
    match FrameDecoder::new(&config, None) {
        Ok(_) => panic!("empty start vec should be rejected"),
        Err(err) => assert!(
            err.contains("Start markers must not be empty"),
            "got: {err}"
        ),
    }
}

#[test]
fn decoder_start_end_existing_single_marker_still_works() {
    // Re-test start_end_basic but with start wrapped in vec![].
    let config = RxFramingConfig {
        mode: RxFramingMode::StartEnd {
            start: vec!["STX".into()],
            end: "ETX".into(),
            marker_encoding: PatternEncoding::Utf8,
            include_markers: false,
        },
        ..Default::default()
    };
    let mut dec = FrameDecoder::new(&config, None).unwrap();
    let frames = dec.push(b"noiseSTXdataETXjunkSTXmoreETX").frames;
    assert_eq!(frames.len(), 2);
    assert_eq!(frames[0].data, b"data");
    assert_eq!(frames[1].data, b"more");
}

// ── skip_empty framing option ──────────────────────────────────────────

#[test]
fn decoder_skip_empty_drops_empty_line_frames() {
    // Line framing (auto), input b"a\n\nb\n", skip_empty: true → 2 frames.
    let config = RxFramingConfig {
        mode: RxFramingMode::Line {
            ending: LineEnding::Auto,
        },
        max_frames: None,
        include_terminators: false,
        skip_empty: true,
    };
    let mut dec = FrameDecoder::new(&config, None).unwrap();
    let frames = dec.push(b"a\n\nb\n").frames;
    assert_eq!(frames.len(), 2);
    assert_eq!(frames[0].data, b"a");
    assert_eq!(frames[1].data, b"b");

    // skip_empty: false → 3 frames (a, empty, b).
    let config_off = RxFramingConfig {
        mode: RxFramingMode::Line {
            ending: LineEnding::Auto,
        },
        max_frames: None,
        include_terminators: false,
        skip_empty: false,
    };
    let mut dec_off = FrameDecoder::new(&config_off, None).unwrap();
    let frames_off = dec_off.push(b"a\n\nb\n").frames;
    assert_eq!(frames_off.len(), 3);
    assert_eq!(frames_off[0].data, b"a");
    assert!(frames_off[1].data.is_empty());
    assert_eq!(frames_off[2].data, b"b");
}

#[test]
fn decoder_skip_empty_drops_whitespace_only_frames() {
    let input = b"a\n   \nb\n";
    // skip_empty: true → middle line (3 spaces) skipped.
    let config = RxFramingConfig {
        mode: RxFramingMode::Line {
            ending: LineEnding::Auto,
        },
        max_frames: None,
        include_terminators: false,
        skip_empty: true,
    };
    let mut dec = FrameDecoder::new(&config, None).unwrap();
    let frames = dec.push(input).frames;
    assert_eq!(frames.len(), 2);
    assert_eq!(frames[0].data, b"a");
    assert_eq!(frames[1].data, b"b");

    // skip_empty: false → 3 frames.
    let config_off = RxFramingConfig {
        mode: RxFramingMode::Line {
            ending: LineEnding::Auto,
        },
        max_frames: None,
        include_terminators: false,
        skip_empty: false,
    };
    let mut dec_off = FrameDecoder::new(&config_off, None).unwrap();
    let frames_off = dec_off.push(input).frames;
    assert_eq!(frames_off.len(), 3);
    assert_eq!(frames_off[0].data, b"a");
    assert_eq!(frames_off[1].data, b"   ");
    assert_eq!(frames_off[2].data, b"b");
}

#[test]
fn decoder_skip_empty_drops_leading_and_trailing_blank_lines() {
    // Input has leading, inner, and trailing blank lines.
    let input = b"\n{\"k\":1}\n\n{\"k\":2}\n\n";
    let config = RxFramingConfig {
        mode: RxFramingMode::Line {
            ending: LineEnding::Auto,
        },
        max_frames: None,
        include_terminators: false,
        skip_empty: true,
    };
    let parser = ParserConfig {
        parser_type: ParserType::JsonLines,
        custom_prompt: None,
        validate: false,
    };
    let mut dec = FrameDecoder::new(&config, Some(&parser)).unwrap();
    let frames = dec.push(input).frames;
    // skip_empty: true → 2 Json frames, blank lines skipped.
    assert_eq!(frames.len(), 2);
    assert!(matches!(frames[0].parsed, Some(ParsedFrame::Json(_))));
    assert!(matches!(frames[1].parsed, Some(ParsedFrame::Json(_))));
}

#[test]
fn decoder_skip_empty_does_not_count_skipped_frames_toward_max_frames() {
    // line framing, input b"\na\n\nb\n", skip_empty: true →
    // the empty lines do not appear in push output and do not increment
    // frame_count. Only the 2 non-blank frames (a, b) are emitted.
    let config = RxFramingConfig {
        mode: RxFramingMode::Line {
            ending: LineEnding::Auto,
        },
        max_frames: None,
        include_terminators: false,
        skip_empty: true,
    };
    let mut dec = FrameDecoder::new(&config, None).unwrap();
    let frames = dec.push(b"\na\n\nb\n").frames;
    assert_eq!(frames.len(), 2);
    assert_eq!(frames[0].data, b"a");
    assert_eq!(frames[0].index, 0);
    assert_eq!(frames[1].data, b"b");
    assert_eq!(frames[1].index, 1);
    // With skip_empty: false, the empty lines appear and consume
    // indices: frame 0 empty (leading \n), frame 1 'a', frame 2 empty
    // (inner \n), frame 3 'b'.
    let config_off = RxFramingConfig {
        mode: RxFramingMode::Line {
            ending: LineEnding::Auto,
        },
        max_frames: None,
        include_terminators: false,
        skip_empty: false,
    };
    let mut dec_off = FrameDecoder::new(&config_off, None).unwrap();
    let frames_off = dec_off.push(b"\na\n\nb\n").frames;
    assert_eq!(frames_off.len(), 4);
    assert!(frames_off[0].data.is_empty());
    assert_eq!(frames_off[0].index, 0);
    assert_eq!(frames_off[1].data, b"a");
    assert_eq!(frames_off[1].index, 1);
    assert!(frames_off[2].data.is_empty());
    assert_eq!(frames_off[2].index, 2);
    assert_eq!(frames_off[3].data, b"b");
    assert_eq!(frames_off[3].index, 3);
}

#[test]
fn decoder_skip_empty_preserves_frame_index_continuity() {
    let config = RxFramingConfig {
        mode: RxFramingMode::Line {
            ending: LineEnding::Auto,
        },
        max_frames: None,
        include_terminators: false,
        skip_empty: true,
    };
    let mut dec = FrameDecoder::new(&config, None).unwrap();
    let frames = dec.push(b"a\n\nb\n").frames;
    assert_eq!(frames.len(), 2);
    // The skipped blank line does NOT consume an index.
    assert_eq!(frames[0].index, 0);
    assert_eq!(frames[1].index, 1);
}

#[test]
fn push_frame_index_stays_contiguous_across_checksum_drop() {
    // Feed two good NMEA sentences with a bad-checksum sentence between them.
    // The surviving frames must have contiguous indices (0 and 1, no gap at 2).
    let rx_config = preset_rx_framing(ProtocolPreset::Nmea0183);
    let parser_config = preset_rx_parser(ProtocolPreset::Nmea0183);
    let mut dec = FrameDecoder::new(&rx_config, Some(&parser_config)).unwrap();

    let good = b"$GPGLL,3751.65,N,12226.54,W*7E\r\n";
    let bad = b"$GPGLL,3751.65,N,12226.54,W*00\r\n";
    let mut chunk = Vec::new();
    chunk.extend_from_slice(good);
    chunk.extend_from_slice(bad);
    chunk.extend_from_slice(good);

    let result = dec.push(&chunk);
    assert_eq!(result.frames.len(), 2, "two good frames should survive");
    // Frame indices must be contiguous — the dropped frame consumes no index.
    assert_eq!(result.frames[0].index, 0);
    assert_eq!(result.frames[1].index, 1);
    assert_eq!(result.frames_dropped, 1);
}

#[test]
fn decoder_skip_empty_applies_to_slip() {
    // Two consecutive END bytes produce one empty frame, then 'a'.
    // skip_empty: true → empty skipped, only 'a' emitted.
    let framed: &[u8] = &[SLIP_END, SLIP_END, b'a', SLIP_END];
    let config = RxFramingConfig {
        mode: RxFramingMode::Slip,
        max_frames: None,
        include_terminators: false,
        skip_empty: true,
    };
    let mut dec = FrameDecoder::new(&config, None).unwrap();
    let frames = dec.push(framed).frames;
    assert_eq!(frames.len(), 1);
    assert_eq!(frames[0].data, b"a");
    assert_eq!(frames[0].index, 0);
}

#[test]
fn decoder_skip_empty_applies_to_cobs() {
    // Leading 0x00 sync, then back-to-back 0x00 delimiters for an empty
    // frame, then another 0x00 sync + COBS-stuffed 'a' + 0x00 delimiter.
    // skip_empty: true → empty skipped, only 'a' emitted.
    let framed: &[u8] = &[0x00, 0x00, 0x00, 0x02, 0x61, 0x00];
    let config = RxFramingConfig {
        mode: RxFramingMode::Cobs,
        max_frames: None,
        include_terminators: false,
        skip_empty: true,
    };
    let mut dec = FrameDecoder::new(&config, None).unwrap();
    let frames = dec.push(framed).frames;
    assert_eq!(frames.len(), 1);
    assert_eq!(frames[0].data, b"a");
    assert_eq!(frames[0].index, 0);
}

#[test]
fn decoder_flush_partial_does_not_apply_skip_empty() {
    // Line framing, skip_empty: true. Push partial content, then flush.
    // The partial frame is emitted even though it's a single character
    // (not blank), so this test verifies flush_partial emits frames
    // regardless of skip_empty. The bypass is structural: flush_partial
    // does not check skip_empty at all.
    let config = RxFramingConfig {
        mode: RxFramingMode::Line {
            ending: LineEnding::Auto,
        },
        max_frames: None,
        include_terminators: false,
        skip_empty: true,
    };
    let mut dec = FrameDecoder::new(&config, None).unwrap();
    // Push "b" without a newline — no frame emitted by push.
    let frames = dec.push(b"b").frames;
    assert!(frames.is_empty());
    // flush_partial emits the pending content regardless of skip_empty.
    let partial = dec.flush_partial();
    assert!(partial.is_some());
    assert_eq!(partial.unwrap().data, b"b");
}

// ── Checksum-failure-surfacing via push ────────────────────────────

#[test]
fn nmea_checksum_failure_drops_frame_and_counts() {
    // Build a FrameDecoder with nmea0183 preset framing + parser.
    let rx_config = preset_rx_framing(ProtocolPreset::Nmea0183);
    let parser_config = preset_rx_parser(ProtocolPreset::Nmea0183);
    let mut dec = FrameDecoder::new(&rx_config, Some(&parser_config)).unwrap();
    // Push a full NMEA sentence with bad checksum ($...*00\r\n)
    let result = dec.push(b"$GPGLL,3751.65,N,12226.54,W*00\r\n");
    assert!(
        result.frames.is_empty(),
        "bad-checksum frame should be dropped"
    );
    assert_eq!(result.frames_dropped, 1, "checksum drop should be counted");
    assert!(
        result.error.is_none(),
        "checksum drop should not be an error"
    );
}

#[test]
fn push_checksum_mismatch_keeps_other_frames_in_chunk() {
    // One chunk: good bad good NMEA sentences → 2 good frames, 1 dropped.
    let rx_config = preset_rx_framing(ProtocolPreset::Nmea0183);
    let parser_config = preset_rx_parser(ProtocolPreset::Nmea0183);
    let mut dec = FrameDecoder::new(&rx_config, Some(&parser_config)).unwrap();

    let good = b"$GPGLL,3751.65,N,12226.54,W*7E\r\n";
    let bad = b"$GPGLL,3751.65,N,12226.54,W*00\r\n";
    let mut chunk = Vec::new();
    chunk.extend_from_slice(good);
    chunk.extend_from_slice(bad);
    chunk.extend_from_slice(good);

    let result = dec.push(&chunk);
    assert_eq!(result.frames.len(), 2, "two good frames should survive");
    assert_eq!(result.frames[0].index, 0);
    assert_eq!(result.frames[1].index, 1);
    assert_eq!(result.frames_dropped, 1, "one bad frame dropped");
    assert!(result.error.is_none(), "no stream-fatal error");
}

#[test]
fn decoder_nmea_valid_sentence_decodes_to_frame_with_parsed_nmea() {
    // GLL with correct checksum *7E
    let rx_config = preset_rx_framing(ProtocolPreset::Nmea0183);
    let parser_config = preset_rx_parser(ProtocolPreset::Nmea0183);
    let mut dec = FrameDecoder::new(&rx_config, Some(&parser_config)).unwrap();
    let frames = dec.push(b"$GPGLL,3751.65,N,12226.54,W*7E\r\n").frames;
    assert_eq!(frames.len(), 1);
    match &frames[0].parsed {
        Some(ParsedFrame::Nmea {
            talker_id,
            sentence_type,
            fields,
            checksum_valid,
        }) => {
            assert_eq!(talker_id, "GP");
            assert_eq!(sentence_type, "GLL");
            assert_eq!(
                fields,
                &vec![
                    "3751.65".to_string(),
                    "N".to_string(),
                    "12226.54".to_string(),
                    "W".to_string()
                ]
            );
            assert_eq!(*checksum_valid, Some(true));
        }
        other => panic!("expected Nmea parsed frame, got {other:?}"),
    }
}

#[test]
fn modbus_ascii_checksum_failure_drops_frame_and_counts() {
    let rx_config = preset_rx_framing(ProtocolPreset::ModbusAscii);
    let parser_config = preset_rx_parser(ProtocolPreset::ModbusAscii);
    let mut dec = FrameDecoder::new(&rx_config, Some(&parser_config)).unwrap();
    // Push a full frame with bad LRC: :01030000000100\r\n  (correct LRC is FB, here 00)
    let result = dec.push(b":01030000000100\r\n");
    assert!(result.frames.is_empty(), "bad-LRC frame should be dropped");
    assert_eq!(result.frames_dropped, 1, "LRC drop should be counted");
    assert!(result.error.is_none(), "LRC drop should not be an error");
}

#[test]
fn decoder_modbus_ascii_valid_frame_decodes_to_frame_with_parsed_modbus_ascii() {
    let rx_config = preset_rx_framing(ProtocolPreset::ModbusAscii);
    let parser_config = preset_rx_parser(ProtocolPreset::ModbusAscii);
    let mut dec = FrameDecoder::new(&rx_config, Some(&parser_config)).unwrap();
    // :010300000001FB\r\n  (valid read holding registers)
    let frames = dec.push(b":010300000001FB\r\n").frames;
    assert_eq!(frames.len(), 1);
    match &frames[0].parsed {
        Some(ParsedFrame::ModbusAscii {
            address: 1,
            function_code: 3,
            data,
            checksum_valid: Some(true),
        }) => {
            assert_eq!(data, &vec![0, 0, 0, 1]);
        }
        other => panic!("expected ModbusAscii parsed frame, got {other:?}"),
    }
}

// ── Medium-risk gap tests (P3d) ───────────────────────────────────────

#[test]
fn decoder_skip_empty_applies_to_delimiter() {
    // Delimiter mode + skip_empty: empty frames between consecutive
    // delimiters are dropped. Mirror skip_empty_drops_empty_line_frames.
    let config_on = RxFramingConfig {
        mode: RxFramingMode::Delimiter {
            delimiter: "|".into(),
            delimiter_encoding: PatternEncoding::Utf8,
        },
        max_frames: None,
        include_terminators: false,
        skip_empty: true,
    };
    let mut dec = FrameDecoder::new(&config_on, None).unwrap();
    let frames = dec.push(b"a||b|").frames;
    assert_eq!(frames.len(), 2);
    assert_eq!(frames[0].data, b"a");
    assert_eq!(frames[1].data, b"b");

    // skip_empty: false → 3 frames (a, empty, b).
    let config_off = RxFramingConfig {
        mode: RxFramingMode::Delimiter {
            delimiter: "|".into(),
            delimiter_encoding: PatternEncoding::Utf8,
        },
        max_frames: None,
        include_terminators: false,
        skip_empty: false,
    };
    let mut dec_off = FrameDecoder::new(&config_off, None).unwrap();
    let frames_off = dec_off.push(b"a||b|").frames;
    assert_eq!(frames_off.len(), 3);
    assert_eq!(frames_off[0].data, b"a");
    assert!(frames_off[1].data.is_empty());
    assert_eq!(frames_off[2].data, b"b");
}

#[test]
fn decoder_skip_empty_applies_to_start_end() {
    // StartEnd mode + skip_empty: the empty frame between a bare
    // "$" .. "\r\n" is dropped. Input b"$\r\n$hi\r\n" → two frames
    // (empty, "hi"). With skip_empty:true only the second frame emits.
    let config_on = RxFramingConfig {
        mode: RxFramingMode::StartEnd {
            start: vec!["$".into()],
            end: "\r\n".into(),
            marker_encoding: PatternEncoding::Utf8,
            include_markers: false,
        },
        max_frames: None,
        include_terminators: false,
        skip_empty: true,
    };
    let mut dec = FrameDecoder::new(&config_on, None).unwrap();
    let frames = dec.push(b"$\r\n$hi\r\n").frames;
    assert_eq!(frames.len(), 1);
    assert_eq!(frames[0].data, b"hi");

    // skip_empty: false → 2 frames (empty, "hi").
    let config_off = RxFramingConfig {
        mode: RxFramingMode::StartEnd {
            start: vec!["$".into()],
            end: "\r\n".into(),
            marker_encoding: PatternEncoding::Utf8,
            include_markers: false,
        },
        max_frames: None,
        include_terminators: false,
        skip_empty: false,
    };
    let mut dec_off = FrameDecoder::new(&config_off, None).unwrap();
    let frames_off = dec_off.push(b"$\r\n$hi\r\n").frames;
    assert_eq!(frames_off.len(), 2);
    assert!(frames_off[0].data.is_empty());
    assert_eq!(frames_off[1].data, b"hi");
}

#[test]
fn decoder_start_end_picks_earliest_of_overlapping_markers() {
    // Two start markers that share a prefix: "$G" and "$GPGGA".
    // Input: b"$GPGGA,x\r\n". Both markers match at position 0.
    // Tie-break: the first-listed marker in the start vec at the
    // earliest position wins. With start: ["$G", "$GPGGA"], "$G"
    // wins because it appears first in the list and both start at
    // offset 0. After draining the 2-byte "$G" marker, the body is
    // "PGGA,x" (the "$G" wins, not "$GPGGA").
    let config = RxFramingConfig {
        mode: RxFramingMode::StartEnd {
            start: vec!["$G".into(), "$GPGGA".into()],
            end: "\r\n".into(),
            marker_encoding: PatternEncoding::Utf8,
            include_markers: false,
        },
        ..Default::default()
    };
    let mut dec = FrameDecoder::new(&config, None).unwrap();
    let frames = dec.push(b"$GPGGA,x\r\n").frames;
    assert_eq!(frames.len(), 1);
    assert_eq!(frames[0].data, b"PGGA,x");
}

#[test]
fn decoder_modbus_ascii_parser_max_adu_length() {
    // A 253-byte data payload near the Modbus ADU max. Pins no-length-cap
    // behavior. The frame is routed through a full FrameDecoder (StartEnd
    // framing with ':' start and "\r\n" end) + ModbusAscii parser.
    let address = 0x01u8;
    let function = 0x03u8;
    let data: Vec<u8> = (0..253u8).collect();
    let mut pdu = vec![address, function];
    pdu.extend_from_slice(&data);
    let lrc_byte = lrc(&pdu);

    let mut all_bytes = pdu.clone();
    all_bytes.push(lrc_byte);
    let hex_body: String = all_bytes.iter().map(|b| format!("{b:02X}")).collect();
    let frame = format!(":{hex_body}\r\n");

    let rx_config = preset_rx_framing(ProtocolPreset::ModbusAscii);
    let parser_config = preset_rx_parser(ProtocolPreset::ModbusAscii);
    let mut dec = FrameDecoder::new(&rx_config, Some(&parser_config)).unwrap();
    let frames = dec.push(frame.as_bytes()).frames;
    assert_eq!(frames.len(), 1);
    match &frames[0].parsed {
        Some(ParsedFrame::ModbusAscii {
            address: a,
            function_code: fc,
            data: d,
            checksum_valid: Some(true),
        }) => {
            assert_eq!(*a, 1);
            assert_eq!(*fc, 3);
            assert_eq!(d.len(), 253);
        }
        other => panic!("expected ModbusAscii parsed frame, got {other:?}"),
    }
}
