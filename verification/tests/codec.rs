use serial_mcp::codec::{decode, encode, strip_ansi, strip_ansi_bytes, CodecError, Encoding};

#[test]
fn encoding_from_str_accepts_aliases() {
    assert_eq!("utf8".parse::<Encoding>().unwrap(), Encoding::Utf8);
    assert_eq!("UTF-8".parse::<Encoding>().unwrap(), Encoding::Utf8);
    assert_eq!("text".parse::<Encoding>().unwrap(), Encoding::Text);
    assert_eq!("TEXT".parse::<Encoding>().unwrap(), Encoding::Text);
    assert_eq!("Hex".parse::<Encoding>().unwrap(), Encoding::Hex);
    assert_eq!("b64".parse::<Encoding>().unwrap(), Encoding::Base64);
}

#[test]
fn encoding_from_str_rejects_unknown() {
    assert!("rot13".parse::<Encoding>().is_err());
}

#[test]
fn utf8_roundtrip() {
    let bytes = decode(Encoding::Utf8, "Hello, 世界!").unwrap();
    assert_eq!(encode(Encoding::Utf8, &bytes).unwrap(), "Hello, 世界!");
}

#[test]
fn utf8_encode_replaces_invalid_bytes_with_replacement_char() {
    let result = encode(Encoding::Utf8, &[0xFF, 0xFE]).unwrap();
    assert_eq!(result, "\u{FFFD}\u{FFFD}");
}

#[test]
fn utf8_encode_ascii_does_not_corrupt() {
    let data = b"[14341] Hello from RTT! Counter: 14\r\n";
    let result = encode(Encoding::Utf8, data).unwrap();
    assert_eq!(result, "[14341] Hello from RTT! Counter: 14\r\n");
}

#[test]
fn utf8_encode_mixed_valid_and_invalid() {
    let data: &[u8] = b"Hello \xFF world";
    let result = encode(Encoding::Utf8, data).unwrap();
    assert!(result.contains('\u{FFFD}'));
    assert!(result.starts_with("Hello "));
    assert!(result.ends_with(" world"));
}

#[test]
fn hex_roundtrip() {
    assert_eq!(decode(Encoding::Hex, "48656c6c6f").unwrap(), b"Hello");
    assert_eq!(decode(Encoding::Hex, "48 65 6c 6c 6f").unwrap(), b"Hello");
    assert_eq!(decode(Encoding::Hex, "48656C6C6F").unwrap(), b"Hello");
    assert_eq!(encode(Encoding::Hex, b"Hello").unwrap(), "48 65 6c 6c 6f");
}

#[test]
fn hex_odd_length_rejected() {
    assert!(matches!(
        decode(Encoding::Hex, "48656c6c6"),
        Err(CodecError::HexOddLength)
    ));
}

#[test]
fn hex_invalid_chars_rejected() {
    assert!(matches!(
        decode(Encoding::Hex, "48656cXY"),
        Err(CodecError::InvalidHex(_))
    ));
}

#[test]
fn base64_roundtrip_and_padding_variants() {
    assert_eq!(
        decode(Encoding::Base64, "SGVsbG8gV29ybGQ=").unwrap(),
        b"Hello World"
    );
    assert_eq!(
        decode(Encoding::Base64, "SGVsbG8gV29ybGQ").unwrap(),
        b"Hello World"
    );
    assert_eq!(
        encode(Encoding::Base64, b"Hello World").unwrap(),
        "SGVsbG8gV29ybGQ="
    );
}

#[test]
fn binary_roundtrips_via_hex_and_base64() {
    let data: &[u8] = b"Hello, World! 123 \x00\xFF";
    let hex = encode(Encoding::Hex, data).unwrap();
    assert_eq!(decode(Encoding::Hex, &hex).unwrap(), data);
    let b64 = encode(Encoding::Base64, data).unwrap();
    assert_eq!(decode(Encoding::Base64, &b64).unwrap(), data);
}

#[test]
fn text_encode_strips_ansi_csi_color() {
    let input = b"\x1b[32m<inf> rtt_feedback: Started\x1b[0m\r\n";
    let result = encode(Encoding::Text, input).unwrap();
    assert_eq!(result, "<inf> rtt_feedback: Started\r\n");
}

#[test]
fn text_encode_strips_ansi_cursor_and_clear() {
    let input = b"\x1b[8D\x1b[J[00:00:00.291,442] Hello\r\n";
    let result = encode(Encoding::Text, input).unwrap();
    assert_eq!(result, "[00:00:00.291,442] Hello\r\n");
}

#[test]
fn text_encode_strips_ansi_osc() {
    let input = b"\x1b]0;window title\x07prompt> ";
    let result = encode(Encoding::Text, input).unwrap();
    assert_eq!(result, "prompt> ");
}

#[test]
fn text_encode_strips_ansi_osc_with_st() {
    let input = b"\x1b]0;window title\x1b\\prompt> ";
    let result = encode(Encoding::Text, input).unwrap();
    assert_eq!(result, "prompt> ");
}

#[test]
fn text_encode_strips_two_byte_escapes() {
    let input = b"\x1bMsave\x1b7cursor";
    let result = encode(Encoding::Text, input).unwrap();
    assert_eq!(result, "savecursor");
}

#[test]
fn text_encode_preserves_normal_text() {
    let input = b"[14341] Hello from RTT! Counter: 14\r\n";
    let result = encode(Encoding::Text, input).unwrap();
    assert_eq!(result, "[14341] Hello from RTT! Counter: 14\r\n");
}

#[test]
fn text_encode_uses_lossy_utf8() {
    let data: &[u8] = b"Hello \xFF world";
    let result = encode(Encoding::Text, data).unwrap();
    assert!(result.contains('\u{FFFD}'));
    assert!(result.starts_with("Hello "));
    assert!(result.ends_with(" world"));
}

#[test]
fn text_decode_like_utf8() {
    let decoded = decode(Encoding::Text, "hello text").unwrap();
    assert_eq!(decoded, b"hello text");
}

#[test]
fn strip_ansi_zephyr_shell_output() {
    let input = b"\x1b[8D\x1b[J[00:00:00.291,442] \x1b[0m<inf> udc_nrf: Initialized\x1b[0m\r\n\x1b[1;32m\x1b[m\x1b[J[00:00:00.291,625] \x1b[0m<inf> rtt_feedback: RTT feedback firmware started.\x1b[0m\r\n";
    let result = strip_ansi_bytes(input);
    let text = String::from_utf8_lossy(&result);
    assert_eq!(
        text,
        "[00:00:00.291,442] <inf> udc_nrf: Initialized\r\n[00:00:00.291,625] <inf> rtt_feedback: RTT feedback firmware started.\r\n"
    );
}


#[test]
fn encoding_names_are_canonical() {
    assert_eq!(Encoding::Utf8.name(), "utf8");
    assert_eq!(Encoding::Text.name(), "text");
    assert_eq!(Encoding::Hex.name(), "hex");
    assert_eq!(Encoding::Base64.name(), "base64");
    assert_eq!("base64".parse::<Encoding>().unwrap(), Encoding::Base64);
    assert!(" hex ".parse::<Encoding>().is_err());
    assert_eq!("HEX".parse::<Encoding>().unwrap(), Encoding::Hex);
}

#[test]
fn unknown_encoding_error_carries_name() {
    match "rot13".parse::<Encoding>() {
        Err(CodecError::UnknownEncoding(name)) => assert_eq!(name, "rot13"),
        other => panic!("unexpected: {:?}", other),
    }
}

#[test]
fn utf8_decode_is_the_bytes_of_the_text() {
    assert_eq!(decode(Encoding::Utf8, "héllo").unwrap(), "héllo".as_bytes());
}

#[test]
fn hex_encode_of_empty_is_empty() {
    assert_eq!(encode(Encoding::Hex, b"").unwrap(), "");
    assert_eq!(decode(Encoding::Hex, "").unwrap(), Vec::<u8>::new());
}

#[test]
fn hex_encode_is_lowercase_pairs_with_spaces() {
    assert_eq!(encode(Encoding::Hex, &[0x00, 0xAB, 0xff]).unwrap(), "00 ab ff");
}

#[test]
fn base64_invalid_input_rejected() {
    assert!(matches!(
        decode(Encoding::Base64, "!!!!"),
        Err(CodecError::InvalidBase64(_))
    ));
}

#[test]
fn base64_url_safe_accepted() {
    // 0xFB 0xFF encodes as "+/8=" in the standard alphabet and "-_8" URL-safe.
    assert_eq!(decode(Encoding::Base64, "-_8").unwrap(), vec![0xFB, 0xFF]);
    assert_eq!(decode(Encoding::Base64, "+/8=").unwrap(), vec![0xFB, 0xFF]);
}

#[test]
fn strip_ansi_on_str() {
    assert_eq!(strip_ansi("\x1b[1mbold\x1b[0m"), "bold");
    assert_eq!(strip_ansi("plain"), "plain");
}

#[test]
fn strip_ansi_keeps_lone_trailing_escape() {
    // A lone ESC as the last byte starts no sequence and is kept.
    assert_eq!(strip_ansi_bytes(b"abc\x1b"), b"abc\x1b".to_vec());
    // An unterminated CSI swallows the rest of the input.
    assert_eq!(strip_ansi_bytes(b"ab\x1b[12;3"), b"ab".to_vec());
}

#[test]
fn base64_padding_by_group_length() {
    assert_eq!(encode(Encoding::Base64, b"").unwrap(), "");
    assert_eq!(encode(Encoding::Base64, &[0xFF]).unwrap(), "/w==");
    assert_eq!(encode(Encoding::Base64, b"hi").unwrap(), "aGk=");
    assert_eq!(encode(Encoding::Base64, b"Man").unwrap(), "TWFu");
    assert_eq!(encode(Encoding::Base64, &[0xFB, 0xFF, 0xBF]).unwrap(), "+/+/");
}
