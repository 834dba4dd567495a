use oracle_postprocess::bytecode::{
    extract_embedded_bytecode, find_marker, find_subslice, is_bytecode, BYTECODE_START_CRLF,
    BYTECODE_START_LF,
};

#[test]
fn extracts_embedded_bytecode_with_lf() {
    let input = "prefix\n-- Bytecode (Base64):\n-- QUJDREVGRw==\nrest";
    let embedded = extract_embedded_bytecode(input).expect("expected embedded bytecode");

    assert_eq!(embedded.header, "prefix\n-- Bytecode (Base64):\n-- ");
    assert_eq!(embedded.bytecode, "QUJDREVGRw==");
}

#[test]
fn extracts_embedded_bytecode_with_crlf() {
    let input = "prefix\r\n-- Bytecode (Base64):\r\n-- QUJDREVGRw==\r\nrest";
    let embedded = extract_embedded_bytecode(input).expect("expected embedded bytecode");

    assert_eq!(embedded.header, "prefix\r\n-- Bytecode (Base64):\r\n-- ");
    assert_eq!(embedded.bytecode, "QUJDREVGRw==");
}

#[test]
fn recognises_every_compiled_form() {
    assert!(is_bytecode(&[0x1b, b'L', b'u', b'a', 0]));
    assert!(is_bytecode(&[0x1b, b'L', b'J', 1, 0]));
    assert!(is_bytecode(&[0x1b, b'L', b'J', 2, 0]));
    assert!(!is_bytecode(&[0x1b, b'L', b'J', 3, 0]));
    for version in 3u8..=8 {
        assert!(is_bytecode(&[version, 0, 0, 0, 0]));
    }
    assert!(!is_bytecode(&[2, 0, 0, 0, 0]));
    assert!(!is_bytecode(&[9, 0, 0, 0, 0]));
}

#[test]
fn too_short_input_is_not_compiled() {
    assert!(!is_bytecode(&[]));
    assert!(!is_bytecode(&[0x1b, b'L', b'u', b'a']));
    assert!(!is_bytecode(&[5, 0, 0, 0]));
}

#[test]
fn finds_the_first_place_of_a_subslice() {
    assert_eq!(find_subslice(b"abcabc", b"bc"), Some(1));
    assert_eq!(find_subslice(b"aab", b"ab"), Some(1));
    assert_eq!(find_subslice(b"abc", b"abcd"), None);
    assert_eq!(find_subslice(b"abc", b"x"), None);
    assert_eq!(find_subslice(b"", b"x"), None);
}

#[test]
fn line_feed_marker_is_preferred() {
    let text = format!("{BYTECODE_START_CRLF}one\r\n{BYTECODE_START_LF}two\n");
    assert_eq!(
        find_marker(text.as_bytes()),
        Some((BYTECODE_START_CRLF.len() + "one\r\n".len(), BYTECODE_START_LF.len()))
    );
    let embedded = extract_embedded_bytecode(&text).expect("expected embedded bytecode");
    assert_eq!(embedded.bytecode, "two");
    assert_eq!(find_marker(b"no marker here"), None);
}

#[test]
fn bytecode_reaches_to_the_line_break_or_the_end() {
    let ends = extract_embedded_bytecode("-- Bytecode (Base64):\n-- QUJD").expect("found");
    assert_eq!(ends.bytecode, "QUJD");
    let empty = extract_embedded_bytecode("-- Bytecode (Base64):\n-- \nQUJD").expect("found");
    assert_eq!(empty.bytecode, "");
    let carriage = extract_embedded_bytecode("-- Bytecode (Base64):\n-- QU\rJD").expect("found");
    assert_eq!(carriage.bytecode, "QU");
    assert!(extract_embedded_bytecode("-- Bytecode (Base64): QUJD").is_none());
}

#[test]
fn text_outside_ascii_is_cut_on_character_boundaries() {
    let input = "-- \u{e9}\u{4e2d}\u{1f600}\n-- Bytecode (Base64):\n-- \u{fc}\u{1f680}x\n\u{df}";
    let embedded = extract_embedded_bytecode(input).expect("found");
    assert_eq!(embedded.header, "-- \u{e9}\u{4e2d}\u{1f600}\n-- Bytecode (Base64):\n-- ");
    assert_eq!(embedded.bytecode, "\u{fc}\u{1f680}x");
}

#[test]
fn what_follows_the_line_does_not_matter() {
    let text = "head\n-- Bytecode (Base64):\n-- QUJD\ntail\n-- Bytecode (Base64):\n-- other";
    let embedded = extract_embedded_bytecode(text).expect("found");
    assert!(text.starts_with(&format!("{}{}", embedded.header, embedded.bytecode)));
    for suffix in ["", "\n", "\r\nsomething else", "\n-- Bytecode (Base64):\n-- more"] {
        let other = format!("{}{}{}", embedded.header, embedded.bytecode, suffix);
        let again = extract_embedded_bytecode(&other).expect("found");
        assert_eq!(again.header, embedded.header);
        assert_eq!(again.bytecode, embedded.bytecode);
    }
}
