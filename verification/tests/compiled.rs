use base64::engine::general_purpose::STANDARD;
use base64::Engine;
use oracle_postprocess::compiled::{bytecode_from_text, get_bytecode_from_bytes, BytecodeError};
use oracle_postprocess::utf8::{scan_utf8, Utf8Fault};

#[test]
fn detects_raw_lua_bytecode() {
    let input = [0x1b, b'L', b'u', b'a', 0x51];
    let (bytecode, header) = get_bytecode_from_bytes(&input).expect("expected bytecode");

    assert_eq!(bytecode, "G0x1YVE=");
    assert_eq!(header, None);
}

#[test]
fn detects_raw_luajit_bytecode() {
    let input = [0x1b, b'L', b'J', 0x2, 0x10];
    let (bytecode, header) = get_bytecode_from_bytes(&input).expect("expected bytecode");

    assert_eq!(bytecode, "G0xKAhA=");
    assert_eq!(header, None);
}

#[test]
fn accepts_base64_encoded_bytecode() {
    let input = b"G0x1YVE=";
    let (bytecode, header) = get_bytecode_from_bytes(input).expect("expected bytecode");

    assert_eq!(bytecode, "G0x1YVE=");
    assert_eq!(header, None);
}

#[test]
fn extracts_rbxlx_embedded_bytecode_with_lf() {
    let input = b"local x = 1\n-- Bytecode (Base64):\n-- QUJDREVGRw==\n-- suffix";
    let (bytecode, header) = get_bytecode_from_bytes(input).expect("expected bytecode");

    assert_eq!(bytecode, "QUJDREVGRw==");
    assert_eq!(header.as_deref(), Some("local x = 1\n-- Bytecode (Base64):\n-- "));
}

#[test]
fn extracts_rbxlx_embedded_bytecode_with_crlf() {
    let input = b"local x = 1\r\n-- Bytecode (Base64):\r\n-- QUJDREVGRw==\r\n-- suffix";
    let (bytecode, header) = get_bytecode_from_bytes(input).expect("expected bytecode");

    assert_eq!(bytecode, "QUJDREVGRw==");
    assert_eq!(
        header.as_deref(),
        Some("local x = 1\r\n-- Bytecode (Base64):\r\n-- ")
    );
}

#[test]
fn errors_when_no_bytecode_is_present() {
    let err = get_bytecode_from_bytes(b"print('hello')").expect_err("expected failure");
    assert_eq!(err.to_string(), "no bytecode found in file");
}

#[test]
fn text_that_decodes_to_something_else_is_no_bytecode() {
    let input = STANDARD.encode(b"hello world");
    assert_eq!(get_bytecode_from_bytes(input.as_bytes()), Err(BytecodeError::NotFound));
    assert_eq!(get_bytecode_from_bytes(b""), Err(BytecodeError::NotFound));
}

#[test]
fn bytecode_in_base64_reads_as_itself() {
    for data in [vec![3u8, 0, 0, 0, 0], vec![0x1b, b'L', b'J', 1, 9, 8, 7], vec![8; 64]] {
        let (bytecode, header) = get_bytecode_from_bytes(&data).expect("compiled");
        assert_eq!(header, None);
        assert_eq!(STANDARD.decode(&bytecode).expect("base64"), data);
        assert_eq!(get_bytecode_from_bytes(bytecode.as_bytes()), Ok((bytecode.clone(), None)));
    }
}

#[test]
fn base64_has_to_be_canonical() {
    // Trailing bits that are not zero, missing padding, and a line break at the end.
    for text in ["G0x1YVF=", "G0x1YVE", "G0x1YVE=\n"] {
        assert_eq!(get_bytecode_from_bytes(text.as_bytes()), Err(BytecodeError::NotFound));
    }
}

#[test]
fn damaged_text_is_read_with_replacements() {
    let input = b"\xffx\n-- Bytecode (Base64):\n-- QU\xe2\x82JD\nrest";
    let (bytecode, header) = get_bytecode_from_bytes(input).expect("expected bytecode");
    assert_eq!(bytecode, "QU\u{fffd}JD");
    assert_eq!(header.as_deref(), Some("\u{fffd}x\n-- Bytecode (Base64):\n-- "));
}

#[test]
fn what_the_file_decodes_to_comes_first() {
    let text = "-- Bytecode (Base64):\n-- QUJD".to_string();
    assert_eq!(
        bytecode_from_text(Some(vec![4, 0, 0, 0, 0]), text.clone()),
        Ok((text.clone(), None))
    );
    let embedded = Ok(("QUJD".to_string(), Some("-- Bytecode (Base64):\n-- ".to_string())));
    assert_eq!(bytecode_from_text(Some(vec![9, 0, 0, 0, 0]), text.clone()), embedded);
    assert_eq!(bytecode_from_text(None, text), embedded);
    assert_eq!(bytecode_from_text(None, String::new()), Err(BytecodeError::NotFound));
}

/// The text of `bytes`, with one U+FFFD for each fault that the scan finds.
fn text_of(bytes: &[u8]) -> String {
    let mut text = String::new();
    let mut at = 0;
    loop {
        let scan = scan_utf8(bytes, at);
        let end = at + scan.valid_up_to;
        text.push_str(std::str::from_utf8(&bytes[at..end]).expect("well-formed"));
        match scan.fault {
            None => return text,
            Some(Utf8Fault::Truncated) => {
                text.push('\u{fffd}');
                return text;
            }
            Some(Utf8Fault::Invalid(len)) => {
                text.push('\u{fffd}');
                at = end + len;
            }
        }
    }
}

#[test]
fn each_fault_in_a_file_is_one_replacement() {
    let header = "-- Bytecode (Base64):\n-- ";
    let samples = [
        0x41u8, 0x7f, 0x80, 0x8f, 0x90, 0x9f, 0xa0, 0xbf, 0xc0, 0xc2, 0xdf, 0xe0, 0xe1, 0xed, 0xf0,
        0xf1, 0xf4, 0xf5, 0xff,
    ];
    for a in samples {
        for b in samples {
            for c in samples {
                for d in samples {
                    let damaged = [a, b, c, d];
                    let file = [header.as_bytes(), &damaged].concat();
                    let expected = Ok((text_of(&damaged), Some(header.to_string())));
                    assert_eq!(get_bytecode_from_bytes(&file), expected);
                }
            }
        }
    }
}

#[test]
fn text_without_a_header_is_the_file_or_its_base64() {
    let compiled = [3u8, 1, 2, 3, 4];
    let (encoded, _) = get_bytecode_from_bytes(&compiled).expect("compiled");
    assert_eq!(STANDARD.decode(&encoded).expect("base64"), compiled);
    let (same, _) = get_bytecode_from_bytes(encoded.as_bytes()).expect("in Base64");
    assert_eq!(same, encoded);
}
