use oracle_postprocess::messages::{
    authorization, decimal_text, refused_connection, too_large_message, unreadable_document,
    written_file,
};

#[test]
fn numbers_are_written_in_decimal() {
    for number in [0u64, 7, 9, 10, 99, 100, 1024, 8_388_609, u64::MAX] {
        assert_eq!(decimal_text(number), number.to_string());
    }
}

fn check_size(len: u32) {
    let expected = format!(
        "bytecode too large ({:.2} mb) exceeds 8mb limit",
        len as f64 / 1024.0 / 1024.0
    );
    assert_eq!(too_large_message(len), expected);
}

#[test]
fn sizes_are_rounded_as_floating_point_is() {
    assert_eq!(too_large_message(8_388_609), "bytecode too large (8.00 mb) exceeds 8mb limit");
    assert_eq!(too_large_message(u32::MAX), "bytecode too large (4096.00 mb) exceeds 8mb limit");
    // Exactly between two hundredths.
    assert_eq!(too_large_message(8_519_680), "bytecode too large (8.12 mb) exceeds 8mb limit");
    assert_eq!(too_large_message(8_781_824), "bytecode too large (8.38 mb) exceeds 8mb limit");
    for odd in 0..16_384u32 {
        check_size((2 * odd + 1) << 17);
    }
    for step in 0..20_000u32 {
        check_size(step.wrapping_mul(214_739));
    }
    check_size(u32::MAX);
}

#[test]
fn token_goes_into_the_authorization_header() {
    assert_eq!(authorization("test-key"), "Bearer test-key");
    assert_eq!(authorization(""), "Bearer ");
}

#[test]
fn refusal_is_told_in_the_words_of_the_service() {
    assert_eq!(
        refused_connection(Some("n\u{f6} key".as_bytes().to_vec()), "Response"),
        "n\u{f6} key"
    );
    assert_eq!(refused_connection(Some(Vec::new()), "Response"), "");
    assert_eq!(refused_connection(Some(vec![b'a', 0xff]), "Response"), "http error: Response");
    assert_eq!(refused_connection(None, "Response"), "http error: Response");
}

#[test]
fn unreadable_documents_and_written_files_are_reported() {
    assert_eq!(
        unreadable_document(12, "1:2 unexpected end"),
        "xml parsing error at event #12: 1:2 unexpected end"
    );
    assert_eq!(written_file(Some(4095), "out.rbxlx"), "wrote 3 KiB to out.rbxlx");
    assert_eq!(written_file(None, "out.rbxlx"), "wrote output file to out.rbxlx");
}
