use oracle_postprocess::rbxlx::boundary::{is_xml_valid, ReadOutcome, Utf8BoundaryReader};
use oracle_postprocess::utf8::{read_lead, scan_utf8, Lead, Utf8Fault};

/// Feeds `chunks` to a reader, and gives all that it hands out into a buffer of `room` bytes.
fn read_all(chunks: &[&[u8]], room: usize) -> Vec<u8> {
    let mut reader = Utf8BoundaryReader::new();
    let mut rest = chunks.iter();
    let mut buffer = vec![0u8; room];
    let mut all = Vec::new();
    loop {
        match reader.read(&mut buffer) {
            ReadOutcome::Read(0) => return all,
            ReadOutcome::Read(count) => all.extend_from_slice(&buffer[..count]),
            ReadOutcome::NeedsInput => match rest.next() {
                Some(chunk) => reader.fill_pending(chunk),
                None => reader.fill_pending(&[]),
            },
        }
    }
}

/// The bytes that make the interesting cases of UTF-8.
const SAMPLES: [u8; 22] = [
    0x00, 0x09, 0x1f, 0x41, 0x7f, 0x80, 0x8f, 0x90, 0x9f, 0xa0, 0xbf, 0xc0, 0xc1, 0xc2, 0xdf, 0xe0,
    0xe1, 0xed, 0xf0, 0xf1, 0xf4, 0xf5,
];

fn check_against_std(bytes: &[u8]) {
    let scan = scan_utf8(bytes, 0);
    match std::str::from_utf8(bytes) {
        Ok(_) => {
            assert_eq!(scan.valid_up_to, bytes.len());
            assert_eq!(scan.fault, None);
        }
        Err(error) => {
            assert_eq!(scan.valid_up_to, error.valid_up_to());
            let fault = match error.error_len() {
                None => Utf8Fault::Truncated,
                Some(len) => Utf8Fault::Invalid(len),
            };
            assert_eq!(scan.fault, Some(fault));
        }
    }
}

#[test]
fn scan_agrees_with_std_on_all_short_inputs() {
    for a in 0..=255u8 {
        check_against_std(&[a]);
        for b in 0..=255u8 {
            check_against_std(&[a, b]);
        }
    }
}

#[test]
fn scan_agrees_with_std_on_longer_samples() {
    for a in SAMPLES {
        for b in SAMPLES {
            for c in SAMPLES {
                check_against_std(&[a, b, c]);
                for d in SAMPLES {
                    check_against_std(&[a, b, c, d]);
                }
            }
        }
    }
}

#[test]
fn scan_begins_where_it_is_told() {
    let scan = scan_utf8(b"\xff\xc3\xa9!\xe2\x82", 1);
    assert_eq!(scan.valid_up_to, 3);
    assert_eq!(scan.fault, Some(Utf8Fault::Truncated));
    assert_eq!(read_lead(b"\xff\xc3\xa9", 1), Lead::Scalar(2));
    assert_eq!(read_lead(b"\xff\xc3\xa9", 0), Lead::Invalid(1));
    assert_eq!(read_lead(b"\xe2\x82", 0), Lead::Truncated);
}

#[test]
fn forbidden_bytes_are_the_control_characters_but_three() {
    for byte in 0..=255u8 {
        let expected = byte >= 0x20 || byte == b'\t' || byte == b'\n' || byte == b'\r';
        assert_eq!(is_xml_valid(byte), expected);
    }
}

#[test]
fn sound_text_comes_out_as_it_went_in() {
    let text = "plain \u{e9}\u{4e2d}\u{1f600}\t\r\n".as_bytes();
    assert_eq!(read_all(&[text], 64), text);
    assert_eq!(read_all(&[text], 1), text);
}

#[test]
fn chunking_does_not_matter() {
    let stream = b"a\x00\xc3\xa9\xe2\x82\xac\xff\xf0\x9f\x98\x80\xe2\x28\xf0\x9f\x98b\xed\xa0\x80\xc2";
    let expected = read_all(&[stream], 1024);
    for first in 0..=stream.len() {
        for second in first..=stream.len() {
            let chunks: Vec<&[u8]> = [&stream[..first], &stream[first..second], &stream[second..]]
                .into_iter()
                .filter(|chunk| !chunk.is_empty())
                .collect();
            assert_eq!(read_all(&chunks, 3), expected);
        }
    }
    let single: Vec<&[u8]> = stream.chunks(1).collect();
    assert_eq!(read_all(&single, 2), expected);
}

#[test]
fn damaged_text_gets_replacements() {
    assert_eq!(read_all(&[b"\xff"], 8), "\u{fffd}".as_bytes());
    assert_eq!(read_all(&[b"a\xe2\x28b"], 8), "a\u{fffd}(b".as_bytes());
    // An ill-formed sequence of three bytes is one replacement.
    assert_eq!(read_all(&[b"\xf0\x9f\x98b"], 8), "\u{fffd}b".as_bytes());
    // What the end of the stream cuts off is replaced byte by byte.
    assert_eq!(read_all(&[b"\xe2\x82"], 8), "\u{fffd}\u{fffd}".as_bytes());
    assert_eq!(read_all(&[b"x\xf0\x9f\x98"], 16), "x\u{fffd}\u{fffd}\u{fffd}".as_bytes());
}

#[test]
fn forbidden_characters_are_dropped() {
    assert_eq!(read_all(&[b"a\x00b\x1fc\x7f"], 8), b"abc\x7f");
    assert_eq!(read_all(&[b"\x00\x01", b"\x02"], 8), b"");
}

#[test]
fn output_is_xml_text_and_sanitizing_again_changes_nothing() {
    let stream: Vec<u8> = (0..=255u8).chain((0..=255u8).rev()).collect();
    let once = read_all(&[stream.as_slice()], 7);
    assert!(std::str::from_utf8(&once).is_ok());
    assert!(once.iter().all(|&byte| is_xml_valid(byte)));
    assert_eq!(read_all(&[once.as_slice()], 7), once);
}

#[test]
fn reading_into_nothing_gives_nothing() {
    let mut reader = Utf8BoundaryReader::new();
    assert_eq!(reader.read(&mut []), ReadOutcome::Read(0));
    reader.fill_pending(b"abc");
    assert_eq!(reader.read(&mut []), ReadOutcome::Read(0));
    assert_eq!(reader.pending_slice(), b"abc");
}

#[test]
fn input_after_the_end_is_not_taken_in() {
    let mut reader = Utf8BoundaryReader::new();
    let mut buffer = [0u8; 8];
    assert_eq!(reader.read(&mut buffer), ReadOutcome::NeedsInput);
    reader.fill_pending(&[]);
    assert_eq!(reader.read(&mut buffer), ReadOutcome::Read(0));
    reader.fill_pending(b"late");
    assert_eq!(reader.read(&mut buffer), ReadOutcome::Read(0));
    assert_eq!(reader.pending_slice(), b"");
}

#[test]
fn one_step_takes_the_longest_sound_run_or_one_fault() {
    let mut reader = Utf8BoundaryReader::new();
    reader.fill_pending(b"ab\xff\xffc\xe2");
    assert!(!reader.process_pending());
    assert_eq!(reader.output_slice(), b"ab");
    assert_eq!(reader.pending_slice(), b"\xff\xffc\xe2");
    assert!(!reader.process_pending());
    assert_eq!(reader.output_slice(), "ab\u{fffd}".as_bytes());
    assert!(!reader.process_pending());
    assert!(!reader.process_pending());
    assert_eq!(reader.pending_slice(), b"\xe2");
    assert!(reader.process_pending());
    assert_eq!(reader.output_slice(), "ab\u{fffd}\u{fffd}c".as_bytes());
}

#[test]
fn long_streams_are_compacted_without_loss() {
    let mut stream = Vec::new();
    for index in 0..40_000u32 {
        stream.extend_from_slice(format!("{index}\u{4e2d}").as_bytes());
        if index % 97 == 0 {
            stream.push(0xff);
        }
    }
    let chunks: Vec<&[u8]> = stream.chunks(65536).collect();
    assert_eq!(read_all(&chunks, 8192), String::from_utf8_lossy(&stream).as_bytes());
}
