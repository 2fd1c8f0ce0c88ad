use eol_attributes::eol::{EndOfLine, EndOfLineReadTransformer, ReadAction, ReadEvent};
use std::str::FromStr;

/// Reads `input` to its end through a transformer. The inner reader gives at most `chunk_size` bytes
/// at once, and the output goes into buffers of `room` bytes.
fn read_to_end(input: &[u8], target: EndOfLine, chunk_size: usize, room: usize) -> Vec<u8> {
    let mut transformer = EndOfLineReadTransformer::new(target);
    let mut output = Vec::new();
    let mut pos = 0;
    loop {
        let mut action = transformer.poll_read(ReadEvent::Poll, room);
        while action == ReadAction::ReadInner {
            let end = pos + chunk_size.min(room).min(input.len() - pos);
            action = transformer.poll_read(ReadEvent::Read(&input[pos..end]), room);
            pos = end;
        }
        match action {
            ReadAction::Deliver(bytes) => {
                assert!(bytes.len() <= room);
                if bytes.is_empty() {
                    return output;
                }
                output.extend(bytes);
            }
            other => panic!("unexpected action {:?}", other),
        }
    }
}

fn test_transform(input: &[u8], target: EndOfLine, expected: &[u8]) {
    assert_eq!(read_to_end(input, target, 32, 32), expected);
}

fn test_transform_chunked(input: &[u8], target: EndOfLine, expected: &[u8], chunk_size: usize) {
    assert_eq!(
        read_to_end(input, target, chunk_size, 32),
        expected,
        "Failed with chunk size {}",
        chunk_size
    );
}

// --- Tests for LF output ---
#[test]
fn lf_to_lf() {
    test_transform(b"a\nb\nc", EndOfLine::Lf, b"a\nb\nc");
}

#[test]
fn crlf_to_lf() {
    test_transform(b"a\r\nb\r\nc", EndOfLine::Lf, b"a\nb\nc");
}

#[test]
fn cr_to_lf() {
    test_transform(b"a\rb\rc", EndOfLine::Lf, b"a\nb\nc");
}

#[test]
fn mixed_to_lf() {
    test_transform(b"a\nb\r\nc\rd\n\r\ne", EndOfLine::Lf, b"a\nb\nc\nd\ne");
}

// --- Tests for CRLF output ---
#[test]
fn lf_to_crlf() {
    test_transform(b"a\nb\nc", EndOfLine::Crlf, b"a\r\nb\r\nc");
}

#[test]
fn crlf_to_crlf() {
    test_transform(b"a\r\nb\r\nc", EndOfLine::Crlf, b"a\r\nb\r\nc");
}

#[test]
fn cr_to_crlf() {
    test_transform(b"a\rb\rc", EndOfLine::Crlf, b"a\r\nb\r\nc");
}

#[test]
fn mixed_to_crlf() {
    test_transform(
        b"a\nb\r\nc\rd\n\r\ne",
        EndOfLine::Crlf,
        b"a\r\nb\r\nc\r\nd\r\ne",
    );
}

// --- Boundary condition tests ---
#[test]
fn cr_at_end_of_stream() {
    test_transform(b"hello\r", EndOfLine::Lf, b"hello\n");
    test_transform(b"hello\r", EndOfLine::Crlf, b"hello\r\n");
}

#[test]
fn crlf_split_across_reads() {
    let input = b"hello\r\nworld";
    // Test with various chunk sizes to ensure the split happens at different places.
    for i in 1..input.len() {
        test_transform_chunked(input, EndOfLine::Lf, b"hello\nworld", i);
        test_transform_chunked(input, EndOfLine::Crlf, b"hello\r\nworld", i);
    }
}

#[test]
fn cr_at_end_of_chunk() {
    let input = b"a\rb";
    test_transform_chunked(input, EndOfLine::Lf, b"a\nb", 2);
    test_transform_chunked(input, EndOfLine::Crlf, b"a\r\nb", 2);
}

// --- Runs of line endings ---
#[test]
fn blank_lines_are_kept() {
    test_transform(b"a\n\nb", EndOfLine::Crlf, b"a\r\n\r\nb");
    test_transform(b"a\r\n\r\nb", EndOfLine::Lf, b"a\n\nb");
    test_transform(b"a\r\rb", EndOfLine::Lf, b"a\n\nb");
    test_transform(b"\n\n\n", EndOfLine::Lf, b"\n\n\n");
}

#[test]
fn lf_before_lone_cr() {
    test_transform(b"a\n\rb", EndOfLine::Lf, b"a\n\nb");
    test_transform(b"a\n\r", EndOfLine::Lf, b"a\n\n");
    test_transform(b"a\n\r\rb", EndOfLine::Lf, b"a\n\n\nb");
    test_transform(b"a\n\r\r\nb", EndOfLine::Crlf, b"a\r\n\r\n\r\nb");
}

#[test]
fn lf_before_crlf() {
    test_transform(b"\n\r\n", EndOfLine::Lf, b"\n");
    test_transform(b"\n\r\n\r\n", EndOfLine::Lf, b"\n\n");
    test_transform(b"\n\n\r\n", EndOfLine::Lf, b"\n\n");
    test_transform(b"\r\n\r\n", EndOfLine::Crlf, b"\r\n\r\n");
}

#[test]
fn empty_stream() {
    test_transform(b"", EndOfLine::Lf, b"");
    test_transform(b"", EndOfLine::Crlf, b"");
}

#[test]
fn bytes_of_text_are_kept() {
    let input: Vec<u8> = (0..=255).filter(|b| *b != b'\r' && *b != b'\n').collect();
    test_transform(&input, EndOfLine::Lf, &input);
    test_transform(&input, EndOfLine::Crlf, &input);
}

// --- Laws on concrete values ---
const SAMPLES: [&[u8]; 6] = [
    b"a\nb\r\nc\rd\n\r\ne",
    b"\r\n\r\r\n\n\r\n\n\r",
    b"\n\r\r\n",
    b"no line ending",
    b"\r",
    b"x\n\r\n\r\ny\r\r",
];

#[test]
fn splits_make_no_difference() {
    for input in SAMPLES {
        for target in [EndOfLine::Lf, EndOfLine::Crlf] {
            let whole = read_to_end(input, target, 1000, 1000);
            for chunk_size in 1..=input.len() {
                for room in 1..20 {
                    assert_eq!(read_to_end(input, target, chunk_size, room), whole);
                }
            }
        }
    }
}

#[test]
fn last_format_wins() {
    for input in SAMPLES {
        for last in [EndOfLine::Lf, EndOfLine::Crlf] {
            let expected = read_to_end(input, last, 1000, 1000);
            for first in [EndOfLine::Lf, EndOfLine::Crlf] {
                let between = read_to_end(input, first, 1000, 1000);
                assert_eq!(read_to_end(&between, last, 1000, 1000), expected);
            }
        }
    }
}

#[test]
fn only_target_endings_are_left() {
    for input in SAMPLES {
        let lf = read_to_end(input, EndOfLine::Lf, 1000, 1000);
        assert!(!lf.contains(&b'\r'));
        let crlf = read_to_end(input, EndOfLine::Crlf, 1000, 1000);
        for i in 0..crlf.len() {
            assert_eq!(crlf[i] == b'\r', crlf.get(i + 1) == Some(&b'\n'));
        }
    }
}

#[test]
fn endings_are_counted_once() {
    let lf = read_to_end(b"a\r\nb\rc\nd", EndOfLine::Lf, 1000, 1000);
    assert_eq!(lf.iter().filter(|b| **b == b'\n').count(), 3);
}

#[test]
fn text_is_kept_in_order() {
    for input in SAMPLES {
        let text = |s: &[u8]| -> Vec<u8> {
            s.iter().copied().filter(|b| *b != b'\r' && *b != b'\n').collect()
        };
        let output = read_to_end(input, EndOfLine::Crlf, 3, 2);
        assert_eq!(text(&output), text(input));
    }
}

// --- Single polls ---
#[test]
fn delivery_is_cut_to_the_buffer() {
    let mut t = EndOfLineReadTransformer::new(EndOfLine::Crlf);
    assert_eq!(t.poll_read(ReadEvent::Poll, 3), ReadAction::ReadInner);
    assert_eq!(
        t.poll_read(ReadEvent::Read(b"a\nb"), 3),
        ReadAction::Deliver(b"a\r\n".to_vec())
    );
    assert_eq!(t.poll_read(ReadEvent::Poll, 0), ReadAction::Deliver(vec![]));
    assert_eq!(t.poll_read(ReadEvent::Poll, 3), ReadAction::Deliver(b"b".to_vec()));
    assert_eq!(t.poll_read(ReadEvent::Poll, 3), ReadAction::ReadInner);
    assert_eq!(t.poll_read(ReadEvent::Read(b""), 3), ReadAction::Deliver(vec![]));
}

#[test]
fn read_that_adds_nothing_is_not_the_end() {
    let mut t = EndOfLineReadTransformer::new(EndOfLine::Lf);
    assert_eq!(t.poll_read(ReadEvent::Read(b"\r"), 8), ReadAction::Deliver(b"\n".to_vec()));
    assert_eq!(t.poll_read(ReadEvent::Poll, 8), ReadAction::ReadInner);
    assert_eq!(t.poll_read(ReadEvent::Read(b"\n"), 8), ReadAction::ReadInner);
    assert_eq!(t.poll_read(ReadEvent::Read(b"x"), 8), ReadAction::Deliver(b"x".to_vec()));
}

#[test]
fn failure_and_waiting_are_handed_on() {
    let mut t = EndOfLineReadTransformer::new(EndOfLine::Lf);
    assert_eq!(t.poll_read(ReadEvent::Read(b"a\r"), 8), ReadAction::Deliver(b"a\n".to_vec()));
    assert_eq!(t.poll_read(ReadEvent::Failed, 8), ReadAction::Fail);
    assert_eq!(t.poll_read(ReadEvent::Pending, 8), ReadAction::Pend);
    // The state from before is kept.
    assert_eq!(t.poll_read(ReadEvent::Read(b"\nb"), 8), ReadAction::Deliver(b"b".to_vec()));
}

#[test]
fn empty_read_into_full_buffer_is_not_the_end() {
    let mut t = EndOfLineReadTransformer::new(EndOfLine::Lf);
    assert_eq!(t.poll_read(ReadEvent::Read(b"\n\r"), 8), ReadAction::Deliver(b"\n".to_vec()));
    assert_eq!(t.poll_read(ReadEvent::Read(b""), 0), ReadAction::Deliver(vec![]));
    assert_eq!(t.poll_read(ReadEvent::Read(b"\n"), 8), ReadAction::ReadInner);
    assert_eq!(t.poll_read(ReadEvent::Read(b""), 8), ReadAction::Deliver(vec![]));
}

// --- The target format ---
#[test]
fn bytes_of_formats() {
    assert_eq!(EndOfLine::Lf.as_bytes(), b"\n");
    assert_eq!(EndOfLine::Crlf.as_bytes(), b"\r\n");
}

#[test]
fn names_of_formats() {
    assert_eq!(EndOfLine::from_str("lf"), Ok(EndOfLine::Lf));
    assert_eq!(EndOfLine::from_str("crlf"), Ok(EndOfLine::Crlf));
    assert_eq!(EndOfLine::from_str("LF"), Err(()));
    assert_eq!(EndOfLine::from_str(""), Err(()));
    assert_eq!(EndOfLine::from_str("cr"), Err(()));
}

#[test]
fn parts_are_normalized_on_their_own_before_text() {
    for a in SAMPLES {
        for b in [&b"text\r\n"[..], b"x\n\r\n", b""] {
            let whole = [a, b].concat();
            let parts = [
                read_to_end(a, EndOfLine::Crlf, 1000, 1000),
                read_to_end(b, EndOfLine::Crlf, 1000, 1000),
            ];
            assert_eq!(read_to_end(&whole, EndOfLine::Crlf, 1000, 1000), parts.concat());
        }
    }
}

#[test]
fn delivered_bytes_stay_true() {
    let mut t = EndOfLineReadTransformer::new(EndOfLine::Lf);
    let first = t.poll_read(ReadEvent::Read(b"a\n\r"), 100);
    assert_eq!(first, ReadAction::Deliver(b"a\n".to_vec()));
    for rest in [&b"\nb"[..], b"b", b"\r", b""] {
        let whole = [&b"a\n\r"[..], rest].concat();
        assert!(read_to_end(&whole, EndOfLine::Lf, 1000, 1000).starts_with(b"a\n"));
    }
}
