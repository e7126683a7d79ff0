use pdf_extractor::extractor::WordPosition;
use pdf_extractor::worker_ipc::{
    decode_answer, encode_answer, encode_frame, frame_crc32, frame_data_len, into_record,
    read_frame, unframe, write_frame, FrameError, WorkerFrame, WorkerOutput,
};

fn make_wo() -> WorkerOutput {
    WorkerOutput {
        path: "/doc.pdf".into(),
        checksum: "abc123".into(),
        ocr_flag: false,
        text: "extracted content".into(),
        word_positions: vec![],
        file_extraction_ms: 0,
        page_count: 1,
    }
}

fn over_the_wire(wo: WorkerOutput) -> WorkerOutput {
    let mut bytes = write_frame(WorkerFrame::Success(wo)).unwrap();
    bytes.extend_from_slice(b"what follows");
    match read_frame(&bytes).unwrap() {
        WorkerFrame::Success(wo) => wo,
        WorkerFrame::Error { .. } => panic!("an output was sent"),
    }
}

#[test]
fn test_worker_output_roundtrip() {
    let sent = WorkerOutput {
        ocr_flag: true,
        word_positions: vec![WordPosition {
            page: 2,
            x_min: 1.5_f32.to_bits(),
            y_min: 2.5_f32.to_bits(),
            x_max: 3.5_f32.to_bits(),
            y_max: 4.5_f32.to_bits(),
            text: "word".into(),
        }],
        file_extraction_ms: 17,
        page_count: 3,
        ..make_wo()
    };
    let got = over_the_wire(sent);
    assert_eq!(got.path, "/doc.pdf");
    assert_eq!(got.checksum, "abc123");
    assert!(got.ocr_flag);
    assert_eq!(got.text, "extracted content");
    assert_eq!(got.file_extraction_ms, 17);
    assert_eq!(got.page_count, 3);
    assert_eq!(got.word_positions.len(), 1);
    let p = &got.word_positions[0];
    assert_eq!((p.page, p.text.as_str()), (2, "word"));
    assert_eq!(f32::from_bits(p.y_max), 4.5);
}

#[test]
fn test_worker_output_unicode_text() {
    let wo = WorkerOutput { text: "こんにちは世界 ∑∫".into(), ..make_wo() };
    assert_eq!(over_the_wire(wo).text, "こんにちは世界 ∑∫");
}

#[test]
fn test_worker_output_special_chars_in_path() {
    let wo = WorkerOutput {
        path: r"C:\Users\test\my (1) [special] #$&+.pdf".into(),
        ..make_wo()
    };
    assert_eq!(over_the_wire(wo).path, r"C:\Users\test\my (1) [special] #$&+.pdf");
}

#[test]
fn an_error_goes_over_the_wire() {
    let frame = WorkerFrame::Error { path: "/x.pdf".into(), message: "no pages".into() };
    let bytes = write_frame(frame).unwrap();
    match read_frame(&bytes).unwrap() {
        WorkerFrame::Error { path, message } => {
            assert_eq!((path.as_str(), message.as_str()), ("/x.pdf", "no pages"));
        }
        WorkerFrame::Success(_) => panic!("an error was sent"),
    }
}

#[test]
fn an_output_becomes_a_record() {
    let r = into_record(42, WorkerOutput { page_count: 9, ..make_wo() });
    assert_eq!((r.id, r.path.as_str(), r.page_count), (42, "/doc.pdf", 9));
    assert_eq!((r.checksum.as_str(), r.text.as_str()), ("abc123", "extracted content"));
}

#[test]
fn crc_of_known_data() {
    assert_eq!(frame_crc32(b"123456789"), 0xcbf4_3926);
    assert_eq!(frame_crc32(b""), 0);
}

#[test]
fn bytes_of_a_frame() {
    let frame = encode_frame(b"123456789");
    assert_eq!(frame[..4], [9, 0, 0, 0]);
    assert_eq!(frame_data_len(&frame), 9);
    assert_eq!(&frame[4..13], b"123456789");
    assert_eq!(frame[13..], [0x26, 0x39, 0xf4, 0xcb]);
    assert_eq!(unframe(&frame).unwrap(), b"123456789");
    assert_eq!(unframe(&encode_frame(b"")).unwrap(), b"");
}

#[test]
fn a_frame_that_was_cut_is_no_frame() {
    let frame = encode_frame(b"some data");
    for cut in 0..frame.len() {
        assert!(matches!(unframe(&frame[..cut]), Err(FrameError::Truncated)), "cut at {}", cut);
    }
    assert_eq!(
        unframe(&frame[..3]).unwrap_err().message(),
        "failed to fill whole buffer"
    );
}

#[test]
fn a_changed_byte_is_noticed() {
    let mut frame = encode_frame(b"123456789");
    frame[4] ^= 1;
    match unframe(&frame) {
        Err(FrameError::Corrupt { expected, actual, len }) => {
            assert_eq!((expected, len), (0xcbf4_3926, 9));
            assert_ne!(actual, expected);
        }
        _ => panic!("the data was changed"),
    }
    let message = unframe(&frame).unwrap_err().message();
    assert!(message.starts_with("CRC mismatch: expected cbf43926, actual "), "{}", message);
    assert!(message.ends_with(" (9 bytes)"), "{}", message);
}

#[test]
fn data_that_is_no_answer() {
    assert!(matches!(read_frame(&encode_frame(b"xyz")), Err(FrameError::Undecodable(_))));
    assert!(decode_answer(&[7, 0, 0, 0]).is_err());
}

#[test]
fn bytes_of_an_answer() {
    let bytes =
        encode_answer(WorkerFrame::Error { path: "p".into(), message: "mé".into() }).unwrap();
    let mut expected = vec![1, 0, 0, 0];
    expected.extend_from_slice(&[1, 0, 0, 0, 0, 0, 0, 0, b'p']);
    expected.extend_from_slice(&[3, 0, 0, 0, 0, 0, 0, 0, b'm', 0xc3, 0xa9]);
    assert_eq!(bytes, expected);
}
