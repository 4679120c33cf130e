use ctmp::buffer::{MessageMgr, CAPACITY};
use ctmp::parser::{parse_ctmp_header, CtmpParser, HeaderType};
use std::collections::VecDeque;

fn header(len: u16) -> Vec<u8> {
    let b = len.to_be_bytes();
    vec![0xCC, 0x00, b[0], b[1], 0, 0, 0, 0]
}

#[test]
fn one_frame_consumes_all_bytes() {
    let mut p = CtmpParser::new();
    p.push_bytes(&[0xCC, 0x00, 0x00, 0x03, 0x00, 0x00, 0x00, 0x00, 0x41, 0x42, 0x43]);
    let frames = p.parse_all();
    assert_eq!(frames.len(), 1);
    assert_eq!(frames[0].data(), b"ABC");
    assert_eq!(p.buffered(), 0);
}

#[test]
fn stray_byte_is_skipped() {
    let mut p = CtmpParser::new();
    p.push_bytes(&[0xFF, 0xCC, 0x00, 0x00, 0x03, 0x00, 0x00, 0x00, 0x00, 0x41, 0x42, 0x43]);
    let frames = p.parse_all();
    assert_eq!(frames.len(), 1);
    assert_eq!(frames[0].data(), b"ABC");
    assert_eq!(p.buffered(), 0);
}

#[test]
fn incomplete_payload_waits_for_more_bytes() {
    let mut p = CtmpParser::new();
    let mut bytes = header(5);
    bytes.extend_from_slice(b"abc");
    p.push_bytes(&bytes);
    assert!(p.parse_all().is_empty());
    assert_eq!(p.buffered(), 11);
    p.push_bytes(b"de");
    let frames = p.parse_all();
    assert_eq!(frames.len(), 1);
    assert_eq!(frames[0].data(), b"abcde");
    assert_eq!(p.buffered(), 0);
}

#[test]
fn second_pass_on_empty_buffer_finds_nothing() {
    let mut p = CtmpParser::new();
    let mut bytes = header(1);
    bytes.push(9);
    p.push_bytes(&bytes);
    assert_eq!(p.parse_all().len(), 1);
    assert!(p.parse_all().is_empty());
    assert_eq!(p.buffered(), 0);
    let mut fresh = CtmpParser::new();
    assert!(fresh.parse_all().is_empty());
}

#[test]
fn partial_header_is_kept() {
    let mut p = CtmpParser::new();
    p.push_bytes(&[0xCC, 0x00, 0x00]);
    assert!(p.parse_all().is_empty());
    assert_eq!(p.buffered(), 3);
}

#[test]
fn garbage_only_is_discarded() {
    let mut p = CtmpParser::new();
    p.push_bytes(&[1, 2, 3, 0xCC, 0x01]);
    assert!(p.parse_all().is_empty());
    assert_eq!(p.buffered(), 0);
}

#[test]
fn nonzero_reserved_byte_resynchronizes() {
    let mut p = CtmpParser::new();
    let mut bytes = vec![0xCC, 0x00, 0x00, 0x01, 0x00, 0x07, 0x00, 0x00];
    bytes.extend(header(2));
    bytes.extend_from_slice(b"ok");
    p.push_bytes(&bytes);
    let frames = p.parse_all();
    assert_eq!(frames.len(), 1);
    assert_eq!(frames[0].data(), b"ok");
}

#[test]
fn several_frames_in_one_pass() {
    let mut p = CtmpParser::new();
    let mut bytes = header(0);
    bytes.extend(header(70));
    bytes.extend(vec![4u8; 70]);
    bytes.extend(header(2));
    p.push_bytes(&bytes);
    let frames = p.parse_all();
    assert_eq!(frames.len(), 2);
    assert!(frames[0].is_empty());
    assert_eq!(frames[1].data(), vec![4u8; 70].as_slice());
    assert!(!frames[1].is_small());
    assert_eq!(p.buffered(), 8);
}

#[test]
fn header_classification() {
    let q = |b: &[u8]| parse_ctmp_header(&b.iter().copied().collect::<VecDeque<u8>>());
    assert_eq!(q(&[]), HeaderType::Partial);
    assert_eq!(q(&[0xCC]), HeaderType::Partial);
    assert_eq!(q(&[0xCC, 0x00, 0x12]), HeaderType::Partial);
    assert_eq!(q(&[0xCC, 0x00, 0x12, 0x34, 0x00]), HeaderType::Partial);
    assert_eq!(q(&[0xCD]), HeaderType::Invalid);
    assert_eq!(q(&[0xCC, 0x01]), HeaderType::Invalid);
    assert_eq!(q(&[0xCC, 0x00, 0x12, 0x34, 0x00, 0x00, 0x01]), HeaderType::Invalid);
    assert_eq!(q(&[0xCC, 0x00, 0x12, 0x34, 0, 0, 0, 0]), HeaderType::Complete(0x1234));
    assert_eq!(q(&[0xCC, 0x00, 0xFF, 0xFF, 0, 0, 0, 0, 9]), HeaderType::Complete(0xFFFF));
}

#[test]
fn feed_pushes_frames_into_the_buffer() {
    let mut p = CtmpParser::new();
    let mut mgr = MessageMgr::new();
    let mut bytes = header(1);
    bytes.push(b'a');
    bytes.extend(header(1));
    assert_eq!(p.feed(&bytes, &mut mgr), 0);
    assert_eq!(p.buffered(), 8);
    assert_eq!(p.feed(b"b", &mut mgr), 0);
    let out = mgr.read_batch(10);
    assert_eq!(out.len(), 2);
    assert_eq!(out[0].data(), b"a");
    assert_eq!(out[1].data(), b"b");
}

#[test]
fn feed_drops_frames_that_find_the_buffer_full() {
    let mut p = CtmpParser::new();
    let mut mgr = MessageMgr::new();
    let mut bytes = Vec::new();
    for i in 0..CAPACITY + 2 {
        bytes.extend(header(1));
        bytes.push(i as u8);
    }
    assert_eq!(p.feed(&bytes, &mut mgr), 3);
    let out = mgr.read_batch(CAPACITY);
    assert_eq!(out.len(), CAPACITY - 1);
    assert_eq!(out[CAPACITY - 2].data(), &[(CAPACITY - 2) as u8]);
}
