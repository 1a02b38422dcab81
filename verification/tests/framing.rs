//! Framing: KISS, HDLC, and the length-prefixed stream.

use retinue::hdlc;
use retinue::kiss;
use retinue::kiss::{FEND, FESC, TFEND, TFESC};
use retinue::stream;
use retinue::stream::{MAX_PAYLOAD, START1, START2};
use retinue::stuffing;
use retinue::stuffing::Marks;

fn deframe_all(deframer: &mut kiss::Deframer, bytes: &[u8]) -> Vec<Vec<u8>> {
    let mut out = Vec::new();
    deframer.push(bytes, &mut out);
    out
}

fn deframe_stream(d: &mut stream::Deframer, bytes: &[u8]) -> Vec<Vec<u8>> {
    let mut out = Vec::new();
    d.push(bytes, &mut out);
    out
}

#[test]
fn roundtrip_plain() {
    let frame = b"\x01hello radio";
    let wire = kiss::encode(frame);
    let mut d = kiss::Deframer::new(512);
    let got = deframe_all(&mut d, &wire);
    assert_eq!(got, vec![frame.to_vec()]);
}

#[test]
fn roundtrip_with_escapes() {
    let frame = vec![FEND, 0x42, FESC, FEND, FESC];
    let wire = kiss::encode(&frame);
    assert!(!wire[1..wire.len() - 1].contains(&FEND));
    let mut d = kiss::Deframer::new(512);
    assert_eq!(deframe_all(&mut d, &wire), vec![frame]);
}

#[test]
fn split_across_pushes() {
    let frame = vec![9u8; 40];
    let wire = kiss::encode(&frame);
    let mut d = kiss::Deframer::new(512);
    let mut out = Vec::new();
    for chunk in wire.chunks(7) {
        d.push(chunk, &mut out);
    }
    assert_eq!(out, vec![frame]);
}

#[test]
fn back_to_back_frames_share_fend() {
    // ... FEND a FEND b FEND: middle FEND ends one frame and opens the next
    let mut wire = kiss::encode(b"aa");
    wire.extend_from_slice(&kiss::encode(b"bb")[1..]); // drop duplicated FEND
    let mut d = kiss::Deframer::new(512);
    assert_eq!(
        deframe_all(&mut d, &wire),
        vec![b"aa".to_vec(), b"bb".to_vec()]
    );
}

#[test]
fn oversize_frame_discarded_and_resyncs() {
    let big = vec![1u8; 600];
    let ok = b"fine".to_vec();
    let mut wire = kiss::encode(&big);
    wire.extend_from_slice(&kiss::encode(&ok));
    let mut d = kiss::Deframer::new(512);
    assert_eq!(deframe_all(&mut d, &wire), vec![ok]);
}

#[test]
fn invalid_escape_discards_frame() {
    let wire = [FEND, 0x01, FESC, 0x99, 0x02, FEND, 0x33, FEND];
    let mut d = kiss::Deframer::new(512);
    assert_eq!(deframe_all(&mut d, &wire), vec![vec![0x33]]);
}

#[test]
fn idle_fends_produce_nothing() {
    let mut d = kiss::Deframer::new(512);
    assert!(deframe_all(&mut d, &[FEND, FEND, FEND]).is_empty());
}

#[test]
fn kiss_wire_bytes_are_exact() {
    assert_eq!(
        kiss::encode(&[FEND, 0x42, FESC]),
        vec![FEND, FESC, TFEND, 0x42, FESC, TFESC, FEND]
    );
    assert_eq!(kiss::encode(&[]), vec![FEND, FEND]);
}

#[test]
fn a_frame_of_exactly_the_limit_passes() {
    let mut d = kiss::Deframer::new(4);
    assert_eq!(deframe_all(&mut d, &kiss::encode(&[1, 2, 3, 4])), vec![vec![1, 2, 3, 4]]);
    assert!(deframe_all(&mut d, &kiss::encode(&[1, 2, 3, 4, 5])).is_empty());
    // Escapes count as one byte of contents.
    assert_eq!(deframe_all(&mut d, &kiss::encode(&[FEND; 4])), vec![vec![FEND; 4]]);
}

#[test]
fn a_frame_cut_inside_an_escape_is_discarded() {
    let mut d = kiss::Deframer::new(16);
    assert!(deframe_all(&mut d, &[FEND, 0x01, FESC, FEND]).is_empty());
    assert_eq!(deframe_all(&mut d, &[0x02, FEND]), vec![vec![0x02]]);
}

#[test]
fn whatever_came_before_a_delimiter_starts_afresh() {
    let mut d = kiss::Deframer::new(2);
    assert!(deframe_all(&mut d, &[1, 2, 3, 4, 5, FESC, FEND]).is_empty());
    assert_eq!(deframe_all(&mut d, &kiss::encode(b"ok")), vec![b"ok".to_vec()]);
}

#[test]
fn stuffing_works_with_any_marks() {
    let marks = Marks { end: 1, esc: 2, after_end: 3, after_esc: 4 };
    let wire = stuffing::encode(marks, &[1, 2, 3, 9]);
    assert_eq!(wire, vec![1, 2, 3, 2, 4, 3, 9, 1]);
    let mut d = stuffing::Deframer::new(marks, 8);
    let mut out = Vec::new();
    d.push(&wire, &mut out);
    assert_eq!(out, vec![vec![1, 2, 3, 9]]);
}

#[test]
fn hdlc_escapes_flag_and_escape() {
    let framed = hdlc::frame(&[0x7e, 0x7d, 0x7e, 0x7d, 0x00, 0xff]);
    assert_eq!(
        framed,
        vec![0x7e, 0x7d, 0x5e, 0x7d, 0x5d, 0x7d, 0x5e, 0x7d, 0x5d, 0x00, 0xff, 0x7e]
    );
    let mut d = hdlc::Deframer::new();
    assert_eq!(d.push(&framed), vec![vec![0x7e, 0x7d, 0x7e, 0x7d, 0x00, 0xff]]);
}

#[test]
fn hdlc_survives_being_split_arbitrarily() {
    let mut wire = hdlc::frame(b"one packet");
    wire.extend(hdlc::frame(&[0xa8, 0x72, 0x5a, 0x7e, 0x21]));
    let expected = vec![b"one packet".to_vec(), vec![0xa8, 0x72, 0x5a, 0x7e, 0x21]];
    let mut whole = hdlc::Deframer::new();
    assert_eq!(whole.push(&wire), expected);
    let mut drip = hdlc::Deframer::new();
    let mut got = Vec::new();
    for &b in &wire {
        got.extend(drip.push(&[b]));
    }
    assert_eq!(got, expected);
}

#[test]
fn round_trips_one_frame() {
    let payload = b"\x08\x01\x12\x03abc";
    let wire = stream::encode(payload);
    assert_eq!(&wire[..2], &[START1, START2]);
    assert_eq!(&wire[2..4], &(payload.len() as u16).to_be_bytes());
    let mut d = stream::Deframer::new();
    assert_eq!(deframe_stream(&mut d, &wire), vec![payload.to_vec()]);
}

#[test]
fn skips_leading_debug_text_before_a_frame() {
    let mut wire = b"INFO some log line\r\n".to_vec();
    wire.extend_from_slice(&stream::encode(b"payload here"));
    let mut d = stream::Deframer::new();
    assert_eq!(deframe_stream(&mut d, &wire), vec![b"payload here".to_vec()]);
}

#[test]
fn reassembles_across_chunked_reads() {
    let wire = stream::encode(&vec![0xAB; 300]);
    let mut d = stream::Deframer::new();
    let mut out = Vec::new();
    for chunk in wire.chunks(17) {
        d.push(chunk, &mut out);
    }
    assert_eq!(out, vec![vec![0xAB; 300]]);
}

#[test]
fn back_to_back_frames() {
    let mut wire = stream::encode(b"one");
    wire.extend_from_slice(&stream::encode(b"two"));
    let mut d = stream::Deframer::new();
    assert_eq!(
        deframe_stream(&mut d, &wire),
        vec![b"one".to_vec(), b"two".to_vec()]
    );
}

#[test]
fn a_false_magic_with_huge_length_is_resynced_past() {
    // 0x94 0xc3 followed by a length > MAX_PAYLOAD is not a real frame.
    let mut wire = vec![START1, START2, 0xFF, 0xFF, 0x00];
    wire.extend_from_slice(&stream::encode(b"real"));
    let mut d = stream::Deframer::new();
    assert_eq!(deframe_stream(&mut d, &wire), vec![b"real".to_vec()]);
}

#[test]
fn a_split_magic_at_the_buffer_end_is_held() {
    let mut d = stream::Deframer::new();
    // A lone START1 arrives; nothing yet.
    assert!(deframe_stream(&mut d, &[0x00, START1]).is_empty());
    // The rest of the frame arrives next.
    let mut out = Vec::new();
    d.push(&[START2, 0x00, 0x02, b'h', b'i'], &mut out);
    assert_eq!(out, vec![b"hi".to_vec()]);
}

#[test]
fn the_largest_and_the_empty_payload_pass() {
    let mut d = stream::Deframer::default();
    let big = vec![7u8; MAX_PAYLOAD];
    assert_eq!(deframe_stream(&mut d, &stream::encode(&big)), vec![big]);
    assert_eq!(deframe_stream(&mut d, &stream::encode(b"")), vec![Vec::<u8>::new()]);
    assert_eq!(stream::encode(b"hi"), vec![0x94, 0xc3, 0x00, 0x02, b'h', b'i']);
}

#[test]
fn a_false_magic_just_past_the_limit_hides_nothing() {
    // 513 is one more than a frame carries; the real frame starts right after the magic.
    let mut wire = vec![START1, START2];
    wire.extend_from_slice(&[0x02, 0x01]);
    wire.extend_from_slice(&stream::encode(b"x"));
    let mut d = stream::Deframer::new();
    assert_eq!(deframe_stream(&mut d, &wire), vec![b"x".to_vec()]);
}

#[test]
fn a_frame_may_hold_the_magic() {
    let payload = vec![START1, START2, 0x00, 0x01, START1];
    let mut d = stream::Deframer::new();
    let mut wire = stream::encode(&payload);
    wire.extend(stream::encode(b"after"));
    assert_eq!(deframe_stream(&mut d, &wire), vec![payload, b"after".to_vec()]);
}
