use soundcore_lib5_core::frame::{Frame, FrameReader};

fn device_frame(command: u16, payload: &[u8]) -> Vec<u8> {
    let length = (payload.len() + 10) as u16;
    let mut bytes = vec![0x09, 0xff, 0x00, 0x00, 0x01];
    bytes.extend_from_slice(&command.to_le_bytes());
    bytes.extend_from_slice(&length.to_le_bytes());
    bytes.extend_from_slice(payload);
    let checksum = bytes.iter().fold(0u8, |sum, byte| sum.wrapping_add(*byte));
    bytes.push(checksum);
    bytes
}

#[test]
fn host_frame_matches_verified_wire_bytes() {
    // The ANC-on packet captured on a real device, byte for byte.
    let frame = Frame::host_frame(0x8106, &[0x00, 0x10, 0x00, 0x01, 0x00, 0x01]);
    assert_eq!(frame, vec![0x08, 0xee, 0x00, 0x00, 0x00, 0x06, 0x81, 0x10, 0x00, 0x00, 0x10, 0x00, 0x01, 0x00, 0x01, 0x9f]);

    let info = Frame::host_frame(0x0101, &[]);
    assert_eq!(info, vec![0x08, 0xee, 0x00, 0x00, 0x00, 0x01, 0x01, 0x0a, 0x00, 0x02]);
}

#[test]
fn device_frame_parsing_matches_verified_capture() {
    // A real device answer: ACK (0x8106, empty payload).
    let mut buffer = vec![0x09, 0xff, 0x00, 0x00, 0x01, 0x06, 0x81, 0x0a, 0x00, 0x9a];
    let frame = Frame::take_frame(&mut buffer).expect("çerçeve çözülmeli").expect("bir çerçeve olmalı");
    assert_eq!(frame.command, 0x8106);
    assert!(frame.payload.is_empty());
    assert!(buffer.is_empty());

    // The 164-byte device-info answer (real capture).
    let mut full = vec![0x09, 0xff, 0x00, 0x00, 0x01, 0x01, 0x01, 0xa4, 0x00];
    full.extend_from_slice(&[0x01, 0x00, 0xff, 0x08, 0x00, 0x00]);
    full.extend_from_slice(b"04.9004.90395790BFD95CE5DC0");
    while full.len() < 163 {
        full.push(0x00);
    }
    let checksum = full.iter().fold(0u8, |sum, byte| sum.wrapping_add(*byte));
    full.push(checksum);
    assert_eq!(full.len(), 164);
    let frame = Frame::take_frame(&mut full).expect("çerçeve çözülmeli").expect("bir çerçeve olmalı");
    assert_eq!(frame.command, 0x0101);
    assert_eq!(frame.payload.len(), 154);
    assert_eq!(&frame.payload[6..11], b"04.90");
    assert_eq!(&frame.payload[11..16], b"04.90");
    assert_eq!(&frame.payload[16..32], b"395790BFD95CE5DC");
}

#[test]
fn device_frame_roundtrip_keeps_following_bytes() {
    let mut buffer = device_frame(0x0301, &[0x09, 0x06, 0x06]);
    buffer.extend_from_slice(&[0x09, 0xff, 0x00]);
    let frame = Frame::take_frame(&mut buffer).unwrap().unwrap();
    assert_eq!(frame.command, 0x0301);
    assert_eq!(frame.payload, vec![0x09, 0x06, 0x06]);
    assert_eq!(buffer, vec![0x09, 0xff, 0x00]);
}

#[test]
fn host_frame_checksum_and_length_are_consistent() {
    let payload: Vec<u8> = (0u8..40).collect();
    let frame = Frame::host_frame(0x8703, &payload);
    assert_eq!(frame.len(), 50);
    assert_eq!(u16::from_le_bytes([frame[7], frame[8]]) as usize, frame.len());
    assert_eq!(u16::from_le_bytes([frame[5], frame[6]]), 0x8703);
    let sum = frame[..frame.len() - 1].iter().fold(0u8, |s, b| s.wrapping_add(*b));
    assert_eq!(sum, frame[frame.len() - 1]);
    assert_eq!(&frame[9..49], &payload[..]);
}

#[test]
fn garbage_before_a_frame_is_dropped() {
    let mut buffer = vec![0x00, 0x13, 0x09, 0x37];
    buffer.extend(device_frame(0x0106, &[0x01]));
    let frame = Frame::take_frame(&mut buffer).unwrap().unwrap();
    assert_eq!(frame.command, 0x0106);
    assert_eq!(frame.payload, vec![0x01]);
    assert!(buffer.is_empty());
}

#[test]
fn frame_with_bad_checksum_is_dropped_whole() {
    let mut bad = device_frame(0x8106, &[]);
    let last = bad.len() - 1;
    bad[last] = bad[last].wrapping_add(1);
    let mut buffer = bad;
    buffer.extend(device_frame(0x017f, &[0x00]));
    let frame = Frame::take_frame(&mut buffer).unwrap().unwrap();
    assert_eq!(frame.command, 0x017f);
    assert!(buffer.is_empty());
}

#[test]
fn incomplete_frame_waits_for_more_bytes() {
    let whole = device_frame(0x0101, &[1, 2, 3, 4]);
    let mut buffer = whole[..8].to_vec();
    assert!(Frame::take_frame(&mut buffer).unwrap().is_none());
    assert_eq!(buffer, whole[..8].to_vec());
    let mut buffer = whole[..12].to_vec();
    assert!(Frame::take_frame(&mut buffer).unwrap().is_none());
    assert_eq!(buffer.len(), 12);
}

#[test]
fn too_short_length_field_drops_a_byte() {
    // A header that claims a length below the minimum frame size.
    let mut buffer = vec![0x09, 0xff, 0x00, 0x00, 0x01, 0x06, 0x81, 0x05, 0x00, 0x00];
    assert!(Frame::take_frame(&mut buffer).unwrap().is_none());
    assert_eq!(buffer.len(), 8);
}

#[test]
fn reader_collects_frames_split_across_chunks() {
    let mut stream = device_frame(0x0103, &[0xaa]);
    stream.extend(device_frame(0x8106, &[]));
    stream.extend(device_frame(0x0301, &[0x09, 0x06, 0x06]));
    let mut reader = FrameReader::new();
    assert!(!reader.feed(&stream[..5], Some(0x8106)));
    assert!(reader.frames.is_empty());
    assert!(reader.feed(&stream[5..25], Some(0x8106)));
    assert_eq!(reader.frames.len(), 2);
    assert_eq!(reader.frames[0].command, 0x0103);
    assert_eq!(reader.frames[1].command, 0x8106);
    assert_eq!(reader.buffer, stream[21..25].to_vec());

    let mut all = FrameReader::new();
    assert!(!all.feed(&stream, None));
    assert_eq!(all.frames.len(), 3);
    assert_eq!(all.frames[2].payload, vec![0x09, 0x06, 0x06]);
    assert!(all.buffer.is_empty());
}

#[test]
fn chunk_boundaries_do_not_change_frames() {
    let mut stream = vec![0x42];
    stream.extend(device_frame(0x0106, &[0x00]));
    stream.extend(device_frame(0x020b, &[0x00, 0x2a, 0x10, 0xf1, 0x8c, 0x5b, 0xfc]));
    stream.extend_from_slice(&[0x09, 0xff]);
    let mut whole = FrameReader::new();
    whole.feed(&stream, None);
    for cut in 0..=stream.len() {
        let mut split = FrameReader::new();
        split.feed(&stream[..cut], None);
        split.feed(&stream[cut..], None);
        let a: Vec<(u16, Vec<u8>)> = whole.frames.iter().map(|f| (f.command, f.payload.clone())).collect();
        let b: Vec<(u16, Vec<u8>)> = split.frames.iter().map(|f| (f.command, f.payload.clone())).collect();
        assert_eq!(a, b);
        assert_eq!(whole.buffer, split.buffer);
    }
    assert_eq!(whole.frames.len(), 2);
    assert_eq!(whole.buffer, vec![0x09, 0xff]);
}

#[test]
fn header_byte_two_must_be_zero() {
    // Same bytes as the captured ACK, with byte 2 set and the checksum mended.
    let mut buffer = vec![0x09, 0xff, 0x55, 0x00, 0x01, 0x06, 0x81, 0x0a, 0x00, 0xef];
    assert!(Frame::take_frame(&mut buffer).unwrap().is_none());
    assert_eq!(buffer.len(), 8);
}
