use flight_terrain::{encode_frame, frame_body_len, FrameError, PlaneType, MAX_MESSAGE_SIZE};

#[test]
fn plane_type_defaults_to_light() {
    assert_eq!(PlaneType::default(), PlaneType::Light);
}

#[test]
fn frame_carries_length_then_body() {
    assert_eq!(encode_frame(&vec![7, 8, 9]), vec![3, 0, 0, 0, 7, 8, 9]);
    assert_eq!(encode_frame(&Vec::new()), vec![0, 0, 0, 0]);
    let body = vec![1u8; 300];
    let frame = encode_frame(&body);
    assert_eq!(&frame[..4], &[44, 1, 0, 0]);
    assert_eq!(&frame[4..], &body[..]);
}

#[test]
fn header_reads_little_endian() {
    assert_eq!(frame_body_len([44, 1, 0, 0]), Ok(300));
    assert_eq!(frame_body_len([0, 0, 0, 0]), Ok(0));
}

#[test]
fn header_at_the_size_limit() {
    assert_eq!(frame_body_len([0, 16, 0, 0]), Ok(MAX_MESSAGE_SIZE));
    assert_eq!(frame_body_len([1, 16, 0, 0]), Err(FrameError::TooLarge));
    assert_eq!(frame_body_len([255, 255, 255, 255]), Err(FrameError::TooLarge));
}

#[test]
fn header_round_trip() {
    for n in [0usize, 1, 255, 256, 4095, 4096] {
        let frame = encode_frame(&vec![0u8; n]);
        let header = [frame[0], frame[1], frame[2], frame[3]];
        assert_eq!(frame_body_len(header), Ok(n));
    }
}
