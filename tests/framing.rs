use llrv::framing::{frame, header_body_len, split_frame, FrameSplit};

#[test]
fn frame_prefixes_big_endian_length() {
    let body = vec![1u8, 2, 3];
    let w = frame(&body).unwrap();
    assert_eq!(w, vec![0, 0, 0, 3, 1, 2, 3]);
    assert_eq!(header_body_len(&[0x01, 0x02, 0x03, 0x04]), 0x01020304);
}

#[test]
fn split_frame_takes_one_frame() {
    let w = vec![0, 0, 0, 2, 9, 8, 7];
    match split_frame(&w) {
        FrameSplit::Complete { body, consumed } => {
            assert_eq!(body, vec![9, 8]);
            assert_eq!(consumed, 6);
        }
        FrameSplit::Incomplete => panic!("expected a frame"),
    }
}

#[test]
fn split_frame_short_input_is_incomplete() {
    assert!(matches!(split_frame(&[0, 0, 0]), FrameSplit::Incomplete));
    assert!(matches!(split_frame(&[0, 0, 0, 10, 1, 2]), FrameSplit::Incomplete));
}
