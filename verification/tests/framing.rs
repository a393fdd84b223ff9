use pingora_enclavia::framing::{drop_frame, encode_frame, peek_frame};

#[test]
fn a_frame_is_a_big_endian_length_and_the_payload() {
    assert_eq!(encode_frame(b"abc"), vec![0, 0, 0, 3, b'a', b'b', b'c']);
    assert_eq!(encode_frame(b""), vec![0, 0, 0, 0]);
    let long = vec![7u8; 0x1_02_03];
    assert_eq!(encode_frame(&long)[..5], [0, 1, 2, 3, 7]);
}

#[test]
fn frames_are_read_back_in_order() {
    let mut buf = encode_frame(b"one");
    buf.extend_from_slice(&encode_frame(b""));
    buf.extend_from_slice(&encode_frame(b"three"));
    buf.extend_from_slice(&[0, 0, 0, 9, 1]);
    assert_eq!(peek_frame(&buf), Some(b"one".to_vec()));
    drop_frame(&mut buf, 3);
    assert_eq!(peek_frame(&buf), Some(Vec::new()));
    drop_frame(&mut buf, 0);
    assert_eq!(peek_frame(&buf), Some(b"three".to_vec()));
    drop_frame(&mut buf, 5);
    assert_eq!(peek_frame(&buf), None);
    assert_eq!(buf, vec![0, 0, 0, 9, 1]);
}

#[test]
fn a_partial_frame_is_no_frame() {
    let whole = encode_frame(b"payload");
    for cut in 0..whole.len() {
        assert_eq!(peek_frame(&whole[..cut].to_vec()), None);
    }
    let mut more = whole.clone();
    more.push(42);
    assert_eq!(peek_frame(&more), peek_frame(&whole));
}
