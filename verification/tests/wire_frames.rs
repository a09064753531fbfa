use chat_rs::wire::{frame_msg, recv_msg, u32_to_be, FrameRead};

#[test]
fn length_prefix_is_big_endian() {
    assert_eq!(u32_to_be(0x01020304), vec![1u8, 2, 3, 4]);
    assert_eq!(u32_to_be(0), vec![0u8, 0, 0, 0]);
    assert_eq!(u32_to_be(u32::MAX), vec![0xFFu8, 0xFF, 0xFF, 0xFF]);
}

#[test]
fn frame_prepends_length() {
    let payload = vec![9u8, 8, 7];
    let framed = frame_msg(&payload).unwrap();
    assert_eq!(framed, vec![0u8, 0, 0, 3, 9, 8, 7]);
}

#[test]
fn frame_of_empty_payload() {
    let framed = frame_msg(&Vec::new()).unwrap();
    assert_eq!(framed, vec![0u8, 0, 0, 0]);
}

#[test]
fn recv_reads_back_framed_payload() {
    let payload = vec![1u8, 2, 3, 4, 5];
    let mut framed = frame_msg(&payload).unwrap();
    framed.extend_from_slice(&[42u8, 43]);
    match recv_msg(&framed) {
        FrameRead::Frame { payload: got, used } => {
            assert_eq!(got, payload);
            assert_eq!(used, 9);
        },
        FrameRead::NeedMore => panic!("a complete frame was buffered"),
    }
}

#[test]
fn recv_waits_for_length_prefix() {
    assert!(matches!(recv_msg(&[0u8, 0, 0]), FrameRead::NeedMore));
    assert!(matches!(recv_msg(&[]), FrameRead::NeedMore));
}

#[test]
fn recv_waits_for_full_payload() {
    assert!(matches!(recv_msg(&[0u8, 0, 0, 5, 1, 2]), FrameRead::NeedMore));
}
