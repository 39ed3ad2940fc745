use socket_snake::frame::{encode_frame, FrameDecoder, FrameError, TCP_BUFFER_SIZE};

fn payloads() -> Vec<Vec<u8>> {
    vec![vec![1, 2, 3], vec![], vec![9; 300], vec![0, 255, 7]]
}

#[test]
fn frame_has_length_prefix() {
    assert_eq!(encode_frame(&[1, 2, 3]), vec![3, 0, 0, 0, 1, 2, 3]);
    assert_eq!(encode_frame(&[]), vec![0, 0, 0, 0]);
    let big = vec![5u8; 258];
    let f = encode_frame(&big);
    assert_eq!(&f[..4], &[2, 1, 0, 0]);
    assert_eq!(f.len(), 262);
}

#[test]
fn round_trip_any_chunking() {
    let mut bytes = Vec::new();
    for p in payloads() {
        bytes.extend(encode_frame(&p));
    }
    for size in 1..=bytes.len() {
        let mut d = FrameDecoder::new(TCP_BUFFER_SIZE);
        let mut got = Vec::new();
        for chunk in bytes.chunks(size) {
            got.extend(d.push(chunk).unwrap());
        }
        assert_eq!(got, payloads());
        assert_eq!(d.push(&[]).unwrap(), Vec::<Vec<u8>>::new());
    }
}

#[test]
fn partial_frame_waits_for_rest() {
    let f = encode_frame(&[4, 5, 6, 7]);
    let mut d = FrameDecoder::new(16);
    assert!(d.push(&f[..2]).unwrap().is_empty());
    assert!(d.push(&f[2..6]).unwrap().is_empty());
    assert_eq!(d.push(&f[6..]).unwrap(), vec![vec![4, 5, 6, 7]]);
}

#[test]
fn oversized_frame_is_refused() {
    let mut d = FrameDecoder::new(2);
    assert_eq!(d.push(&encode_frame(&[1, 2, 3])), Err(FrameError::Oversized));
    let mut e = FrameDecoder::new(3);
    assert_eq!(e.push(&encode_frame(&[1, 2, 3])).unwrap(), vec![vec![1, 2, 3]]);
}
