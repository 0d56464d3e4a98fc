use bytes::{Bytes, BytesMut};
use mplex::codec::{Codec, DecodeError, State};
use mplex::message::{Flag, Message};

fn msg(id: u64, flag: Flag, data: &[u8]) -> Message {
    Message { stream_id: id, flag, data: Bytes::from(data) }
}

fn encoded(m: Message) -> Vec<u8> {
    let mut dst = BytesMut::new();
    Codec::new().encode(m, &mut dst).unwrap();
    dst.to_vec()
}

fn same(a: &Message, b: &Message) -> bool {
    a.stream_id == b.stream_id && a.flag == b.flag && a.data == b.data
}

#[test]
fn encode_exact_bytes() {
    assert_eq!(encoded(msg(3, Flag::Initiator, b"hi")), vec![(3 << 3) | 2, 2, b'h', b'i']);
    assert_eq!(encoded(msg(0, Flag::NewStream, b"")), vec![0, 0]);
    // Header 17 << 3 | 4 = 140 needs two bytes.
    assert_eq!(encoded(msg(17, Flag::Close, b"")), vec![0x8c, 0x01, 0]);
}

#[test]
fn encode_appends() {
    let mut dst = BytesMut::from(&b"xy"[..]);
    let r = Codec::new().encode(msg(1, Flag::Receiver, b"z"), &mut dst);
    assert!(r.is_ok());
    assert_eq!(&dst[..], &[b'x', b'y', (1 << 3) | 1, 1, b'z'][..]);
}

#[test]
fn decode_roundtrip() {
    let m = msg(42, Flag::Receiver, b"payload");
    let mut src = BytesMut::from(&encoded(msg(42, Flag::Receiver, b"payload"))[..]);
    src.extend_from_slice(b"rest");
    let mut codec = Codec::new();
    let got = codec.decode(&mut src).unwrap().unwrap();
    assert!(same(&got, &m));
    assert_eq!(&src[..], b"rest");
}

#[test]
fn decode_two_frames_in_order() {
    let mut bytes = encoded(msg(1, Flag::Initiator, b"a"));
    bytes.extend(encoded(msg(2, Flag::Receiver, b"bc")));
    let mut src = BytesMut::from(&bytes[..]);
    let mut codec = Codec::new();
    let a = codec.decode(&mut src).unwrap().unwrap();
    let b = codec.decode(&mut src).unwrap().unwrap();
    assert!(same(&a, &msg(1, Flag::Initiator, b"a")));
    assert!(same(&b, &msg(2, Flag::Receiver, b"bc")));
    assert!(codec.decode(&mut src).unwrap().is_none());
    assert!(src.is_empty());
}

#[test]
fn decode_byte_by_byte() {
    let m = msg(300, Flag::Initiator, &[7u8; 200]);
    let bytes = encoded(msg(300, Flag::Initiator, &[7u8; 200]));
    let mut codec = Codec::new();
    let mut src = BytesMut::new();
    let mut got = None;
    for (i, b) in bytes.iter().enumerate() {
        src.extend_from_slice(&[*b]);
        let r = codec.decode(&mut src).unwrap();
        if i + 1 < bytes.len() {
            assert!(r.is_none());
        } else {
            got = r;
        }
    }
    assert!(same(&got.unwrap(), &m));
}

#[test]
fn decode_split_anywhere() {
    let bytes = encoded(msg(9, Flag::Receiver, b"hello world"));
    for k in 0..bytes.len() {
        let mut codec = Codec::new();
        let mut src = BytesMut::from(&bytes[..k]);
        assert!(codec.decode(&mut src).unwrap().is_none());
        src.extend_from_slice(&bytes[k..]);
        let got = codec.decode(&mut src).unwrap().unwrap();
        assert!(same(&got, &msg(9, Flag::Receiver, b"hello world")));
        assert!(src.is_empty());
    }
}

#[test]
fn decode_unknown_flag_sticks() {
    // Header 3: stream 0, flag bits 3.
    let mut src = BytesMut::from(&[3u8, 0, 0, 0][..]);
    let mut codec = Codec::new();
    assert_eq!(codec.decode(&mut src).err(), Some(DecodeError::UnknownFlag));
    // The header byte was taken before the flag was checked.
    assert_eq!(src.len(), 3);
    src.extend_from_slice(&encoded(msg(1, Flag::Receiver, b"ok")));
    assert_eq!(codec.decode(&mut src).err(), Some(DecodeError::UnknownFlag));
    assert_eq!(src.len(), 3 + 4);
}

#[test]
fn decode_overflow() {
    let mut src = BytesMut::from(&[0xffu8; 11][..]);
    let mut codec = Codec::new();
    assert_eq!(codec.decode(&mut src).err(), Some(DecodeError::VarintOverflow));
    assert_eq!(src.len(), 11);
}

#[test]
fn decode_error_messages() {
    assert_eq!(DecodeError::UnknownFlag.message(), "unknown flag");
    assert_eq!(DecodeError::VarintOverflow.message(), "varint overflow");
}

#[test]
fn step_by_step() {
    let mut src = BytesMut::from(&[(5 << 3) | 2, 3, b'a', b'b'][..]);
    let r = State::Ready.step(&mut src).unwrap().unwrap();
    assert_eq!(r.0, State::Header { stream_id: 5, flag: Flag::Initiator });
    assert!(r.1.is_none());
    let r = r.0.step(&mut src).unwrap().unwrap();
    assert_eq!(r.0, State::Length { stream_id: 5, flag: Flag::Initiator, length: 3 });
    assert!(r.0.step(&mut src).unwrap().is_none());
    assert_eq!(&src[..], b"ab");
    src.extend_from_slice(b"c");
    let (next, m) = r.0.step(&mut src).unwrap().unwrap();
    assert_eq!(next, State::Ready);
    assert!(same(&m.unwrap(), &msg(5, Flag::Initiator, b"abc")));
}

#[test]
fn noncanonical_header_takes_canonical_length() {
    // 0x80 0x00 reads as header 0, whose shortest form is one byte: one byte
    // leaves the buffer and 0x00 is read as the length.
    let mut src = BytesMut::from(&[0x80u8, 0x00][..]);
    let mut codec = Codec::new();
    let got = codec.decode(&mut src).unwrap().unwrap();
    assert!(same(&got, &msg(0, Flag::NewStream, b"")));
    assert!(src.is_empty());
}

#[test]
fn decode_many_frames_in_pieces() {
    let frames = vec![
        msg(1, Flag::NewStream, b""),
        msg(1, Flag::Initiator, b"first"),
        msg(200, Flag::Receiver, &[5u8; 150]),
        msg(1, Flag::Close, b""),
    ];
    let mut bytes = Vec::new();
    for f in &frames {
        bytes.extend(encoded(msg(f.stream_id, f.flag, &f.data)));
    }
    for size in [1usize, 2, 3, 7, 64, bytes.len()] {
        let mut codec = Codec::new();
        let mut src = BytesMut::new();
        let mut got = Vec::new();
        for piece in bytes.chunks(size) {
            src.extend_from_slice(piece);
            while let Some(m) = codec.decode(&mut src).unwrap() {
                got.push(m);
            }
        }
        assert_eq!(got.len(), frames.len());
        for (g, f) in got.iter().zip(frames.iter()) {
            assert!(same(g, f));
        }
        assert!(src.is_empty());
    }
}
