use bytes::{Bytes, BytesMut};
use mplex::codec::DecodeError;
use mplex::error::{other, unknown, ErrorKind};
use mplex::message::{Flag, Message};
use mplex::session::{frame, unframe, Session};

#[test]
fn session_decodes_across_chunks() {
    let mut s = Session::new(7u32);
    assert_eq!(s.transport, 7);
    let bytes = frame(Message { stream_id: 4, flag: Flag::Receiver, data: Bytes::from(&b"abc"[..]) });
    assert!(s.receive(&bytes[..2]).unwrap().is_none());
    let m = s.receive(&bytes[2..]).unwrap().unwrap();
    assert_eq!(m.stream_id, 4);
    assert_eq!(m.flag, Flag::Receiver);
    assert_eq!(&m.data[..], b"abc");
    assert!(s.buffer.is_empty());
}

#[test]
fn session_keeps_second_frame_buffered() {
    let mut s = Session::new(());
    let mut bytes = frame(Message { stream_id: 1, flag: Flag::NewStream, data: Bytes::new() }).to_vec();
    bytes.extend_from_slice(&frame(Message { stream_id: 1, flag: Flag::Initiator, data: Bytes::from(&b"x"[..]) }));
    let m = s.receive(&bytes).unwrap().unwrap();
    assert_eq!(m.flag, Flag::NewStream);
    let m = s.receive(&[]).unwrap().unwrap();
    assert_eq!(m.flag, Flag::Initiator);
    assert_eq!(&m.data[..], b"x");
}

#[test]
fn session_error() {
    let mut s = Session::new(());
    assert_eq!(s.receive(&[6]).err(), Some(DecodeError::UnknownFlag));
}

#[test]
fn unframe_gives_frame_back() {
    let mut b = frame(Message { stream_id: 77, flag: Flag::Close, data: Bytes::from(&b"bye"[..]) });
    let m = unframe(&mut b).unwrap().unwrap();
    assert_eq!(m.stream_id, 77);
    assert_eq!(m.flag, Flag::Close);
    assert_eq!(&m.data[..], b"bye");
    let mut partial = BytesMut::from(&[0x80u8][..]);
    assert!(unframe(&mut partial).unwrap().is_none());
}

#[test]
fn error_constructors() {
    let e = unknown(());
    assert_eq!(e.kind, ErrorKind::Other);
    assert_eq!(e.message, "Unknown error");
    let e = other("channel closed".to_string());
    assert_eq!(e.kind, ErrorKind::Other);
    assert_eq!(e.message, "channel closed");
}
