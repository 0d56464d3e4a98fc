use bytes::Bytes;
use mplex::error::ErrorKind;
use mplex::message::{Flag, Message};
use mplex::varint::{read_varint, varint_len, write_varint, VarintRead};

#[test]
fn flag_codes() {
    assert_eq!(Flag::NewStream.into(), 0);
    assert_eq!(Flag::Receiver.into(), 1);
    assert_eq!(Flag::Initiator.into(), 2);
    assert_eq!(Flag::Close.into(), 4);
}

#[test]
fn flag_from_codes() {
    assert_eq!(Flag::try_from(0).unwrap(), Flag::NewStream);
    assert_eq!(Flag::try_from(1).unwrap(), Flag::Receiver);
    assert_eq!(Flag::try_from(2).unwrap(), Flag::Initiator);
    assert_eq!(Flag::try_from(4).unwrap(), Flag::Close);
    for code in [3u64, 5, 6, 7] {
        let e = Flag::try_from(code).unwrap_err();
        assert_eq!(e.kind, ErrorKind::InvalidData);
        assert_eq!(e.message, "unknown flag");
    }
}

#[test]
fn flag_code_roundtrip() {
    for f in [Flag::NewStream, Flag::Receiver, Flag::Initiator, Flag::Close] {
        assert_eq!(Flag::try_from(f.into()).unwrap(), f);
    }
}

#[test]
fn header_packs_id_and_flag() {
    let m = Message { stream_id: 5, flag: Flag::Close, data: Bytes::new() };
    assert_eq!(m.header(), (5 << 3) | 4);
    let m = Message { stream_id: 0, flag: Flag::Receiver, data: Bytes::new() };
    assert_eq!(m.header(), 1);
    let h = Message { stream_id: 1234567, flag: Flag::Initiator, data: Bytes::new() }.header();
    assert_eq!(h >> 3, 1234567);
    assert_eq!(h & 7, 2);
}

#[test]
fn header_drops_bits_past_61() {
    let m = Message { stream_id: u64::MAX, flag: Flag::NewStream, data: Bytes::new() };
    assert_eq!(m.header(), u64::MAX << 3);
}

#[test]
fn varint_known_encodings() {
    let mut out = Vec::new();
    write_varint(0, &mut out);
    assert_eq!(out, vec![0]);
    let mut out = Vec::new();
    write_varint(127, &mut out);
    assert_eq!(out, vec![0x7f]);
    let mut out = Vec::new();
    write_varint(128, &mut out);
    assert_eq!(out, vec![0x80, 0x01]);
    let mut out = vec![9];
    write_varint(300, &mut out);
    assert_eq!(out, vec![9, 0xac, 0x02]);
    let mut out = Vec::new();
    write_varint(u64::MAX, &mut out);
    assert_eq!(out, vec![0xff, 0xff, 0xff, 0xff, 0xff, 0xff, 0xff, 0xff, 0xff, 0x01]);
}

#[test]
fn varint_lengths() {
    assert_eq!(varint_len(0), 1);
    assert_eq!(varint_len(127), 1);
    assert_eq!(varint_len(128), 2);
    assert_eq!(varint_len(16383), 2);
    assert_eq!(varint_len(16384), 3);
    assert_eq!(varint_len(u64::MAX), 10);
}

#[test]
fn varint_reads() {
    assert_eq!(read_varint(&[0xac, 0x02, 0xff], u64::MAX), VarintRead::Value(300));
    assert_eq!(read_varint(&[0x05], u64::MAX), VarintRead::Value(5));
    assert_eq!(read_varint(&[], u64::MAX), VarintRead::Incomplete);
    assert_eq!(read_varint(&[0x80, 0x80], u64::MAX), VarintRead::Incomplete);
    // A longer form than needed still reads as its value.
    assert_eq!(read_varint(&[0x80, 0x00], u64::MAX), VarintRead::Value(0));
}

#[test]
fn varint_overflows() {
    let max = [0xff, 0xff, 0xff, 0xff, 0xff, 0xff, 0xff, 0xff, 0xff, 0x01];
    assert_eq!(read_varint(&max, u64::MAX), VarintRead::Value(u64::MAX));
    let over = [0xff, 0xff, 0xff, 0xff, 0xff, 0xff, 0xff, 0xff, 0xff, 0x02];
    assert_eq!(read_varint(&over, u64::MAX), VarintRead::Overflow);
    let long = [0x80u8; 10];
    assert_eq!(read_varint(&long, u64::MAX), VarintRead::Overflow);
    assert_eq!(read_varint(&[0xac, 0x02], 299), VarintRead::Overflow);
    assert_eq!(read_varint(&[0xac, 0x02], 300), VarintRead::Value(300));
}

#[test]
fn varint_roundtrip_values() {
    for v in [0u64, 1, 127, 128, 255, 300, 1 << 35, u64::MAX - 1, u64::MAX] {
        let mut out = Vec::new();
        write_varint(v, &mut out);
        assert_eq!(out.len(), varint_len(v));
        out.extend_from_slice(&[0x81, 0x82]);
        assert_eq!(read_varint(&out, u64::MAX), VarintRead::Value(v));
        for k in 0..varint_len(v) {
            assert_eq!(read_varint(&out[..k], u64::MAX), VarintRead::Incomplete);
        }
    }
}
