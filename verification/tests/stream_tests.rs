use bytes::Bytes;
use mplex::error::ErrorKind;
use mplex::message::{Flag, Message};
use mplex::multiplexer::{Delivery, Multiplexer, Routing};
use mplex::stream::{ChannelOutcome, CloseStep, Incoming, MultiplexStream, ReadStep, SinkImpl};

#[test]
fn initiator_ids_are_even() {
    let mut m = Multiplexer::new(true);
    assert_eq!(m.new_stream(), 0);
    assert_eq!(m.new_stream(), 2);
    assert_eq!(m.next_id(), 4);
    assert_eq!(m.new_stream(), 6);
}

#[test]
fn receiver_ids_are_odd() {
    let mut m = Multiplexer::new(false);
    assert_eq!(m.new_stream(), 1);
    assert_eq!(m.new_stream(), 3);
}

#[test]
fn routing_incoming_frames() {
    let mut m = Multiplexer::new(true);
    let id = m.new_stream();
    assert_eq!(m.route(id, Flag::Receiver), Routing::Deliver);
    assert_eq!(m.route(9, Flag::Receiver), Routing::Drop);
    assert_eq!(m.route(9, Flag::NewStream), Routing::Open);
    assert_eq!(m.route(9, Flag::Initiator), Routing::Deliver);
    assert_eq!(m.route(9, Flag::NewStream), Routing::Deliver);
    m.delivered(9, Delivery::Closed);
    assert_eq!(m.route(9, Flag::Initiator), Routing::Drop);
    m.transport_closed();
    assert_eq!(m.route(id, Flag::Receiver), Routing::Drop);
}

#[test]
fn busy_streams_settle() {
    let mut m = Multiplexer::new(true);
    let a = m.new_stream();
    let b = m.new_stream();
    m.delivered(a, Delivery::Accepted);
    m.delivered(b, Delivery::Accepted);
    m.delivered(a, Delivery::Full);
    m.delivered(a, Delivery::Accepted);
    assert_eq!(m.busy_streams(), &[a, b, a][..]);
    m.settle_busy(&[true, false, false]);
    assert_eq!(m.busy_streams(), &[a][..]);
    m.delivered(a, Delivery::Closed);
    m.settle_busy(&[true]);
    assert!(m.busy_streams().is_empty());
}

#[test]
fn initiate_announces_stream() {
    let (s, announce) = MultiplexStream::initiate(6);
    assert_eq!(announce.stream_id, 6);
    assert_eq!(announce.flag, Flag::NewStream);
    assert!(announce.data.is_empty());
    assert_eq!(s.sink(), SinkImpl::Active { id: 6, flag: Flag::Initiator });
    let m = s.write(b"hello");
    assert_eq!(m.stream_id, 6);
    assert_eq!(m.flag, Flag::Initiator);
    assert_eq!(&m.data[..], b"hello");
}

#[test]
fn received_stream_flags() {
    let s = MultiplexStream::receive(3);
    assert_eq!(s.sink(), SinkImpl::Active { id: 3, flag: Flag::Receiver });
    match s.accept(Message { stream_id: 3, flag: Flag::Initiator, data: Bytes::from(&b"d"[..]) }) {
        Incoming::Data(d) => assert_eq!(&d[..], b"d"),
        _ => panic!("expected data"),
    }
    assert!(matches!(
        s.accept(Message { stream_id: 3, flag: Flag::Close, data: Bytes::new() }),
        Incoming::Finished
    ));
    match s.accept(Message { stream_id: 3, flag: Flag::Receiver, data: Bytes::new() }) {
        Incoming::Failed(e) => {
            assert_eq!(e.kind, ErrorKind::InvalidData);
            assert_eq!(e.message, "Unexpected flag value Initiator");
        }
        _ => panic!("expected an error"),
    }
}

#[test]
fn read_in_pieces() {
    let mut s = MultiplexStream::receive(1);
    let mut buf = [0u8; 4];
    assert_eq!(s.read(&mut buf), ReadStep::NeedData);
    s.supply(Some(Bytes::from(&b"abcdef"[..])));
    assert_eq!(s.read(&mut buf), ReadStep::Data(4));
    assert_eq!(&buf, b"abcd");
    let mut buf = [9u8; 4];
    assert_eq!(s.read(&mut buf), ReadStep::Data(2));
    assert_eq!(&buf, &[b'e', b'f', 9, 9]);
    assert_eq!(s.read(&mut buf), ReadStep::NeedData);
    let mut empty: [u8; 0] = [];
    s.supply(Some(Bytes::from(&b"g"[..])));
    assert_eq!(s.read(&mut empty), ReadStep::Data(0));
    s.supply(None);
    assert_eq!(s.read(&mut buf), ReadStep::End);
}

#[test]
fn close_sequence() {
    let (mut s, _) = MultiplexStream::initiate(8);
    assert!(matches!(s.shutdown(), CloseStep::Pending));
    assert_eq!(s.sink(), SinkImpl::ClosingMessage { id: 8 });
    match s.shutdown() {
        CloseStep::SendClose(m) => {
            assert_eq!(m.stream_id, 8);
            assert_eq!(m.flag, Flag::Close);
            assert!(m.data.is_empty());
        }
        _ => panic!("expected the close frame"),
    }
    s.shutdown_outcome(ChannelOutcome::NotReady);
    assert_eq!(s.sink(), SinkImpl::ClosingMessage { id: 8 });
    assert!(matches!(s.shutdown(), CloseStep::SendClose(_)));
    s.shutdown_outcome(ChannelOutcome::Ready);
    assert_eq!(s.sink(), SinkImpl::ClosingOutgoing);
    assert!(matches!(s.shutdown(), CloseStep::CloseChannel));
    s.shutdown_outcome(ChannelOutcome::Ready);
    assert_eq!(s.sink(), SinkImpl::Closed);
    assert!(matches!(s.shutdown(), CloseStep::Finished));
    assert_eq!(s.sink(), SinkImpl::Closed);
}

#[test]
fn close_failure_closes() {
    let mut sink = SinkImpl::ClosingOutgoing;
    sink.close_outcome(ChannelOutcome::Failed);
    assert_eq!(sink, SinkImpl::Closed);
    let mut sink = SinkImpl::ClosingMessage { id: 2 };
    sink.close_outcome(ChannelOutcome::Failed);
    assert_eq!(sink, SinkImpl::Closed);
}

#[test]
fn reads_deliver_payloads_in_order() {
    let mut s = MultiplexStream::receive(5);
    let frames = vec![
        Message { stream_id: 5, flag: Flag::Initiator, data: Bytes::from(&b"ab"[..]) },
        Message { stream_id: 5, flag: Flag::Initiator, data: Bytes::new() },
        Message { stream_id: 5, flag: Flag::Initiator, data: Bytes::from(&b"cde"[..]) },
        Message { stream_id: 5, flag: Flag::Close, data: Bytes::new() },
        Message { stream_id: 5, flag: Flag::Initiator, data: Bytes::from(&b"late"[..]) },
    ];
    let mut queue = frames.into_iter();
    let mut out = Vec::new();
    let mut buf = [0u8; 2];
    loop {
        match s.read(&mut buf) {
            ReadStep::Data(n) => {
                assert!(n > 0);
                out.extend_from_slice(&buf[..n]);
            }
            ReadStep::End => break,
            ReadStep::NeedData => match queue.next().map(|m| s.accept(m)) {
                Some(Incoming::Data(d)) => s.supply(Some(d)),
                Some(Incoming::Finished) | None => s.supply(None),
                Some(Incoming::Failed(_)) => panic!("unexpected error"),
            },
        }
    }
    assert_eq!(out, b"abcde");
    assert_eq!(s.read(&mut buf), ReadStep::End);
    assert_eq!(queue.len(), 1);
}

#[test]
fn stream_state_getters() {
    let mut s = MultiplexStream::receive(2);
    assert!(!s.done());
    assert_eq!(s.position(), 0);
    s.supply(Some(Bytes::from(&b"xyz"[..])));
    let mut buf = [0u8; 1];
    assert_eq!(s.read(&mut buf), ReadStep::Data(1));
    assert_eq!(s.position(), 1);
    assert_eq!(&s.buffer()[..], b"xyz");
    s.supply(None);
    assert!(s.done());
}

#[test]
fn next_id_parity() {
    let mut m = Multiplexer::new(false);
    assert_eq!(m.counter(), 0);
    assert_eq!(m.next_id(), 1);
    assert_eq!(m.counter(), 2);
    assert_eq!(m.next_id(), 3);
    assert!(!m.initiator());
}

#[test]
fn reads_end_when_channel_ends() {
    let mut s = MultiplexStream::initiate(4).0;
    let mut queue = vec![
        Message { stream_id: 4, flag: Flag::Receiver, data: Bytes::from(&b"pq"[..]) },
        Message { stream_id: 4, flag: Flag::Receiver, data: Bytes::from(&b"r"[..]) },
    ]
    .into_iter();
    let mut out = Vec::new();
    let mut buf = [0u8; 8];
    loop {
        match s.read(&mut buf) {
            ReadStep::Data(n) => out.extend_from_slice(&buf[..n]),
            ReadStep::End => break,
            ReadStep::NeedData => match queue.next().map(|m| s.accept(m)) {
                Some(Incoming::Data(d)) => s.supply(Some(d)),
                _ => s.supply(None),
            },
        }
    }
    assert_eq!(out, b"pqr");
}
