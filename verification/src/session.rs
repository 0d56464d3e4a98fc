//! A session: the frames that travel over one transport. The transport
//! itself is driven by its owner; the session turns the chunks that arrive
//! into frames and frames into the chunks that leave.
use vstd::prelude::*;
use bytes::BytesMut;
use crate::buffer::{buf_contents, buf_extend, buf_new};
use crate::codec::{
    encodable, lemma_decode_frame, result_view, spec_decode, spec_encode, Codec, DecodeError, State,
};
use crate::message::{Message, MessageModel};

verus! {

/// The receiving side of a transport: the bytes not yet decoded and the
/// decoder's state.
pub struct Session<S> {
    pub transport: S,
    pub buffer: BytesMut,
    pub codec: Codec,
}

impl<S> Session<S> {
    /// The bytes received and not yet decoded.
    pub open spec fn pending(&self) -> Seq<u8> {
        buf_contents(self.buffer)
    }

    /// Where decoding stands.
    pub open spec fn decoder(&self) -> Result<State, DecodeError> {
        self.codec@
    }

    /// A session over `transport`, with nothing received.
    pub fn new(transport: S) -> (s: Session<S>)
        ensures
            s.transport == transport,
            s.pending() == Seq::<u8>::empty(),
            s.decoder() == Ok::<State, DecodeError>(State::Ready),
    {
        Session { transport: transport, buffer: buf_new(), codec: Codec::new() }
    }

    /// Takes a chunk that arrived from the transport and decodes the next
    /// frame from everything received so far.
    pub fn receive(&mut self, chunk: &[u8]) -> (r: Result<Option<Message>, DecodeError>)
        requires
            old(self).pending().len() + chunk@.len() <= isize::MAX,
        ensures
            final(self).transport == old(self).transport,
            final(self).decoder() == spec_decode(old(self).decoder(), old(self).pending() + chunk@).0,
            final(self).pending() == spec_decode(old(self).decoder(), old(self).pending() + chunk@).1,
            result_view(r) == spec_decode(old(self).decoder(), old(self).pending() + chunk@).2,
    {
        buf_extend(&mut self.buffer, chunk);
        self.codec.decode(&mut self.buffer)
    }
}

/// The chunk that carries `item` over the transport.
pub fn frame(item: Message) -> (b: BytesMut)
    requires
        spec_encode(item@).len() <= isize::MAX,
    ensures
        buf_contents(b) == spec_encode(item@),
        item@.data.len() <= usize::MAX,
{
    let mut buffer = buf_new();
    let mut codec = Codec::new();
    let _ = codec.encode(item, &mut buffer);
    assert(Seq::<u8>::empty() + spec_encode(item@) =~= spec_encode(item@));
    buffer
}

/// The frame of a chunk that the transport handed back unsent. A chunk made
/// by `frame` always gives its frame back.
pub fn unframe(chunk: &mut BytesMut) -> (r: Result<Option<Message>, DecodeError>)
    ensures
        result_view(r) == spec_decode(Ok(State::Ready), buf_contents(*old(chunk))).2,
        buf_contents(*final(chunk)) == spec_decode(Ok(State::Ready), buf_contents(*old(chunk))).1,
        forall|m: MessageModel|
            encodable(m) && #[trigger] spec_encode(m) == buf_contents(*old(chunk)) ==> result_view(r)
                == Ok::<Option<MessageModel>, DecodeError>(Some(m)),
{
    let mut codec = Codec::new();
    let r = codec.decode(chunk);
    assert forall|m: MessageModel|
        encodable(m) && #[trigger] spec_encode(m) == buf_contents(*old(chunk)) implies result_view(r)
            == Ok::<Option<MessageModel>, DecodeError>(Some(m)) by {
        lemma_decode_frame(m, Seq::<u8>::empty());
        assert(spec_encode(m) + Seq::<u8>::empty() =~= spec_encode(m));
    }
    r
}

} // verus!
