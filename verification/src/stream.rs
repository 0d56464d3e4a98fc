//! One stream of a multiplexed connection: the bytes received on it, read out
//! in order, and the state machine of its sending half.
use vstd::prelude::*;
use bytes::Bytes;
use crate::buffer::{bytes_as_slice, bytes_contents, bytes_empty, bytes_from_slice};
use crate::error::{Error, ErrorKind};
use crate::message::{Flag, Message, MessageModel};

verus! {

/// The sending half of a stream.
#[derive(Eq, PartialEq, Structural, Debug, Clone, Copy)]
pub enum SinkImpl {
    /// Open: frames go out for stream `id` with flag `flag`.
    Active { id: u64, flag: Flag },
    /// Closing: the frame that closes stream `id` is still to be sent.
    ClosingMessage { id: u64 },
    /// Closing: the close frame is sent; the channel is still to be closed.
    ClosingOutgoing,
    /// Closed.
    Closed,
}

/// What closing the sending half asks of its owner.
pub enum CloseStep {
    /// Nothing now; ask again.
    Pending,
    /// The sending half is closed.
    Finished,
    /// Send this frame, then report how that went.
    SendClose(Message),
    /// Close the outgoing channel, then report how that went.
    CloseChannel,
}

/// How an operation on the outgoing channel went.
#[derive(Eq, PartialEq, Structural, Debug, Clone, Copy)]
pub enum ChannelOutcome {
    /// It is done.
    Ready,
    /// It could not be done yet.
    NotReady,
    /// The channel failed.
    Failed,
}

/// The frame that closes stream `id`.
pub open spec fn close_frame(id: u64) -> MessageModel {
    MessageModel { stream_id: id, flag: Flag::Close, data: Seq::<u8>::empty() }
}

/// Where closing stands after an outside operation with `outcome`: a failure
/// leaves the half closed; a sent close frame moves on to closing the
/// channel, and a closed channel to closed.
pub open spec fn after_outcome(s: SinkImpl, outcome: ChannelOutcome) -> SinkImpl {
    match outcome {
        ChannelOutcome::Failed => SinkImpl::Closed,
        ChannelOutcome::NotReady => s,
        ChannelOutcome::Ready => match s {
            SinkImpl::ClosingMessage { .. } => SinkImpl::ClosingOutgoing,
            _ => SinkImpl::Closed,
        },
    }
}

impl SinkImpl {
    /// The frame that carries `item` out on an open stream. Sending on a
    /// half that is closing or closed is a caller's error.
    pub fn start_send(&self, item: Bytes) -> (m: Message)
        requires
            self is Active,
        ensures
            m@ == (MessageModel {
                stream_id: self->Active_id,
                flag: self->Active_flag,
                data: bytes_contents(item),
            }),
    {
        match *self {
            SinkImpl::Active { id, flag } => Message { stream_id: id, flag: flag, data: item },
            _ => {
                assert(false);
                Message { stream_id: 0, flag: Flag::Close, data: item }
            },
        }
    }

    /// One step of closing: an open half starts closing; a closing half asks
    /// for the close frame to be sent, then for the channel to be closed; a
    /// closed half is finished.
    pub fn close(&mut self) -> (step: CloseStep)
        ensures
            match *old(self) {
                SinkImpl::Active { id, .. } => *final(self) == SinkImpl::ClosingMessage { id }
                    && step is Pending,
                SinkImpl::ClosingMessage { id } => *final(self) == *old(self) && (step matches CloseStep::SendClose(m) && m@ == close_frame(id)),
                SinkImpl::ClosingOutgoing => *final(self) == *old(self) && step is CloseChannel,
                SinkImpl::Closed => *final(self) == *old(self) && step is Finished,
            },
    {
        match *self {
            SinkImpl::Active { id, .. } => {
                *self = SinkImpl::ClosingMessage { id };
                CloseStep::Pending
            },
            SinkImpl::ClosingMessage { id } => {
                let data = bytes_empty();
                CloseStep::SendClose(Message { stream_id: id, flag: Flag::Close, data })
            },
            SinkImpl::ClosingOutgoing => CloseStep::CloseChannel,
            SinkImpl::Closed => CloseStep::Finished,
        }
    }

    /// Records how the operation that `close` asked for went.
    pub fn close_outcome(&mut self, outcome: ChannelOutcome)
        requires
            *old(self) is ClosingMessage || *old(self) is ClosingOutgoing,
        ensures
            *final(self) == after_outcome(*old(self), outcome),
            outcome == ChannelOutcome::NotReady ==> *final(self) == *old(self),
            outcome == ChannelOutcome::Failed ==> *final(self) == SinkImpl::Closed,
            outcome == ChannelOutcome::Ready && *old(self) is ClosingMessage ==> *final(self)
                == SinkImpl::ClosingOutgoing,
            outcome == ChannelOutcome::Ready && *old(self) is ClosingOutgoing ==> *final(self)
                == SinkImpl::Closed,
    {
        match outcome {
            ChannelOutcome::Failed => {
                *self = SinkImpl::Closed;
            },
            ChannelOutcome::NotReady => {},
            ChannelOutcome::Ready => {
                *self = match *self {
                    SinkImpl::ClosingMessage { .. } => SinkImpl::ClosingOutgoing,
                    _ => SinkImpl::Closed,
                };
            },
        }
    }
}

/// An open sending half closes after three steps when every channel
/// operation succeeds, and a closed half stays closed.
pub proof fn lemma_close_sequence(id: u64, flag: Flag)
    ensures
        after_outcome(
            after_outcome(SinkImpl::ClosingMessage { id }, ChannelOutcome::Ready),
            ChannelOutcome::Ready,
        ) == SinkImpl::Closed,
        forall|o: ChannelOutcome| after_outcome(SinkImpl::Closed, o) == SinkImpl::Closed,
{
}

/// What a channel operation that closing asked for did, as its owner sees it.
pub enum CloseEffect {
    /// The close frame of this stream id was accepted.
    SendAccepted(u64),
    /// The close frame was not accepted yet.
    SendRefused,
    /// Sending the close frame failed.
    SendFailed,
    /// The outgoing channel closed.
    ChannelDone,
    /// The outgoing channel did not close yet.
    ChannelPending,
    /// Closing the outgoing channel failed.
    ChannelFailed,
}

/// Orders the sending half's states by how far they are from closed.
pub open spec fn close_rank(s: SinkImpl) -> nat {
    match s {
        SinkImpl::Active { .. } => 3,
        SinkImpl::ClosingMessage { .. } => 2,
        SinkImpl::ClosingOutgoing => 1,
        SinkImpl::Closed => 0,
    }
}

/// The channel operations of an owner that keeps calling `close` on `s`,
/// performs what each step asks for, and reports `outcomes[i]` for the
/// `i`-th operation, until the half is closed or the outcomes run out.
pub open spec fn close_run(s: SinkImpl, outcomes: Seq<ChannelOutcome>) -> Seq<CloseEffect>
    decreases outcomes.len(), close_rank(s),
{
    match s {
        SinkImpl::Active { id, .. } => close_run(SinkImpl::ClosingMessage { id }, outcomes),
        SinkImpl::ClosingMessage { id } => if outcomes.len() == 0 {
            Seq::<CloseEffect>::empty()
        } else {
            let effect = match outcomes[0] {
                ChannelOutcome::Ready => CloseEffect::SendAccepted(id),
                ChannelOutcome::NotReady => CloseEffect::SendRefused,
                ChannelOutcome::Failed => CloseEffect::SendFailed,
            };
            seq![effect] + close_run(after_outcome(s, outcomes[0]), outcomes.drop_first())
        },
        SinkImpl::ClosingOutgoing => if outcomes.len() == 0 {
            Seq::<CloseEffect>::empty()
        } else {
            let effect = match outcomes[0] {
                ChannelOutcome::Ready => CloseEffect::ChannelDone,
                ChannelOutcome::NotReady => CloseEffect::ChannelPending,
                ChannelOutcome::Failed => CloseEffect::ChannelFailed,
            };
            seq![effect] + close_run(after_outcome(s, outcomes[0]), outcomes.drop_first())
        },
        SinkImpl::Closed => Seq::<CloseEffect>::empty(),
    }
}

/// Whether an effect is an operation on the outgoing channel itself.
pub open spec fn is_channel_effect(e: CloseEffect) -> bool {
    e is ChannelDone || e is ChannelPending || e is ChannelFailed
}

proof fn lemma_close_run_after_frame(s: SinkImpl, outcomes: Seq<ChannelOutcome>)
    requires
        s is ClosingOutgoing || s is Closed,
    ensures
        forall|i: int| 0 <= i < close_run(s, outcomes).len() ==> is_channel_effect(
            #[trigger] close_run(s, outcomes)[i],
        ),
    decreases outcomes.len(),
{
    if s is ClosingOutgoing && outcomes.len() > 0 {
        let next = after_outcome(s, outcomes[0]);
        lemma_close_run_after_frame(next, outcomes.drop_first());
        let rest = close_run(next, outcomes.drop_first());
        let run = close_run(s, outcomes);
        assert forall|i: int| 0 <= i < run.len() implies is_channel_effect(#[trigger] run[i]) by {
            if i > 0 {
                assert(run[i] == rest[i - 1]);
            }
        }
    }
}

/// Closing a stream sends its close frame at most once: whatever the channel
/// reports, at most one close frame is accepted, it carries the stream's id,
/// and the outgoing channel is closed only after it was accepted. A refused
/// close frame is offered again.
pub proof fn lemma_close_frame_once(s: SinkImpl, outcomes: Seq<ChannelOutcome>)
    requires
        s is Active || s is ClosingMessage,
    ensures
        ({
            let run = close_run(s, outcomes);
            let id = match s {
                SinkImpl::Active { id, .. } => id,
                SinkImpl::ClosingMessage { id } => id,
                _ => 0,
            };
            &&& forall|i: int, j: int|
                0 <= i < j < run.len() && #[trigger] run[i] is SendAccepted ==> !(#[trigger] run[j] is SendAccepted)
            &&& forall|i: int| 0 <= i < run.len() && #[trigger] run[i] is SendAccepted ==> run[i]->0 == id
            &&& forall|i: int|
                0 <= i < run.len() && is_channel_effect(#[trigger] run[i]) ==> exists|j: int|
                    0 <= j < i && #[trigger] run[j] is SendAccepted
        }),
    decreases outcomes.len(), close_rank(s),
{
    if let SinkImpl::Active { id, .. } = s {
        lemma_close_frame_once(SinkImpl::ClosingMessage { id }, outcomes);
    } else if outcomes.len() > 0 {
        let id = s->ClosingMessage_id;
        let next = after_outcome(s, outcomes[0]);
        let rest = close_run(next, outcomes.drop_first());
        let run = close_run(s, outcomes);
        assert(forall|i: int| 0 < i < run.len() ==> run[i] == rest[i - 1]);
        match outcomes[0] {
            ChannelOutcome::Ready => {
                lemma_close_run_after_frame(next, outcomes.drop_first());
                assert(run[0] is SendAccepted);
                assert forall|i: int| 0 < i < run.len() implies is_channel_effect(#[trigger] run[i]) by {
                    assert(run[i] == rest[i - 1]);
                }
            },
            ChannelOutcome::NotReady => {
                lemma_close_frame_once(next, outcomes.drop_first());
                assert forall|i: int|
                    0 <= i < run.len() && is_channel_effect(#[trigger] run[i]) implies exists|j: int|
                        0 <= j < i && #[trigger] run[j] is SendAccepted by {
                    assert(i > 0);
                    assert(is_channel_effect(rest[i - 1]));
                    let j = choose|j: int| 0 <= j < i - 1 && #[trigger] rest[j] is SendAccepted;
                    assert(run[j + 1] == rest[j]);
                }
            },
            ChannelOutcome::Failed => {
                assert(rest.len() == 0);
            },
        }
    }
}

/// An operation that is not done yet changes nothing: the half stays where
/// it was, so the same operation is asked for again. Only a done or failed
/// operation moves closing on, and only a failure or a closed channel ends
/// it.
pub proof fn lemma_not_ready_keeps_state(s: SinkImpl, outcome: ChannelOutcome)
    ensures
        after_outcome(s, ChannelOutcome::NotReady) == s,
        s != SinkImpl::Closed && after_outcome(s, outcome) == SinkImpl::Closed ==> outcome
            == ChannelOutcome::Failed || (outcome == ChannelOutcome::Ready && !(s is ClosingMessage)),
        s is ClosingMessage && outcome == ChannelOutcome::Ready ==> after_outcome(s, outcome)
            == SinkImpl::ClosingOutgoing,
{
}

/// Closing ends only at a channel operation that is done or failed: when the
/// run stops before the outcomes are used up, its last effect is the
/// channel's close, or a failure. So a channel close that is not done yet is
/// always asked for again.
pub proof fn lemma_close_run_ends_at_done(s: SinkImpl, outcomes: Seq<ChannelOutcome>)
    requires
        !(s is Closed),
    ensures
        ({
            let run = close_run(s, outcomes);
            &&& run.len() <= outcomes.len()
            &&& run.len() < outcomes.len() ==> run.len() > 0 && (run.last() is ChannelDone
                || run.last() is SendFailed || run.last() is ChannelFailed)
            &&& forall|i: int|
                0 <= i < run.len() - 1 && #[trigger] run[i] is ChannelPending ==> is_channel_effect(
                    run[i + 1],
                )
        }),
    decreases outcomes.len(), close_rank(s),
{
    if let SinkImpl::Active { id, .. } = s {
        lemma_close_run_ends_at_done(SinkImpl::ClosingMessage { id }, outcomes);
    } else if outcomes.len() > 0 {
        let o = outcomes[0];
        let next = after_outcome(s, o);
        let rest = close_run(next, outcomes.drop_first());
        let run = close_run(s, outcomes);
        assert(run == seq![run[0]] + rest);
        assert(forall|i: int| 0 < i < run.len() ==> run[i] == rest[i - 1]);
        if !(next is Closed) {
            lemma_close_run_ends_at_done(next, outcomes.drop_first());
            if rest.len() > 0 {
                assert(run.last() == rest.last());
            }
            if o == ChannelOutcome::NotReady && s is ClosingOutgoing {
                assert(next is ClosingOutgoing);
                if rest.len() > 0 {
                    lemma_close_run_after_frame(next, outcomes.drop_first());
                    assert(is_channel_effect(rest[0]));
                }
            }
            assert forall|i: int|
                0 <= i < run.len() - 1 && #[trigger] run[i] is ChannelPending implies is_channel_effect(
                    run[i + 1],
                ) by {
                if i == 0 {
                    assert(s is ClosingOutgoing && o == ChannelOutcome::NotReady);
                    lemma_close_run_after_frame(next, outcomes.drop_first());
                    assert(run[1] == rest[0]);
                } else {
                    assert(run[i] == rest[i - 1]);
                    assert(run[i + 1] == rest[i]);
                }
            }
        } else {
            assert(rest.len() == 0);
        }
    }
}

/// What a frame received on a stream means for its reader.
pub enum Incoming {
    /// Payload for the reader.
    Data(Bytes),
    /// The peer closed the stream.
    Finished,
    /// A frame this stream cannot take.
    Failed(Error),
}

/// The description of the error for a frame whose flag is not the one the
/// stream expects.
pub open spec fn unexpected_message(expected: Flag) -> Seq<char> {
    match expected {
        Flag::NewStream => "Unexpected flag value NewStream"@,
        Flag::Receiver => "Unexpected flag value Receiver"@,
        Flag::Initiator => "Unexpected flag value Initiator"@,
        Flag::Close => "Unexpected flag value Close"@,
    }
}

fn unexpected_flag(expected: Flag) -> (e: Error)
    ensures
        e.kind == ErrorKind::InvalidData,
        e.message@ == unexpected_message(expected),
{
    let message = match expected {
        Flag::NewStream => "Unexpected flag value NewStream".to_owned(),
        Flag::Receiver => "Unexpected flag value Receiver".to_owned(),
        Flag::Initiator => "Unexpected flag value Initiator".to_owned(),
        Flag::Close => "Unexpected flag value Close".to_owned(),
    };
    Error { kind: ErrorKind::InvalidData, message }
}

/// What a read asks of its owner.
#[derive(Eq, PartialEq, Structural, Debug, Clone, Copy)]
pub enum ReadStep {
    /// This many bytes were copied into the caller's buffer.
    Data(usize),
    /// The stream has ended.
    End,
    /// Nothing is buffered: fetch the next chunk and hand it to `supply`.
    NeedData,
}

/// A stream's state as plain values.
pub struct StreamView {
    /// Whether the incoming side has ended.
    pub done: bool,
    /// The current incoming chunk.
    pub buffer: Seq<u8>,
    /// How much of the chunk has been read.
    pub position: nat,
    /// The flag that the peer's data frames on this stream carry.
    pub incoming: Flag,
    /// The sending half.
    pub sink: SinkImpl,
}

/// One stream of a multiplexed connection.
pub struct MultiplexStream {
    done: bool,
    buffer: Bytes,
    position: usize,
    incoming: Flag,
    sink: SinkImpl,
}

impl View for MultiplexStream {
    type V = StreamView;

    closed spec fn view(&self) -> StreamView {
        StreamView {
            done: self.done,
            buffer: bytes_contents(self.buffer),
            position: self.position as nat,
            incoming: self.incoming,
            sink: self.sink,
        }
    }
}

impl MultiplexStream {
    #[verifier::type_invariant]
    closed spec fn wf(self) -> bool {
        self.position <= bytes_contents(self.buffer).len()
    }

    /// Opens stream `id` from this side: the stream, and the frame that
    /// announces it to the peer. The peer's data frames carry `Receiver`,
    /// this side's carry `Initiator`.
    pub fn initiate(id: u64) -> (r: (MultiplexStream, Message))
        ensures
            r.0@ == (StreamView {
                done: false,
                buffer: Seq::<u8>::empty(),
                position: 0,
                incoming: Flag::Receiver,
                sink: SinkImpl::Active { id, flag: Flag::Initiator },
            }),
            r.1@ == (MessageModel { stream_id: id, flag: Flag::NewStream, data: Seq::<u8>::empty() }),
    {
        let announce = Message { stream_id: id, flag: Flag::NewStream, data: bytes_empty() };
        let stream = MultiplexStream {
            done: false,
            buffer: bytes_empty(),
            position: 0,
            incoming: Flag::Receiver,
            sink: SinkImpl::Active { id, flag: Flag::Initiator },
        };
        (stream, announce)
    }

    /// The stream `id` that the peer opened. The peer's data frames carry
    /// `Initiator`, this side's carry `Receiver`.
    pub fn receive(id: u64) -> (s: MultiplexStream)
        ensures
            s@ == (StreamView {
                done: false,
                buffer: Seq::<u8>::empty(),
                position: 0,
                incoming: Flag::Initiator,
                sink: SinkImpl::Active { id, flag: Flag::Receiver },
            }),
    {
        MultiplexStream {
            done: false,
            buffer: bytes_empty(),
            position: 0,
            incoming: Flag::Initiator,
            sink: SinkImpl::Active { id, flag: Flag::Receiver },
        }
    }

    /// Whether the incoming side has ended.
    pub fn done(&self) -> (b: bool)
        ensures
            b == self@.done,
    {
        self.done
    }

    /// The current incoming chunk.
    pub fn buffer(&self) -> (b: &Bytes)
        ensures
            bytes_contents(*b) == self@.buffer,
    {
        &self.buffer
    }

    /// How much of the current chunk has been read.
    pub fn position(&self) -> (n: usize)
        ensures
            n == self@.position,
            n <= self@.buffer.len(),
    {
        proof {
            use_type_invariant(self);
        }
        self.position
    }

    /// The sending half.
    pub fn sink(&self) -> (s: SinkImpl)
        ensures
            s == self@.sink,
    {
        self.sink
    }

    /// What a frame from the peer on this stream means: payload when it
    /// carries the peer's data flag, the end of the stream when it carries
    /// `Close`, an error otherwise.
    pub fn accept(&self, msg: Message) -> (r: Incoming)
        ensures
            msg.flag == self@.incoming ==> (r matches Incoming::Data(d) && bytes_contents(d)
                == bytes_contents(msg.data)),
            msg.flag != self@.incoming && msg.flag == Flag::Close ==> r is Finished,
            msg.flag != self@.incoming && msg.flag != Flag::Close ==> (r matches Incoming::Failed(e)
                && e.kind == ErrorKind::InvalidData && e.message@ == unexpected_message(self@.incoming)),
    {
        if msg.flag == self.incoming {
            Incoming::Data(msg.data)
        } else if msg.flag == Flag::Close {
            Incoming::Finished
        } else {
            Incoming::Failed(unexpected_flag(self.incoming))
        }
    }

    /// Hands the reader the next chunk of payload, or the end of the stream.
    pub fn supply(&mut self, chunk: Option<Bytes>)
        ensures
            final(self)@.position <= final(self)@.buffer.len(),
            match chunk {
                Some(b) => final(self)@ == (StreamView {
                    buffer: bytes_contents(b),
                    position: 0,
                    ..old(self)@
                }),
                None => final(self)@ == (StreamView { done: true, ..old(self)@ }),
            },
    {
        proof {
            use_type_invariant(&*self);
        }
        match chunk {
            Some(b) => {
                self.position = 0;
                self.buffer = b;
            },
            None => {
                self.done = true;
            },
        }
    }

    /// Copies buffered payload into `buf`: as much as is buffered and fits.
    /// At the end of the stream it reads nothing; with nothing buffered it
    /// asks for the next chunk.
    pub fn read(&mut self, buf: &mut [u8]) -> (r: ReadStep)
        ensures
            final(self)@.position <= final(self)@.buffer.len(),
            old(self)@.done ==> r == ReadStep::End && final(self)@ == old(self)@ && final(buf)@
                == old(buf)@,
            !old(self)@.done && old(self)@.position == old(self)@.buffer.len() ==> r == ReadStep::NeedData
                && final(self)@ == old(self)@ && final(buf)@ == old(buf)@,
            !old(self)@.done && old(self)@.position < old(self)@.buffer.len() ==> ({
                let n = if old(self)@.buffer.len() - old(self)@.position <= old(buf)@.len() {
                    old(self)@.buffer.len() - old(self)@.position
                } else {
                    old(buf)@.len() as int
                };
                &&& r == ReadStep::Data(n as usize)
                &&& final(buf)@ == old(self)@.buffer.subrange(
                    old(self)@.position as int,
                    old(self)@.position + n,
                ) + old(buf)@.skip(n)
                &&& final(self)@ == (StreamView { position: (old(self)@.position + n) as nat, ..old(self)@ })
            }),
    {
        proof {
            use_type_invariant(&*self);
        }
        if self.done {
            return ReadStep::End;
        }
        let data = bytes_as_slice(&self.buffer);
        let remaining = data.len() - self.position;
        if remaining == 0 {
            return ReadStep::NeedData;
        }
        let len = if remaining <= buf.len() {
            remaining
        } else {
            buf.len()
        };
        let start = self.position;
        let mut i: usize = 0;
        while i < len
            invariant
                i <= len,
                len <= buf@.len(),
                start + len <= data@.len(),
                data@.len() == data.len(),
                buf@.len() == old(buf)@.len(),
                forall|j: int| 0 <= j < i ==> buf@[j] == data@[start + j],
                forall|j: int| i <= j < buf@.len() ==> buf@[j] == old(buf)@[j],
            decreases len - i,
        {
            buf[i] = data[start + i];
            i = i + 1;
        }
        self.position = start + len;
        assert(buf@ =~= data@.subrange(start as int, start + len) + old(buf)@.skip(len as int));
        ReadStep::Data(len)
    }

    /// The frame that writes `buf` on this stream. Writing on a stream whose
    /// sending half is closing or closed is a caller's error.
    pub fn write(&self, buf: &[u8]) -> (m: Message)
        requires
            self@.sink is Active,
        ensures
            m@ == (MessageModel {
                stream_id: self@.sink->Active_id,
                flag: self@.sink->Active_flag,
                data: buf@,
            }),
    {
        self.sink.start_send(bytes_from_slice(buf))
    }

    /// One step of shutting the sending half down; see `SinkImpl::close`.
    pub fn shutdown(&mut self) -> (step: CloseStep)
        ensures
            final(self)@.position <= final(self)@.buffer.len(),
            final(self)@ == (StreamView { sink: final(self)@.sink, ..old(self)@ }),
            match old(self)@.sink {
                SinkImpl::Active { id, .. } => final(self)@.sink == SinkImpl::ClosingMessage { id }
                    && step is Pending,
                SinkImpl::ClosingMessage { id } => final(self)@.sink == old(self)@.sink && (step matches CloseStep::SendClose(m) && m@ == close_frame(id)),
                SinkImpl::ClosingOutgoing => final(self)@.sink == old(self)@.sink && step is CloseChannel,
                SinkImpl::Closed => final(self)@.sink == old(self)@.sink && step is Finished,
            },
    {
        proof {
            use_type_invariant(&*self);
        }
        let mut sink = self.sink;
        let step = sink.close();
        self.sink = sink;
        step
    }

    /// Records how the channel operation that `shutdown` asked for went.
    pub fn shutdown_outcome(&mut self, outcome: ChannelOutcome)
        requires
            old(self)@.sink is ClosingMessage || old(self)@.sink is ClosingOutgoing,
        ensures
            final(self)@.position <= final(self)@.buffer.len(),
            final(self)@ == (StreamView { sink: after_outcome(old(self)@.sink, outcome), ..old(self)@ }),
    {
        proof {
            use_type_invariant(&*self);
        }
        let mut sink = self.sink;
        sink.close_outcome(outcome);
        self.sink = sink;
    }
}

/// How the peer's frames on a stream end, as the reader sees them.
pub enum IncomingEnd {
    /// The channel ended without a close frame.
    Unclosed,
    /// A close frame ended the stream.
    Closed,
    /// A frame with a flag the stream cannot take ended it with an error.
    Failed,
}

/// The payload chunks a stream expecting data frames flagged `expected`
/// takes from the frames `msgs`, and how they end: frames are read up to the
/// first one that is not a data frame, and none after it.
pub open spec fn incoming_chunks(expected: Flag, msgs: Seq<MessageModel>) -> (Seq<Seq<u8>>, IncomingEnd)
    decreases msgs.len(),
{
    if msgs.len() == 0 {
        (Seq::<Seq<u8>>::empty(), IncomingEnd::Unclosed)
    } else if msgs[0].flag == expected {
        let rest = incoming_chunks(expected, msgs.drop_first());
        (seq![msgs[0].data] + rest.0, rest.1)
    } else if msgs[0].flag == Flag::Close {
        (Seq::<Seq<u8>>::empty(), IncomingEnd::Closed)
    } else {
        (Seq::<Seq<u8>>::empty(), IncomingEnd::Failed)
    }
}

/// When the channel ends after data frames, without a close frame, their
/// payloads are taken in order and the stream ends unclosed.
pub proof fn lemma_incoming_chunks_unclosed(expected: Flag, data_frames: Seq<MessageModel>)
    requires
        forall|i: int| 0 <= i < data_frames.len() ==> (#[trigger] data_frames[i]).flag == expected,
    ensures
        incoming_chunks(expected, data_frames) == (
            data_frames.map_values(|m: MessageModel| m.data),
            IncomingEnd::Unclosed,
        ),
    decreases data_frames.len(),
{
    if data_frames.len() == 0 {
        assert(data_frames.map_values(|m: MessageModel| m.data) =~= Seq::<Seq<u8>>::empty());
    } else {
        let tail = data_frames.drop_first();
        assert forall|i: int| 0 <= i < tail.len() implies (#[trigger] tail[i]).flag == expected by {
            assert(tail[i] == data_frames[i + 1]);
        }
        lemma_incoming_chunks_unclosed(expected, tail);
        assert(data_frames.map_values(|m: MessageModel| m.data) =~= seq![data_frames[0].data]
            + tail.map_values(|m: MessageModel| m.data));
    }
}

/// The payloads of data frames that arrive before a close frame are taken in
/// order, and nothing after the close frame is read.
pub proof fn lemma_incoming_chunks(
    expected: Flag,
    data_frames: Seq<MessageModel>,
    close: MessageModel,
    later: Seq<MessageModel>,
)
    requires
        expected != Flag::Close,
        close.flag == Flag::Close,
        forall|i: int| 0 <= i < data_frames.len() ==> (#[trigger] data_frames[i]).flag == expected,
    ensures
        incoming_chunks(expected, data_frames + seq![close] + later) == (
            data_frames.map_values(|m: MessageModel| m.data),
            IncomingEnd::Closed,
        ),
    decreases data_frames.len(),
{
    let all = data_frames + seq![close] + later;
    if data_frames.len() == 0 {
        assert(all[0] == close);
        assert(data_frames.map_values(|m: MessageModel| m.data) =~= Seq::<Seq<u8>>::empty());
    } else {
        let tail = data_frames.drop_first();
        assert(all.drop_first() =~= tail + seq![close] + later);
        assert(all[0] == data_frames[0]);
        lemma_incoming_chunks(expected, tail, close, later);
        assert(data_frames.map_values(|m: MessageModel| m.data) =~= seq![data_frames[0].data]
            + tail.map_values(|m: MessageModel| m.data));
    }
}

/// The payload a stream has still to hand out: the unread part of the current
/// chunk, then the chunks still to come; nothing once the stream has ended.
pub open spec fn unread(v: StreamView, chunks: Seq<Seq<u8>>) -> Seq<u8> {
    if v.done {
        Seq::<u8>::empty()
    } else {
        v.buffer.subrange(v.position as int, v.buffer.len() as int) + chunks.flatten()
    }
}

/// One call of `io::Read::read` on a stream: `read` with a buffer of
/// `buf_len` bytes, and whenever it asks for data, `supply` with the next of
/// `chunks`, or with the end once they are used up. Gives the stream's view
/// after it, the chunks left, the bytes read and whether the stream ended.
pub open spec fn reader_read(v: StreamView, chunks: Seq<Seq<u8>>, buf_len: nat) -> (
    StreamView,
    Seq<Seq<u8>>,
    Seq<u8>,
    bool,
)
    decreases chunks.len(),
{
    if v.done {
        (v, chunks, Seq::<u8>::empty(), true)
    } else if v.position < v.buffer.len() {
        let n = if v.buffer.len() - v.position <= buf_len {
            (v.buffer.len() - v.position) as nat
        } else {
            buf_len
        };
        (
            StreamView { position: v.position + n, ..v },
            chunks,
            v.buffer.subrange(v.position as int, (v.position + n) as int),
            false,
        )
    } else if chunks.len() == 0 {
        (StreamView { done: true, ..v }, chunks, Seq::<u8>::empty(), true)
    } else {
        reader_read(StreamView { buffer: chunks[0], position: 0, ..v }, chunks.drop_first(), buf_len)
    }
}

/// Each read hands out the front of what is unread, in order: the bytes read
/// followed by what is then unread are what was unread before. A read into a
/// non-empty buffer reads nothing only at the end of the stream, and the end
/// comes only once everything has been read.
pub proof fn lemma_reader_read(v: StreamView, chunks: Seq<Seq<u8>>, buf_len: nat)
    requires
        v.position <= v.buffer.len(),
    ensures
        ({
            let (v2, chunks2, out, ended) = reader_read(v, chunks, buf_len);
            &&& out + unread(v2, chunks2) == unread(v, chunks)
            &&& v2.position <= v2.buffer.len()
            &&& out.len() <= buf_len
            &&& ended ==> out.len() == 0 && unread(v, chunks).len() == 0 && v2.done
            &&& !ended && buf_len > 0 ==> out.len() > 0
        }),
    decreases chunks.len(),
{
    if v.done {
    } else if v.position < v.buffer.len() {
        let (v2, chunks2, out, ended) = reader_read(v, chunks, buf_len);
        assert(v.buffer.subrange(v.position as int, v.buffer.len() as int) =~= out + v2.buffer.subrange(
            v2.position as int,
            v2.buffer.len() as int,
        ));
    } else if chunks.len() == 0 {
        assert(v.buffer.subrange(v.position as int, v.buffer.len() as int) =~= Seq::<u8>::empty());
        assert(chunks.flatten() =~= Seq::<u8>::empty());
    } else {
        let next = StreamView { buffer: chunks[0], position: 0, ..v };
        lemma_reader_read(next, chunks.drop_first(), buf_len);
        assert(v.buffer.subrange(v.position as int, v.buffer.len() as int) =~= Seq::<u8>::empty());
        assert(next.buffer.subrange(0, next.buffer.len() as int) =~= chunks[0]);
        assert(chunks.flatten() == chunks[0] + chunks.drop_first().flatten());
    }
}

/// Successive reads with buffers of the sizes `sizes`: the bytes read, all
/// together, and whether the stream ended.
pub open spec fn reader_reads(v: StreamView, chunks: Seq<Seq<u8>>, sizes: Seq<nat>) -> (Seq<u8>, bool)
    decreases sizes.len(),
{
    if sizes.len() == 0 {
        (Seq::<u8>::empty(), false)
    } else {
        let (v2, chunks2, out, ended) = reader_read(v, chunks, sizes[0]);
        let rest = reader_reads(v2, chunks2, sizes.drop_first());
        (out + rest.0, ended || rest.1)
    }
}

/// Over any number of reads, the bytes read are the payload in order: a
/// prefix of it, and all of it once a read has seen the end.
pub proof fn lemma_reader_reads(v: StreamView, chunks: Seq<Seq<u8>>, sizes: Seq<nat>)
    requires
        v.position <= v.buffer.len(),
    ensures
        ({
            let (out, ended) = reader_reads(v, chunks, sizes);
            &&& out.len() <= unread(v, chunks).len()
            &&& out == unread(v, chunks).take(out.len() as int)
            &&& ended ==> out == unread(v, chunks)
        }),
    decreases sizes.len(),
{
    if sizes.len() > 0 {
        let (v2, chunks2, out, ended) = reader_read(v, chunks, sizes[0]);
        lemma_reader_read(v, chunks, sizes[0]);
        lemma_reader_reads(v2, chunks2, sizes.drop_first());
        let rest = reader_reads(v2, chunks2, sizes.drop_first());
        let total = unread(v, chunks);
        let total2 = unread(v2, chunks2);
        assert(total == out + total2);
        assert(rest.0 == total2.take(rest.0.len() as int));
        assert(out + rest.0 =~= total.take((out + rest.0).len() as int));
        if ended {
            assert(total2.len() == 0);
            assert(rest.0.len() == 0);
        }
        if rest.1 {
            assert(rest.0 == total2);
        }
    }
}

} // verus!
