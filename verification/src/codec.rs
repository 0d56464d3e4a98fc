//! The frame codec: a header varint (stream id and flag), a length varint,
//! then the payload. Decoding is a state machine that waits for more bytes
//! wherever the buffer ends, and that stays failed after an error, since the
//! protocol has no way to find the next frame again.
use vstd::prelude::*;
use bytes::BytesMut;
use crate::buffer::{buf_as_slice, buf_contents, buf_extend, buf_freeze, buf_split_to, bytes_as_slice};
use crate::message::{
    flag_code, flag_of_code, lemma_flag_code_roundtrip, lemma_header_roundtrip, spec_header, Flag,
    Message, MessageModel,
};
use crate::varint::{
    lemma_varint_canonical_fits, lemma_varint_extend, lemma_varint_prefix_incomplete,
    lemma_varint_roundtrip, read_varint, spec_read_varint, varint_encode, varint_len, write_varint,
    VarintRead,
};

verus! {

/// How far the decoder has got into the current frame.
#[derive(Eq, PartialEq, Structural, Debug, Clone, Copy)]
pub enum State {
    /// Nothing of the frame is read; the header varint comes next.
    Ready,
    /// The header is read; the length varint comes next.
    Header { stream_id: u64, flag: Flag },
    /// Header and length are read; the payload comes next.
    Length { stream_id: u64, flag: Flag, length: usize },
}

/// Why a buffer is no valid frame.
#[derive(Eq, PartialEq, Structural, Debug, Clone, Copy)]
pub enum DecodeError {
    /// The header's three flag bits name no flag.
    UnknownFlag,
    /// A varint runs past ten bytes or past the range of its field.
    VarintOverflow,
}

impl DecodeError {
    /// The error's description.
    pub fn message(&self) -> (s: String)
        ensures
            s@ == spec_error_message(*self),
    {
        match self {
            DecodeError::UnknownFlag => "unknown flag".to_owned(),
            DecodeError::VarintOverflow => "varint overflow".to_owned(),
        }
    }
}

/// The description of each decode error.
pub open spec fn spec_error_message(e: DecodeError) -> Seq<char> {
    match e {
        DecodeError::UnknownFlag => "unknown flag"@,
        DecodeError::VarintOverflow => "varint overflow"@,
    }
}

/// What one step of the decoder gives.
pub enum StepOutcome {
    /// The buffer ends before the field does.
    NeedMore,
    /// A field was read: the next state, and the frame if it is complete.
    Advanced(State, Option<MessageModel>),
    /// The bytes are no valid frame.
    Failed(DecodeError),
}

/// The largest value a length field may hold.
pub open spec fn max_length() -> u64 {
    usize::MAX as u64
}

/// One step of the decoder from `state` on the buffered bytes: the outcome and
/// the bytes left in the buffer. A varint field leaves the buffer by the
/// length of the shortest encoding of the value read.
pub open spec fn spec_step(state: State, buf: Seq<u8>) -> (StepOutcome, Seq<u8>) {
    match state {
        State::Ready => match spec_read_varint(buf, u64::MAX) {
            VarintRead::Incomplete => (StepOutcome::NeedMore, buf),
            VarintRead::Overflow => (StepOutcome::Failed(DecodeError::VarintOverflow), buf),
            VarintRead::Value(h) => {
                let rest = buf.skip(varint_encode(h as nat).len() as int);
                match flag_of_code(h & 7) {
                    Some(f) => (
                        StepOutcome::Advanced(State::Header { stream_id: h >> 3u64, flag: f }, None),
                        rest,
                    ),
                    None => (StepOutcome::Failed(DecodeError::UnknownFlag), rest),
                }
            },
        },
        State::Header { stream_id, flag } => match spec_read_varint(buf, max_length()) {
            VarintRead::Incomplete => (StepOutcome::NeedMore, buf),
            VarintRead::Overflow => (StepOutcome::Failed(DecodeError::VarintOverflow), buf),
            VarintRead::Value(l) => (
                StepOutcome::Advanced(State::Length { stream_id, flag, length: l as usize }, None),
                buf.skip(varint_encode(l as nat).len() as int),
            ),
        },
        State::Length { stream_id, flag, length } => if buf.len() < length {
            (StepOutcome::NeedMore, buf)
        } else {
            (
                StepOutcome::Advanced(
                    State::Ready,
                    Some(MessageModel { stream_id, flag, data: buf.take(length as int) }),
                ),
                buf.skip(length as int),
            )
        },
    }
}

/// Orders the decoder's states by how far they are from a finished frame.
pub open spec fn state_rank(s: Result<State, DecodeError>) -> nat {
    match s {
        Ok(State::Ready) => 3,
        Ok(State::Header { .. }) => 2,
        Ok(State::Length { .. }) => 1,
        Err(_) => 0,
    }
}

/// The outcome of a call of `decode` from decoder state `state` on the
/// buffered bytes `buf`: the decoder's next state, the bytes left in the
/// buffer, and the frame (`Ok(None)` when more bytes are needed).
pub open spec fn spec_decode(state: Result<State, DecodeError>, buf: Seq<u8>) -> (
    Result<State, DecodeError>,
    Seq<u8>,
    Result<Option<MessageModel>, DecodeError>,
)
    decreases state_rank(state),
{
    match state {
        Err(e) => (Err(e), buf, Err(e)),
        Ok(s) => match spec_step(s, buf) {
            (StepOutcome::NeedMore, b) => (Ok(s), b, Ok(None)),
            (StepOutcome::Advanced(s2, Some(m)), b) => (Ok(s2), b, Ok(Some(m))),
            (StepOutcome::Advanced(s2, None), b) => spec_decode(Ok(s2), b),
            (StepOutcome::Failed(e), b) => (Err(e), b, Err(e)),
        },
    }
}

/// The bytes of a frame on the wire.
pub open spec fn spec_encode(m: MessageModel) -> Seq<u8> {
    varint_encode(spec_header(m.stream_id, m.flag) as nat) + varint_encode(m.data.len())
        + m.data
}

/// A decoded frame as plain values.
pub open spec fn frame_view(m: Option<Message>) -> Option<MessageModel> {
    match m {
        Some(msg) => Some(msg@),
        None => None,
    }
}

/// A decode result as plain values.
pub open spec fn result_view(r: Result<Option<Message>, DecodeError>) -> Result<
    Option<MessageModel>,
    DecodeError,
> {
    match r {
        Ok(m) => Ok(frame_view(m)),
        Err(e) => Err(e),
    }
}

impl State {
    /// One step of the decoder on `src`: `Ok(None)` when `src` ends before
    /// the next field, else the next state and, when the payload is read,
    /// the frame.
    pub fn step(self, src: &mut BytesMut) -> (r: Result<Option<(State, Option<Message>)>, DecodeError>)
        ensures
            ({
                let (outcome, rest) = spec_step(self, buf_contents(*old(src)));
                &&& buf_contents(*final(src)) == rest
                &&& match r {
                    Ok(None) => outcome is NeedMore,
                    Ok(Some((s, m))) => outcome == StepOutcome::Advanced(s, frame_view(m)),
                    Err(e) => outcome == StepOutcome::Failed(e),
                }
            }),
    {
        match self {
            State::Ready => {
                let header = match read_varint(buf_as_slice(src), u64::MAX) {
                    VarintRead::Incomplete => return Ok(None),
                    VarintRead::Overflow => return Err(DecodeError::VarintOverflow),
                    VarintRead::Value(h) => h,
                };
                let header_len = varint_len(header);
                proof {
                    lemma_varint_canonical_fits(buf_contents(*src), u64::MAX);
                }
                let _discarded = buf_split_to(src, header_len);
                let stream_id = header >> 3u64;
                assert(header & 7 <= 7) by (bit_vector);
                match Flag::try_from(header & 7) {
                    Ok(flag) => Ok(Some((State::Header { stream_id, flag }, None))),
                    Err(_) => Err(DecodeError::UnknownFlag),
                }
            },
            State::Header { stream_id, flag } => {
                let length = match read_varint(buf_as_slice(src), usize::MAX as u64) {
                    VarintRead::Incomplete => return Ok(None),
                    VarintRead::Overflow => return Err(DecodeError::VarintOverflow),
                    VarintRead::Value(l) => l,
                };
                let length_len = varint_len(length);
                proof {
                    lemma_varint_canonical_fits(buf_contents(*src), max_length());
                }
                let _discarded = buf_split_to(src, length_len);
                Ok(Some((State::Length { stream_id, flag, length: length as usize }, None)))
            },
            State::Length { stream_id, flag, length } => {
                if buf_as_slice(src).len() < length {
                    Ok(None)
                } else {
                    let data = buf_freeze(buf_split_to(src, length));
                    Ok(Some((State::Ready, Some(Message { stream_id, data, flag }))))
                }
            },
        }
    }
}

/// The frame codec. Its state is where decoding stands, or the error that
/// stopped it for good.
pub struct Codec {
    state: Result<State, DecodeError>,
}

impl View for Codec {
    type V = Result<State, DecodeError>;

    closed spec fn view(&self) -> Result<State, DecodeError> {
        self.state
    }
}

impl Codec {
    /// A codec at the start of a frame.
    pub fn new() -> (c: Codec)
        ensures
            c@ == Ok::<State, DecodeError>(State::Ready),
    {
        Codec { state: Ok(State::Ready) }
    }

    /// Decodes the next frame from `src`, taking its bytes out of `src`.
    /// Returns `Ok(None)` when `src` ends before the frame does; the codec
    /// keeps what it has read, and a later call with more bytes goes on from
    /// there. After an error every call returns that error.
    pub fn decode(&mut self, src: &mut BytesMut) -> (r: Result<Option<Message>, DecodeError>)
        ensures
            final(self)@ == spec_decode(old(self)@, buf_contents(*old(src))).0,
            buf_contents(*final(src)) == spec_decode(old(self)@, buf_contents(*old(src))).1,
            result_view(r) == spec_decode(old(self)@, buf_contents(*old(src))).2,
    {
        loop
            invariant
                spec_decode(self@, buf_contents(*src)) == spec_decode(
                    old(self)@,
                    buf_contents(*old(src)),
                ),
            decreases state_rank(self@),
        {
            let state = match self.state {
                Ok(s) => s,
                Err(e) => return Err(e),
            };
            match state.step(src) {
                Ok(None) => {
                    return Ok(None);
                },
                Ok(Some((next, msg))) => {
                    self.state = Ok(next);
                    if let Some(msg) = msg {
                        return Ok(Some(msg));
                    }
                },
                Err(error) => {
                    self.state = Err(error);
                },
            }
        }
    }

    /// Appends the frame of `item` to `dst`.
    pub fn encode(&mut self, item: Message, dst: &mut BytesMut) -> (r: Result<(), DecodeError>)
        requires
            buf_contents(*old(dst)).len() + spec_encode(item@).len() <= isize::MAX,
        ensures
            r is Ok,
            item@.data.len() <= usize::MAX,
            final(self)@ == old(self)@,
            buf_contents(*final(dst)) == buf_contents(*old(dst)) + spec_encode(item@),
    {
        let header = item.header();
        let data = bytes_as_slice(&item.data);
        let len = data.len();
        let mut prefix: Vec<u8> = Vec::new();
        write_varint(header, &mut prefix);
        write_varint(len as u64, &mut prefix);
        assert(prefix@ =~= varint_encode(header as nat) + varint_encode(data@.len()));
        buf_extend(dst, prefix.as_slice());
        buf_extend(dst, data);
        assert(buf_contents(*dst) =~= buf_contents(*old(dst)) + spec_encode(item@));
        Ok(())
    }
}


/// A step that got anywhere on `buf` does the same on `buf` followed by
/// more bytes, which stay behind in the buffer.
pub proof fn lemma_step_extend(state: State, buf: Seq<u8>, more: Seq<u8>)
    requires
        !(spec_step(state, buf).0 is NeedMore),
    ensures
        spec_step(state, buf + more).0 == spec_step(state, buf).0,
        spec_step(state, buf + more).1 == spec_step(state, buf).1 + more,
{
    let t = buf + more;
    match state {
        State::Ready => {
            lemma_varint_extend(buf, more, u64::MAX);
            if let VarintRead::Value(h) = spec_read_varint(buf, u64::MAX) {
                lemma_varint_canonical_fits(buf, u64::MAX);
                let k = varint_encode(h as nat).len() as int;
                assert(t.skip(k) =~= buf.skip(k) + more);
            }
        },
        State::Header { .. } => {
            lemma_varint_extend(buf, more, max_length());
            if let VarintRead::Value(l) = spec_read_varint(buf, max_length()) {
                lemma_varint_canonical_fits(buf, max_length());
                let k = varint_encode(l as nat).len() as int;
                assert(t.skip(k) =~= buf.skip(k) + more);
            }
        },
        State::Length { length, .. } => {
            assert(t.take(length as int) =~= buf.take(length as int));
            assert(t.skip(length as int) =~= buf.skip(length as int) + more);
        },
    }
}

/// Bytes that arrive after a call that needed more are decoded as if they
/// had been there from the start: decoding `buf` followed by `more` gives
/// what decoding `more` gives after a first call on `buf` alone.
pub proof fn lemma_decode_extend(state: Result<State, DecodeError>, buf: Seq<u8>, more: Seq<u8>)
    requires
        spec_decode(state, buf).2 == Ok::<Option<MessageModel>, DecodeError>(None),
    ensures
        spec_decode(state, buf + more) == spec_decode(
            spec_decode(state, buf).0,
            spec_decode(state, buf).1 + more,
        ),
    decreases state_rank(state),
{
    if let Ok(s) = state {
        match spec_step(s, buf) {
            (StepOutcome::NeedMore, b) => {},
            (StepOutcome::Advanced(s2, None), b) => {
                lemma_step_extend(s, buf, more);
                lemma_decode_extend(Ok(s2), b, more);
            },
            _ => {},
        }
    }
}

/// Decoding that ends in an error leaves the codec failed with that error,
/// and a failed codec answers every later call with it, taking no bytes.
pub proof fn lemma_decode_error_sticks(state: Result<State, DecodeError>, buf: Seq<u8>, later: Seq<u8>)
    ensures
        spec_decode(state, buf).2 matches Err(e) ==> spec_decode(state, buf).0 == Err::<State, DecodeError>(e),
        spec_decode(state, buf).0 matches Err(e) ==> spec_decode(spec_decode(state, buf).0, later)
            == (Err::<State, DecodeError>(e), later, Err::<Option<MessageModel>, DecodeError>(e)),
    decreases state_rank(state),
{
    if let Ok(s) = state {
        if let (StepOutcome::Advanced(s2, None), b) = spec_step(s, buf) {
            lemma_decode_error_sticks(Ok(s2), b, later);
        }
    }
}

/// A header whose three flag bits are 3, 5, 6 or 7 names no flag: decoding
/// it fails with `UnknownFlag` whatever follows, the header's bytes leave
/// the buffer, and the decoder stays failed.
pub proof fn lemma_unknown_flag_refused(h: u64, tail: Seq<u8>)
    requires
        h & 7 == 3 || h & 7 == 5 || h & 7 == 6 || h & 7 == 7,
    ensures
        spec_decode(Ok(State::Ready), varint_encode(h as nat) + tail) == (
            Err::<State, DecodeError>(DecodeError::UnknownFlag),
            tail,
            Err::<Option<MessageModel>, DecodeError>(DecodeError::UnknownFlag),
        ),
{
    let e = varint_encode(h as nat);
    lemma_varint_roundtrip(h as nat, tail, u64::MAX);
    assert((e + tail).skip(e.len() as int) =~= tail);
}

/// A header whose flag bits name a flag is read as exactly that flag and the
/// stream id in the bits above them: the flag's wire code is the header's low
/// three bits, whatever follows.
pub proof fn lemma_header_flag_kept(h: u64, tail: Seq<u8>)
    ensures
        spec_step(State::Ready, varint_encode(h as nat) + tail).0 matches StepOutcome::Advanced(
            State::Header { stream_id, flag },
            None,
        ) ==> flag_code(flag) == h & 7 && stream_id == h >> 3u64,
        spec_step(State::Ready, varint_encode(h as nat) + tail).0 is Failed ==> !(h & 7 == 0 || h & 7
            == 1 || h & 7 == 2 || h & 7 == 4),
{
    lemma_varint_roundtrip(h as nat, tail, u64::MAX);
}

/// The frames that the wire format can carry: a stream id within the 61 bits
/// that the header keeps, a payload length within a length field's range.
pub open spec fn encodable(m: MessageModel) -> bool {
    &&& m.stream_id < 0x2000_0000_0000_0000
    &&& m.data.len() <= usize::MAX
}

proof fn lemma_header_read(m: MessageModel, tail: Seq<u8>)
    requires
        encodable(m),
    ensures
        spec_step(State::Ready, varint_encode(spec_header(m.stream_id, m.flag) as nat) + tail) == (
            StepOutcome::Advanced(State::Header { stream_id: m.stream_id, flag: m.flag }, None),
            tail,
        ),
{
    let h = spec_header(m.stream_id, m.flag);
    let e = varint_encode(h as nat);
    lemma_varint_roundtrip(h as nat, tail, u64::MAX);
    lemma_header_roundtrip(m.stream_id, m.flag);
    lemma_flag_code_roundtrip(m.flag);
    assert((e + tail).skip(e.len() as int) =~= tail);
}

proof fn lemma_length_read(m: MessageModel, tail: Seq<u8>)
    requires
        encodable(m),
    ensures
        spec_step(State::Header { stream_id: m.stream_id, flag: m.flag }, varint_encode(m.data.len()) + tail)
            == (
            StepOutcome::Advanced(
                State::Length { stream_id: m.stream_id, flag: m.flag, length: m.data.len() as usize },
                None,
            ),
            tail,
        ),
{
    let e = varint_encode(m.data.len());
    lemma_varint_roundtrip(m.data.len(), tail, max_length());
    assert((e + tail).skip(e.len() as int) =~= tail);
}

/// A frame decodes back to itself, whatever follows it, and the decoder is
/// then ready for the next frame.
pub proof fn lemma_decode_frame(m: MessageModel, rest: Seq<u8>)
    requires
        encodable(m),
    ensures
        spec_decode(Ok(State::Ready), spec_encode(m) + rest) == (
            Ok::<State, DecodeError>(State::Ready),
            rest,
            Ok::<Option<MessageModel>, DecodeError>(Some(m)),
        ),
{
    let e1 = varint_encode(spec_header(m.stream_id, m.flag) as nat);
    let e2 = varint_encode(m.data.len());
    let t2 = m.data + rest;
    let t1 = e2 + t2;
    assert(spec_encode(m) + rest =~= e1 + t1);
    lemma_header_read(m, t1);
    lemma_length_read(m, t2);
    assert(t2.take(m.data.len() as int) =~= m.data);
    assert(t2.skip(m.data.len() as int) =~= rest);
    let got = MessageModel { stream_id: m.stream_id, flag: m.flag, data: t2.take(m.data.len() as int) };
    assert(got =~= m);
    let len_state = State::Length { stream_id: m.stream_id, flag: m.flag, length: m.data.len() as usize };
    let hdr_state = State::Header { stream_id: m.stream_id, flag: m.flag };
    let want = (
        Ok::<State, DecodeError>(State::Ready),
        rest,
        Ok::<Option<MessageModel>, DecodeError>(Some(m)),
    );
    assert(spec_decode(Ok(len_state), t2) == want);
    assert(spec_decode(Ok(hdr_state), t1) == want);
}

/// Every proper prefix of a frame decodes to "more bytes needed".
pub proof fn lemma_decode_prefix(m: MessageModel, k: int)
    requires
        encodable(m),
        0 <= k < spec_encode(m).len(),
    ensures
        spec_decode(Ok(State::Ready), spec_encode(m).take(k)).2 == Ok::<
            Option<MessageModel>,
            DecodeError,
        >(None),
{
    let h = spec_header(m.stream_id, m.flag);
    let e1 = varint_encode(h as nat);
    let e2 = varint_encode(m.data.len());
    let p = spec_encode(m).take(k);
    if k < e1.len() {
        assert(p =~= e1.take(k));
        lemma_varint_prefix_incomplete(h as nat, k, u64::MAX);
    } else if k < e1.len() + e2.len() {
        let j = k - e1.len();
        assert(p =~= e1 + e2.take(j));
        lemma_header_read(m, e2.take(j));
        lemma_varint_prefix_incomplete(m.data.len(), j, max_length());
        let hdr_state = State::Header { stream_id: m.stream_id, flag: m.flag };
        assert(spec_decode(Ok(hdr_state), e2.take(j)).2 == Ok::<Option<MessageModel>, DecodeError>(None));
    } else {
        let j = k - e1.len() - e2.len();
        assert(p =~= e1 + (e2 + m.data.take(j)));
        lemma_header_read(m, e2 + m.data.take(j));
        lemma_length_read(m, m.data.take(j));
        let len_state = State::Length { stream_id: m.stream_id, flag: m.flag, length: m.data.len() as usize };
        let hdr_state = State::Header { stream_id: m.stream_id, flag: m.flag };
        assert(spec_decode(Ok(len_state), m.data.take(j)).2 == Ok::<Option<MessageModel>, DecodeError>(None));
        assert(spec_decode(Ok(hdr_state), e2 + m.data.take(j)).2 == Ok::<Option<MessageModel>, DecodeError>(None));
    }
}

/// A frame that arrives in two pieces, split anywhere, decodes as one that
/// arrives whole: the first piece gives "more bytes needed", and decoding
/// the second piece (and whatever follows) from there gives the frame. The
/// call that returns the frame takes out of the buffer exactly what was left
/// of the frame's bytes; every byte after them stays.
pub proof fn lemma_decode_split(m: MessageModel, k: int, rest: Seq<u8>)
    requires
        encodable(m),
        0 <= k < spec_encode(m).len(),
    ensures
        ({
            let first = spec_decode(Ok(State::Ready), spec_encode(m).take(k));
            &&& first.2 == Ok::<Option<MessageModel>, DecodeError>(None)
            &&& spec_decode(first.0, first.1 + (spec_encode(m).skip(k) + rest)) == (
                Ok::<State, DecodeError>(State::Ready),
                rest,
                Ok::<Option<MessageModel>, DecodeError>(Some(m)),
            )
        }),
{
    let f = spec_encode(m);
    lemma_decode_prefix(m, k);
    lemma_decode_extend(Ok(State::Ready), f.take(k), f.skip(k) + rest);
    assert(f.take(k) + (f.skip(k) + rest) =~= f + rest);
    lemma_decode_frame(m, rest);
}

/// The bytes of several frames, one after another.
pub open spec fn spec_encode_all(ms: Seq<MessageModel>) -> Seq<u8>
    decreases ms.len(),
{
    if ms.len() == 0 {
        Seq::<u8>::empty()
    } else {
        spec_encode(ms[0]) + spec_encode_all(ms.drop_first())
    }
}

/// Calls of `decode` until one returns something other than a frame, at
/// most `fuel` of them: the decoder's state, the bytes left, the frames
/// returned in order, and whether a call failed.
pub open spec fn spec_drain(state: Result<State, DecodeError>, buf: Seq<u8>, fuel: nat) -> (
    Result<State, DecodeError>,
    Seq<u8>,
    Seq<MessageModel>,
    bool,
)
    decreases fuel,
{
    if fuel == 0 {
        (state, buf, Seq::<MessageModel>::empty(), false)
    } else {
        let (s2, b2, r) = spec_decode(state, buf);
        match r {
            Err(_) => (s2, b2, Seq::<MessageModel>::empty(), true),
            Ok(None) => (s2, b2, Seq::<MessageModel>::empty(), false),
            Ok(Some(m)) => {
                let rest = spec_drain(s2, b2, (fuel - 1) as nat);
                (rest.0, rest.1, seq![m] + rest.2, rest.3)
            },
        }
    }
}

/// Bytes arriving in `pieces`: each piece is appended to the buffer, then
/// `decode` is called until it returns no frame (at most `fuel` calls per
/// piece). Gives the decoder's state, the bytes left, the frames returned in
/// order, and whether a call failed.
pub open spec fn spec_feed(
    state: Result<State, DecodeError>,
    buf: Seq<u8>,
    pieces: Seq<Seq<u8>>,
    fuel: nat,
) -> (Result<State, DecodeError>, Seq<u8>, Seq<MessageModel>, bool)
    decreases pieces.len(),
{
    if pieces.len() == 0 {
        (state, buf, Seq::<MessageModel>::empty(), false)
    } else {
        let d = spec_drain(state, buf + pieces[0], fuel);
        if d.3 {
            d
        } else {
            let rest = spec_feed(d.0, d.1, pieces.drop_first(), fuel);
            (rest.0, rest.1, d.2 + rest.2, rest.3)
        }
    }
}

proof fn lemma_encode_all_append(a: Seq<MessageModel>, b: Seq<MessageModel>)
    ensures
        spec_encode_all(a + b) == spec_encode_all(a) + spec_encode_all(b),
    decreases a.len(),
{
    if a.len() == 0 {
        assert(a + b =~= b);
    } else {
        assert((a + b).drop_first() =~= a.drop_first() + b);
        lemma_encode_all_append(a.drop_first(), b);
        assert((a + b)[0] == a[0]);
    }
}

/// Splits a prefix of the bytes of several frames into whole frames and a
/// proper prefix of the next frame.
proof fn lemma_split_prefix(ns: Seq<MessageModel>, len: int) -> (i: int)
    requires
        0 <= len <= spec_encode_all(ns).len(),
    ensures
        0 <= i <= ns.len(),
        spec_encode_all(ns.take(i)).len() <= len,
        i == ns.len() ==> len == spec_encode_all(ns).len(),
        i < ns.len() ==> len < spec_encode_all(ns.take(i)).len() + spec_encode(ns[i]).len(),
        spec_encode_all(ns).take(len) == spec_encode_all(ns.take(i)) + spec_encode_all(ns.skip(i)).take(
            len - spec_encode_all(ns.take(i)).len(),
        ),
        spec_encode_all(ns) == spec_encode_all(ns.take(i)) + spec_encode_all(ns.skip(i)),
    decreases ns.len(),
{
    if ns.len() == 0 {
        assert(ns.take(0) =~= ns);
        assert(ns.skip(0) =~= ns);
        assert(spec_encode_all(ns).take(len) =~= Seq::<u8>::empty());
        0
    } else {
        let f = spec_encode(ns[0]);
        let tail = ns.drop_first();
        assert(spec_encode_all(ns.take(0)) =~= Seq::<u8>::empty()) by {
            assert(ns.take(0) =~= Seq::<MessageModel>::empty());
        }
        assert(ns.skip(0) =~= ns);
        if len < f.len() {
            assert(spec_encode_all(ns).take(len) =~= spec_encode_all(ns.skip(0)).take(len));
            0
        } else {
            let j = lemma_split_prefix(tail, len - f.len());
            let i = j + 1;
            assert(ns.take(i) =~= seq![ns[0]] + tail.take(j));
            assert(ns.skip(i) =~= tail.skip(j));
            lemma_encode_all_append(seq![ns[0]], tail.take(j));
            assert(spec_encode_all(seq![ns[0]]) =~= f) by {
                let one = seq![ns[0]];
                assert(one.drop_first() =~= Seq::<MessageModel>::empty());
                assert(spec_encode_all(Seq::<MessageModel>::empty()) == Seq::<u8>::empty());
                assert(one[0] == ns[0]);
                assert(spec_encode_all(one) == spec_encode(one[0]) + spec_encode_all(one.drop_first()));
            }
            if j < tail.len() {
                assert(ns[i] == tail[j]);
            }
            assert(spec_encode_all(ns).take(len) =~= f + spec_encode_all(tail).take(len - f.len()));
            i
        }
    }
}

/// Calls that start on whole frames followed by a part of a frame return
/// those frames, in order, and keep the part for later.
proof fn lemma_drain_frames(ms: Seq<MessageModel>, partial: Seq<u8>, fuel: nat)
    requires
        forall|i: int| 0 <= i < ms.len() ==> encodable(#[trigger] ms[i]),
        spec_decode(Ok(State::Ready), partial).2 == Ok::<Option<MessageModel>, DecodeError>(None),
        fuel >= ms.len() + 1,
    ensures
        spec_drain(Ok(State::Ready), spec_encode_all(ms) + partial, fuel) == (
            spec_decode(Ok(State::Ready), partial).0,
            spec_decode(Ok(State::Ready), partial).1,
            ms,
            false,
        ),
    decreases ms.len(),
{
    if ms.len() == 0 {
        assert(spec_encode_all(ms) + partial =~= partial);
    } else {
        let tail = ms.drop_first();
        assert(spec_encode_all(ms) + partial =~= spec_encode(ms[0]) + (spec_encode_all(tail) + partial));
        lemma_decode_frame(ms[0], spec_encode_all(tail) + partial);
        lemma_drain_frames(tail, partial, (fuel - 1) as nat);
        assert(seq![ms[0]] + tail =~= ms);
    }
}

proof fn lemma_feed_frames(ns: Seq<MessageModel>, p: Seq<u8>, pieces: Seq<Seq<u8>>, fuel: nat)
    requires
        forall|i: int| 0 <= i < ns.len() ==> encodable(#[trigger] ns[i]),
        fuel >= ns.len() + 1,
        p + pieces.flatten() == spec_encode_all(ns),
        ns.len() == 0 ==> p.len() == 0,
        ns.len() > 0 ==> p.len() < spec_encode(ns[0]).len() && p == spec_encode(ns[0]).take(p.len() as int),
    ensures
        spec_feed(
            spec_decode(Ok(State::Ready), p).0,
            spec_decode(Ok(State::Ready), p).1,
            pieces,
            fuel,
        ) == (Ok::<State, DecodeError>(State::Ready), Seq::<u8>::empty(), ns, false),
    decreases pieces.len(),
{
    let d0 = spec_decode(Ok(State::Ready), p);
    if ns.len() > 0 {
        lemma_decode_prefix(ns[0], p.len() as int);
    } else {
        assert(p =~= Seq::<u8>::empty());
    }
    if pieces.len() == 0 {
        assert(pieces.flatten() =~= Seq::<u8>::empty());
        if ns.len() > 0 {
            assert(spec_encode_all(ns).len() >= spec_encode(ns[0]).len());
        }
        assert(ns =~= Seq::<MessageModel>::empty());
        assert(p =~= Seq::<u8>::empty());
    } else {
        let x = pieces[0];
        let q = p + x;
        let later = pieces.drop_first();
        assert(pieces.flatten() == x + later.flatten());
        assert(q + later.flatten() =~= spec_encode_all(ns));
        // The first call sees the same as a call on `q` from the start.
        lemma_decode_extend(Ok(State::Ready), p, x);
        let i = lemma_split_prefix(ns, q.len() as int);
        let whole = ns.take(i);
        let rest_ns = ns.skip(i);
        let p2 = spec_encode_all(rest_ns).take(q.len() - spec_encode_all(whole).len());
        assert(q =~= spec_encode_all(ns).take(q.len() as int));
        assert(q == spec_encode_all(whole) + p2);
        if i < ns.len() {
            assert(rest_ns[0] == ns[i]);
            assert(spec_encode_all(rest_ns) == spec_encode(rest_ns[0]) + spec_encode_all(rest_ns.drop_first()));
            assert(p2 =~= spec_encode(rest_ns[0]).take(p2.len() as int));
            lemma_decode_prefix(rest_ns[0], p2.len() as int);
        } else {
            assert(rest_ns =~= Seq::<MessageModel>::empty());
            assert(p2 =~= Seq::<u8>::empty());
        }
        assert forall|k: int| 0 <= k < whole.len() implies encodable(#[trigger] whole[k]) by {
            assert(whole[k] == ns[k]);
        }
        assert forall|k: int| 0 <= k < rest_ns.len() implies encodable(#[trigger] rest_ns[k]) by {
            assert(rest_ns[k] == ns[i + k]);
        }
        lemma_drain_frames(whole, p2, fuel);
        // The drain from the kept configuration equals the drain on `q`.
        assert(spec_drain(d0.0, d0.1 + x, fuel) == spec_drain(Ok(State::Ready), q, fuel));
        let d2 = spec_decode(Ok(State::Ready), p2);
        assert(p2 + later.flatten() =~= spec_encode_all(rest_ns)) by {
            let w = spec_encode_all(whole);
            let l = later.flatten();
            assert(q + l =~= w + (p2 + l));
            assert(w + (p2 + l) == w + spec_encode_all(rest_ns));
            assert((w + (p2 + l)).skip(w.len() as int) =~= p2 + l);
            assert((w + spec_encode_all(rest_ns)).skip(w.len() as int) =~= spec_encode_all(rest_ns));
        }
        lemma_feed_frames(rest_ns, p2, later, fuel);
        assert(whole + rest_ns =~= ns);
    }
}

/// Frames that arrive as bytes cut into pieces of any sizes decode to those
/// frames, in order, the same as when the bytes arrive whole: no call fails,
/// and the decoder ends ready with nothing left over, provided each drain may
/// make one call more than there are frames.
pub proof fn lemma_feed_pieces(ms: Seq<MessageModel>, pieces: Seq<Seq<u8>>, fuel: nat)
    requires
        forall|i: int| 0 <= i < ms.len() ==> encodable(#[trigger] ms[i]),
        pieces.flatten() == spec_encode_all(ms),
        fuel >= ms.len() + 1,
    ensures
        spec_feed(Ok(State::Ready), Seq::<u8>::empty(), pieces, fuel) == (
            Ok::<State, DecodeError>(State::Ready),
            Seq::<u8>::empty(),
            ms,
            false,
        ),
{
    let p = Seq::<u8>::empty();
    assert(p + pieces.flatten() =~= spec_encode_all(ms));
    if ms.len() > 0 {
        assert(p =~= spec_encode(ms[0]).take(0));
        lemma_encode_facts_len(ms[0]);
    }
    assert(spec_decode(Ok(State::Ready), p) == (
        Ok::<State, DecodeError>(State::Ready),
        p,
        Ok::<Option<MessageModel>, DecodeError>(None),
    ));
    lemma_feed_frames(ms, p, pieces, fuel);
}

proof fn lemma_encode_facts_len(m: MessageModel)
    ensures
        spec_encode(m).len() >= 2,
{
    crate::varint::lemma_encode_facts(spec_header(m.stream_id, m.flag) as nat);
    crate::varint::lemma_encode_facts(m.data.len());
}

} // verus!
