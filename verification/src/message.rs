//! Frames of the protocol: a stream id, a flag and a payload.
use vstd::prelude::*;
use bytes::Bytes;
use crate::buffer::bytes_contents;
use crate::error::{Error, ErrorKind};

verus! {

/// What a frame says about its stream.
#[derive(Eq, PartialEq, Structural, Debug, Clone, Copy)]
pub enum Flag {
    NewStream,
    Receiver,
    Initiator,
    Close,
}

/// The wire code of each flag.
pub open spec fn flag_code(f: Flag) -> u64 {
    match f {
        Flag::NewStream => 0,
        Flag::Receiver => 1,
        Flag::Initiator => 2,
        Flag::Close => 4,
    }
}

/// The flag that a wire code names, if any.
pub open spec fn flag_of_code(code: u64) -> Option<Flag> {
    if code == 0 {
        Some(Flag::NewStream)
    } else if code == 1 {
        Some(Flag::Receiver)
    } else if code == 2 {
        Some(Flag::Initiator)
    } else if code == 4 {
        Some(Flag::Close)
    } else {
        None
    }
}

impl Flag {
    /// The flag's wire code.
    pub fn into(self) -> (code: u64)
        ensures
            code == flag_code(self),
    {
        match self {
            Flag::NewStream => 0,
            Flag::Receiver => 1,
            Flag::Initiator => 2,
            Flag::Close => 4,
        }
    }

    /// The flag of a three-bit wire code; the codes 3, 5, 6 and 7 name none,
    /// and give an error of kind `InvalidData` described as "unknown flag".
    pub fn try_from(val: u64) -> (r: Result<Flag, Error>)
        requires
            val <= 7,
        ensures
            match flag_of_code(val) {
                Some(f) => r matches Ok(g) && g == f,
                None => r matches Err(e) && e.kind == ErrorKind::InvalidData && e.message@
                    == "unknown flag"@,
            },
    {
        if val == 0 {
            Ok(Flag::NewStream)
        } else if val == 1 {
            Ok(Flag::Receiver)
        } else if val == 2 {
            Ok(Flag::Initiator)
        } else if val == 4 {
            Ok(Flag::Close)
        } else {
            Err(Error { kind: ErrorKind::InvalidData, message: "unknown flag".to_owned() })
        }
    }
}

/// Decoding a flag's code gives the flag back.
pub proof fn lemma_flag_code_roundtrip(f: Flag)
    ensures
        flag_code(f) <= 7,
        flag_of_code(flag_code(f)) == Some(f),
{
}

/// The header word of a frame: the stream id shifted past three flag bits.
pub open spec fn spec_header(stream_id: u64, flag: Flag) -> u64 {
    (stream_id << 3u64) | flag_code(flag)
}

/// A frame: the stream it belongs to, its flag and its payload.
#[derive(Debug)]
pub struct Message {
    pub stream_id: u64,
    pub flag: Flag,
    pub data: Bytes,
}

/// A frame as plain values.
#[verifier::ext_equal]
pub struct MessageModel {
    pub stream_id: u64,
    pub flag: Flag,
    pub data: Seq<u8>,
}

impl View for Message {
    type V = MessageModel;

    open spec fn view(&self) -> MessageModel {
        MessageModel { stream_id: self.stream_id, flag: self.flag, data: bytes_contents(self.data) }
    }
}

impl Message {
    /// The frame's header word.
    pub fn header(&self) -> (h: u64)
        ensures
            h == spec_header(self.stream_id, self.flag),
    {
        (self.stream_id << 3u64) | self.flag.into()
    }
}

/// The header word gives back the flag, and the stream id when it fits in
/// the 61 bits that the shift keeps.
pub proof fn lemma_header_roundtrip(stream_id: u64, flag: Flag)
    ensures
        spec_header(stream_id, flag) & 7 == flag_code(flag),
        stream_id < 0x2000_0000_0000_0000 ==> spec_header(stream_id, flag) >> 3u64 == stream_id,
{
    let c = flag_code(flag);
    assert(c <= 7);
    assert(((stream_id << 3u64) | c) & 7 == c) by (bit_vector)
        requires
            c <= 7,
    ;
    assert(stream_id < 0x2000_0000_0000_0000 ==> ((stream_id << 3u64) | c) >> 3u64 == stream_id)
        by (bit_vector)
        requires
            c <= 7,
    ;
}

} // verus!
