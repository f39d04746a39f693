//! The header of a media packet on a stream: flags and a frame number.
use crate::octets::{self, copy_front, get_be32, push_be32};
use vstd::prelude::*;

verus! {

/// The bytes of the header.
pub const STREAM_HEADER_LEN: usize = 8;

/// What a media packet carries, one bit each. Every bit has a meaning, so that every byte is a
/// set of flags; which of them a receiver honours is for it to decide.
#[derive(Debug, Clone, Copy, PartialEq, Eq, Hash, Structural)]
pub struct StreamFlags {
    pub raw: u8,
}

impl StreamFlags {
    /// Data that sets up the decoder.
    pub const INIT: u8 = 0x01;

    /// A keyframe.
    pub const KEYFRAME: u8 = 0x02;

    /// The last packet of its frame.
    pub const END_FRAME: u8 = 0x04;

    /// Continues the packet before it.
    pub const FRAGMENT_CONT: u8 = 0x08;

    /// A descriptor of a shared buffer in place of media bytes.
    pub const DMABUF: u8 = 0x10;

    /// The last of the passed file descriptors is a fence.
    pub const WITH_FENCE: u8 = 0x20;

    /// The same buffer as in the frame before.
    pub const REUSE: u8 = 0x40;

    /// Kept for headers to come.
    pub const EXTENDED: u8 = 0x80;

    /// Whether all of the bits `bits` are set.
    pub open spec fn has(self, bits: u8) -> bool {
        self.raw & bits == bits
    }

    /// The flags with the given bits; every combination is one.
    pub fn from_bits(bits: u8) -> (r: Option<Self>)
        ensures
            r == Some(StreamFlags { raw: bits }),
    {
        Some(StreamFlags { raw: bits })
    }

    /// The bits of the flags.
    pub fn bits(&self) -> (r: u8)
        ensures
            r == self.raw,
    {
        self.raw
    }

    /// Whether all of the bits `bits` are set.
    pub fn contains(&self, bits: u8) -> (r: bool)
        ensures
            r == self.has(bits),
    {
        self.raw & bits == bits
    }
}

/// The header of a media packet.
#[derive(Debug, Clone, Copy, PartialEq, Eq, Structural)]
pub struct StreamHeader {
    pub flags: StreamFlags,
    pub frame_id: u32,
}

/// Why a header could not be written or parsed.
#[derive(Debug, Clone, Copy, PartialEq, Eq, Structural)]
pub enum StreamHeaderError {
    /// The buffer has only this many bytes.
    TooShort(usize),
    /// A reserved byte is not zero.
    ReservedNonzero,
    /// These flags have no meaning.
    UnknownFlags(u8),
}

/// The bytes of a header: the flags, three zero bytes, the frame number.
pub open spec fn header_bytes(h: StreamHeader) -> Seq<u8> {
    seq![h.flags.raw, 0u8, 0u8, 0u8] + octets::be32(h.frame_id)
}

/// The header at the front of `s`.
pub open spec fn header_of(s: Seq<u8>) -> StreamHeader {
    StreamHeader { flags: StreamFlags { raw: s[0] }, frame_id: octets::be32_at(s, 4) }
}

/// Why `s` does not start with a header, if it does not.
pub open spec fn header_error(s: Seq<u8>) -> Option<StreamHeaderError> {
    if s.len() < STREAM_HEADER_LEN {
        Some(StreamHeaderError::TooShort(s.len() as usize))
    } else if s[1] != 0 || s[2] != 0 || s[3] != 0 {
        Some(StreamHeaderError::ReservedNonzero)
    } else {
        None
    }
}

/// Where things stand in a header: the flags, three bytes that are nought, and the frame's number,
/// its most significant byte first. What is shorter, or has another byte there, is refused.
pub proof fn lemma_header_layout(h: StreamHeader, s: Seq<u8>)
    ensures
        header_bytes(h).len() == 8,
        header_bytes(h)[0] == h.flags.raw,
        header_bytes(h)[1] == 0 && header_bytes(h)[2] == 0 && header_bytes(h)[3] == 0,
        header_bytes(h).skip(4) == octets::be32(h.frame_id),
        header_error(s) is None <==> s.len() >= 8 && s[1] == 0 && s[2] == 0 && s[3] == 0,
        s.len() < 8 ==> header_error(s) == Some(StreamHeaderError::TooShort(s.len() as usize)),
{
    assert(header_bytes(h).skip(4) =~= octets::be32(h.frame_id));
}

/// Parsing a written header gives it back, with whatever follows it.
pub proof fn lemma_header_round_trip(h: StreamHeader, rest: Seq<u8>)
    ensures
        header_error(header_bytes(h) + rest) is None,
        header_of(header_bytes(h) + rest) == h,
        (header_bytes(h) + rest).skip(STREAM_HEADER_LEN as int) == rest,
{
    let s = header_bytes(h) + rest;
    assert(s.subrange(4, 8) =~= octets::be32(h.frame_id));
    octets::lemma_be32_at(s, 4, h.frame_id);
    assert(s.skip(STREAM_HEADER_LEN as int) =~= rest);
}

impl StreamHeader {
    /// The bytes of the header.
    pub fn to_bytes(&self) -> (v: Vec<u8>)
        ensures
            v@ == header_bytes(*self),
    {
        let mut v: Vec<u8> = Vec::new();
        v.push(self.flags.raw);
        v.push(0);
        v.push(0);
        v.push(0);
        push_be32(&mut v, self.frame_id);
        assert(v@ =~= header_bytes(*self));
        v
    }

    /// Writes the header over the front of `out`; the offset of what follows it.
    pub fn write(&self, out: &mut [u8]) -> (r: Result<usize, StreamHeaderError>)
        ensures
            old(out)@.len() < STREAM_HEADER_LEN ==> r == Err::<usize, StreamHeaderError>(
                StreamHeaderError::TooShort(old(out)@.len() as usize),
            ) && final(out)@ == old(out)@,
            old(out)@.len() >= STREAM_HEADER_LEN ==> r == Ok::<usize, StreamHeaderError>(
                STREAM_HEADER_LEN,
            ) && final(out)@ == header_bytes(*self) + old(out)@.skip(STREAM_HEADER_LEN as int),
    {
        if out.len() < STREAM_HEADER_LEN {
            return Err(StreamHeaderError::TooShort(out.len()));
        }
        let bytes = self.to_bytes();
        copy_front(out, bytes.as_slice());
        Ok(STREAM_HEADER_LEN)
    }

    /// Parses the header at the front of `input`, and gives what follows it.
    pub fn parse(input: &[u8]) -> (r: Result<(Self, &[u8]), StreamHeaderError>)
        ensures
            r is Ok <==> header_error(input@) is None,
            r matches Ok((h, rest)) ==> h == header_of(input@) && rest@ == input@.skip(
                STREAM_HEADER_LEN as int,
            ),
            r matches Err(e) ==> header_error(input@) == Some(e),
    {
        if input.len() < STREAM_HEADER_LEN {
            return Err(StreamHeaderError::TooShort(input.len()));
        }
        let flags = match StreamFlags::from_bits(input[0]) {
            Some(flags) => flags,
            None => {
                return Err(StreamHeaderError::UnknownFlags(input[0]));
            },
        };
        if input[1] != 0 || input[2] != 0 || input[3] != 0 {
            return Err(StreamHeaderError::ReservedNonzero);
        }
        let rest = vstd::slice::slice_subrange(input, STREAM_HEADER_LEN, input.len());
        assert(rest@ =~= input@.skip(STREAM_HEADER_LEN as int));
        Ok((StreamHeader { flags, frame_id: get_be32(input, 4) }, rest))
    }
}

} // verus!
