//! Numbering and sealing of what a peer sends, and the check of what it receives.
use crate::crypto::{BandId, Key};
use crate::framing::{
    self, decode_packet, encode_packet, ChannelType, FramingError, Header, HeaderModel,
};
use crate::octets::{self, get_be64, same_bytes};
use crate::primitives::{random16, MAX_SEALED};
use crate::wire::dmabuf::MAX_FDS_PER_PACKET;
use vstd::prelude::*;

verus! {

/// Why a packet could not be sent.
#[derive(Debug, Clone)]
pub enum TransportError {
    /// The socket refused it, for this reason.
    Io(String),
    /// It could not be made.
    Framing(FramingError),
    /// The transport is closed.
    Closed,
}

/// The numbers of a sender's packets, one for each, shared by all its channels. They start at
/// random, so that two senders under one key are unlikely to use one number twice.
#[derive(Debug)]
pub struct SequenceCounter {
    pub value: u64,
}

/// The number that comes `n` after `start`, on a circle of 2^64 numbers.
pub open spec fn numbered(start: u64, n: nat) -> u64 {
    ((start + n) % 0x1_0000_0000_0000_0000) as u64
}

/// A sender uses no number twice before it has used all of them, and numbers that start in the
/// lower half go up for as long as it has used no more than half of them.
pub proof fn lemma_numbers_distinct(start: u64, i: nat, j: nat)
    requires
        i < j < 0x1_0000_0000_0000_0000,
    ensures
        numbered(start, i) != numbered(start, j),
        start < 0x8000_0000_0000_0000 && j <= 0x8000_0000_0000_0000 ==> numbered(start, i)
            < numbered(start, j),
{
}

/// Where numbers start that random bytes decide.
pub open spec fn seed_of(bytes: Seq<u8>) -> u64 {
    octets::be64_at(bytes, 0) / 2
}

impl SequenceCounter {
    /// Numbers that start at the given one.
    pub fn starting_at(value: u64) -> (r: Self)
        ensures
            r.value == value,
    {
        SequenceCounter { value }
    }

    /// Numbers that start where random bytes say, in the lower half of the circle: at half of
    /// the number that the first eight of them write.
    pub fn seeded(bytes: &[u8; 16]) -> (r: Self)
        ensures
            r.value == seed_of(bytes@),
            r.value < 0x8000_0000_0000_0000,
    {
        SequenceCounter { value: get_be64(bytes.as_slice(), 0) / 2 }
    }

    /// Numbers that start at random, in the lower half of the circle.
    pub fn random() -> (r: Self)
        ensures
            exists|bytes: [u8; 16]| r.value == #[trigger] seed_of(bytes@),
            r.value < 0x8000_0000_0000_0000,
    {
        let bytes = random16();
        let r = Self::seeded(&bytes);
        assert(r.value == seed_of(bytes@));
        r
    }

    /// The next number.
    pub fn next(&mut self) -> (r: u64)
        ensures
            r == old(self).value,
            final(self).value == numbered(old(self).value, 1),
    {
        let r = self.value;
        self.value = self.value.wrapping_add(1);
        r
    }
}

impl Default for SequenceCounter {
    fn default() -> (r: Self)
        ensures
            exists|bytes: [u8; 16]| r.value == #[trigger] seed_of(bytes@),
            r.value < 0x8000_0000_0000_0000,
    {
        Self::random()
    }
}

/// What to do with what came in.
#[derive(Debug)]
pub enum Arrival {
    /// Hand it to whoever listens on its type of channel.
    Deliver(Header, Vec<u8>),
    /// Drop it: it could not be read.
    Unreadable(FramingError),
    /// Drop it: it names another band.
    Foreign,
}

/// Why a packet with file descriptors could not be sent.
#[derive(Debug, Clone, Copy, PartialEq, Eq, Structural)]
pub enum UnixSendError {
    /// There are this many, more than a packet takes.
    TooManyFds(usize),
    /// The packet could not be made.
    Framing(FramingError),
}

/// What a member of a band with the given key delivers of what came in.
pub open spec fn delivered(key: Seq<u8>, band_id: Seq<u8>, packet: Seq<u8>) -> Option<
    (HeaderModel, Seq<u8>),
> {
    if framing::packet_error(key, packet) is None && framing::header_of(packet).band_id == band_id {
        Some((framing::header_of(packet), framing::packet_content(key, packet)->0))
    } else {
        None
    }
}

/// What a member of a band sends, every other member delivers, as it was sent; a member of another
/// band does not, even one with the same key. What cannot be read is not delivered.
pub proof fn lemma_members_hear_each_other(
    key: Seq<u8>,
    h: HeaderModel,
    content: Seq<u8>,
    band_id: Seq<u8>,
    packet: Seq<u8>,
)
    requires
        h.band_id.len() == 16,
        framing::packet_error(key, framing::packet_bytes(key, h, content)) is None,
        framing::packet_content(key, framing::packet_bytes(key, h, content)) == Some(content),
    ensures
        delivered(key, h.band_id, framing::packet_bytes(key, h, content)) == Some((h, content)),
        band_id != h.band_id ==> delivered(
            key,
            band_id,
            framing::packet_bytes(key, h, content),
        ) is None,
        framing::packet_error(key, packet) is Some ==> delivered(key, band_id, packet) is None,
{
    framing::lemma_header_round_trip(
        h,
        crate::primitives::sealed(
            key,
            crate::crypto::nonce_of(h.sequence),
            framing::packet_aad(h),
            content,
        ),
    );
}

/// A member of a band, between the sockets: its key, the band, and the numbers it uses.
pub struct TransportCore {
    pub key: Key,
    pub band_id: BandId,
    pub seq: SequenceCounter,
}

impl TransportCore {
    /// A member of the given band.
    pub fn new(key: Key, band_id: BandId, seq: SequenceCounter) -> (r: Self)
        ensures
            r.key == key,
            r.band_id == band_id,
            r.seq == seq,
    {
        TransportCore { key, band_id, seq }
    }

    /// The header of the next packet on a channel.
    pub open spec fn next_header(&self, channel_type: ChannelType, channel_id: u16) -> HeaderModel {
        HeaderModel {
            band_id: self.band_id@,
            channel_type,
            channel_id,
            sequence: self.seq.value,
        }
    }

    /// Seals a message into the next packet. Each call uses up a number, whether it succeeds or
    /// not. Every member of the band reads the message back.
    pub fn seal(&mut self, channel_type: ChannelType, channel_id: u16, plaintext: &[u8]) -> (r:
        Result<Vec<u8>, FramingError>)
        ensures
            final(self).key == old(self).key,
            final(self).band_id == old(self).band_id,
            final(self).seq.value == numbered(old(self).seq.value, 1),
            r is Ok <==> plaintext@.len() <= MAX_SEALED,
            r matches Ok(packet) ==> {
                let h = old(self).next_header(channel_type, channel_id);
                &&& packet@ == framing::packet_bytes(old(self).key@, h, plaintext@)
                &&& framing::packet_error(old(self).key@, packet@) is None
                &&& framing::header_of(packet@) == h
                &&& framing::packet_content(old(self).key@, packet@) == Some(plaintext@)
            },
            r matches Err(e) ==> e == FramingError::Crypto(crate::crypto::CryptoError::Encrypt),
    {
        let number = self.seq.next();
        encode_packet(&self.key, &self.band_id, channel_type, channel_id, number, plaintext)
    }

    /// Seals a message that file descriptors go with. One with too many of them uses up no
    /// number.
    pub fn seal_with_fds(
        &mut self,
        channel_type: ChannelType,
        channel_id: u16,
        plaintext: &[u8],
        fd_count: usize,
    ) -> (r: Result<Vec<u8>, UnixSendError>)
        ensures
            final(self).key == old(self).key,
            final(self).band_id == old(self).band_id,
            fd_count > MAX_FDS_PER_PACKET ==> r == Err::<Vec<u8>, UnixSendError>(
                UnixSendError::TooManyFds(fd_count),
            ) && final(self).seq.value == old(self).seq.value,
            fd_count <= MAX_FDS_PER_PACKET ==> {
                &&& final(self).seq.value == numbered(old(self).seq.value, 1)
                &&& r is Ok <==> plaintext@.len() <= MAX_SEALED
                &&& r matches Ok(packet) ==> packet@ == framing::packet_bytes(
                    old(self).key@,
                    old(self).next_header(channel_type, channel_id),
                    plaintext@,
                )
                &&& r matches Err(e) ==> e == UnixSendError::Framing(
                    FramingError::Crypto(crate::crypto::CryptoError::Encrypt),
                )
            },
    {
        if fd_count > MAX_FDS_PER_PACKET {
            return Err(UnixSendError::TooManyFds(fd_count));
        }
        match self.seal(channel_type, channel_id, plaintext) {
            Ok(packet) => Ok(packet),
            Err(e) => Err(UnixSendError::Framing(e)),
        }
    }

    /// Checks what came in: only what a member of this band has sealed is delivered.
    pub fn receive(&self, packet: &[u8]) -> (r: Arrival)
        ensures
            match r {
                Arrival::Unreadable(e) => framing::packet_error(self.key@, packet@) == Some(e),
                Arrival::Foreign => {
                    &&& framing::packet_error(self.key@, packet@) is None
                    &&& framing::header_of(packet@).band_id != self.band_id@
                },
                Arrival::Deliver(h, content) => {
                    &&& framing::packet_error(self.key@, packet@) is None
                    &&& h@ == framing::header_of(packet@)
                    &&& h.band_id@ == self.band_id@
                    &&& framing::packet_content(self.key@, packet@) == Some(content@)
                    &&& packet@ == framing::packet_bytes(self.key@, h@, content@)
                },
            },
            match r {
                Arrival::Deliver(h, content) => delivered(self.key@, self.band_id@, packet@)
                    == Some((h@, content@)),
                _ => delivered(self.key@, self.band_id@, packet@) is None,
            },
    {
        match decode_packet(&self.key, packet) {
            Err(e) => Arrival::Unreadable(e),
            Ok((header, content)) => {
                if same_bytes(header.band_id.as_slice(), self.band_id.as_slice()) {
                    Arrival::Deliver(header, content)
                } else {
                    Arrival::Foreign
                }
            },
        }
    }
}

} // verus!
