//! The clear header of a packet, and whole packets.
use crate::crypto::{
    self, build_aad, decrypt, encrypt, BandId, CryptoError, Key, BAND_ID_LEN, TAG_LEN,
};
use crate::octets::{
    self, array16, copy_front, get_be16, get_be64, push_all, push_be16, push_be64,
};
use crate::primitives::{self, MAX_SEALED};
use vstd::prelude::*;

verus! {

/// The version of the wire format.
pub const PROTOCOL_VERSION: u8 = 3;

/// The bytes of a header.
pub const HEADER_LEN: usize = 27;

/// The bytes of the shortest packet: a header and a tag.
pub const MIN_PACKET_LEN: usize = 43;

/// What a channel carries.
#[derive(Debug, Clone, Copy, PartialEq, Eq, Hash, Structural)]
pub enum ChannelType {
    Control,
    Stream,
    Channel,
    Board,
    Drop,
}

impl ChannelType {
    /// The byte that stands for the type.
    pub open spec fn byte(self) -> u8 {
        match self {
            ChannelType::Control => 0x00,
            ChannelType::Stream => 0x01,
            ChannelType::Channel => 0x02,
            ChannelType::Board => 0x03,
            ChannelType::Drop => 0x04,
        }
    }

    /// The type that a byte stands for.
    pub open spec fn of_byte(x: u8) -> Option<ChannelType> {
        match x {
            0x00 => Some(ChannelType::Control),
            0x01 => Some(ChannelType::Stream),
            0x02 => Some(ChannelType::Channel),
            0x03 => Some(ChannelType::Board),
            0x04 => Some(ChannelType::Drop),
            _ => None,
        }
    }

    /// The type that a byte stands for; none for a byte past the last type.
    pub fn from_u8(x: u8) -> (r: Option<Self>)
        ensures
            r == ChannelType::of_byte(x),
            r matches Some(t) ==> t.byte() == x,
            r is None <==> x > 0x04,
    {
        match x {
            0x00 => Some(ChannelType::Control),
            0x01 => Some(ChannelType::Stream),
            0x02 => Some(ChannelType::Channel),
            0x03 => Some(ChannelType::Board),
            0x04 => Some(ChannelType::Drop),
            _ => None,
        }
    }

    /// The byte that stands for the type.
    pub fn to_u8(self) -> (r: u8)
        ensures
            r == self.byte(),
            ChannelType::of_byte(r) == Some(self),
    {
        match self {
            ChannelType::Control => 0x00,
            ChannelType::Stream => 0x01,
            ChannelType::Channel => 0x02,
            ChannelType::Board => 0x03,
            ChannelType::Drop => 0x04,
        }
    }
}

/// What a packet says in clear.
#[derive(Debug, Clone, Copy, PartialEq, Eq)]
pub struct Header {
    pub band_id: BandId,
    pub channel_type: ChannelType,
    pub channel_id: u16,
    pub sequence: u64,
}

/// What a header says.
#[verifier::ext_equal]
pub struct HeaderModel {
    pub band_id: Seq<u8>,
    pub channel_type: ChannelType,
    pub channel_id: u16,
    pub sequence: u64,
}

impl View for Header {
    type V = HeaderModel;

    open spec fn view(&self) -> HeaderModel {
        HeaderModel {
            band_id: self.band_id@,
            channel_type: self.channel_type,
            channel_id: self.channel_id,
            sequence: self.sequence,
        }
    }
}

/// Why a packet could not be made or read.
#[derive(Debug, Clone, Copy, PartialEq, Eq, Structural)]
pub enum FramingError {
    /// The packet has only this many bytes.
    TooShort(usize),
    /// No channel has this type.
    UnknownChannelType(u8),
    /// Sealing or opening failed.
    Crypto(CryptoError),
}

/// The bytes of a header.
pub open spec fn header_bytes(h: HeaderModel) -> Seq<u8> {
    h.band_id + seq![h.channel_type.byte()] + octets::be16(h.channel_id) + octets::be64(h.sequence)
}

/// The header at the front of `s`.
pub open spec fn header_of(s: Seq<u8>) -> HeaderModel {
    HeaderModel {
        band_id: s.take(16),
        channel_type: ChannelType::of_byte(s[16])->0,
        channel_id: octets::be16_at(s, 17),
        sequence: octets::be64_at(s, 19),
    }
}

/// Why `s` does not start with a header, if it does not.
pub open spec fn header_error(s: Seq<u8>) -> Option<FramingError> {
    if s.len() < HEADER_LEN {
        Some(FramingError::TooShort(s.len() as usize))
    } else if ChannelType::of_byte(s[16]) is None {
        Some(FramingError::UnknownChannelType(s[16]))
    } else {
        None
    }
}

/// Where things stand in a header: the band first, then the byte of the channel's type, which
/// counts control, stream, channel, board and drop from nought, then the channel's number and the
/// packet's, the most significant bytes first.
pub proof fn lemma_header_layout(h: HeaderModel)
    requires
        h.band_id.len() == 16,
    ensures
        ({
            let s = header_bytes(h);
            &&& s.len() == 27
            &&& s.take(16) == h.band_id
            &&& s[16] == match h.channel_type {
                ChannelType::Control => 0u8,
                ChannelType::Stream => 1,
                ChannelType::Channel => 2,
                ChannelType::Board => 3,
                ChannelType::Drop => 4,
            }
            &&& s[17] * 0x100 + s[18] == h.channel_id
            &&& s.subrange(19, 27) == octets::be64(h.sequence)
        }),
{
    let s = header_bytes(h);
    assert(s.take(16) =~= h.band_id);
    assert(s.subrange(17, 19) =~= octets::be16(h.channel_id));
    assert(s.subrange(17, 19)[0] == s[17] && s.subrange(17, 19)[1] == s[18]);
    octets::lemma_worth16(h.channel_id);
    assert(s.subrange(19, 27) =~= octets::be64(h.sequence));
}

/// What is too short or of no known type is refused as such: a header takes twenty-seven bytes,
/// and there are five types.
pub proof fn lemma_header_refused(s: Seq<u8>)
    ensures
        s.len() < 27 ==> header_error(s) == Some(FramingError::TooShort(s.len() as usize)),
        s.len() >= 27 && s[16] > 4 ==> header_error(s) == Some(
            FramingError::UnknownChannelType(s[16]),
        ),
        s.len() >= 27 && s[16] <= 4 ==> header_error(s) is None,
{
}

/// Parsing a written header gives it back, whatever follows it.
pub proof fn lemma_header_round_trip(h: HeaderModel, rest: Seq<u8>)
    requires
        h.band_id.len() == BAND_ID_LEN,
    ensures
        header_error(header_bytes(h) + rest) is None,
        header_of(header_bytes(h) + rest) == h,
        (header_bytes(h) + rest).skip(HEADER_LEN as int) == rest,
{
    let s = header_bytes(h) + rest;
    assert(s.take(16) =~= h.band_id);
    assert(s[16] == h.channel_type.byte());
    assert(s.subrange(17, 19) =~= octets::be16(h.channel_id));
    assert(s.subrange(19, 27) =~= octets::be64(h.sequence));
    octets::lemma_be16_at(s, 17, h.channel_id);
    octets::lemma_be64_at(s, 19, h.sequence);
    assert(s.skip(HEADER_LEN as int) =~= rest);
}

impl Header {
    /// The bytes of the header.
    pub fn to_bytes(&self) -> (v: Vec<u8>)
        ensures
            v@ == header_bytes(self@),
            v@.len() == HEADER_LEN,
    {
        let mut v: Vec<u8> = Vec::new();
        push_all(&mut v, self.band_id.as_slice());
        v.push(self.channel_type.to_u8());
        push_be16(&mut v, self.channel_id);
        push_be64(&mut v, self.sequence);
        assert(v@ =~= header_bytes(self@));
        v
    }

    /// Writes the header over the front of `out`; the offset of what follows it.
    pub fn write(&self, out: &mut [u8]) -> (r: usize)
        requires
            old(out)@.len() >= HEADER_LEN,
        ensures
            r == HEADER_LEN,
            final(out)@ == header_bytes(self@) + old(out)@.skip(HEADER_LEN as int),
    {
        let bytes = self.to_bytes();
        copy_front(out, bytes.as_slice());
        HEADER_LEN
    }

    /// Parses the header at the front of `input`.
    pub fn parse(input: &[u8]) -> (r: Result<Self, FramingError>)
        ensures
            r is Ok <==> header_error(input@) is None,
            r matches Ok(h) ==> h@ == header_of(input@),
            r matches Err(e) ==> header_error(input@) == Some(e),
    {
        if input.len() < HEADER_LEN {
            return Err(FramingError::TooShort(input.len()));
        }
        match ChannelType::from_u8(input[16]) {
            Some(channel_type) => {
                let band_id = array16(input, 0);
                assert(band_id@ =~= input@.take(16));
                Ok(
                    Header {
                        band_id,
                        channel_type,
                        channel_id: get_be16(input, 17),
                        sequence: get_be64(input, 19),
                    },
                )
            },
            None => Err(FramingError::UnknownChannelType(input[16])),
        }
    }
}

/// What a packet with the given header and content authenticates besides its content.
pub open spec fn packet_aad(h: HeaderModel) -> Seq<u8> {
    crypto::aad_of(h.channel_type.byte(), h.channel_id)
}

/// The packet with the given header and content.
pub open spec fn packet_bytes(key: Seq<u8>, h: HeaderModel, content: Seq<u8>) -> Seq<u8> {
    header_bytes(h) + primitives::sealed(key, crypto::nonce_of(h.sequence), packet_aad(h), content)
}

/// What a packet opens to under a key.
pub open spec fn packet_content(key: Seq<u8>, packet: Seq<u8>) -> Option<Seq<u8>> {
    let h = header_of(packet);
    crypto::decrypted(key, h.sequence, packet_aad(h), packet.skip(HEADER_LEN as int))
}

/// Why a packet cannot be read under a key, if it cannot.
pub open spec fn packet_error(key: Seq<u8>, packet: Seq<u8>) -> Option<FramingError> {
    if packet.len() < MIN_PACKET_LEN {
        Some(FramingError::TooShort(packet.len() as usize))
    } else if header_error(packet) is Some {
        header_error(packet)
    } else if packet_content(key, packet) is None {
        Some(FramingError::Crypto(CryptoError::Decrypt))
    } else {
        None
    }
}

/// Seals a message into a packet; `decode_packet` gives header and message back under the
/// same key.
pub fn encode_packet(
    key: &Key,
    band_id: &BandId,
    channel_type: ChannelType,
    channel_id: u16,
    sequence: u64,
    plaintext: &[u8],
) -> (r: Result<Vec<u8>, FramingError>)
    ensures
        r is Ok <==> plaintext@.len() <= MAX_SEALED,
        r matches Ok(packet) ==> {
            let h = HeaderModel { band_id: band_id@, channel_type, channel_id, sequence };
            &&& packet@ == packet_bytes(key@, h, plaintext@)
            &&& packet@.len() == HEADER_LEN + plaintext@.len() + TAG_LEN
            &&& packet_error(key@, packet@) is None
            &&& header_of(packet@) == h
            &&& packet_content(key@, packet@) == Some(plaintext@)
        },
        r matches Err(e) ==> e == FramingError::Crypto(CryptoError::Encrypt),
{
    let aad = build_aad(channel_type.to_u8(), channel_id);
    let sealed = match encrypt(key, sequence, &aad, plaintext) {
        Ok(sealed) => sealed,
        Err(e) => {
            return Err(FramingError::Crypto(e));
        },
    };
    let header = Header { band_id: *band_id, channel_type, channel_id, sequence };
    let mut out = header.to_bytes();
    push_all(&mut out, sealed.as_slice());
    proof {
        lemma_header_round_trip(header@, sealed@);
    }
    Ok(out)
}

/// Reads a packet: its header, and the message it was made of. Only what `encode_packet` gives
/// under the same key is read.
pub fn decode_packet(key: &Key, packet: &[u8]) -> (r: Result<(Header, Vec<u8>), FramingError>)
    ensures
        r is Ok <==> packet_error(key@, packet@) is None,
        r matches Ok((h, content)) ==> {
            &&& h@ == header_of(packet@)
            &&& packet_content(key@, packet@) == Some(content@)
            &&& packet@ == packet_bytes(key@, h@, content@)
        },
        r matches Err(e) ==> packet_error(key@, packet@) == Some(e),
{
    if packet.len() < MIN_PACKET_LEN {
        return Err(FramingError::TooShort(packet.len()));
    }
    let header = match Header::parse(packet) {
        Ok(header) => header,
        Err(e) => {
            return Err(e);
        },
    };
    let aad = build_aad(header.channel_type.to_u8(), header.channel_id);
    let body = vstd::slice::slice_subrange(packet, HEADER_LEN, packet.len());
    assert(body@ =~= packet@.skip(HEADER_LEN as int));
    match decrypt(key, header.sequence, &aad, body) {
        Ok(content) => {
            proof {
                lemma_parsed_header(packet@);
                assert(packet@ =~= packet@.take(HEADER_LEN as int) + packet@.skip(
                    HEADER_LEN as int,
                ));
            }
            Ok((header, content))
        },
        Err(e) => Err(FramingError::Crypto(e)),
    }
}

/// The header that is parsed off the front of `s` is written as the bytes that it was parsed
/// from.
pub proof fn lemma_parsed_header(s: Seq<u8>)
    requires
        header_error(s) is None,
    ensures
        header_bytes(header_of(s)) == s.take(HEADER_LEN as int),
{
    let h = header_of(s);
    assert(h.channel_type.byte() == s[16]);
    octets::lemma_be16_of(s, 17);
    octets::lemma_be64_of(s, 19);
    assert(header_bytes(h) =~= s.take(HEADER_LEN as int));
}

/// What a packet is made of: the header in clear, and the content sealed under the packet's number,
/// with the type and the number of its channel authenticated beside it.
pub proof fn lemma_packet_made_of(key: Seq<u8>, h: HeaderModel, content: Seq<u8>)
    requires
        h.band_id.len() == 16,
    ensures
        packet_bytes(key, h, content).take(27) == header_bytes(h),
        packet_bytes(key, h, content).skip(27) == primitives::sealed(
            key,
            seq![0u8, 0u8, 0u8, 0u8] + octets::be64(h.sequence),
            seq![header_bytes(h)[16], header_bytes(h)[17], header_bytes(h)[18]],
            content,
        ),
{
    let p = packet_bytes(key, h, content);
    let aad = seq![header_bytes(h)[16], header_bytes(h)[17], header_bytes(h)[18]];
    assert(packet_aad(h) =~= aad);
    assert(p.take(27) =~= header_bytes(h));
    assert(p.skip(27) =~= primitives::sealed(
        key,
        crypto::nonce_of(h.sequence),
        packet_aad(h),
        content,
    ));
}

/// Which packets are read: those that hold a header and a tag, are of a known type, and whose
/// content opens under the number and the channel that the header tells.
pub proof fn lemma_packet_read(key: Seq<u8>, packet: Seq<u8>)
    ensures
        packet.len() < 43 ==> packet_error(key, packet) == Some(
            FramingError::TooShort(packet.len() as usize),
        ),
        packet.len() >= 43 && packet[16] > 4 ==> packet_error(key, packet) == Some(
            FramingError::UnknownChannelType(packet[16]),
        ),
        packet_error(key, packet) is None ==> packet_content(key, packet) is Some,
        packet.len() >= 43 && packet[16] <= 4 && packet_content(key, packet) is None
            ==> packet_error(key, packet) == Some(FramingError::Crypto(CryptoError::Decrypt)),
        packet.len() >= 43 && packet[16] <= 4 && packet_content(key, packet) is Some
            ==> packet_error(key, packet) is None,
        43 <= packet.len() <= 27 + MAX_SEALED + 16 && packet[16] <= 4 ==> packet_content(key, packet)
            == primitives::opened(
            key,
            seq![0u8, 0u8, 0u8, 0u8] + octets::be64(octets::be64_at(packet, 19)),
            packet.subrange(16, 19),
            packet.skip(27),
        ),
{
    if packet.len() >= 43 && packet[16] <= 4 {
        let h = header_of(packet);
        octets::lemma_be16_of(packet, 17);
        assert(packet_aad(h) =~= packet.subrange(16, 19)) by {
            assert(octets::be16(h.channel_id) == packet.subrange(17, 19));
            assert(octets::be16(h.channel_id)[0] == packet.subrange(17, 19)[0]);
            assert(octets::be16(h.channel_id)[1] == packet.subrange(17, 19)[1]);
        }
    }
}

} // verus!
