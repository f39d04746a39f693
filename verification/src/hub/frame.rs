//! What a hub reads of a packet: the part of the header that says where it goes.
use crate::crypto::{BandId, BAND_ID_LEN};
use crate::framing::{self, ChannelType, MIN_PACKET_LEN};
use crate::hex::{self, from_hex, to_hex};
use crate::octets::{self, array16, get_be16};
use vstd::prelude::*;

verus! {

/// Where a packet goes.
#[derive(Debug, Clone, Copy, PartialEq, Eq)]
pub struct RouteInfo {
    pub band_id: BandId,
    /// The type of its channel, if it is a known one.
    pub channel_type: Option<ChannelType>,
    pub channel_id: u16,
}

/// Reads where a packet goes; `None` for one that is shorter than any packet.
pub fn route_info(pkt: &[u8]) -> (r: Option<RouteInfo>)
    ensures
        r is Some <==> pkt@.len() >= MIN_PACKET_LEN,
        r matches Some(info) ==> {
            &&& info.band_id@ == pkt@.take(16)
            &&& info.channel_type == ChannelType::of_byte(pkt@[16])
            &&& info.channel_id == octets::be16_at(pkt@, 17)
        },
{
    if pkt.len() < MIN_PACKET_LEN {
        return None;
    }
    let band_id = array16(pkt, 0);
    assert(band_id@ =~= pkt@.take(16));
    Some(
        RouteInfo {
            band_id,
            channel_type: ChannelType::from_u8(pkt[16]),
            channel_id: get_be16(pkt, 17),
        },
    )
}

/// A hub routes a packet by what its peers read in the header.
pub proof fn lemma_route_agrees_with_header(pkt: Seq<u8>)
    requires
        pkt.len() >= MIN_PACKET_LEN,
        framing::header_error(pkt) is None,
    ensures
        framing::header_of(pkt).band_id == pkt.take(16),
        ChannelType::of_byte(pkt[16]) == Some(framing::header_of(pkt).channel_type),
        framing::header_of(pkt).channel_id == octets::be16_at(pkt, 17),
{
}

/// A band's identifier in hexadecimal.
pub fn band_hex(b: &BandId) -> (s: String)
    ensures
        s@ == hex::hex_of(b@),
{
    to_hex(b.as_slice())
}

/// Whether text is a band's identifier in hexadecimal.
pub open spec fn is_band_hex(s: Seq<char>) -> bool {
    s.len() == 2 * BAND_ID_LEN && hex::is_hex(s)
}

/// The identifier that hexadecimal digits of either case write; `None` for any other text.
pub fn band_from_hex(s: &str) -> (r: Option<BandId>)
    ensures
        r is Some <==> is_band_hex(s@),
        r matches Some(b) ==> b@ == hex::bytes_of_hex(s@),
{
    match from_hex(s) {
        Some(bytes) => {
            if bytes.len() != BAND_ID_LEN {
                return None;
            }
            let b = array16(bytes.as_slice(), 0);
            assert(b@ =~= bytes@);
            Some(b)
        },
        None => None,
    }
}

/// Reading the hexadecimal of an identifier gives the identifier back.
pub proof fn lemma_band_hex_round_trip(b: Seq<u8>)
    requires
        b.len() == BAND_ID_LEN,
    ensures
        is_band_hex(hex::hex_of(b)),
        hex::bytes_of_hex(hex::hex_of(b)) == b,
{
    hex::lemma_hex_round_trip(b);
}

} // verus!
