//! What a hub reads of a packet.
use telesthete::crypto::{BandId, BAND_ID_LEN};
use telesthete::framing::{ChannelType, Header, HEADER_LEN, MIN_PACKET_LEN};
use telesthete::hub::frame::{band_from_hex, band_hex, route_info};

/// A packet of the least length with a chosen header.
fn make_frame(band: BandId, ct: u8, cid: u16) -> Vec<u8> {
    let mut v = vec![0u8; MIN_PACKET_LEN];
    v[..BAND_ID_LEN].copy_from_slice(&band);
    v[16] = ct;
    v[17..19].copy_from_slice(&cid.to_be_bytes());
    v
}

#[test]
fn band_id_is_first_16() {
    let band = [0xABu8; BAND_ID_LEN];
    let f = make_frame(band, 0x01, 0);
    assert_eq!(route_info(&f).unwrap().band_id, band);
}

#[test]
fn reads_channel_type_and_id_be() {
    let f = make_frame([0u8; BAND_ID_LEN], 0x02, 0xBEEF);
    let info = route_info(&f).unwrap();
    assert_eq!(info.channel_type, Some(ChannelType::Channel));
    assert_eq!(info.channel_id, 0xBEEF);
}

#[test]
fn rejects_below_min_packet() {
    assert!(route_info(&[0u8; MIN_PACKET_LEN - 1]).is_none());
    assert!(route_info(&[]).is_none());
}

#[test]
fn accepts_exactly_min() {
    assert!(route_info(&[0u8; MIN_PACKET_LEN]).is_some());
}

#[test]
fn unknown_channel_type_still_routable() {
    let band = [9u8; BAND_ID_LEN];
    let f = make_frame(band, 0x05, 7);
    let info = route_info(&f).unwrap();
    assert_eq!(info.channel_type, None);
    assert_eq!(info.band_id, band);
    assert_eq!(info.channel_id, 7);
}

#[test]
fn matches_library_header() {
    let band = [3u8; BAND_ID_LEN];
    let f = make_frame(band, 0x00, 0x1234);
    let hdr = Header::parse(&f).unwrap();
    let info = route_info(&f).unwrap();
    assert_eq!(info.band_id, hdr.band_id);
    assert_eq!(info.channel_id, hdr.channel_id);
    assert_eq!(info.channel_type, Some(hdr.channel_type));
    assert_eq!(HEADER_LEN, 27);
}

#[test]
fn band_hex_round_trips() {
    let band = [0x0f, 0xa0, 0x00, 0xff, 1, 2, 3, 4, 5, 6, 7, 8, 9, 10, 11, 12];
    let hex = band_hex(&band);
    assert_eq!(hex.len(), 32);
    assert_eq!(band_from_hex(&hex), Some(band));
    assert_eq!(band_from_hex("nothex"), None);
    assert_eq!(band_from_hex(&hex[..30]), None);
}

#[test]
fn band_hex_is_lower_case_and_either_case_reads() {
    let band = [0xABu8; BAND_ID_LEN];
    assert_eq!(band_hex(&band), "ab".repeat(16));
    assert_eq!(band_from_hex(&"AB".repeat(16)), Some(band));
}
