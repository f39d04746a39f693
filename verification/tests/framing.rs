//! The packet header and whole packets.
use telesthete::crypto::{derive_band_id, derive_key, CryptoError, BAND_ID_LEN, TAG_LEN};
use telesthete::framing::{
    decode_packet, encode_packet, ChannelType, FramingError, Header, HEADER_LEN, MIN_PACKET_LEN,
};

const PSK: &[u8] = b"telesthete-test-psk";

#[test]
fn header_round_trip() {
    let h = Header {
        band_id: [7u8; BAND_ID_LEN],
        channel_type: ChannelType::Stream,
        channel_id: 0xBEEF,
        sequence: 0x0123_4567_89AB_CDEF,
    };
    let mut buf = vec![0u8; HEADER_LEN];
    let off = h.write(&mut buf);
    assert_eq!(off, HEADER_LEN);
    let parsed = Header::parse(&buf).unwrap();
    assert_eq!(parsed, h);
}

#[test]
fn header_unknown_channel_type() {
    let mut buf = vec![0u8; HEADER_LEN];
    buf[16] = 0xFF;
    assert!(matches!(
        Header::parse(&buf),
        Err(FramingError::UnknownChannelType(0xFF))
    ));
}

#[test]
fn packet_round_trip() {
    let key = derive_key(PSK);
    let band_id = derive_band_id(PSK);
    let payload = b"hello, telesthete";
    let pkt = encode_packet(&key, &band_id, ChannelType::Stream, 1, 42, payload).unwrap();
    assert_eq!(pkt.len(), HEADER_LEN + payload.len() + TAG_LEN);

    let (header, recovered) = decode_packet(&key, &pkt).unwrap();
    assert_eq!(header.band_id, band_id);
    assert_eq!(header.channel_type, ChannelType::Stream);
    assert_eq!(header.channel_id, 1);
    assert_eq!(header.sequence, 42);
    assert_eq!(recovered, payload);
}

#[test]
fn tampered_header_rejected() {
    let key = derive_key(PSK);
    let band_id = derive_band_id(PSK);
    let mut pkt = encode_packet(&key, &band_id, ChannelType::Stream, 1, 1, b"x").unwrap();
    pkt[18] ^= 0xFF;
    assert!(decode_packet(&key, &pkt).is_err());
}

#[test]
fn tampered_ciphertext_rejected() {
    let key = derive_key(PSK);
    let band_id = derive_band_id(PSK);
    let mut pkt = encode_packet(&key, &band_id, ChannelType::Stream, 1, 1, b"x").unwrap();
    let last = pkt.len() - 1;
    pkt[last] ^= 0x01;
    assert_eq!(decode_packet(&key, &pkt), Err(FramingError::Crypto(CryptoError::Decrypt)));
}

#[test]
fn header_layout_is_big_endian() {
    let h = Header {
        band_id: [0xAA; BAND_ID_LEN],
        channel_type: ChannelType::Drop,
        channel_id: 0x0102,
        sequence: 0x0304,
    };
    let bytes = h.to_bytes();
    assert_eq!(&bytes[..16], &[0xAA; 16][..]);
    assert_eq!(&bytes[16..], &[4, 1, 2, 0, 0, 0, 0, 0, 0, 3, 4][..]);
}

#[test]
fn short_inputs_are_reported() {
    assert_eq!(Header::parse(&[0u8; 26]), Err(FramingError::TooShort(26)));
    let key = derive_key(PSK);
    assert_eq!(decode_packet(&key, &[0u8; MIN_PACKET_LEN - 1]), Err(FramingError::TooShort(42)));
}

#[test]
fn channel_type_numbers() {
    for n in 0..5u8 {
        assert_eq!(ChannelType::from_u8(n).unwrap().to_u8(), n);
    }
    assert_eq!(ChannelType::from_u8(5), None);
}
