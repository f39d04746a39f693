//! WebTransport sessions at a hub.
use telesthete::framing::ChannelType;
use telesthete::hub::frame::RouteInfo;
use telesthete::hub::wt::{carrier, deframe, frame_packet, parse_band, Carrier};

#[test]
fn parse_band_from_query() {
    let hex = "0a".repeat(16);
    let path = format!("/telesthete?band={hex}");
    assert_eq!(parse_band(&path), Some([0x0a; 16]));
}

#[test]
fn parse_band_rejects_wrong_route_or_missing() {
    let hex = "0a".repeat(16);
    assert_eq!(parse_band(&format!("/nope?band={hex}")), None);
    assert_eq!(parse_band("/telesthete"), None);
    assert_eq!(parse_band("/telesthete?nope=1"), None);
    assert_eq!(parse_band("/telesthete?band=xyz"), None);
}

#[test]
fn band_is_found_among_other_parameters() {
    let hex = "0b".repeat(16);
    assert_eq!(parse_band(&format!("/telesthete?x=1&band={hex}&y")), Some([0x0b; 16]));
}

fn info(channel_type: Option<ChannelType>) -> RouteInfo {
    RouteInfo { band_id: [0; 16], channel_type, channel_id: 7 }
}

#[test]
fn each_channel_has_its_carrier() {
    assert_eq!(carrier(&info(Some(ChannelType::Stream))), Carrier::Datagram);
    assert_eq!(carrier(&info(Some(ChannelType::Channel))), Carrier::Channel(7));
    assert_eq!(carrier(&info(Some(ChannelType::Control))), Carrier::Control);
}

#[test]
fn packets_are_read_back_from_a_stream() {
    let mut bytes = frame_packet(b"one").unwrap();
    assert_eq!(bytes, vec![0, 3, b'o', b'n', b'e']);
    bytes.extend(frame_packet(b"").unwrap());
    bytes.extend(frame_packet(b"two").unwrap());
    let whole = bytes.len();
    bytes.extend([0, 9, 1]);
    let (packets, used) = deframe(&bytes);
    assert_eq!(packets, vec![b"one".to_vec(), b"two".to_vec()], "empty ones are passed over");
    assert_eq!(used, whole);
    assert!(frame_packet(&vec![0; 65536]).is_none());
}
