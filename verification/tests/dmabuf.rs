//! The dmabuf descriptor.
use telesthete::wire::dmabuf::{
    fourcc_to_str, DmabufDescriptor, DmabufError, DmabufPlane, DRM_FORMAT_MOD_LINEAR, HEADER_BYTES,
    MAX_PLANES,
};
use telesthete::wire::stream::StreamFlags;

fn flags(bits: u8) -> StreamFlags {
    StreamFlags::from_bits(bits).unwrap()
}

fn fourcc(s: &[u8; 4]) -> u32 {
    u32::from_le_bytes(*s)
}

#[test]
fn xr24_single_plane_round_trip() {
    let desc = DmabufDescriptor {
        width: 1920,
        height: 1080,
        fourcc: fourcc(b"XR24"),
        modifier: DRM_FORMAT_MOD_LINEAR,
        planes: vec![DmabufPlane {
            offset: 0,
            stride: 1920 * 4,
            fd_index: 0,
        }],
        fd_count: 1,
    };
    let mut buf = vec![0u8; DmabufDescriptor::encoded_len(1)];
    let n = desc.write(&mut buf).unwrap();
    assert_eq!(n, buf.len());
    assert_eq!(n, 31);
    let parsed = DmabufDescriptor::parse(&buf).unwrap();
    assert_eq!(parsed, desc);
}

#[test]
fn nv12_two_plane_round_trip() {
    let desc = DmabufDescriptor {
        width: 3840,
        height: 2160,
        fourcc: fourcc(b"NV12"),
        modifier: 0xFFFF_0001_0203_0405,
        planes: vec![
            DmabufPlane {
                offset: 0,
                stride: 3840,
                fd_index: 0,
            },
            DmabufPlane {
                offset: 3840 * 2160,
                stride: 3840,
                fd_index: 0,
            },
        ],
        fd_count: 1,
    };
    let mut buf = vec![0u8; DmabufDescriptor::encoded_len(2)];
    desc.write(&mut buf).unwrap();
    let parsed = DmabufDescriptor::parse(&buf).unwrap();
    assert_eq!(parsed, desc);
    assert_eq!(buf.len(), 40);
}

#[test]
fn fourcc_endianness_matches_drm_ascii() {
    // 'XR24' on the wire must be 0x58 0x52 0x32 0x34 in that byte
    // order, because tools dump it as the ASCII string "XR24".
    let desc = DmabufDescriptor {
        width: 1,
        height: 1,
        fourcc: fourcc(b"XR24"),
        modifier: 0,
        planes: vec![DmabufPlane {
            offset: 0,
            stride: 4,
            fd_index: 0,
        }],
        fd_count: 1,
    };
    let mut buf = vec![0u8; DmabufDescriptor::encoded_len(1)];
    desc.write(&mut buf).unwrap();
    assert_eq!(&buf[8..12], b"XR24");
    assert_eq!(fourcc_to_str(desc.fourcc), *b"XR24");
}

#[test]
fn check_flags_with_fence_offsets_plane_fd_budget() {
    let desc = DmabufDescriptor {
        width: 1,
        height: 1,
        fourcc: fourcc(b"XR24"),
        modifier: 0,
        planes: vec![DmabufPlane {
            offset: 0,
            stride: 4,
            fd_index: 0,
        }],
        fd_count: 2, // plane fd + fence fd
    };
    desc.check_flags(flags(StreamFlags::DMABUF | StreamFlags::WITH_FENCE))
        .unwrap();
}

#[test]
fn check_flags_reuse_requires_zero_fds() {
    let desc = DmabufDescriptor {
        width: 1,
        height: 1,
        fourcc: fourcc(b"XR24"),
        modifier: 0,
        planes: vec![DmabufPlane {
            offset: 0,
            stride: 4,
            fd_index: 0,
        }],
        fd_count: 0,
    };
    desc.check_flags(flags(StreamFlags::DMABUF | StreamFlags::REUSE))
        .unwrap();

    // REUSE + fd_count=1 without WITH_FENCE is malformed.
    let mut bad = desc.clone();
    bad.fd_count = 1;
    assert!(matches!(
        bad.check_flags(flags(StreamFlags::DMABUF | StreamFlags::REUSE)),
        Err(DmabufError::ReuseFdMismatch(1))
    ));

    // REUSE + WITH_FENCE allows exactly one fd (the fence).
    let mut with_fence = desc.clone();
    with_fence.fd_count = 1;
    with_fence
        .check_flags(flags(StreamFlags::DMABUF | StreamFlags::REUSE | StreamFlags::WITH_FENCE))
        .unwrap();
}

#[test]
fn rejects_zero_planes() {
    let mut buf = vec![0u8; HEADER_BYTES];
    // width/height/fourcc/modifier all zero, plane_count=0, fd_count=0.
    assert!(matches!(
        DmabufDescriptor::parse(&buf),
        Err(DmabufError::PlaneCountOutOfRange(0))
    ));
    // Also reject too-many.
    buf[20] = (MAX_PLANES + 1) as u8;
    assert!(matches!(
        DmabufDescriptor::parse(&buf),
        Err(DmabufError::PlaneCountOutOfRange(_))
    ));
}

#[test]
fn write_rejects_260_planes_instead_of_truncating() {
    // 260 modulo 256 is 4: the count must be tested before it is narrowed.
    let plane = DmabufPlane {
        offset: 0,
        stride: 4,
        fd_index: 0,
    };
    let desc = DmabufDescriptor {
        width: 1,
        height: 1,
        fourcc: fourcc(b"XR24"),
        modifier: 0,
        planes: vec![plane; 260],
        fd_count: 1,
    };
    let mut buf = vec![0u8; DmabufDescriptor::encoded_len(260)];
    assert!(matches!(
        desc.write(&mut buf),
        Err(DmabufError::PlaneCountOutOfRange(_))
    ));
}

#[test]
fn write_rejects_fd_count_above_packet_max() {
    let desc = DmabufDescriptor {
        width: 1,
        height: 1,
        fourcc: fourcc(b"XR24"),
        modifier: 0,
        planes: vec![DmabufPlane {
            offset: 0,
            stride: 4,
            fd_index: 0,
        }],
        fd_count: 200,
    };
    let mut buf = vec![0u8; DmabufDescriptor::encoded_len(1)];
    assert!(matches!(
        desc.write(&mut buf),
        Err(DmabufError::FdCountOutOfRange(200))
    ));
}

#[test]
fn parse_rejects_fd_count_above_packet_max() {
    let good = DmabufDescriptor {
        width: 1,
        height: 1,
        fourcc: fourcc(b"XR24"),
        modifier: 0,
        planes: vec![DmabufPlane {
            offset: 0,
            stride: 4,
            fd_index: 0,
        }],
        fd_count: 1,
    };
    let mut buf = vec![0u8; DmabufDescriptor::encoded_len(1)];
    good.write(&mut buf).unwrap();
    buf[21] = 200; // fd_count way past MAX_FDS_PER_PACKET
    assert!(matches!(
        DmabufDescriptor::parse(&buf),
        Err(DmabufError::FdCountOutOfRange(200))
    ));
}

#[test]
fn rejects_truncated_plane_table() {
    let desc = DmabufDescriptor {
        width: 1,
        height: 1,
        fourcc: fourcc(b"XR24"),
        modifier: 0,
        planes: vec![DmabufPlane {
            offset: 0,
            stride: 4,
            fd_index: 0,
        }],
        fd_count: 1,
    };
    let mut buf = vec![0u8; DmabufDescriptor::encoded_len(1)];
    desc.write(&mut buf).unwrap();
    // Drop the last byte of the plane table.
    let truncated = &buf[..buf.len() - 1];
    assert!(matches!(
        DmabufDescriptor::parse(truncated),
        Err(DmabufError::TooShort { .. })
    ));
}

fn one_plane(fd_index: u8, fd_count: u8) -> DmabufDescriptor {
    DmabufDescriptor {
        width: 2,
        height: 3,
        fourcc: fourcc(b"XR24"),
        modifier: 0,
        planes: vec![DmabufPlane { offset: 0, stride: 8, fd_index }],
        fd_count,
    }
}

#[test]
fn fd_index_beyond_the_budget_is_rejected() {
    let desc = one_plane(1, 1);
    assert_eq!(
        desc.check_flags(flags(StreamFlags::DMABUF)),
        Err(DmabufError::FdIndexOutOfRange { fd: 1, idx: 1 })
    );
    assert_eq!(one_plane(0, 1).check_flags(flags(StreamFlags::DMABUF)), Ok(()));
}

#[test]
fn short_buffers_are_reported_with_their_lengths() {
    let desc = one_plane(0, 1);
    let mut buf = vec![0u8; 30];
    assert_eq!(desc.write(&mut buf), Err(DmabufError::TooShort { got: 30, need: 31 }));
    assert_eq!(
        DmabufDescriptor::parse(&[0u8; 21]),
        Err(DmabufError::TooShort { got: 21, need: 22 })
    );
    let bytes = desc.to_bytes();
    assert_eq!(
        DmabufDescriptor::parse(&bytes[..30]),
        Err(DmabufError::TooShort { got: 30, need: 31 })
    );
}
