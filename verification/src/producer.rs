//! What a producer of shared buffers sends, and where to.
use crate::octets::push_all;
use crate::wire::dmabuf::{self, DescriptorModel, DmabufDescriptor, DmabufPlane};
use crate::wire::stream::{self, StreamFlags, StreamHeader};
use vstd::prelude::*;

verus! {

pub const TLT_FLAG_INIT: u32 = 0x01;

pub const TLT_FLAG_KEYFRAME: u32 = 0x02;

pub const TLT_FLAG_END_FRAME: u32 = 0x04;

pub const TLT_FLAG_FRAGMENT_CONT: u32 = 0x08;

pub const TLT_FLAG_DMABUF: u32 = 0x10;

pub const TLT_FLAG_WITH_FENCE: u32 = 0x20;

pub const TLT_FLAG_REUSE: u32 = 0x40;

/// All went well.
pub const TLT_OK: i32 = 0;

/// There is no producer.
pub const TLT_ERR_NULL_HANDLE: i32 = -1;

/// The header could not be written.
pub const TLT_ERR_HEADER_WRITE: i32 = -2;

/// The descriptor could not be written.
pub const TLT_ERR_DESCRIPTOR_WRITE: i32 = -3;

/// There are no planes, or too many.
pub const TLT_ERR_PLANE_COUNT: i32 = -4;

/// There are too many file descriptors.
pub const TLT_ERR_FD_COUNT: i32 = -5;

/// The packet could not be sent.
pub const TLT_ERR_SEND: i32 = -10;

/// The most planes of a buffer.
pub const TLT_MAX_PLANES: u8 = 4;

/// The most file descriptors with one packet.
pub const TLT_MAX_FDS: u8 = 5;

/// One plane of a buffer.
#[derive(Debug, Clone, Copy, PartialEq, Eq, Structural)]
pub struct TltPlane {
    pub offset: u32,
    pub stride: u32,
    /// Which of the passed file descriptors backs the plane.
    pub fd_index: u8,
}

/// Planes as they stand in a descriptor.
pub open spec fn wire_planes(planes: Seq<TltPlane>) -> Seq<DmabufPlane> {
    planes.map_values(
        |p: TltPlane| DmabufPlane { offset: p.offset, stride: p.stride, fd_index: p.fd_index },
    )
}

/// The flags of a packet with a shared buffer: the low byte of what the producer says, and
/// that there is one.
pub open spec fn packet_flags(flags: u32) -> StreamFlags {
    StreamFlags { raw: (flags % 0x100) as u8 | StreamFlags::DMABUF }
}

/// The flags of a packet with a shared buffer say so, and else what the low byte of the producer's
/// says, bit for bit.
pub proof fn lemma_packet_flags(flags: u32)
    ensures
        packet_flags(flags).raw & 0x10 == 0x10,
        packet_flags(flags).raw & 0xEF == (flags % 0x100) as u8 & 0xEF,
{
    let low = (flags % 0x100) as u8;
    assert((low | 0x10u8) & 0x10u8 == 0x10u8 && (low | 0x10u8) & 0xEFu8 == low & 0xEFu8)
        by (bit_vector);
}

/// What a packet with a shared buffer holds: the header of the stream, and the descriptor.
pub fn dmabuf_payload(
    frame_id: u32,
    flags: u32,
    width: u32,
    height: u32,
    fourcc: u32,
    modifier: u64,
    planes: &[TltPlane],
    fd_count: u8,
) -> (r: Result<Vec<u8>, i32>)
    ensures
        r is Ok <==> 1 <= planes@.len() <= TLT_MAX_PLANES && fd_count <= TLT_MAX_FDS,
        r matches Err(e) ==> e == if 1 <= planes@.len() <= TLT_MAX_PLANES {
            TLT_ERR_FD_COUNT
        } else {
            TLT_ERR_PLANE_COUNT
        },
        r matches Ok(v) ==> {
            let header = StreamHeader { flags: packet_flags(flags), frame_id };
            &&& v@ == stream::header_bytes(header) + dmabuf::descriptor_bytes(
                DescriptorModel {
                    width,
                    height,
                    fourcc,
                    modifier,
                    planes: wire_planes(planes@),
                    fd_count,
                },
            )
            &&& header.flags.has(StreamFlags::DMABUF)
        },
{
    if planes.len() == 0 || planes.len() > TLT_MAX_PLANES as usize {
        return Err(TLT_ERR_PLANE_COUNT);
    }
    if fd_count > TLT_MAX_FDS {
        return Err(TLT_ERR_FD_COUNT);
    }
    let mut described: Vec<DmabufPlane> = Vec::new();
    let mut i: usize = 0;
    while i < planes.len()
        invariant
            i <= planes@.len(),
            described@.len() == i,
            forall|k: int| 0 <= k < i ==> described@[k] == wire_planes(planes@)[k],
        decreases planes@.len() - i,
    {
        let p = planes[i];
        described.push(
            DmabufPlane { offset: p.offset, stride: p.stride, fd_index: p.fd_index },
        );
        i = i + 1;
    }
    assert(described@ =~= wire_planes(planes@));
    let descriptor = DmabufDescriptor { width, height, fourcc, modifier, planes: described, fd_count };
    let low: u8 = (flags % 0x100) as u8;
    assert((low | 0x10u8) & 0x10u8 == 0x10u8) by (bit_vector);
    let raw: u8 = low | StreamFlags::DMABUF;
    let header = StreamHeader { flags: StreamFlags { raw }, frame_id };
    let mut v = header.to_bytes();
    let body = descriptor.to_bytes();
    push_all(&mut v, body.as_slice());
    Ok(v)
}

/// Where a producer sends to.
#[derive(Debug, Clone, Copy, PartialEq, Eq, Structural)]
pub enum Target {
    /// The socket of the band under the runtime directory.
    Runtime,
    /// The socket of the band under the directory for temporary files.
    Temporary,
}

/// Where a producer sends to: the runtime directory, where there is one and the socket is in
/// it; else the other, where the socket is in that; else whichever there is.
pub fn pick_target(has_runtime: bool, runtime_exists: bool, temporary_exists: bool) -> (r: Target)
    ensures
        r == if has_runtime && (runtime_exists || !temporary_exists) {
            Target::Runtime
        } else {
            Target::Temporary
        },
{
    if has_runtime && runtime_exists {
        Target::Runtime
    } else if temporary_exists {
        Target::Temporary
    } else if has_runtime {
        Target::Runtime
    } else {
        Target::Temporary
    }
}

} // verus!
