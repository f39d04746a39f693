//! The descriptor of a shared graphics buffer, whose file descriptors travel beside the packet.
use crate::octets::{
    self, copy_front, get_be32, get_be64, get_le32, push_be32, push_be64, push_le32,
};
use crate::wire::stream::StreamFlags;
use vstd::prelude::*;

verus! {

/// The most planes of a buffer.
pub const MAX_PLANES: usize = 4;

/// The most file descriptors with one packet: one for each plane, and a fence.
pub const MAX_FDS_PER_PACKET: usize = 5;

/// The modifier of a linear layout.
pub const DRM_FORMAT_MOD_LINEAR: u64 = 0;

/// The modifier of an unknown layout.
pub const DRM_FORMAT_MOD_INVALID: u64 = 0x00FF_FFFF_FFFF_FFFF;

/// The bytes before the planes.
pub const HEADER_BYTES: usize = 22;

/// The bytes of one plane.
pub const PLANE_BYTES: usize = 9;

/// One plane of a buffer.
#[derive(Debug, Clone, Copy, PartialEq, Eq, Structural)]
pub struct DmabufPlane {
    pub offset: u32,
    pub stride: u32,
    /// Which of the passed file descriptors backs the plane.
    pub fd_index: u8,
}

/// A shared buffer.
#[derive(Debug, Clone, PartialEq, Eq)]
pub struct DmabufDescriptor {
    pub width: u32,
    pub height: u32,
    pub fourcc: u32,
    pub modifier: u64,
    pub planes: Vec<DmabufPlane>,
    /// How many file descriptors travel beside the packet.
    pub fd_count: u8,
}

/// What a descriptor says.
#[verifier::ext_equal]
pub struct DescriptorModel {
    pub width: u32,
    pub height: u32,
    pub fourcc: u32,
    pub modifier: u64,
    pub planes: Seq<DmabufPlane>,
    pub fd_count: u8,
}

impl View for DmabufDescriptor {
    type V = DescriptorModel;

    open spec fn view(&self) -> DescriptorModel {
        DescriptorModel {
            width: self.width,
            height: self.height,
            fourcc: self.fourcc,
            modifier: self.modifier,
            planes: self.planes@,
            fd_count: self.fd_count,
        }
    }
}

/// Why a descriptor was refused.
#[derive(Debug, Clone, Copy, PartialEq, Eq, Structural)]
pub enum DmabufError {
    TooShort { got: usize, need: usize },
    PlaneCountOutOfRange(u8),
    FdCountOutOfRange(u8),
    FdIndexOutOfRange { fd: u8, idx: u8 },
    ReuseFdMismatch(u8),
}

/// How many bytes a descriptor with that many planes takes.
pub open spec fn descriptor_len(plane_count: int) -> int {
    HEADER_BYTES + PLANE_BYTES * plane_count
}

/// The bytes of a plane.
pub open spec fn plane_bytes(p: DmabufPlane) -> Seq<u8> {
    octets::be32(p.offset) + octets::be32(p.stride) + seq![p.fd_index]
}

/// The bytes of planes, one after the other.
pub open spec fn planes_bytes(planes: Seq<DmabufPlane>) -> Seq<u8>
    decreases planes.len(),
{
    if planes.len() == 0 {
        Seq::empty()
    } else {
        planes_bytes(planes.drop_last()) + plane_bytes(planes.last())
    }
}

/// The bytes before the planes.
pub open spec fn front_bytes(d: DescriptorModel) -> Seq<u8> {
    octets::be32(d.width) + octets::be32(d.height) + octets::le32(d.fourcc) + octets::be64(
        d.modifier,
    ) + seq![d.planes.len() as u8, d.fd_count]
}

/// The bytes of a descriptor.
pub open spec fn descriptor_bytes(d: DescriptorModel) -> Seq<u8> {
    front_bytes(d) + planes_bytes(d.planes)
}

/// The plane numbered `i` of the descriptor in `s`.
pub open spec fn plane_at(s: Seq<u8>, i: int) -> DmabufPlane {
    let at = HEADER_BYTES + PLANE_BYTES * i;
    DmabufPlane {
        offset: octets::be32_at(s, at),
        stride: octets::be32_at(s, at + 4),
        fd_index: s[at + 8],
    }
}

/// The descriptor in `s`.
pub open spec fn descriptor_of(s: Seq<u8>) -> DescriptorModel {
    DescriptorModel {
        width: octets::be32_at(s, 0),
        height: octets::be32_at(s, 4),
        fourcc: octets::le32_at(s, 8),
        modifier: octets::be64_at(s, 12),
        planes: Seq::new(s[20] as nat, |i: int| plane_at(s, i)),
        fd_count: s[21],
    }
}

/// The first of the planes from `from` on that names a file descriptor which is not passed,
/// where any are; the count of planes if none does.
pub open spec fn bad_plane(planes: Seq<DmabufPlane>, fd_count: u8, from: int) -> int
    decreases planes.len() - from,
{
    if from >= planes.len() {
        planes.len() as int
    } else if fd_count > 0 && planes[from].fd_index >= fd_count {
        from
    } else {
        bad_plane(planes, fd_count, from + 1)
    }
}

/// Why `s` is no descriptor, if it is none.
pub open spec fn descriptor_error(s: Seq<u8>) -> Option<DmabufError> {
    let d = descriptor_of(s);
    let bad = bad_plane(d.planes, d.fd_count, 0);
    if s.len() < HEADER_BYTES {
        Some(DmabufError::TooShort { got: s.len() as usize, need: HEADER_BYTES })
    } else if !(1 <= s[20] <= MAX_PLANES) {
        Some(DmabufError::PlaneCountOutOfRange(s[20]))
    } else if s[21] > MAX_FDS_PER_PACKET {
        Some(DmabufError::FdCountOutOfRange(s[21]))
    } else if s.len() < descriptor_len(s[20] as int) {
        Some(
            DmabufError::TooShort {
                got: s.len() as usize,
                need: descriptor_len(s[20] as int) as usize,
            },
        )
    } else if bad < d.planes.len() {
        Some(DmabufError::FdIndexOutOfRange { fd: d.fd_count, idx: d.planes[bad].fd_index })
    } else {
        None
    }
}

/// Why a descriptor cannot be written into a buffer of `room` bytes, if it cannot.
pub open spec fn write_error(d: DescriptorModel, room: int) -> Option<DmabufError> {
    let n = d.planes.len();
    if room < descriptor_len(n as int) {
        Some(DmabufError::TooShort { got: room as usize, need: descriptor_len(n as int) as usize })
    } else if !(1 <= n <= MAX_PLANES) {
        Some(
            DmabufError::PlaneCountOutOfRange(
                if n < 255 {
                    n as u8
                } else {
                    255
                },
            ),
        )
    } else if d.fd_count > MAX_FDS_PER_PACKET {
        Some(DmabufError::FdCountOutOfRange(d.fd_count))
    } else {
        None
    }
}

/// How many file descriptors the planes need: one more than the greatest index among them.
pub open spec fn fds_needed(planes: Seq<DmabufPlane>) -> int
    decreases planes.len(),
{
    if planes.len() == 0 {
        0
    } else {
        let before = fds_needed(planes.drop_last());
        if planes.last().fd_index + 1 > before {
            planes.last().fd_index + 1
        } else {
            before
        }
    }
}

/// Why a descriptor does not go with the flags of its packet, if it does not: a reused buffer
/// comes with nothing but a fence where one is announced, any other with the file descriptors
/// that its planes name, besides the fence.
pub open spec fn flags_error(d: DescriptorModel, flags: StreamFlags) -> Option<DmabufError> {
    let fences: int = if flags.has(StreamFlags::WITH_FENCE) {
        1
    } else {
        0
    };
    let available = if d.fd_count > fences {
        d.fd_count - fences
    } else {
        0
    };
    if flags.has(StreamFlags::REUSE) {
        if d.fd_count == fences {
            None
        } else {
            Some(DmabufError::ReuseFdMismatch(d.fd_count))
        }
    } else if fds_needed(d.planes) > available {
        Some(
            DmabufError::FdIndexOutOfRange {
                fd: d.fd_count,
                idx: (fds_needed(d.planes) - 1) as u8,
            },
        )
    } else {
        None
    }
}

proof fn lemma_planes_len(planes: Seq<DmabufPlane>)
    ensures
        planes_bytes(planes).len() == PLANE_BYTES * planes.len(),
    decreases planes.len(),
{
    if planes.len() > 0 {
        lemma_planes_len(planes.drop_last());
    }
}

proof fn lemma_plane_at(d: DescriptorModel, rest: Seq<u8>, n: int, i: int)
    requires
        0 <= i < n <= d.planes.len(),
    ensures
        ({
            let s = front_bytes(d) + planes_bytes(d.planes.take(n)) + rest;
            plane_at(s, i) == d.planes[i]
        }),
    decreases n,
{
    let s = front_bytes(d) + planes_bytes(d.planes.take(n)) + rest;
    assert(d.planes.take(n).drop_last() =~= d.planes.take(n - 1));
    lemma_planes_len(d.planes.take(n - 1));
    lemma_planes_len(d.planes.take(n));
    let p = d.planes[n - 1];
    if i < n - 1 {
        lemma_plane_at(d, plane_bytes(p) + rest, n - 1, i);
        assert(s =~= front_bytes(d) + planes_bytes(d.planes.take(n - 1)) + (plane_bytes(p) + rest));
    } else {
        let at = HEADER_BYTES + PLANE_BYTES * i;
        assert(front_bytes(d).len() == HEADER_BYTES);
        assert(s.subrange(at, at + 4) =~= octets::be32(p.offset));
        assert(s.subrange(at + 4, at + 8) =~= octets::be32(p.stride));
        octets::lemma_be32_at(s, at, p.offset);
        octets::lemma_be32_at(s, at + 4, p.stride);
        assert(s[at + 8] == p.fd_index);
    }
}

proof fn lemma_no_bad_plane(planes: Seq<DmabufPlane>, fd_count: u8, from: int)
    requires
        0 <= from <= planes.len(),
        forall|i: int|
            0 <= i < planes.len() ==> fd_count > 0 ==> (#[trigger] planes[i]).fd_index < fd_count,
    ensures
        bad_plane(planes, fd_count, from) == planes.len(),
    decreases planes.len() - from,
{
    if from < planes.len() {
        lemma_no_bad_plane(planes, fd_count, from + 1);
    }
}

/// Which planes are refused: where file descriptors are passed, the first that names none of them
/// is told; where none are passed, or all name one that is, none is.
pub proof fn lemma_bad_plane_first(planes: Seq<DmabufPlane>, fd_count: u8)
    ensures
        ({
            let bad = bad_plane(planes, fd_count, 0);
            &&& 0 <= bad <= planes.len()
            &&& bad < planes.len() ==> fd_count > 0 && planes[bad].fd_index >= fd_count
            &&& forall|i: int|
                0 <= i < bad ==> fd_count == 0 || (#[trigger] planes[i]).fd_index < fd_count
        }),
{
    lemma_bad_plane_from(planes, fd_count, 0);
}

proof fn lemma_bad_plane_from(planes: Seq<DmabufPlane>, fd_count: u8, from: int)
    requires
        0 <= from <= planes.len(),
        forall|i: int|
            0 <= i < from ==> fd_count == 0 || (#[trigger] planes[i]).fd_index < fd_count,
    ensures
        ({
            let bad = bad_plane(planes, fd_count, from);
            &&& from <= bad <= planes.len()
            &&& bad < planes.len() ==> fd_count > 0 && planes[bad].fd_index >= fd_count
            &&& forall|i: int|
                0 <= i < bad ==> fd_count == 0 || (#[trigger] planes[i]).fd_index < fd_count
        }),
    decreases planes.len() - from,
{
    if from < planes.len() && !(fd_count > 0 && planes[from].fd_index >= fd_count) {
        lemma_bad_plane_from(planes, fd_count, from + 1);
    }
}

/// How many file descriptors planes need: enough for every index among them, and no more.
pub proof fn lemma_fds_needed(planes: Seq<DmabufPlane>)
    ensures
        forall|i: int| 0 <= i < planes.len() ==> (#[trigger] planes[i]).fd_index < fds_needed(planes),
        planes.len() > 0 ==> exists|i: int|
            0 <= i < planes.len() && (#[trigger] planes[i]).fd_index + 1 == fds_needed(planes),
        planes.len() == 0 ==> fds_needed(planes) == 0,
    decreases planes.len(),
{
    if planes.len() > 0 {
        let front = planes.drop_last();
        let n = planes.len() - 1;
        lemma_fds_needed(front);
        assert(planes[n] == planes.last());
        assert forall|i: int| 0 <= i < planes.len() implies (#[trigger] planes[i]).fd_index
            < fds_needed(planes) by {
            if i < n {
                assert(front[i] == planes[i]);
            }
        }
        if planes.last().fd_index + 1 <= fds_needed(front) {
            let i = choose|i: int|
                0 <= i < front.len() && (#[trigger] front[i]).fd_index + 1 == fds_needed(front);
            assert(planes[i] == front[i]);
        } else {
            assert(planes[n].fd_index + 1 == fds_needed(planes));
        }
    }
}

/// Which file descriptors go with which flags: with a reused buffer none but a fence that is
/// announced; with any other as many as its planes name, and one more for a fence. A descriptor is
/// accepted exactly then.
pub proof fn lemma_flags_accepted(d: DescriptorModel, flags: StreamFlags)
    requires
        d.planes.len() > 0,
    ensures
        ({
            let fence = flags.raw & 0x20 == 0x20;
            let fences: int = if fence {
                1
            } else {
                0
            };
            if flags.raw & 0x40 == 0x40 {
                &&& flags_error(d, flags) is None <==> d.fd_count == fences
                &&& d.fd_count != fences ==> flags_error(d, flags) == Some(
                    DmabufError::ReuseFdMismatch(d.fd_count),
                )
            } else {
                flags_error(d, flags) is None <==> forall|i: int|
                    0 <= i < d.planes.len() ==> (#[trigger] d.planes[i]).fd_index + fences
                        < d.fd_count
            }
        }),
{
    lemma_fds_needed(d.planes);
    let i = choose|i: int|
        0 <= i < d.planes.len() && (#[trigger] d.planes[i]).fd_index + 1 == fds_needed(d.planes);
    assert(d.planes[i].fd_index + 1 == fds_needed(d.planes));
}

/// Where things stand in a descriptor: width, height, format, modifier, how many planes and how
/// many file descriptors; then, nine bytes for each plane, its offset, its stride and its index.
pub proof fn lemma_descriptor_layout(d: DescriptorModel, i: int)
    requires
        d.planes.len() <= 255,
        0 <= i < d.planes.len(),
    ensures
        ({
            let s = descriptor_bytes(d);
            &&& s.len() == 22 + 9 * d.planes.len()
            &&& s.subrange(0, 4) == octets::be32(d.width)
            &&& s.subrange(4, 8) == octets::be32(d.height)
            &&& s.subrange(8, 12) == octets::le32(d.fourcc)
            &&& s.subrange(12, 20) == octets::be64(d.modifier)
            &&& s[20] == d.planes.len()
            &&& s[21] == d.fd_count
            &&& octets::be32_at(s, 22 + 9 * i) == d.planes[i].offset
            &&& octets::be32_at(s, 26 + 9 * i) == d.planes[i].stride
            &&& s[30 + 9 * i] == d.planes[i].fd_index
        }),
{
    let s = descriptor_bytes(d);
    let n = d.planes.len() as int;
    lemma_planes_len(d.planes);
    assert(s.subrange(0, 4) =~= octets::be32(d.width));
    assert(s.subrange(4, 8) =~= octets::be32(d.height));
    assert(s.subrange(8, 12) =~= octets::le32(d.fourcc));
    assert(s.subrange(12, 20) =~= octets::be64(d.modifier));
    lemma_plane_at(d, Seq::empty(), n, i);
    assert(d.planes.take(n) =~= d.planes);
    assert(front_bytes(d) + planes_bytes(d.planes) + Seq::<u8>::empty() =~= s);
}

/// Parsing a written descriptor gives it back, whatever follows it, where its planes name only
/// file descriptors that are passed.
pub proof fn lemma_descriptor_round_trip(d: DescriptorModel, rest: Seq<u8>)
    requires
        1 <= d.planes.len() <= MAX_PLANES,
        d.fd_count <= MAX_FDS_PER_PACKET,
        forall|i: int|
            0 <= i < d.planes.len() ==> d.fd_count > 0 ==> (#[trigger] d.planes[i]).fd_index
                < d.fd_count,
    ensures
        descriptor_error(descriptor_bytes(d) + rest) is None,
        descriptor_of(descriptor_bytes(d) + rest) == d,
{
    let s = descriptor_bytes(d) + rest;
    lemma_planes_len(d.planes);
    assert(s.subrange(0, 4) =~= octets::be32(d.width));
    assert(s.subrange(4, 8) =~= octets::be32(d.height));
    assert(s.subrange(8, 12) =~= octets::le32(d.fourcc));
    assert(s.subrange(12, 20) =~= octets::be64(d.modifier));
    octets::lemma_be32_at(s, 0, d.width);
    octets::lemma_be32_at(s, 4, d.height);
    octets::lemma_le32_at(s, 8, d.fourcc);
    octets::lemma_be64_at(s, 12, d.modifier);
    assert(s[20] == d.planes.len());
    assert(s[21] == d.fd_count);
    assert forall|i: int| 0 <= i < d.planes.len() implies plane_at(s, i) == d.planes[i] by {
        lemma_plane_at(d, rest, d.planes.len() as int, i);
        assert(d.planes.take(d.planes.len() as int) =~= d.planes);
    }
    assert(descriptor_of(s).planes =~= d.planes);
    lemma_no_bad_plane(d.planes, d.fd_count, 0);
}

impl DmabufDescriptor {
    /// How many bytes a descriptor with that many planes takes.
    pub fn encoded_len(plane_count: usize) -> (r: usize)
        requires
            descriptor_len(plane_count as int) <= usize::MAX,
        ensures
            r == descriptor_len(plane_count as int),
    {
        HEADER_BYTES + PLANE_BYTES * plane_count
    }

    /// The bytes of the descriptor.
    pub fn to_bytes(&self) -> (v: Vec<u8>)
        requires
            self.planes@.len() <= MAX_PLANES,
        ensures
            v@ == descriptor_bytes(self@),
    {
        let mut v: Vec<u8> = Vec::new();
        push_be32(&mut v, self.width);
        push_be32(&mut v, self.height);
        push_le32(&mut v, self.fourcc);
        push_be64(&mut v, self.modifier);
        v.push(self.planes.len() as u8);
        v.push(self.fd_count);
        assert(v@ =~= front_bytes(self@));
        let mut i: usize = 0;
        assert(self.planes@.take(0) =~= Seq::empty());
        assert(v@ =~= front_bytes(self@) + planes_bytes(self.planes@.take(0)));
        while i < self.planes.len()
            invariant
                i <= self.planes@.len(),
                v@ == front_bytes(self@) + planes_bytes(self.planes@.take(i as int)),
            decreases self.planes@.len() - i,
        {
            let p = self.planes[i];
            let ghost before = v@;
            push_be32(&mut v, p.offset);
            push_be32(&mut v, p.stride);
            v.push(p.fd_index);
            proof {
                assert(self.planes@.take(i + 1).drop_last() =~= self.planes@.take(i as int));
                assert(v@ =~= before + plane_bytes(p));
                assert(v@ =~= front_bytes(self@) + planes_bytes(self.planes@.take(i + 1)));
            }
            i = i + 1;
        }
        assert(self.planes@.take(i as int) =~= self.planes@);
        v
    }

    /// Writes the descriptor over the front of `out`; how many bytes that took.
    pub fn write(&self, out: &mut [u8]) -> (r: Result<usize, DmabufError>)
        requires
            descriptor_len(self.planes@.len() as int) <= usize::MAX,
        ensures
            r is Ok <==> write_error(self@, old(out)@.len() as int) is None,
            r matches Ok(n) ==> {
                &&& n == descriptor_len(self.planes@.len() as int)
                &&& final(out)@ == descriptor_bytes(self@) + old(out)@.skip(n as int)
            },
            r matches Err(e) ==> {
                &&& write_error(self@, old(out)@.len() as int) == Some(e)
                &&& final(out)@ == old(out)@
            },
    {
        let need = Self::encoded_len(self.planes.len());
        if out.len() < need {
            return Err(DmabufError::TooShort { got: out.len(), need });
        }
        let count = self.planes.len();
        if count < 1 || count > MAX_PLANES {
            return Err(
                DmabufError::PlaneCountOutOfRange(
                    if count < 255 {
                        count as u8
                    } else {
                        255
                    },
                ),
            );
        }
        if self.fd_count as usize > MAX_FDS_PER_PACKET {
            return Err(DmabufError::FdCountOutOfRange(self.fd_count));
        }
        let bytes = self.to_bytes();
        proof {
            lemma_planes_len(self.planes@);
        }
        copy_front(out, bytes.as_slice());
        Ok(need)
    }

    /// Parses a descriptor.
    pub fn parse(input: &[u8]) -> (r: Result<Self, DmabufError>)
        ensures
            r is Ok <==> descriptor_error(input@) is None,
            r matches Ok(d) ==> d@ == descriptor_of(input@),
            r matches Err(e) ==> descriptor_error(input@) == Some(e),
    {
        if input.len() < HEADER_BYTES {
            return Err(DmabufError::TooShort { got: input.len(), need: HEADER_BYTES });
        }
        let plane_count = input[20];
        let fd_count = input[21];
        if plane_count < 1 || plane_count as usize > MAX_PLANES {
            return Err(DmabufError::PlaneCountOutOfRange(plane_count));
        }
        if fd_count as usize > MAX_FDS_PER_PACKET {
            return Err(DmabufError::FdCountOutOfRange(fd_count));
        }
        let need = Self::encoded_len(plane_count as usize);
        if input.len() < need {
            return Err(DmabufError::TooShort { got: input.len(), need });
        }
        let ghost d = descriptor_of(input@);
        let mut planes: Vec<DmabufPlane> = Vec::new();
        let mut i: usize = 0;
        while i < plane_count as usize
            invariant
                d == descriptor_of(input@),
                plane_count == input@[20],
                fd_count == input@[21],
                1 <= plane_count <= MAX_PLANES,
                fd_count <= MAX_FDS_PER_PACKET,
                input@.len() >= descriptor_len(plane_count as int),
                i <= plane_count,
                planes@.len() == i,
                forall|k: int| 0 <= k < i ==> planes@[k] == d.planes[k],
                bad_plane(d.planes, d.fd_count, 0) == bad_plane(d.planes, d.fd_count, i as int),
            decreases plane_count - i,
        {
            let at: usize = HEADER_BYTES + PLANE_BYTES * i;
            let plane = DmabufPlane {
                offset: get_be32(input, at),
                stride: get_be32(input, at + 4),
                fd_index: input[at + 8],
            };
            assert(plane == d.planes[i as int]);
            if fd_count > 0 && plane.fd_index >= fd_count {
                return Err(DmabufError::FdIndexOutOfRange { fd: fd_count, idx: plane.fd_index });
            }
            planes.push(plane);
            i = i + 1;
        }
        assert(planes@ =~= d.planes);
        Ok(
            DmabufDescriptor {
                width: get_be32(input, 0),
                height: get_be32(input, 4),
                fourcc: get_le32(input, 8),
                modifier: get_be64(input, 12),
                planes,
                fd_count,
            },
        )
    }

    /// Whether the descriptor goes with the flags of its packet.
    pub fn check_flags(&self, flags: StreamFlags) -> (r: Result<(), DmabufError>)
        ensures
            r is Ok <==> flags_error(self@, flags) is None,
            r matches Err(e) ==> flags_error(self@, flags) == Some(e),
    {
        let fences: u8 = if flags.contains(StreamFlags::WITH_FENCE) {
            1
        } else {
            0
        };
        if flags.contains(StreamFlags::REUSE) {
            if self.fd_count != fences {
                return Err(DmabufError::ReuseFdMismatch(self.fd_count));
            }
            return Ok(());
        }
        let mut needed: u16 = 0;
        let mut i: usize = 0;
        assert(self.planes@.take(0) =~= Seq::empty());
        while i < self.planes.len()
            invariant
                i <= self.planes@.len(),
                needed <= 256,
                needed == fds_needed(self.planes@.take(i as int)),
            decreases self.planes@.len() - i,
        {
            assert(self.planes@.take(i + 1).drop_last() =~= self.planes@.take(i as int));
            if self.planes[i].fd_index as u16 + 1 > needed {
                needed = self.planes[i].fd_index as u16 + 1;
            }
            i = i + 1;
        }
        assert(self.planes@.take(i as int) =~= self.planes@);
        let available: u16 = if self.fd_count > fences {
            (self.fd_count - fences) as u16
        } else {
            0
        };
        if needed > available {
            return Err(
                DmabufError::FdIndexOutOfRange { fd: self.fd_count, idx: (needed - 1) as u8 },
            );
        }
        Ok(())
    }
}

/// The four characters of a format code.
pub fn fourcc_to_str(fourcc: u32) -> (r: [u8; 4])
    ensures
        r@ == octets::le32(fourcc),
{
    let r: [u8; 4] = [
        (fourcc % 0x100) as u8,
        (fourcc / 0x100 % 0x100) as u8,
        (fourcc / 0x1_0000 % 0x100) as u8,
        (fourcc / 0x100_0000) as u8,
    ];
    assert(r@ =~= octets::le32(fourcc));
    r
}

/// Which descriptors can be written: those with one to four planes and no more file descriptors than
/// a packet takes, where there is room for twenty-two bytes and nine for each plane.
pub proof fn lemma_write_refused(d: DescriptorModel, room: int)
    requires
        0 <= room,
    ensures
        write_error(d, room) is None <==> 1 <= d.planes.len() <= 4 && d.fd_count
            <= MAX_FDS_PER_PACKET && room >= 22 + 9 * d.planes.len(),
        room >= 22 + 9 * d.planes.len() && (d.planes.len() == 0 || 4 < d.planes.len() <= 255)
            ==> write_error(d, room) == Some(
            DmabufError::PlaneCountOutOfRange(d.planes.len() as u8),
        ),
{
}

} // verus!
