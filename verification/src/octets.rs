//! Fixed-width integers as byte sequences, and small helpers on byte slices.
use vstd::prelude::*;

verus! {

/// The two big-endian bytes of `x`.
pub open spec fn be16(x: u16) -> Seq<u8> {
    seq![(x / 0x100) as u8, (x % 0x100) as u8]
}

/// The four big-endian bytes of `x`.
pub open spec fn be32(x: u32) -> Seq<u8> {
    seq![
        (x / 0x100_0000) as u8,
        (x / 0x1_0000 % 0x100) as u8,
        (x / 0x100 % 0x100) as u8,
        (x % 0x100) as u8,
    ]
}

/// The eight big-endian bytes of `x`: its upper half, then its lower half.
pub open spec fn be64(x: u64) -> Seq<u8> {
    be32((x / 0x1_0000_0000) as u32) + be32((x % 0x1_0000_0000) as u32)
}

/// The two little-endian bytes of `x`.
pub open spec fn le16(x: u16) -> Seq<u8> {
    seq![(x % 0x100) as u8, (x / 0x100) as u8]
}

/// The four little-endian bytes of `x`.
pub open spec fn le32(x: u32) -> Seq<u8> {
    seq![
        (x % 0x100) as u8,
        (x / 0x100 % 0x100) as u8,
        (x / 0x1_0000 % 0x100) as u8,
        (x / 0x100_0000) as u8,
    ]
}

/// The eight little-endian bytes of `x`: its lower half, then its upper half.
pub open spec fn le64(x: u64) -> Seq<u8> {
    le32((x % 0x1_0000_0000) as u32) + le32((x / 0x1_0000_0000) as u32)
}

/// The number that the two bytes of `s` at `i` write in big-endian order.
pub open spec fn be16_at(s: Seq<u8>, i: int) -> u16 {
    (s[i] * 0x100 + s[i + 1]) as u16
}

/// The number that the four bytes of `s` at `i` write in big-endian order.
pub open spec fn be32_at(s: Seq<u8>, i: int) -> u32 {
    (s[i] * 0x100_0000 + s[i + 1] * 0x1_0000 + s[i + 2] * 0x100 + s[i + 3]) as u32
}

/// The number that the eight bytes of `s` at `i` write in big-endian order.
pub open spec fn be64_at(s: Seq<u8>, i: int) -> u64 {
    (be32_at(s, i) * 0x1_0000_0000 + be32_at(s, i + 4)) as u64
}

/// The number that the two bytes of `s` at `i` write in little-endian order.
pub open spec fn le16_at(s: Seq<u8>, i: int) -> u16 {
    (s[i] + s[i + 1] * 0x100) as u16
}

/// The number that the four bytes of `s` at `i` write in little-endian order.
pub open spec fn le32_at(s: Seq<u8>, i: int) -> u32 {
    (s[i] + s[i + 1] * 0x100 + s[i + 2] * 0x1_0000 + s[i + 3] * 0x100_0000) as u32
}

/// The byte sequences that a sequence of vectors holds.
pub open spec fn views(v: Seq<Vec<u8>>) -> Seq<Seq<u8>> {
    Seq::new(v.len(), |i: int| v[i]@)
}

/// What the bytes of a number are worth: in big-endian order the first counts most, in
/// little-endian order the last.
pub proof fn lemma_worth16(x: u16)
    ensures
        be16(x).len() == 2,
        be16(x)[0] * 0x100 + be16(x)[1] == x,
        le16(x).len() == 2,
        le16(x)[1] * 0x100 + le16(x)[0] == x,
{
}

/// What the four bytes of a number are worth.
pub proof fn lemma_worth32(x: u32)
    ensures
        be32(x).len() == 4,
        be32(x)[0] * 0x100_0000 + be32(x)[1] * 0x1_0000 + be32(x)[2] * 0x100 + be32(x)[3] == x,
        le32(x).len() == 4,
        le32(x)[3] * 0x100_0000 + le32(x)[2] * 0x1_0000 + le32(x)[1] * 0x100 + le32(x)[0] == x,
{
}

/// What the eight bytes of a number are worth.
pub proof fn lemma_worth64(x: u64)
    ensures
        be64(x).len() == 8,
        be64(x)[0] * 0x100_0000_0000_0000 + be64(x)[1] * 0x1_0000_0000_0000 + be64(x)[2]
            * 0x100_0000_0000 + be64(x)[3] * 0x1_0000_0000 + be64(x)[4] * 0x100_0000 + be64(x)[5]
            * 0x1_0000 + be64(x)[6] * 0x100 + be64(x)[7] == x,
        le64(x).len() == 8,
        le64(x)[7] * 0x100_0000_0000_0000 + le64(x)[6] * 0x1_0000_0000_0000 + le64(x)[5]
            * 0x100_0000_0000 + le64(x)[4] * 0x1_0000_0000 + le64(x)[3] * 0x100_0000 + le64(x)[2]
            * 0x1_0000 + le64(x)[1] * 0x100 + le64(x)[0] == x,
{
    let (high, low) = ((x / 0x1_0000_0000) as u32, (x % 0x1_0000_0000) as u32);
    lemma_worth32(high);
    lemma_worth32(low);
    assert(forall|i: int| 0 <= i < 4 ==> #[trigger] be64(x)[i] == be32(high)[i]);
    assert(forall|i: int| 4 <= i < 8 ==> #[trigger] be64(x)[i] == be32(low)[i - 4]);
    assert(forall|i: int| 0 <= i < 4 ==> #[trigger] le64(x)[i] == le32(low)[i]);
    assert(forall|i: int| 4 <= i < 8 ==> #[trigger] le64(x)[i] == le32(high)[i - 4]);
}

/// What bytes are worth where they are read.
pub proof fn lemma_worth_at(s: Seq<u8>, i: int)
    requires
        0 <= i,
        i + 2 <= s.len(),
    ensures
        be16_at(s, i) == s[i] * 0x100 + s[i + 1],
        le16_at(s, i) == s[i + 1] * 0x100 + s[i],
        i + 4 <= s.len() ==> be32_at(s, i) == s[i] * 0x100_0000 + s[i + 1] * 0x1_0000 + s[i + 2]
            * 0x100 + s[i + 3],
        i + 4 <= s.len() ==> le32_at(s, i) == s[i + 3] * 0x100_0000 + s[i + 2] * 0x1_0000 + s[i + 1]
            * 0x100 + s[i],
{
}

/// Reading two big-endian bytes undoes writing them.
pub proof fn lemma_be16_at(s: Seq<u8>, i: int, x: u16)
    requires
        0 <= i,
        i + 2 <= s.len(),
        s.subrange(i, i + 2) == be16(x),
    ensures
        be16_at(s, i) == x,
{
    let t = s.subrange(i, i + 2);
    assert(t[0] == s[i] && t[1] == s[i + 1]);
}

/// Reading four big-endian bytes undoes writing them.
pub proof fn lemma_be32_at(s: Seq<u8>, i: int, x: u32)
    requires
        0 <= i,
        i + 4 <= s.len(),
        s.subrange(i, i + 4) == be32(x),
    ensures
        be32_at(s, i) == x,
{
    let t = s.subrange(i, i + 4);
    assert(t[0] == s[i] && t[1] == s[i + 1] && t[2] == s[i + 2] && t[3] == s[i + 3]);
}

/// Reading eight big-endian bytes undoes writing them.
pub proof fn lemma_be64_at(s: Seq<u8>, i: int, x: u64)
    requires
        0 <= i,
        i + 8 <= s.len(),
        s.subrange(i, i + 8) == be64(x),
    ensures
        be64_at(s, i) == x,
{
    let t = s.subrange(i, i + 8);
    assert(s.subrange(i, i + 4) =~= t.subrange(0, 4));
    assert(s.subrange(i + 4, i + 8) =~= t.subrange(4, 8));
    assert(t.subrange(0, 4) =~= be32((x / 0x1_0000_0000) as u32));
    assert(t.subrange(4, 8) =~= be32((x % 0x1_0000_0000) as u32));
    lemma_be32_at(s, i, (x / 0x1_0000_0000) as u32);
    lemma_be32_at(s, i + 4, (x % 0x1_0000_0000) as u32);
}

/// Reading two little-endian bytes undoes writing them.
pub proof fn lemma_le16_at(s: Seq<u8>, i: int, x: u16)
    requires
        0 <= i,
        i + 2 <= s.len(),
        s.subrange(i, i + 2) == le16(x),
    ensures
        le16_at(s, i) == x,
{
    let t = s.subrange(i, i + 2);
    assert(t[0] == s[i] && t[1] == s[i + 1]);
}

/// Reading four little-endian bytes undoes writing them.
pub proof fn lemma_le32_at(s: Seq<u8>, i: int, x: u32)
    requires
        0 <= i,
        i + 4 <= s.len(),
        s.subrange(i, i + 4) == le32(x),
    ensures
        le32_at(s, i) == x,
{
    let t = s.subrange(i, i + 4);
    assert(t[0] == s[i] && t[1] == s[i + 1] && t[2] == s[i + 2] && t[3] == s[i + 3]);
}

/// Two numbers with the same big-endian bytes are equal.
pub proof fn lemma_be64_injective(x: u64, y: u64)
    requires
        be64(x) == be64(y),
    ensures
        x == y,
{
    let s = be64(x);
    assert(s.subrange(0, 8) =~= s);
    lemma_be64_at(s, 0, x);
    lemma_be64_at(s, 0, y);
}

/// The two bytes at `i` are those of the number that they write.
pub proof fn lemma_be16_of(s: Seq<u8>, i: int)
    requires
        0 <= i,
        i + 2 <= s.len(),
    ensures
        be16(be16_at(s, i)) == s.subrange(i, i + 2),
{
    assert(be16(be16_at(s, i)) =~= s.subrange(i, i + 2));
}

proof fn lemma_digits(a: int, b: int, c: int, d: int)
    requires
        0 <= a < 0x100,
        0 <= b < 0x100,
        0 <= c < 0x100,
        0 <= d < 0x100,
    ensures
        ({
            let x = a * 0x100_0000 + b * 0x1_0000 + c * 0x100 + d;
            &&& x / 0x100_0000 == a
            &&& x / 0x1_0000 % 0x100 == b
            &&& x / 0x100 % 0x100 == c
            &&& x % 0x100 == d
        }),
{
    let x = a * 0x100_0000 + b * 0x1_0000 + c * 0x100 + d;
    assert(x / 0x100 == a * 0x1_0000 + b * 0x100 + c);
    assert(x / 0x1_0000 == a * 0x100 + b);
}

/// The four bytes at `i` are those of the number that they write.
pub proof fn lemma_be32_of(s: Seq<u8>, i: int)
    requires
        0 <= i,
        i + 4 <= s.len(),
    ensures
        be32(be32_at(s, i)) == s.subrange(i, i + 4),
{
    let x = be32_at(s, i) as int;
    let (a, b, c, d) = (s[i] as int, s[i + 1] as int, s[i + 2] as int, s[i + 3] as int);
    assert(x == a * 0x100_0000 + b * 0x1_0000 + c * 0x100 + d);
    lemma_digits(a, b, c, d);
    let r = be32(be32_at(s, i));
    assert(r[0] == s[i] && r[1] == s[i + 1] && r[2] == s[i + 2] && r[3] == s[i + 3]);
    assert(r =~= s.subrange(i, i + 4));
}

/// The eight bytes at `i` are those of the number that they write.
pub proof fn lemma_be64_of(s: Seq<u8>, i: int)
    requires
        0 <= i,
        i + 8 <= s.len(),
    ensures
        be64(be64_at(s, i)) == s.subrange(i, i + 8),
{
    let x = be64_at(s, i);
    lemma_be32_of(s, i);
    lemma_be32_of(s, i + 4);
    assert((x / 0x1_0000_0000) as u32 == be32_at(s, i));
    assert((x % 0x1_0000_0000) as u32 == be32_at(s, i + 4));
    assert(be64(x) =~= s.subrange(i, i + 8));
}

/// Two numbers with the same little-endian bytes are equal.
pub proof fn lemma_le32_injective(x: u32, y: u32)
    requires
        le32(x) == le32(y),
    ensures
        x == y,
{
    let s = le32(x);
    assert(s.subrange(0, 4) =~= s);
    lemma_le32_at(s, 0, x);
    lemma_le32_at(s, 0, y);
}

/// Two numbers with the same little-endian bytes are equal.
pub proof fn lemma_le64_injective(x: u64, y: u64)
    requires
        le64(x) == le64(y),
    ensures
        x == y,
{
    let s = le64(x);
    assert(s.subrange(0, 4) =~= le32((x % 0x1_0000_0000) as u32));
    assert(s.subrange(4, 8) =~= le32((x / 0x1_0000_0000) as u32));
    assert(s.subrange(0, 4) =~= le32((y % 0x1_0000_0000) as u32));
    assert(s.subrange(4, 8) =~= le32((y / 0x1_0000_0000) as u32));
    lemma_le32_injective((x % 0x1_0000_0000) as u32, (y % 0x1_0000_0000) as u32);
    lemma_le32_injective((x / 0x1_0000_0000) as u32, (y / 0x1_0000_0000) as u32);
}

/// Appends the bytes of `s` to `out`.
pub fn push_all(out: &mut Vec<u8>, s: &[u8])
    ensures
        final(out)@ == old(out)@ + s@,
{
    out.extend_from_slice(s);
    assert(out@ =~= old(out)@ + s@);
}

/// Appends `x` to `out` in big-endian order.
pub fn push_be16(out: &mut Vec<u8>, x: u16)
    ensures
        final(out)@ == old(out)@ + be16(x),
{
    out.push((x / 0x100) as u8);
    out.push((x % 0x100) as u8);
    assert(out@ =~= old(out)@ + be16(x));
}

/// Appends `x` to `out` in big-endian order.
pub fn push_be32(out: &mut Vec<u8>, x: u32)
    ensures
        final(out)@ == old(out)@ + be32(x),
{
    out.push((x / 0x100_0000) as u8);
    out.push((x / 0x1_0000 % 0x100) as u8);
    out.push((x / 0x100 % 0x100) as u8);
    out.push((x % 0x100) as u8);
    assert(out@ =~= old(out)@ + be32(x));
}

/// Appends `x` to `out` in big-endian order.
pub fn push_be64(out: &mut Vec<u8>, x: u64)
    ensures
        final(out)@ == old(out)@ + be64(x),
{
    push_be32(out, (x / 0x1_0000_0000) as u32);
    push_be32(out, (x % 0x1_0000_0000) as u32);
    assert(out@ =~= old(out)@ + be64(x));
}

/// Appends `x` to `out` in little-endian order.
pub fn push_le16(out: &mut Vec<u8>, x: u16)
    ensures
        final(out)@ == old(out)@ + le16(x),
{
    out.push((x % 0x100) as u8);
    out.push((x / 0x100) as u8);
    assert(out@ =~= old(out)@ + le16(x));
}

/// Appends `x` to `out` in little-endian order.
pub fn push_le32(out: &mut Vec<u8>, x: u32)
    ensures
        final(out)@ == old(out)@ + le32(x),
{
    out.push((x % 0x100) as u8);
    out.push((x / 0x100 % 0x100) as u8);
    out.push((x / 0x1_0000 % 0x100) as u8);
    out.push((x / 0x100_0000) as u8);
    assert(out@ =~= old(out)@ + le32(x));
}

/// Appends `x` to `out` in little-endian order.
pub fn push_le64(out: &mut Vec<u8>, x: u64)
    ensures
        final(out)@ == old(out)@ + le64(x),
{
    push_le32(out, (x % 0x1_0000_0000) as u32);
    push_le32(out, (x / 0x1_0000_0000) as u32);
    assert(out@ =~= old(out)@ + le64(x));
}

/// The big-endian number at `i`.
pub fn get_be16(s: &[u8], i: usize) -> (x: u16)
    requires
        i + 2 <= s@.len(),
    ensures
        x == be16_at(s@, i as int),
{
    s[i] as u16 * 0x100 + s[i + 1] as u16
}

/// The big-endian number at `i`.
pub fn get_be32(s: &[u8], i: usize) -> (x: u32)
    requires
        i + 4 <= s@.len(),
    ensures
        x == be32_at(s@, i as int),
{
    s[i] as u32 * 0x100_0000 + s[i + 1] as u32 * 0x1_0000 + s[i + 2] as u32 * 0x100 + s[i + 3] as u32
}

/// The big-endian number at `i`.
pub fn get_be64(s: &[u8], i: usize) -> (x: u64)
    requires
        i + 8 <= s@.len(),
    ensures
        x == be64_at(s@, i as int),
{
    assert(s@.len() == s.len());
    get_be32(s, i) as u64 * 0x1_0000_0000 + get_be32(s, i + 4) as u64
}

/// The little-endian number at `i`.
pub fn get_le16(s: &[u8], i: usize) -> (x: u16)
    requires
        i + 2 <= s@.len(),
    ensures
        x == le16_at(s@, i as int),
{
    s[i] as u16 + s[i + 1] as u16 * 0x100
}

/// The little-endian number at `i`.
pub fn get_le32(s: &[u8], i: usize) -> (x: u32)
    requires
        i + 4 <= s@.len(),
    ensures
        x == le32_at(s@, i as int),
{
    s[i] as u32 + s[i + 1] as u32 * 0x100 + s[i + 2] as u32 * 0x1_0000 + s[i + 3] as u32 * 0x100_0000
}

/// A copy of the bytes of `s` from `from` up to `to`.
pub fn copy_range(s: &[u8], from: usize, to: usize) -> (out: Vec<u8>)
    requires
        from <= to <= s@.len(),
    ensures
        out@ == s@.subrange(from as int, to as int),
{
    vstd::slice::slice_to_vec(vstd::slice::slice_subrange(s, from, to))
}

/// Writes `bytes` over the front of `out`.
pub fn copy_front(out: &mut [u8], bytes: &[u8])
    requires
        bytes@.len() <= old(out)@.len(),
    ensures
        final(out)@ == bytes@ + old(out)@.skip(bytes@.len() as int),
{
    let mut i: usize = 0;
    while i < bytes.len()
        invariant
            i <= bytes@.len() <= out@.len(),
            out@.len() == old(out)@.len(),
            forall|k: int| 0 <= k < i ==> out@[k] == bytes@[k],
            forall|k: int| i <= k < out@.len() ==> out@[k] == old(out)@[k],
        decreases bytes@.len() - i,
    {
        out[i] = bytes[i];
        i = i + 1;
    }
    assert(out@ =~= bytes@ + old(out)@.skip(bytes@.len() as int));
}

/// The twelve bytes of `s` at `from`.
pub fn array12(s: &[u8], from: usize) -> (out: [u8; 12])
    requires
        from + 12 <= s@.len(),
    ensures
        out@ == s@.subrange(from as int, from + 12),
{
    let mut out: [u8; 12] = [0u8; 12];
    let mut i: usize = 0;
    while i < 12
        invariant
            i <= 12,
            from + 12 <= s.len(),
            forall|k: int| 0 <= k < i ==> out@[k] == s@[from + k],
        decreases 12 - i,
    {
        out[i] = s[from + i];
        i = i + 1;
    }
    assert(out@ =~= s@.subrange(from as int, from + 12));
    out
}

/// The sixteen bytes of `s` at `from`.
pub fn array16(s: &[u8], from: usize) -> (out: [u8; 16])
    requires
        from + 16 <= s@.len(),
    ensures
        out@ == s@.subrange(from as int, from + 16),
{
    let mut out: [u8; 16] = [0u8; 16];
    let mut i: usize = 0;
    while i < 16
        invariant
            i <= 16,
            from + 16 <= s.len(),
            forall|k: int| 0 <= k < i ==> out@[k] == s@[from + k],
        decreases 16 - i,
    {
        out[i] = s[from + i];
        i = i + 1;
    }
    assert(out@ =~= s@.subrange(from as int, from + 16));
    out
}

/// The thirty-two bytes of `s` at `from`.
pub fn array32(s: &[u8], from: usize) -> (out: [u8; 32])
    requires
        from + 32 <= s@.len(),
    ensures
        out@ == s@.subrange(from as int, from + 32),
{
    let mut out: [u8; 32] = [0u8; 32];
    let mut i: usize = 0;
    while i < 32
        invariant
            i <= 32,
            from + 32 <= s.len(),
            forall|k: int| 0 <= k < i ==> out@[k] == s@[from + k],
        decreases 32 - i,
    {
        out[i] = s[from + i];
        i = i + 1;
    }
    assert(out@ =~= s@.subrange(from as int, from + 32));
    out
}

/// Whether two byte slices hold the same bytes.
pub fn same_bytes(a: &[u8], b: &[u8]) -> (r: bool)
    ensures
        r == (a@ == b@),
{
    if a.len() != b.len() {
        return false;
    }
    let mut i: usize = 0;
    while i < a.len()
        invariant
            i <= a@.len(),
            a@.len() == b@.len(),
            forall|k: int| 0 <= k < i ==> a@[k] == b@[k],
        decreases a@.len() - i,
    {
        if a[i] != b[i] {
            return false;
        }
        i = i + 1;
    }
    assert(a@ =~= b@);
    true
}

} // verus!
