//! Base64 text as bytes.
use vstd::prelude::*;

verus! {

/// The six bits that a character stands for.
pub open spec fn sextet_of(c: u8) -> Option<u8> {
    if 0x41 <= c <= 0x5a {
        Some((c - 0x41) as u8)
    } else if 0x61 <= c <= 0x7a {
        Some((c - 0x61 + 26) as u8)
    } else if 0x30 <= c <= 0x39 {
        Some((c - 0x30 + 52) as u8)
    } else if c == 0x2b {
        Some(62)
    } else if c == 0x2f {
        Some(63)
    } else {
        None
    }
}

/// The six bits that a character stands for.
pub fn sextet(c: u8) -> (r: Option<u8>)
    ensures
        r == sextet_of(c),
        r matches Some(v) ==> v < 64,
{
    if 0x41 <= c && c <= 0x5a {
        Some(c - 0x41)
    } else if 0x61 <= c && c <= 0x7a {
        Some(c - 0x61 + 26)
    } else if 0x30 <= c && c <= 0x39 {
        Some(c - 0x30 + 52)
    } else if c == 0x2b {
        Some(62)
    } else if c == 0x2f {
        Some(63)
    } else {
        None
    }
}

/// Whether every character stands for six bits.
pub open spec fn all_sextets(s: Seq<u8>) -> bool {
    forall|i: int| 0 <= i < s.len() ==> sextet_of(#[trigger] s[i]) is Some
}

/// The six bits that each character stands for.
pub open spec fn sextets_of(s: Seq<u8>) -> Seq<u8> {
    s.map_values(|c: u8| sextet_of(c)->0)
}

/// The byte numbered `i` that sextets write: each takes its eight bits where the one before it
/// ended.
pub open spec fn byte_at(v: Seq<u8>, i: int) -> u8 {
    let at = i / 3 * 4 + i % 3;
    if i % 3 == 0 {
        (v[at] % 64 * 4 + v[at + 1] / 16 % 4) as u8
    } else if i % 3 == 1 {
        (v[at] % 16 * 16 + v[at + 1] / 4 % 16) as u8
    } else {
        (v[at] % 4 * 64 + v[at + 1] % 64) as u8
    }
}

/// The bytes that sextets write; bits that do not fill a byte are left out.
pub open spec fn bytes_of_sextets(v: Seq<u8>) -> Seq<u8> {
    Seq::new((v.len() * 6 / 8) as nat, |i: int| byte_at(v, i))
}

/// How characters stand for six bits: the capitals, then the small letters, then the digits, then
/// plus and slash count from nought to sixty-three, and no other character stands for any.
pub proof fn lemma_alphabet(c: u8)
    ensures
        'A' as int <= c <= 'Z' as int ==> sextet_of(c) == Some((c - 'A' as int) as u8),
        'a' as int <= c <= 'z' as int ==> sextet_of(c) == Some((26 + (c - 'a' as int)) as u8),
        '0' as int <= c <= '9' as int ==> sextet_of(c) == Some((52 + (c - '0' as int)) as u8),
        c == '+' as int ==> sextet_of(c) == Some(62u8),
        c == '/' as int ==> sextet_of(c) == Some(63u8),
        sextet_of(c) is Some ==> 'A' as int <= c <= 'Z' as int || 'a' as int <= c <= 'z' as int
            || '0' as int <= c <= '9' as int || c == '+' as int || c == '/' as int,
{
}

/// Four characters write three bytes: the number that the sextets write, sixty-four to a place, is
/// the one that the bytes write, two hundred and fifty-six to a place. Two at the end write one
/// byte, and three write two, with the bits left over dropped.
pub proof fn lemma_groups(v: Seq<u8>, g: int)
    requires
        0 <= g,
        4 * g < v.len(),
        forall|i: int| 0 <= i < v.len() ==> #[trigger] v[i] < 64,
    ensures
        ({
            let b = bytes_of_sextets(v);
            &&& b.len() == v.len() * 6 / 8
            &&& 4 * g + 4 <= v.len() ==> 3 * g + 3 <= b.len() && 0x4_0000 * v[4 * g] + 0x1000 * v[4
                * g + 1] + 0x40 * v[4 * g + 2] + v[4 * g + 3] == 0x1_0000 * b[3 * g] + 0x100 * b[3
                * g + 1] + b[3 * g + 2]
            &&& 4 * g + 3 == v.len() ==> b.len() == 3 * g + 2 && (0x1000 * v[4 * g] + 0x40 * v[4 * g
                + 1] + v[4 * g + 2]) / 4 == 0x100 * b[3 * g] + b[3 * g + 1]
            &&& 4 * g + 2 == v.len() ==> b.len() == 3 * g + 1 && (0x40 * v[4 * g] + v[4 * g + 1])
                / 16 == b[3 * g]
            &&& 4 * g + 1 == v.len() ==> b.len() == 3 * g
        }),
{
    let b = bytes_of_sextets(v);
    assert((3 * g) / 3 == g && (3 * g) % 3 == 0);
    assert((3 * g + 1) / 3 == g && (3 * g + 1) % 3 == 1);
    assert((3 * g + 2) / 3 == g && (3 * g + 2) % 3 == 2);
    assert(v[4 * g] < 64);
    if 4 * g + 2 <= v.len() {
        assert(v[4 * g + 1] < 64);
        assert(b[3 * g] == byte_at(v, 3 * g));
    }
    if 4 * g + 3 <= v.len() {
        assert(v[4 * g + 2] < 64);
        assert(b[3 * g + 1] == byte_at(v, 3 * g + 1));
    }
    if 4 * g + 4 <= v.len() {
        assert(v[4 * g + 3] < 64);
        assert(b[3 * g + 2] == byte_at(v, 3 * g + 2));
    }
}

/// The bytes that sextets write.
pub fn unpack(v: &[u8]) -> (out: Vec<u8>)
    ensures
        out@ == bytes_of_sextets(v@),
{
    let n: usize = (v.len() as u128 * 6 / 8) as usize;
    let mut out: Vec<u8> = Vec::new();
    let mut i: usize = 0;
    while i < n
        invariant
            n == v@.len() * 6 / 8,
            v@.len() == v.len(),
            i <= n,
            out@.len() == i,
            forall|k: int| 0 <= k < i ==> out@[k] == byte_at(v@, k),
        decreases n - i,
    {
        let at: usize = i / 3 * 4 + i % 3;
        let byte: u8 = if i % 3 == 0 {
            v[at] % 64 * 4 + v[at + 1] / 16 % 4
        } else if i % 3 == 1 {
            v[at] % 16 * 16 + v[at + 1] / 4 % 16
        } else {
            v[at] % 4 * 64 + v[at + 1] % 64
        };
        out.push(byte);
        i = i + 1;
    }
    assert(out@ =~= bytes_of_sextets(v@));
    out
}

/// The bytes that the characters of `s` write, if each stands for six bits.
pub fn decode_sextets(s: &[u8]) -> (r: Option<Vec<u8>>)
    ensures
        r is Some <==> all_sextets(s@),
        r matches Some(out) ==> out@ == bytes_of_sextets(sextets_of(s@)),
{
    let mut v: Vec<u8> = Vec::new();
    let mut i: usize = 0;
    while i < s.len()
        invariant
            i <= s@.len(),
            v@.len() == i,
            forall|k: int| 0 <= k < i ==> sextet_of(#[trigger] s@[k]) == Some(v@[k]),
        decreases s@.len() - i,
    {
        match sextet(s[i]) {
            Some(bits) => {
                v.push(bits);
            },
            None => {
                assert(sextet_of(s@[i as int]) is None);
                return None;
            },
        }
        i = i + 1;
    }
    assert(v@ =~= sextets_of(s@));
    Some(unpack(v.as_slice()))
}

} // verus!
