//! Bytes as lowercase hexadecimal text, and back.
use vstd::prelude::*;

verus! {

/// `String::push` puts the character at the end of the string.
pub assume_specification[ String::push ](s: &mut String, c: char)
    ensures
        final(s)@ == old(s)@.push(c),
;

/// The lowercase hexadecimal digit for a number below sixteen.
pub open spec fn hex_digit(n: int) -> char {
    if n < 10 {
        (0x30 + n) as char
    } else {
        (0x57 + n) as char
    }
}

/// The number that a hexadecimal digit of either case stands for.
pub open spec fn digit_value(c: char) -> Option<u8> {
    if '0' <= c <= '9' {
        Some((c as u8 - 0x30) as u8)
    } else if 'a' <= c <= 'f' {
        Some((c as u8 - 0x57) as u8)
    } else if 'A' <= c <= 'F' {
        Some((c as u8 - 0x37) as u8)
    } else {
        None
    }
}

/// Bytes in lowercase hexadecimal, two digits each.
pub open spec fn hex_of(bytes: Seq<u8>) -> Seq<char> {
    Seq::new(
        2 * bytes.len(),
        |i: int|
            hex_digit(
                if i % 2 == 0 {
                    bytes[i / 2] as int / 16
                } else {
                    bytes[i / 2] as int % 16
                },
            ),
    )
}

/// Whether `s` is made of pairs of hexadecimal digits.
pub open spec fn is_hex(s: Seq<char>) -> bool {
    s.len() % 2 == 0 && forall|i: int| 0 <= i < s.len() ==> digit_value(#[trigger] s[i]) is Some
}

/// The bytes that pairs of hexadecimal digits write.
pub open spec fn bytes_of_hex(s: Seq<char>) -> Seq<u8> {
    Seq::new(
        s.len() / 2,
        |i: int| (digit_value(s[2 * i])->0 * 16 + digit_value(s[2 * i + 1])->0) as u8,
    )
}

/// How bytes are written: two digits each, the sixteens first, and digits above nine as small
/// letters.
pub proof fn lemma_hex_digits(bytes: Seq<u8>, i: int)
    requires
        0 <= i < bytes.len(),
    ensures
        hex_of(bytes).len() == 2 * bytes.len(),
        ({
            let (high, low) = (bytes[i] as int / 16, bytes[i] as int % 16);
            &&& hex_of(bytes)[2 * i] as int == if high < 10 {
                high + '0' as int
            } else {
                high - 10 + 'a' as int
            }
            &&& hex_of(bytes)[2 * i + 1] as int == if low < 10 {
                low + '0' as int
            } else {
                low - 10 + 'a' as int
            }
        }),
{
}

/// How digits are read: those above nine in either case, and nothing else is a digit.
pub proof fn lemma_digits_read(c: char)
    ensures
        ({
            let n = c as int;
            &&& 48 <= n <= 57 ==> digit_value(c) == Some((n - 48) as u8)
            &&& 97 <= n <= 102 ==> digit_value(c) == Some((n - 97 + 10) as u8)
            &&& 65 <= n <= 70 ==> digit_value(c) == Some((n - 65 + 10) as u8)
            &&& n < 48 || 57 < n < 65 || 70 < n < 97 || n > 102 ==> digit_value(c) is None
        }),
{
}

/// Reading the hexadecimal text of bytes gives the bytes back.
pub proof fn lemma_hex_round_trip(bytes: Seq<u8>)
    ensures
        is_hex(hex_of(bytes)),
        bytes_of_hex(hex_of(bytes)) == bytes,
{
    let s = hex_of(bytes);
    assert(forall|n: int| 0 <= n < 16 ==> #[trigger] digit_value(hex_digit(n)) == Some(n as u8));
    assert forall|i: int| 0 <= i < s.len() implies digit_value(#[trigger] s[i]) is Some by {
        let n = if i % 2 == 0 {
            bytes[i / 2] as int / 16
        } else {
            bytes[i / 2] as int % 16
        };
        assert(digit_value(hex_digit(n)) == Some(n as u8));
    }
    assert forall|i: int| 0 <= i < bytes.len() implies #[trigger] bytes_of_hex(s)[i] == bytes[i] by {
        assert((2 * i) / 2 == i && (2 * i + 1) / 2 == i && (2 * i) % 2 == 0 && (2 * i + 1) % 2 == 1);
        let hi = bytes[i] as int / 16;
        let lo = bytes[i] as int % 16;
        assert(s[2 * i] == hex_digit(hi));
        assert(s[2 * i + 1] == hex_digit(lo));
        assert(digit_value(hex_digit(hi)) == Some(hi as u8));
        assert(digit_value(hex_digit(lo)) == Some(lo as u8));
    }
    assert(bytes_of_hex(s) =~= bytes);
}

fn digit(n: u8) -> (c: char)
    requires
        n < 16,
    ensures
        c == hex_digit(n as int),
{
    if n < 10 {
        (0x30 + n) as char
    } else {
        (0x57 + n) as char
    }
}

/// Bytes in lowercase hexadecimal, two digits each.
pub fn to_hex(bytes: &[u8]) -> (out: String)
    ensures
        out@ == hex_of(bytes@),
{
    let mut out: String = String::new();
    let mut i: usize = 0;
    assert(out@ =~= hex_of(bytes@.take(0)));
    while i < bytes.len()
        invariant
            i <= bytes@.len(),
            out@ == hex_of(bytes@.take(i as int)),
        decreases bytes@.len() - i,
    {
        let ghost before = out@;
        out.push(digit(bytes[i] / 16));
        out.push(digit(bytes[i] % 16));
        proof {
            let now = hex_of(bytes@.take(i + 1));
            assert forall|k: int| 0 <= k < 2 * i implies before[k] == now[k] by {
                assert(0 <= k / 2 < i);
                assert(bytes@.take(i as int)[k / 2] == bytes@.take(i + 1)[k / 2]);
            }
            assert((2 * i) / 2 == i && (2 * i + 1) / 2 == i && (2 * i + 1) % 2 == 1);
            assert(out@ =~= now);
        }
        i = i + 1;
    }
    assert(bytes@.take(i as int) =~= bytes@);
    out
}

/// The number that a hexadecimal digit of either case stands for.
pub fn hex_value(c: char) -> (r: Option<u8>)
    ensures
        r == digit_value(c),
{
    if '0' <= c && c <= '9' {
        Some(c as u8 - 0x30)
    } else if 'a' <= c && c <= 'f' {
        Some(c as u8 - 0x57)
    } else if 'A' <= c && c <= 'F' {
        Some(c as u8 - 0x37)
    } else {
        None
    }
}

/// The bytes that pairs of hexadecimal digits write; `None` where `s` is not such pairs.
pub fn from_hex(s: &str) -> (r: Option<Vec<u8>>)
    ensures
        r is Some <==> is_hex(s@),
        r matches Some(v) ==> v@ == bytes_of_hex(s@),
{
    let n: usize = s.unicode_len();
    if n % 2 != 0 {
        return None;
    }
    let mut out: Vec<u8> = Vec::new();
    let mut i: usize = 0;
    while i < n
        invariant
            i <= n,
            i % 2 == 0,
            n % 2 == 0,
            n == s@.len(),
            out@.len() == i / 2,
            forall|k: int| 0 <= k < i ==> digit_value(#[trigger] s@[k]) is Some,
            forall|k: int| 0 <= k < i / 2 ==> #[trigger] out@[k] == bytes_of_hex(s@)[k],
        decreases n - i,
    {
        let hi = match hex_value(s.get_char(i)) {
            Some(v) => v,
            None => {
                return None;
            },
        };
        let lo = match hex_value(s.get_char(i + 1)) {
            Some(v) => v,
            None => {
                return None;
            },
        };
        assert(2 * (i as int / 2) == i);
        out.push(hi * 16 + lo);
        i = i + 2;
    }
    assert(out@ =~= bytes_of_hex(s@));
    Some(out)
}

} // verus!
