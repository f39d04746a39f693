//! The secret that a host and a client share, as text.
use crate::base64::{self, decode_sextets};
use crate::hex::{self, from_hex};
use crate::octets::array32;
use crate::text::{self, chars_of, decimal, starts_with, text_of, trim};
use vstd::prelude::*;

verus! {

/// Where the secret is kept.
#[derive(Debug, Clone)]
pub enum PskPath {
    /// In this file.
    File(String),
    /// In `telesthete/psk` under this directory.
    Config(String),
    /// In `.config/telesthete/psk` under this directory.
    Home(String),
}

/// Where the secret is kept: in the file that was named, else under the directory of the
/// configuration, else under the home directory, else under the working directory.
pub fn default_path(file: Option<String>, config_home: Option<String>, home: Option<String>) -> (r:
    PskPath)
    ensures
        match (file, config_home, home) {
            (Some(f), _, _) => r == PskPath::File(f),
            (None, Some(c), _) => r == PskPath::Config(c),
            (None, None, Some(h)) => r == PskPath::Home(h),
            (None, None, None) => r matches PskPath::Home(h) && h@ == "."@,
        },
{
    match file {
        Some(f) => PskPath::File(f),
        None => match config_home {
            Some(c) => PskPath::Config(c),
            None => match home {
                Some(h) => PskPath::Home(h),
                None => PskPath::Home(".".to_owned()),
            },
        },
    }
}

/// The bytes that pairs of hexadecimal digits write, or what is wrong with them.
pub open spec fn hex_decoded(s: Seq<char>) -> Result<Seq<u8>, Seq<char>> {
    let t = text::trimmed(s);
    if vstd::utf8::encode_utf8(t).len() % 2 != 0 {
        Err("hex psk odd length"@)
    } else if !hex::is_hex(t) {
        Err("bad hex in psk"@)
    } else {
        Ok(hex::bytes_of_hex(t))
    }
}

/// The bytes that pairs of hexadecimal digits write.
pub fn hex_decode(s: &str) -> (r: Result<Vec<u8>, String>)
    ensures
        r matches Ok(bytes) ==> hex_decoded(s@) == Ok::<Seq<u8>, Seq<char>>(bytes@),
        r matches Err(e) ==> hex_decoded(s@) == Err::<Seq<u8>, Seq<char>>(e@),
{
    let chars = chars_of(s);
    let t = text_of(trim(chars.as_slice()));
    if t.as_str().as_bytes().len() % 2 != 0 {
        return Err("hex psk odd length".to_owned());
    }
    match from_hex(t.as_str()) {
        Some(bytes) => Ok(bytes),
        None => Err("bad hex in psk".to_owned()),
    }
}

/// Whether a byte of base64 text is padding or the end of a line.
pub open spec fn is_filler(c: u8) -> bool {
    c == 0x3d || c == 0x0a || c == 0x0d
}

/// Text without padding and ends of lines.
pub open spec fn without_filler(s: Seq<u8>) -> Seq<u8>
    decreases s.len(),
{
    if s.len() == 0 {
        s
    } else if is_filler(s.last()) {
        without_filler(s.drop_last())
    } else {
        without_filler(s.drop_last()).push(s.last())
    }
}

/// The bytes that base64 text writes, or what is wrong with it.
pub open spec fn b64_decoded(s: Seq<char>) -> Result<Seq<u8>, Seq<char>> {
    let kept = without_filler(vstd::utf8::encode_utf8(s));
    if base64::all_sextets(kept) {
        Ok(base64::bytes_of_sextets(base64::sextets_of(kept)))
    } else {
        Err("bad base64 in psk"@)
    }
}

/// The bytes that base64 text writes.
pub fn b64_decode(s: &str) -> (r: Result<Vec<u8>, String>)
    ensures
        r matches Ok(bytes) ==> b64_decoded(s@) == Ok::<Seq<u8>, Seq<char>>(bytes@),
        r matches Err(e) ==> b64_decoded(s@) == Err::<Seq<u8>, Seq<char>>(e@),
{
    let all = s.as_bytes();
    let mut kept: Vec<u8> = Vec::new();
    let mut i: usize = 0;
    assert(all@.take(0) =~= Seq::empty());
    while i < all.len()
        invariant
            i <= all@.len(),
            kept@ == without_filler(all@.take(i as int)),
        decreases all@.len() - i,
    {
        let c: u8 = all[i];
        assert(all@.take(i + 1).drop_last() =~= all@.take(i as int));
        if !(c == 0x3d || c == 0x0a || c == 0x0d) {
            kept.push(c);
        }
        i = i + 1;
    }
    assert(all@.take(i as int) =~= all@);
    match decode_sextets(kept.as_slice()) {
        Some(bytes) => Ok(bytes),
        None => Err("bad base64 in psk".to_owned()),
    }
}

/// The secret that text writes, in base64 behind `base64:` and else in hexadecimal, or what is
/// wrong with it.
pub open spec fn parsed(s: Seq<char>) -> Result<Seq<u8>, Seq<char>> {
    let bytes = if "base64:"@.is_prefix_of(s) {
        b64_decoded(text::trimmed(s.skip("base64:"@.len() as int)))
    } else {
        hex_decoded(s)
    };
    match bytes {
        Err(e) => Err(e),
        Ok(b) => if b.len() == 32 {
            Ok(b)
        } else {
            Err("psk must be 32 bytes, got "@ + text::decimal_of(b.len()))
        },
    }
}

/// A secret written in hexadecimal, with white space around it or not, reads back as itself.
pub proof fn lemma_hex_secret_parses(key: Seq<u8>, text: Seq<char>)
    requires
        key.len() == 32,
        text::trimmed(text) == hex::hex_of(key),
    ensures
        parsed(text::trimmed(text)) == Ok::<Seq<u8>, Seq<char>>(key),
{
    let s = hex::hex_of(key);
    hex::lemma_hex_round_trip(key);
    assert forall|i: int| 0 <= i < s.len() implies '\0' <= #[trigger] s[i] <= '\u{7f}' by {
        assert(hex::digit_value(s[i]) is Some);
    }
    vstd::utf8::is_ascii_chars_encode_utf8(s);
    reveal_strlit("base64:");
    if "base64:"@.is_prefix_of(s) {
        assert("base64:"@[2] == s[2]);
        assert(hex::digit_value(s[2]) is Some);
    }
    assert(hex::digit_value(s[0]) is Some);
    assert(hex::digit_value(s.last()) is Some);
    assert(text::trimmed(s) == s);
}

/// White space around a secret in base64 has no bearing on what it is.
pub proof fn lemma_space_has_no_bearing(t: Seq<char>)
    ensures
        parsed("base64:"@ + t) == parsed("base64:"@ + text::trimmed(t)),
{
    reveal_strlit("base64:");
    let front = "base64:"@;
    let (a, b) = (front + t, front + text::trimmed(t));
    assert(a.subrange(0, 7) =~= front && b.subrange(0, 7) =~= front);
    assert(front.is_prefix_of(a) && front.is_prefix_of(b));
    assert(a.skip(7) =~= t);
    assert(b.skip(7) =~= text::trimmed(t));
    text::lemma_trimmed_twice(t);
}

/// What a secret is: thirty-two bytes. Text that writes another number of them is refused, with the
/// number told, and text that is refused otherwise writes no bytes at all.
pub proof fn lemma_secret_length(s: Seq<char>)
    ensures
        parsed(s) matches Ok(key) ==> key.len() == 32,
        !("base64:"@.is_prefix_of(s)) && hex_decoded(s) is Ok ==> (parsed(s) is Ok
            <==> hex_decoded(s)->Ok_0.len() == 32),
        !("base64:"@.is_prefix_of(s)) && hex_decoded(s) is Err ==> parsed(s) == Err::<
            Seq<u8>,
            Seq<char>,
        >(hex_decoded(s)->Err_0),
{
}

/// What is left of base64 text without padding and ends of lines: every other byte, in order.
pub proof fn lemma_filler_dropped(s: Seq<u8>, c: u8)
    ensures
        without_filler(s).contains(c) <==> s.contains(c) && c != '=' as int && c != '\n' as int && c
            != '\r' as int,
        (forall|i: int| 0 <= i < s.len() ==> #[trigger] s[i] != '=' as int && s[i] != '\n' as int
            && s[i] != '\r' as int) ==> without_filler(s) == s,
    decreases s.len(),
{
    if s.len() > 0 {
        let front = s.drop_last();
        let before = without_filler(front);
        let all = without_filler(s);
        lemma_filler_dropped(front, c);
        let n = s.len() - 1;
        assert(s[n] == s.last());
        if s.contains(c) {
            let i = s.index_of(c);
            if i < n {
                assert(front[i] == c);
            }
        }
        if front.contains(c) {
            assert(s[front.index_of(c)] == c);
        }
        if !is_filler(s.last()) {
            assert(all[all.len() - 1] == s.last());
            if before.contains(c) {
                assert(all[before.index_of(c)] == c);
            }
            if all.contains(c) {
                let i = all.index_of(c);
                if i < before.len() {
                    assert(before[i] == c);
                }
            }
        }
        if forall|i: int|
            0 <= i < s.len() ==> #[trigger] s[i] != '=' as int && s[i] != '\n' as int && s[i]
                != '\r' as int {
            assert forall|i: int| 0 <= i < front.len() implies #[trigger] front[i] != '=' as int
                && front[i] != '\n' as int && front[i] != '\r' as int by {
                assert(front[i] == s[i]);
            }
            assert(front.push(s.last()) =~= s);
        }
    } else {
        assert(without_filler(s) =~= s);
    }
}

/// The secret that text writes, in base64 behind `base64:` and else in hexadecimal.
pub fn parse(s: &str) -> (r: Result<[u8; 32], String>)
    ensures
        r matches Ok(key) ==> parsed(s@) == Ok::<Seq<u8>, Seq<char>>(key@),
        r matches Err(e) ==> parsed(s@) == Err::<Seq<u8>, Seq<char>>(e@),
{
    let chars = chars_of(s);
    let decoded = if starts_with(chars.as_slice(), "base64:") {
        proof {
            reveal_strlit("base64:");
        }
        let rest = vstd::slice::slice_subrange(chars.as_slice(), 7, chars.len());
        assert(rest@ =~= s@.skip(7));
        let t = text_of(trim(rest));
        b64_decode(t.as_str())
    } else {
        hex_decode(s)
    };
    match decoded {
        Err(e) => Err(e),
        Ok(bytes) => {
            if bytes.len() != 32 {
                let mut e = "psk must be 32 bytes, got ".to_owned();
                e.append(decimal(bytes.len() as u64).as_str());
                return Err(e);
            }
            let key = array32(bytes.as_slice(), 0);
            assert(key@ =~= bytes@);
            Ok(key)
        },
    }
}

/// The secret in the text of a file: one line, with white space around it or not.
pub fn parse_file(raw: &str) -> (r: Result<[u8; 32], String>)
    ensures
        r matches Ok(key) ==> parsed(text::trimmed(raw@)) == Ok::<Seq<u8>, Seq<char>>(key@),
        r matches Err(e) ==> parsed(text::trimmed(raw@)) == Err::<Seq<u8>, Seq<char>>(e@),
{
    let chars = chars_of(raw);
    let line = text_of(trim(chars.as_slice()));
    parse(line.as_str())
}

} // verus!
