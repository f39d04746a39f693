//! Text, hexadecimal and order.
use telesthete::base64::decode_sextets;
use telesthete::hex::{from_hex, hex_value, to_hex};
use telesthete::order::{bytes_before, text_before};
use telesthete::text::{
    chars_of, comma_list, decimal, is_lowered, parse_number, space, split, starts_with, text_of, trim,
};

#[test]
fn spaces_are_those_of_the_language() {
    for n in 0..=0x10FFFFu32 {
        if let Some(c) = char::from_u32(n) {
            assert_eq!(space(c), c.is_whitespace(), "{n:x}");
        }
    }
}

#[test]
fn trimming_takes_spaces_off_both_ends() {
    for s in ["", " ", "\t a b \n", "x", "\u{2003}y\u{a0}"] {
        let chars = chars_of(s);
        assert_eq!(text_of(trim(&chars)), s.trim());
    }
}

#[test]
fn numbers_are_read_as_the_language_does() {
    for s in ["0", "007", "+9", "18446744073709551615", "18446744073709551616", "", "+", "-1", "1x", " 1"] {
        let chars = chars_of(s);
        assert_eq!(parse_number(&chars, u64::MAX), s.parse::<u64>().ok(), "{s}");
    }
    assert_eq!(parse_number(&chars_of("256"), 255), None);
    for n in [0, 9, 10, 12345, u64::MAX] {
        assert_eq!(decimal(n), n.to_string());
    }
}

#[test]
fn lists_and_prefixes() {
    assert_eq!(comma_list(" a, ,b ,"), vec!["a".to_string(), "b".to_string()]);
    let parts = split(&chars_of("a,,b"), ',');
    assert_eq!(parts, vec![vec!['a'], vec![], vec!['b']]);
    assert!(starts_with(&chars_of("band=1"), "band="));
    assert!(!starts_with(&chars_of("ban"), "band="));
    assert!(is_lowered(&chars_of("OfF"), "off"));
    assert!(!is_lowered(&chars_of("\u{17f}off"), "soff"));
}

#[test]
fn hex_round_trips() {
    let all: Vec<u8> = (0..=255).collect();
    let text = to_hex(&all);
    assert_eq!(&text[..8], "00010203");
    assert_eq!(from_hex(&text), Some(all));
    assert_eq!(from_hex("0"), None);
    assert_eq!(from_hex("+1"), None);
    assert_eq!((hex_value('f'), hex_value('F'), hex_value('g')), (Some(15), Some(15), None));
}

#[test]
fn order_is_that_of_the_bytes() {
    let words = ["", "a", "ab", "b", "z", "\u{e9}", "\u{10000}", "\u{ffff}"];
    for x in words {
        for y in words {
            assert_eq!(text_before(x, y), x < y);
            assert_eq!(bytes_before(x.as_bytes(), y.as_bytes()), x.as_bytes() < y.as_bytes());
        }
    }
}

#[test]
fn sextets_unpack() {
    assert_eq!(decode_sextets(b"aGVsbG8"), Some(b"hello".to_vec()));
    assert_eq!(decode_sextets(b"a b"), None);
}
