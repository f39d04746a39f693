//! Small readings of text: trimming, splitting, numbers.
use vstd::prelude::*;

verus! {

/// Whether a character is white space.
pub open spec fn is_space(c: char) -> bool {
    ||| '\u{9}' <= c <= '\u{d}'
    ||| c == ' '
    ||| c == '\u{85}'
    ||| c == '\u{a0}'
    ||| c == '\u{1680}'
    ||| '\u{2000}' <= c <= '\u{200a}'
    ||| c == '\u{2028}'
    ||| c == '\u{2029}'
    ||| c == '\u{202f}'
    ||| c == '\u{205f}'
    ||| c == '\u{3000}'
}

/// Whether a character is white space.
pub fn space(c: char) -> (r: bool)
    ensures
        r == is_space(c),
{
    ('\u{9}' <= c && c <= '\u{d}') || c == ' ' || c == '\u{85}' || c == '\u{a0}' || c == '\u{1680}'
        || ('\u{2000}' <= c && c <= '\u{200a}') || c == '\u{2028}' || c == '\u{2029}' || c
        == '\u{202f}' || c == '\u{205f}' || c == '\u{3000}'
}

/// Which characters are white space, by their numbers: the tab and the four behind it, the space, the
/// next line, the no-break space, the Ogham mark, the eleven widths of space, the line and paragraph
/// separators, the narrow no-break, the mathematical and the ideographic space; and no others.
pub proof fn lemma_spaces(c: char)
    ensures
        ({
            let n = c as int;
            is_space(c) <==> 9 <= n <= 13 || n == 32 || n == 133 || n == 160 || n == 5760 || 8192
                <= n <= 8202 || n == 8232 || n == 8233 || n == 8239 || n == 8287 || n == 12288
        }),
{
}

/// Text without the white space in front of it.
pub open spec fn trimmed_front(s: Seq<char>) -> Seq<char>
    decreases s.len(),
{
    if s.len() > 0 && is_space(s[0]) {
        trimmed_front(s.skip(1))
    } else {
        s
    }
}

/// Text without the white space behind it.
pub open spec fn trimmed_back(s: Seq<char>) -> Seq<char>
    decreases s.len(),
{
    if s.len() > 0 && is_space(s.last()) {
        trimmed_back(s.drop_last())
    } else {
        s
    }
}

/// Text without the white space around it.
pub open spec fn trimmed(s: Seq<char>) -> Seq<char> {
    trimmed_back(trimmed_front(s))
}

/// What trimming leaves: a stretch of the text, in front of which and behind which there is nothing
/// but white space, and which neither starts nor ends with any.
pub proof fn lemma_trimmed_exact(s: Seq<char>) -> (r: (int, int))
    ensures
        ({
            let (i, j) = r;
            &&& 0 <= i <= j <= s.len()
            &&& trimmed(s) == s.subrange(i, j)
            &&& forall|k: int| 0 <= k < i || j <= k < s.len() ==> is_space(#[trigger] s[k])
            &&& i < j ==> !is_space(s[i]) && !is_space(s[j - 1])
        }),
{
    let i = lemma_trimmed_front(s);
    let t = s.skip(i);
    let j = lemma_trimmed_back(t);
    assert(s.subrange(i, i + j) =~= t.take(j));
    assert forall|k: int| i + j <= k < s.len() implies is_space(#[trigger] s[k]) by {
        assert(t[k - i] == s[k]);
    }
    assert(j > 0 ==> t[j - 1] == s[i + j - 1]);
    if j == 0 && i < s.len() {
        assert(t[0] == s[i]);
    }
    (i, i + j)
}

/// Trimming what was trimmed changes nothing.
pub proof fn lemma_trimmed_twice(s: Seq<char>)
    ensures
        trimmed(trimmed(s)) == trimmed(s),
{
    let (i, j) = lemma_trimmed_exact(s);
    let t = trimmed(s);
    if i < j {
        assert(t[0] == s[i]);
        assert(t.last() == s[j - 1]);
    } else {
        assert(t.len() == 0);
    }
}

proof fn lemma_trimmed_front(s: Seq<char>) -> (i: int)
    ensures
        0 <= i <= s.len(),
        trimmed_front(s) == s.skip(i),
        forall|k: int| 0 <= k < i ==> is_space(#[trigger] s[k]),
        i < s.len() ==> !is_space(s[i]),
    decreases s.len(),
{
    if s.len() > 0 && is_space(s[0]) {
        let t = s.skip(1);
        let i = lemma_trimmed_front(t);
        assert(t.skip(i) =~= s.skip(i + 1));
        assert forall|k: int| 0 <= k < i + 1 implies is_space(#[trigger] s[k]) by {
            if k > 0 {
                assert(t[k - 1] == s[k]);
            }
        }
        assert(i < t.len() ==> t[i] == s[i + 1]);
        i + 1
    } else {
        assert(s.skip(0) =~= s);
        0
    }
}

proof fn lemma_trimmed_back(s: Seq<char>) -> (j: int)
    ensures
        0 <= j <= s.len(),
        trimmed_back(s) == s.take(j),
        forall|k: int| j <= k < s.len() ==> is_space(#[trigger] s[k]),
        j > 0 ==> !is_space(s[j - 1]),
    decreases s.len(),
{
    if s.len() > 0 && is_space(s.last()) {
        let t = s.drop_last();
        let j = lemma_trimmed_back(t);
        assert(t.take(j) =~= s.take(j));
        assert forall|k: int| j <= k < s.len() implies is_space(#[trigger] s[k]) by {
            if k < t.len() {
                assert(t[k] == s[k]);
            }
        }
        assert(j > 0 ==> t[j - 1] == s[j - 1]);
        j
    } else {
        assert(s.take(s.len() as int) =~= s);
        s.len() as int
    }
}

/// The characters of `s`.
pub fn chars_of(s: &str) -> (out: Vec<char>)
    ensures
        out@ == s@,
{
    let mut out: Vec<char> = Vec::new();
    for c in it: s.chars()
        invariant
            it.seq() == s@,
            out@ == s@.take(it.index() as int),
    {
        assert(s@.take(it.index() + 1) =~= s@.take(it.index() as int).push(c));
        out.push(c);
    }
    assert(s@.take(s@.len() as int) =~= s@);
    out
}

/// Text of the given characters.
pub fn text_of(chars: &[char]) -> (out: String)
    ensures
        out@ == chars@,
{
    let mut out: String = String::new();
    let mut i: usize = 0;
    assert(out@ =~= chars@.take(0));
    while i < chars.len()
        invariant
            i <= chars@.len(),
            out@ == chars@.take(i as int),
        decreases chars@.len() - i,
    {
        out.push(chars[i]);
        assert(chars@.take(i + 1) =~= chars@.take(i as int).push(chars@[i as int]));
        i = i + 1;
    }
    assert(chars@.take(i as int) =~= chars@);
    out
}

/// Text without the white space around it.
pub fn trim(s: &[char]) -> (r: &[char])
    ensures
        r@ == trimmed(s@),
{
    let mut from: usize = 0;
    assert(s@.skip(0) =~= s@);
    while from < s.len() && space(s[from])
        invariant
            from <= s@.len(),
            trimmed_front(s@) == trimmed_front(s@.skip(from as int)),
        decreases s@.len() - from,
    {
        assert(s@.skip(from as int).skip(1) =~= s@.skip(from + 1));
        from = from + 1;
    }
    let ghost front = s@.skip(from as int);
    let mut to: usize = s.len();
    assert(s@.subrange(from as int, to as int) =~= front);
    while from < to && space(s[to - 1])
        invariant
            from <= to <= s@.len(),
            trimmed_back(front) == trimmed_back(s@.subrange(from as int, to as int)),
        decreases to - from,
    {
        assert(s@.subrange(from as int, to as int).drop_last() =~= s@.subrange(
            from as int,
            to - 1,
        ));
        to = to - 1;
    }
    vstd::slice::slice_subrange(s, from, to)
}

/// Whether text starts with `prefix`.
pub fn starts_with(s: &[char], prefix: &str) -> (r: bool)
    ensures
        r == prefix@.is_prefix_of(s@),
{
    let want = chars_of(prefix);
    if s.len() < want.len() {
        return false;
    }
    let mut i: usize = 0;
    while i < want.len()
        invariant
            i <= want@.len() <= s@.len(),
            want@ == prefix@,
            forall|k: int| 0 <= k < i ==> s@[k] == want@[k],
        decreases want@.len() - i,
    {
        if s[i] != want[i] {
            assert(s@.subrange(0, want@.len() as int)[i as int] != want@[i as int]);
            return false;
        }
        i = i + 1;
    }
    assert(s@.subrange(0, want@.len() as int) =~= want@);
    true
}

/// The decimal digit for a number below ten.
pub open spec fn decimal_digit(n: int) -> char {
    (0x30 + n) as char
}

/// A number in decimal.
pub open spec fn decimal_of(n: nat) -> Seq<char>
    decreases n,
{
    if n < 10 {
        seq![decimal_digit(n as int)]
    } else {
        decimal_of(n / 10).push(decimal_digit(n as int % 10))
    }
}

/// A number in decimal.
pub fn decimal(n: u64) -> (out: String)
    ensures
        out@ == decimal_of(n as nat),
    decreases n,
{
    if n < 10 {
        let mut out: String = String::new();
        out.push((0x30 + n as u8) as char);
        assert(out@ =~= decimal_of(n as nat));
        out
    } else {
        let mut out = decimal(n / 10);
        out.push((0x30 + (n % 10) as u8) as char);
        out
    }
}

/// Whether text is made of decimal digits, at least one.
pub open spec fn is_digits(s: Seq<char>) -> bool {
    s.len() > 0 && forall|i: int| 0 <= i < s.len() ==> '0' <= #[trigger] s[i] <= '9'
}

/// The number that decimal digits write.
pub open spec fn value_of(s: Seq<char>) -> nat
    decreases s.len(),
{
    if s.len() == 0 {
        0
    } else {
        value_of(s.drop_last()) * 10 + (s.last() as nat - 0x30) as nat
    }
}

/// The number that text writes: digits, with or without a plus sign in front.
pub open spec fn number_of(s: Seq<char>) -> Option<nat> {
    let digits = if s.len() > 0 && s[0] == '+' {
        s.skip(1)
    } else {
        s
    };
    if is_digits(digits) {
        Some(value_of(digits))
    } else {
        None
    }
}

/// Reading the decimal of a number gives the number back.
pub proof fn lemma_decimal_round_trip(n: nat)
    ensures
        is_digits(decimal_of(n)),
        number_of(decimal_of(n)) == Some(n),
    decreases n,
{
    let s = decimal_of(n);
    if n < 10 {
        assert(s.drop_last() =~= Seq::empty());
    } else {
        lemma_decimal_round_trip(n / 10);
        assert(s.drop_last() =~= decimal_of(n / 10));
        assert forall|i: int| 0 <= i < s.len() implies '0' <= #[trigger] s[i] <= '9' by {
            if i < s.len() - 1 {
                assert(decimal_of(n / 10)[i] == s[i]);
            }
        }
    }
    assert('0' <= s[0] <= '9');
    if n < 10 {
        assert(value_of(s.drop_last()) == 0);
    } else {
        let before = decimal_of(n / 10);
        assert(before[0] == s[0]);
        assert(value_of(before) == n / 10);
    }
    assert(value_of(s) == n);
}

/// A plus sign in front of a number has no bearing on it, and zeros in front of it have none; with
/// any other sign, or with nothing, it is none.
pub proof fn lemma_signs(n: nat)
    ensures
        number_of(seq!['+'] + decimal_of(n)) == Some(n),
        number_of(seq!['0'] + decimal_of(n)) == Some(n),
        number_of(seq!['-'] + decimal_of(n)) is None,
        number_of(Seq::empty()) is None,
{
    let d = decimal_of(n);
    lemma_decimal_round_trip(n);
    assert('0' <= d[0] <= '9');
    let plus = seq!['+'] + d;
    assert(plus.skip(1) =~= d);
    assert(number_of(d) == Some(value_of(d)));
    let minus = seq!['-'] + d;
    assert(!('0' <= minus[0] <= '9'));
    let zero = seq!['0'] + d;
    assert forall|i: int| 0 <= i < zero.len() implies '0' <= #[trigger] zero[i] <= '9' by {
        if i > 0 {
            assert(d[i - 1] == zero[i]);
        }
    }
    lemma_leading_zero(d);
}

proof fn lemma_leading_zero(s: Seq<char>)
    ensures
        value_of(seq!['0'] + s) == value_of(s),
    decreases s.len(),
{
    let zero = seq!['0'] + s;
    if s.len() == 0 {
        assert(zero.drop_last() =~= Seq::empty());
        assert(value_of(zero.drop_last()) == 0);
    } else {
        lemma_leading_zero(s.drop_last());
        assert(zero.drop_last() =~= seq!['0'] + s.drop_last());
    }
}

/// Trimming leaves digits as they are.
pub proof fn lemma_digits_stay(s: Seq<char>)
    requires
        is_digits(s),
    ensures
        trimmed(s) == s,
{
    assert('0' <= s[0] <= '9');
    assert('0' <= s[s.len() - 1] <= '9');
    assert(!is_space(s[0]));
    assert(!is_space(s.last()));
}

proof fn lemma_value_grows(s: Seq<char>, k: int)
    requires
        0 <= k <= s.len(),
    ensures
        value_of(s.take(k)) <= value_of(s),
    decreases s.len() - k,
{
    if k == s.len() {
        assert(s.take(k) =~= s);
    } else {
        assert(s.take(k + 1).drop_last() =~= s.take(k));
        lemma_value_grows(s, k + 1);
    }
}

/// The number that text writes, if it writes one that is not above `max`.
pub fn parse_number(s: &[char], max: u64) -> (r: Option<u64>)
    ensures
        r is Some <==> (number_of(s@) matches Some(n) && n <= max),
        r matches Some(n) ==> number_of(s@) == Some(n as nat),
{
    let from: usize = if s.len() > 0 && s[0] == '+' {
        1
    } else {
        0
    };
    let ghost digits = s@.skip(from as int);
    assert(from == 0 ==> digits =~= s@);
    if from == s.len() {
        return None;
    }
    let mut value: u64 = 0;
    let mut i: usize = from;
    assert(digits.take(0) =~= Seq::empty());
    while i < s.len()
        invariant
            from <= i <= s@.len(),
            digits == s@.skip(from as int),
            digits.len() > 0,
            number_of(s@) == (if is_digits(digits) {
                Some(value_of(digits))
            } else {
                None
            }),
            value <= max,
            value == value_of(digits.take(i - from)),
            forall|k: int| 0 <= k < i - from ==> '0' <= #[trigger] digits[k] <= '9',
        decreases s@.len() - i,
    {
        let c = s[i];
        proof {
            assert(digits[i - from] == c);
            assert(digits.take(i + 1 - from).drop_last() =~= digits.take(i - from));
            lemma_value_grows(digits, i + 1 - from);
        }
        if c < '0' || '9' < c {
            return None;
        }
        let d: u64 = (c as u8 - 0x30) as u64;
        if max < d || value > (max - d) / 10 {
            return None;
        }
        value = value * 10 + d;
        i = i + 1;
    }
    assert(digits.take(i - from) =~= digits);
    Some(value)
}

/// A type of unsigned numbers that text can be read as.
pub trait Number: Sized {
    /// The number.
    spec fn value(self) -> nat;

    /// The greatest number of the type.
    spec fn limit() -> nat;

    /// The greatest number of the type.
    fn greatest() -> (r: u64)
        ensures
            r == Self::limit(),
    ;

    /// The number as one of the type.
    fn of(n: u64) -> (r: Self)
        requires
            n <= Self::limit(),
        ensures
            r.value() == n,
    ;
}

impl Number for u64 {
    open spec fn value(self) -> nat {
        self as nat
    }

    open spec fn limit() -> nat {
        u64::MAX as nat
    }

    fn greatest() -> (r: u64) {
        u64::MAX
    }

    fn of(n: u64) -> (r: u64) {
        n
    }
}

impl Number for u32 {
    open spec fn value(self) -> nat {
        self as nat
    }

    open spec fn limit() -> nat {
        u32::MAX as nat
    }

    fn greatest() -> (r: u64) {
        u32::MAX as u64
    }

    fn of(n: u64) -> (r: u32) {
        n as u32
    }
}

impl Number for usize {
    open spec fn value(self) -> nat {
        self as nat
    }

    open spec fn limit() -> nat {
        usize::MAX as nat
    }

    fn greatest() -> (r: u64) {
        usize::MAX as u64
    }

    fn of(n: u64) -> (r: usize) {
        n as usize
    }
}

/// The parts of text between the separators in it.
pub open spec fn split_at_char(s: Seq<char>, separator: char) -> Seq<Seq<char>>
    decreases s.len(),
{
    if s.len() == 0 {
        seq![s]
    } else {
        let before = split_at_char(s.drop_last(), separator);
        if s.last() == separator {
            before.push(Seq::empty())
        } else {
            before.drop_last().push(before.last().push(s.last()))
        }
    }
}

/// The parts of `parts` from the front that hold something once trimmed.
pub open spec fn words(parts: Seq<Seq<char>>) -> Seq<Seq<char>>
    decreases parts.len(),
{
    if parts.len() == 0 {
        Seq::empty()
    } else {
        let before = words(parts.drop_last());
        let word = trimmed(parts.last());
        if word.len() == 0 {
            before
        } else {
            before.push(word)
        }
    }
}

/// The contents of strings.
pub open spec fn texts(s: Seq<String>) -> Seq<Seq<char>> {
    s.map_values(|t: String| t@)
}

/// The parts of a comma-separated list, trimmed, without those that are empty.
pub open spec fn list_of(s: Seq<char>) -> Seq<Seq<char>> {
    words(split_at_char(s, ','))
}

/// Parts with a separator between each two.
pub open spec fn rejoined(parts: Seq<Seq<char>>, separator: char) -> Seq<char>
    decreases parts.len(),
{
    if parts.len() == 0 {
        Seq::empty()
    } else if parts.len() == 1 {
        parts[0]
    } else {
        rejoined(parts.drop_last(), separator).push(separator) + parts.last()
    }
}

/// Splitting loses nothing but the separators: the parts with a separator between each two are the
/// text, and no part holds a separator.
pub proof fn lemma_split_exact(s: Seq<char>, separator: char)
    ensures
        split_at_char(s, separator).len() > 0,
        rejoined(split_at_char(s, separator), separator) == s,
        forall|i: int|
            0 <= i < split_at_char(s, separator).len() ==> !(#[trigger] split_at_char(
                s,
                separator,
            )[i]).contains(separator),
    decreases s.len(),
{
    let parts = split_at_char(s, separator);
    if s.len() > 0 {
        let before = split_at_char(s.drop_last(), separator);
        lemma_split_exact(s.drop_last(), separator);
        if s.last() == separator {
            assert(parts.drop_last() =~= before);
            assert(rejoined(parts, separator) =~= s);
            assert forall|i: int| 0 <= i < parts.len() implies !(#[trigger] parts[i]).contains(
                separator,
            ) by {
                if i < before.len() {
                    assert(parts[i] == before[i]);
                }
            }
        } else {
            assert(parts.drop_last() =~= before.drop_last());
            let last = before.last().push(s.last());
            assert(parts.last() == last);
            assert(before[before.len() - 1] == before.last());
            if before.len() > 1 {
                assert(rejoined(parts, separator) =~= rejoined(before, separator).push(s.last()));
            }
            assert(rejoined(parts, separator) =~= s);
            assert forall|i: int| 0 <= i < parts.len() implies !(#[trigger] parts[i]).contains(
                separator,
            ) by {
                if i < before.len() - 1 {
                    assert(parts[i] == before[i]);
                } else if parts[i].contains(separator) {
                    let k = parts[i].index_of(separator);
                    assert(k < before.last().len());
                    assert(before.last()[k] == separator);
                }
            }
        }
    }
}

/// Text without the separator is one part, itself.
pub proof fn lemma_split_none(s: Seq<char>, separator: char)
    requires
        !s.contains(separator),
    ensures
        split_at_char(s, separator) == seq![s],
    decreases s.len(),
{
    if s.len() > 0 {
        let front = s.drop_last();
        assert(s[s.len() - 1] == s.last());
        if front.contains(separator) {
            assert(s[front.index_of(separator)] == separator);
        }
        lemma_split_none(front, separator);
        assert(front.push(s.last()) =~= s);
        assert(split_at_char(s, separator) =~= seq![s]);
    }
}

/// The parts of two texts with a separator between them are those of the first and then those of
/// the second.
pub proof fn lemma_split_two(a: Seq<char>, b: Seq<char>, separator: char)
    ensures
        split_at_char(a.push(separator) + b, separator) == split_at_char(a, separator)
            + split_at_char(b, separator),
    decreases b.len(),
{
    let s = a.push(separator) + b;
    let first = split_at_char(a, separator);
    if b.len() == 0 {
        assert(s =~= a.push(separator));
        assert(s.drop_last() =~= a);
        assert(b =~= Seq::empty());
        assert(s.last() == separator);
        assert(split_at_char(s, separator) == first.push(Seq::empty()));
        assert(split_at_char(s, separator) =~= first + seq![b]);
    } else {
        let front = b.drop_last();
        lemma_split_two(a, front, separator);
        assert(s.drop_last() =~= a.push(separator) + front);
        let before = split_at_char(front, separator);
        lemma_split_exact(front, separator);
        if b.last() == separator {
            assert(split_at_char(s, separator) =~= first + split_at_char(b, separator));
        } else {
            assert((first + before).drop_last() =~= first + before.drop_last());
            assert((first + before).last() == before.last());
            assert(split_at_char(s, separator) =~= first + split_at_char(b, separator));
        }
    }
}

/// The words of a list are its parts, trimmed, that hold something then: each of them is there, and
/// nothing else.
pub proof fn lemma_words_exact(parts: Seq<Seq<char>>, word: Seq<char>)
    ensures
        words(parts).contains(word) <==> word.len() > 0 && exists|i: int|
            0 <= i < parts.len() && trimmed(#[trigger] parts[i]) == word,
        words(parts).len() <= parts.len(),
    decreases parts.len(),
{
    let all = words(parts);
    if parts.len() > 0 {
        let front = parts.drop_last();
        let before = words(front);
        let last = trimmed(parts.last());
        lemma_words_exact(front, word);
        let n = parts.len() - 1;
        if exists|i: int| 0 <= i < front.len() && trimmed(#[trigger] front[i]) == word {
            let i = choose|i: int| 0 <= i < front.len() && trimmed(#[trigger] front[i]) == word;
            assert(parts[i] == front[i]);
        }
        if exists|i: int| 0 <= i < parts.len() && trimmed(#[trigger] parts[i]) == word {
            let i = choose|i: int| 0 <= i < parts.len() && trimmed(#[trigger] parts[i]) == word;
            if i < n {
                assert(front[i] == parts[i]);
            }
        }
        assert(parts[n] == parts.last());
        if last.len() > 0 {
            assert(all[all.len() - 1] == last);
            if before.contains(word) {
                assert(all[before.index_of(word)] == word);
            }
            if all.contains(word) {
                let i = all.index_of(word);
                if i < before.len() {
                    assert(before[i] == word);
                }
            }
        }
    }
}

proof fn lemma_words_two(a: Seq<Seq<char>>, b: Seq<Seq<char>>)
    ensures
        words(a + b) == words(a) + words(b),
    decreases b.len(),
{
    if b.len() == 0 {
        assert(a + b =~= a);
        assert(words(a) + words(b) =~= words(a));
    } else {
        lemma_words_two(a, b.drop_last());
        assert((a + b).drop_last() =~= a + b.drop_last());
        assert((a + b).last() == b.last());
        assert(words(a + b) =~= words(a) + words(b));
    }
}

/// A list is made of what stands between its commas, in order, each trimmed, and what is empty then
/// left out.
pub proof fn lemma_list_in_order(a: Seq<char>, b: Seq<char>)
    ensures
        list_of(a.push(',') + b) == list_of(a) + list_of(b),
        !a.contains(',') ==> list_of(a) == if trimmed(a).len() == 0 {
            Seq::empty()
        } else {
            seq![trimmed(a)]
        },
{
    lemma_split_two(a, b, ',');
    lemma_words_two(split_at_char(a, ','), split_at_char(b, ','));
    if !a.contains(',') {
        lemma_split_none(a, ',');
        assert(seq![a].drop_last() =~= Seq::empty());
        assert(words(seq![a].drop_last()) =~= Seq::empty());
        assert(list_of(a) =~= if trimmed(a).len() == 0 {
            Seq::empty()
        } else {
            seq![trimmed(a)]
        });
    }
}

/// A copy of strings.
pub fn copy_texts(v: &Vec<String>) -> (out: Vec<String>)
    ensures
        texts(out@) == texts(v@),
{
    let mut out: Vec<String> = Vec::new();
    let mut i: usize = 0;
    assert(texts(out@) =~= texts(v@).take(0));
    while i < v.len()
        invariant
            i <= v@.len(),
            texts(out@) == texts(v@).take(i as int),
        decreases v@.len() - i,
    {
        let ghost before = out@;
        out.push(v[i].clone());
        assert(texts(out@) =~= texts(before).push(v@[i as int]@));
        assert(texts(v@).take(i + 1) =~= texts(v@).take(i as int).push(v@[i as int]@));
        i = i + 1;
    }
    assert(texts(v@).take(i as int) =~= texts(v@));
    out
}

/// The contents of lists of characters.
pub open spec fn char_views(v: Seq<Vec<char>>) -> Seq<Seq<char>> {
    v.map_values(|part: Vec<char>| part@)
}

/// The parts of text between the separators in it.
pub fn split(s: &[char], separator: char) -> (out: Vec<Vec<char>>)
    ensures
        char_views(out@) == split_at_char(s@, separator),
{
    let mut done: Vec<Vec<char>> = Vec::new();
    let mut part: Vec<char> = Vec::new();
    let mut i: usize = 0;
    assert(s@.take(0) =~= Seq::empty());
    assert(char_views(done@).push(part@) =~= split_at_char(s@.take(0), separator));
    while i < s.len()
        invariant
            i <= s@.len(),
            char_views(done@).push(part@) == split_at_char(s@.take(i as int), separator),
        decreases s@.len() - i,
    {
        let ghost before = split_at_char(s@.take(i as int), separator);
        let ghost done_before = done@;
        let ghost part_before = part@;
        proof {
            assert(s@.take(i + 1).drop_last() =~= s@.take(i as int));
            assert(before.drop_last() =~= char_views(done_before));
            assert(before.last() == part_before);
        }
        if s[i] == separator {
            let mut next: Vec<char> = Vec::new();
            core::mem::swap(&mut next, &mut part);
            done.push(next);
            assert(char_views(done@) =~= before);
            assert(char_views(done@).push(part@) =~= before.push(Seq::empty()));
        } else {
            part.push(s[i]);
        }
        i = i + 1;
    }
    assert(s@.take(i as int) =~= s@);
    let ghost before = done@;
    done.push(part);
    assert(char_views(done@) =~= char_views(before).push(part@));
    done
}

/// The parts of a comma-separated list, trimmed, without those that are empty.
pub fn comma_list(s: &str) -> (out: Vec<String>)
    ensures
        texts(out@) == list_of(s@),
{
    let chars = chars_of(s);
    let parts = split(chars.as_slice(), ',');
    let ghost all = char_views(parts@);
    let mut out: Vec<String> = Vec::new();
    let mut i: usize = 0;
    assert(all.take(0) =~= Seq::empty());
    assert(texts(out@) =~= Seq::empty());
    while i < parts.len()
        invariant
            i <= parts@.len(),
            all == char_views(parts@),
            texts(out@) == words(all.take(i as int)),
        decreases parts@.len() - i,
    {
        let ghost before = out@;
        assert(all.take(i + 1).drop_last() =~= all.take(i as int));
        assert(all.take(i + 1).last() == parts@[i as int]@);
        let word = trim(parts[i].as_slice());
        if word.len() > 0 {
            out.push(text_of(word));
            assert(texts(out@) =~= texts(before).push(word@));
        }
        i = i + 1;
    }
    assert(all.take(i as int) =~= all);
    out
}

/// Text with its ASCII capitals made small.
pub open spec fn lowered(s: Seq<char>) -> Seq<char> {
    s.map_values(
        |c: char|
            if 'A' <= c <= 'Z' {
                (c as u8 + 0x20) as char
            } else {
                c
            },
    )
}

/// Making small changes the capitals alone, each to the letter thirty-two places further on, and
/// text that was made small has no capital.
pub proof fn lemma_lowered_exact(s: Seq<char>, i: int)
    requires
        0 <= i < s.len(),
    ensures
        lowered(s).len() == s.len(),
        lowered(s)[i] as int == if 'A' <= s[i] <= 'Z' {
            s[i] as int + 32
        } else {
            s[i] as int
        },
        lowered(lowered(s)) == lowered(s),
{
    assert(lowered(lowered(s)) =~= lowered(s));
}

/// Whether text is `small`, up to the case of its ASCII letters, where `small` has none that
/// is a capital.
pub fn is_lowered(s: &[char], small: &str) -> (r: bool)
    ensures
        r == (lowered(s@) == small@),
{
    let want = chars_of(small);
    if s.len() != want.len() {
        return false;
    }
    let mut i: usize = 0;
    while i < s.len()
        invariant
            i <= s@.len() == want@.len(),
            want@ == small@,
            forall|k: int| 0 <= k < i ==> lowered(s@)[k] == want@[k],
        decreases s@.len() - i,
    {
        let c = s[i];
        let low = if 'A' <= c && c <= 'Z' {
            (c as u8 + 0x20) as char
        } else {
            c
        };
        if low != want[i] {
            assert(lowered(s@)[i as int] != want@[i as int]);
            return false;
        }
        i = i + 1;
    }
    assert(lowered(s@) =~= small@);
    true
}

} // verus!
