//! Text building: decimal and hexadecimal numerals as character sequences.

use vstd::prelude::*;

verus! {

/// The character for a decimal digit.
pub open spec fn digit_char(d: nat) -> char {
    (48 + d) as char
}

/// The decimal numeral of `n`, most significant digit first, without leading zeros.
pub open spec fn decimal(n: nat) -> Seq<char>
    decreases n,
{
    if n < 10 {
        seq![digit_char(n)]
    } else {
        decimal(n / 10).push(digit_char(n % 10))
    }
}

/// The lower-case character for a hexadecimal digit.
pub open spec fn hex_char(d: nat) -> char {
    if d < 10 {
        (48 + d) as char
    } else {
        (87 + d) as char
    }
}

/// Two hexadecimal characters per byte, high half first.
pub open spec fn hex_text(bytes: Seq<u8>) -> Seq<char>
    decreases bytes.len(),
{
    if bytes.len() == 0 {
        seq![]
    } else {
        hex_text(bytes.drop_last()).push(hex_char(bytes.last() as nat / 16)).push(
            hex_char(bytes.last() as nat % 16),
        )
    }
}

/// Appends the decimal numeral of `n`.
pub fn push_decimal(out: &mut String, n: u64)
    ensures
        final(out)@ == old(out)@ + decimal(n as nat),
    decreases n,
{
    if n < 10 {
        out.push((48 + n as u8) as char);
    } else {
        push_decimal(out, n / 10);
        out.push((48 + (n % 10) as u8) as char);
    }
}

fn hex_digit(d: u8) -> (c: char)
    requires
        d < 16,
    ensures
        c == hex_char(d as nat),
{
    if d < 10 {
        (48 + d) as char
    } else {
        (87 + d) as char
    }
}

/// Appends two lower-case hexadecimal characters per byte.
pub fn push_hex(out: &mut String, bytes: &[u8])
    ensures
        final(out)@ == old(out)@ + hex_text(bytes@),
{
    let ghost start = out@;
    let mut i: usize = 0;
    while i < bytes.len()
        invariant
            i <= bytes.len(),
            out@ == start + hex_text(bytes@.take(i as int)),
        decreases bytes.len() - i,
    {
        let b: u8 = bytes[i];
        out.push(hex_digit(b / 16));
        out.push(hex_digit(b % 16));
        assert(bytes@.take(i + 1).drop_last() =~= bytes@.take(i as int));
        i += 1;
    }
    assert(bytes@.take(i as int) =~= bytes@);
}

/// Byte-wise lexicographic order.
pub open spec fn bytes_less(a: Seq<u8>, b: Seq<u8>) -> bool
    decreases b.len(),
{
    if b.len() == 0 {
        false
    } else if a.len() == 0 {
        true
    } else if a[0] != b[0] {
        a[0] < b[0]
    } else {
        bytes_less(a.drop_first(), b.drop_first())
    }
}

/// Where `a` does not precede `b` nor `b` precede `c`, `a` does not precede `c`.
pub proof fn bytes_order_is_transitive(a: Seq<u8>, b: Seq<u8>, c: Seq<u8>)
    requires
        !bytes_less(a, b),
        !bytes_less(b, c),
    ensures
        !bytes_less(a, c),
    decreases c.len(),
{
    if c.len() > 0 && a.len() > 0 && b.len() > 0 && a[0] == b[0] && b[0] == c[0] {
        bytes_order_is_transitive(a.drop_first(), b.drop_first(), c.drop_first());
    }
}

/// Of two texts, at most one precedes the other.
pub proof fn bytes_order_is_asymmetric(a: Seq<u8>, b: Seq<u8>)
    requires
        bytes_less(a, b),
    ensures
        !bytes_less(b, a),
    decreases b.len(),
{
    if a.len() > 0 && b.len() > 0 && a[0] == b[0] {
        bytes_order_is_asymmetric(a.drop_first(), b.drop_first());
    }
}

/// Whether the bytes of `a` precede those of `b`.
pub fn precedes(a: &[u8], b: &[u8]) -> (r: bool)
    ensures
        r == bytes_less(a@, b@),
{
    let mut i: usize = 0;
    assert(a@.skip(0) =~= a@);
    assert(b@.skip(0) =~= b@);
    while i < a.len() && i < b.len() && a[i] == b[i]
        invariant
            i <= a.len(),
            i <= b.len(),
            bytes_less(a@, b@) == bytes_less(a@.skip(i as int), b@.skip(i as int)),
        decreases a.len() - i,
    {
        assert(a@.skip(i as int).drop_first() =~= a@.skip(i + 1));
        assert(b@.skip(i as int).drop_first() =~= b@.skip(i + 1));
        i += 1;
    }
    if i >= b.len() {
        false
    } else if i >= a.len() {
        true
    } else {
        a[i] < b[i]
    }
}

/// Whether two texts are the same.
pub fn same_text(a: &str, b: &str) -> (r: bool)
    ensures
        r == (a@ == b@),
{
    a.to_owned() == b.to_owned()
}

/// The characters of a text.
pub fn chars_of(text: &str) -> (chars: Vec<char>)
    ensures
        chars@ == text@,
{
    let mut chars: Vec<char> = Vec::new();
    for c in it: text.chars()
        invariant
            it.seq() == text@,
            chars@ == it.seq().take(it.index()),
    {
        chars.push(c);
        assert(chars@ =~= it.seq().take(it.index() + 1));
    }
    assert(chars@ =~= text@);
    chars
}

/// A text stands at a place in another.
pub open spec fn stands_at(text: Seq<char>, part: Seq<char>, at: int) -> bool {
    0 <= at && at + part.len() <= text.len() && text.subrange(at, at + part.len()) == part
}

/// Whether `part` stands at a place in `text`.
pub fn is_part_at(text: &[char], part: &[char], at: usize) -> (r: bool)
    ensures
        r == stands_at(text@, part@, at as int),
{
    if at > text.len() || part.len() > text.len() - at {
        return false;
    }
    let mut i: usize = 0;
    while i < part.len()
        invariant
            i <= part.len(),
            at + part.len() <= text.len(),
            forall|k: int| 0 <= k < i ==> text@[at + k] == part@[k],
        decreases part.len() - i,
    {
        if text[at + i] != part[i] {
            assert(text@.subrange(at as int, at + part@.len())[i as int] != part@[i as int]);
            return false;
        }
        i += 1;
    }
    assert(text@.subrange(at as int, at + part@.len()) =~= part@);
    true
}

/// A text starts with another.
pub open spec fn starts_with(text: Seq<char>, prefix: Seq<char>) -> bool {
    stands_at(text, prefix, 0)
}

/// Whether a text starts with another.
pub fn has_prefix(text: &str, prefix: &str) -> (r: bool)
    ensures
        r == starts_with(text@, prefix@),
{
    let t: Vec<char> = chars_of(text);
    let p: Vec<char> = chars_of(prefix);
    is_part_at(t.as_slice(), p.as_slice(), 0)
}

/// Appends characters.
pub fn push_chars(out: &mut String, chars: &[char])
    ensures
        final(out)@ == old(out)@ + chars@,
{
    let ghost start = out@;
    let mut i: usize = 0;
    while i < chars.len()
        invariant
            i <= chars.len(),
            out@ == start + chars@.take(i as int),
        decreases chars.len() - i,
    {
        out.push(chars[i]);
        assert(chars@.take(i + 1) =~= chars@.take(i as int).push(chars@[i as int]));
        assert(out@ =~= start + chars@.take(i + 1));
        i += 1;
    }
    assert(chars@.take(i as int) =~= chars@);
}

/// A character with its ASCII letters in lower case.
pub open spec fn lower(c: char) -> char {
    if 'A' <= c <= 'Z' {
        ((c as int) + 32) as char
    } else {
        c
    }
}

/// Two texts differ at most in the case of ASCII letters.
pub open spec fn same_but_for_case(a: Seq<char>, b: Seq<char>) -> bool {
    a.len() == b.len() && forall|i: int| 0 <= i < a.len() ==> lower(#[trigger] a[i]) == lower(b[i])
}

fn lower_char(c: char) -> (l: char)
    ensures
        l == lower(c),
{
    if 'A' <= c && c <= 'Z' {
        (c as u8 + 32) as char
    } else {
        c
    }
}

/// Whether two texts differ at most in the case of ASCII letters.
pub fn same_text_but_for_case(a: &str, b: &str) -> (r: bool)
    ensures
        r == same_but_for_case(a@, b@),
{
    let x: Vec<char> = chars_of(a);
    let y: Vec<char> = chars_of(b);
    if x.len() != y.len() {
        return false;
    }
    let mut i: usize = 0;
    while i < x.len()
        invariant
            i <= x.len(),
            x@ == a@,
            y@ == b@,
            x.len() == y.len(),
            forall|k: int| 0 <= k < i ==> lower(#[trigger] x@[k]) == lower(y@[k]),
        decreases x.len() - i,
    {
        if lower_char(x[i]) != lower_char(y[i]) {
            return false;
        }
        i += 1;
    }
    true
}

/// Unicode's white space.
pub open spec fn is_white_space(c: char) -> bool {
    ||| '\u{9}' <= c <= '\u{d}'
    ||| c == ' '
    ||| c == '\u{85}'
    ||| c == '\u{a0}'
    ||| c == '\u{1680}'
    ||| '\u{2000}' <= c <= '\u{200a}'
    ||| c == '\u{2028}'
    ||| c == '\u{2029}'
    ||| c == '\u{202f}'
    ||| c == '\u{205f}'
    ||| c == '\u{3000}'
}

/// Whether a character is white space.
pub fn white_space(c: char) -> (r: bool)
    ensures
        r == is_white_space(c),
{
    ('\u{9}' <= c && c <= '\u{d}') || c == ' ' || c == '\u{85}' || c == '\u{a0}' || c == '\u{1680}'
        || ('\u{2000}' <= c && c <= '\u{200a}') || c == '\u{2028}' || c == '\u{2029}' || c
        == '\u{202f}' || c == '\u{205f}' || c == '\u{3000}'
}

/// A text without the white space in front of it.
pub open spec fn trimmed_front(text: Seq<char>) -> Seq<char>
    decreases text.len(),
{
    if text.len() > 0 && is_white_space(text[0]) {
        trimmed_front(text.drop_first())
    } else {
        text
    }
}

/// A text without the white space behind it.
pub open spec fn trimmed_back(text: Seq<char>) -> Seq<char>
    decreases text.len(),
{
    if text.len() > 0 && is_white_space(text.last()) {
        trimmed_back(text.drop_last())
    } else {
        text
    }
}

/// A text without the white space around it.
pub open spec fn trimmed(text: Seq<char>) -> Seq<char> {
    trimmed_back(trimmed_front(text))
}

/// The text without the white space around it.
pub fn trim(text: &[char]) -> (out: String)
    ensures
        out@ == trimmed(text@),
{
    let mut from: usize = 0;
    assert(text@.skip(0) =~= text@);
    while from < text.len() && white_space(text[from])
        invariant
            from <= text.len(),
            trimmed_front(text@) == trimmed_front(text@.skip(from as int)),
        decreases text.len() - from,
    {
        assert(text@.skip(from as int).drop_first() =~= text@.skip(from + 1));
        from += 1;
    }
    assert(trimmed_front(text@) == text@.skip(from as int));
    let mut to: usize = text.len();
    assert(text@.subrange(from as int, to as int) =~= text@.skip(from as int));
    while from < to && white_space(text[to - 1])
        invariant
            from <= to <= text.len(),
            trimmed(text@) == trimmed_back(text@.subrange(from as int, to as int)),
        decreases to,
    {
        assert(text@.subrange(from as int, to as int).drop_last() =~= text@.subrange(
            from as int,
            to - 1,
        ));
        to -= 1;
    }
    let mut out: String = String::new();
    push_chars(&mut out, vstd::slice::slice_subrange(text, from, to));
    assert(out@ =~= text@.subrange(from as int, to as int));
    out
}

/// How many characters a word at the start of a text has.
pub open spec fn word_len(text: Seq<char>) -> nat
    decreases text.len(),
{
    if text.len() == 0 || is_white_space(text[0]) {
        0
    } else {
        1 + word_len(text.drop_first())
    }
}

/// The words of a text that `count` at most of its characters are looked at for.
pub open spec fn words_within(text: Seq<char>, count: nat) -> Seq<Seq<char>>
    decreases count,
{
    if count == 0 || text.len() == 0 {
        seq![]
    } else if is_white_space(text[0]) {
        words_within(text.drop_first(), (count - 1) as nat)
    } else {
        let n = word_len(text) as int;
        seq![text.take(n)] + words_within(text.skip(n), (count - 1) as nat)
    }
}

/// The words of a text: what stands between white space.
pub open spec fn words_of(text: Seq<char>) -> Seq<Seq<char>> {
    words_within(text, text.len())
}

proof fn lemma_word_len(text: Seq<char>)
    ensures
        word_len(text) <= text.len(),
        text.len() > 0 && !is_white_space(text[0]) ==> word_len(text) > 0,
    decreases text.len(),
{
    if text.len() > 0 && !is_white_space(text[0]) {
        lemma_word_len(text.drop_first());
    }
}

/// Looking longer than a text is long finds no more words.
proof fn lemma_words_enough(text: Seq<char>, count: nat)
    requires
        count >= text.len(),
    ensures
        words_within(text, count) == words_of(text),
    decreases count,
{
    if text.len() == 0 {
    } else if is_white_space(text[0]) {
        lemma_words_enough(text.drop_first(), (count - 1) as nat);
        lemma_words_enough(text.drop_first(), (text.len() - 1) as nat);
    } else {
        lemma_word_len(text);
        let rest = text.skip(word_len(text) as int);
        lemma_words_enough(rest, (count - 1) as nat);
        lemma_words_enough(rest, (text.len() - 1) as nat);
    }
}

/// The views of a list of texts.
pub open spec fn text_views(texts: Seq<String>) -> Seq<Seq<char>> {
    texts.map_values(|t: String| t@)
}

/// The words of a text.
pub fn split_words(text: &str) -> (words: Vec<String>)
    ensures
        text_views(words@) == words_of(text@),
{
    let chars: Vec<char> = chars_of(text);
    let mut words: Vec<String> = Vec::new();
    let mut at: usize = 0;
    proof {
        assert(text_views(words@) =~= seq![]);
        assert(chars@.skip(0) =~= text@);
    }
    while at < chars.len()
        invariant
            at <= chars.len(),
            chars@ == text@,
            words_of(text@) =~= text_views(words@) + words_of(chars@.skip(at as int)),
        decreases chars.len() - at,
    {
        let ghost rest = chars@.skip(at as int);
        if white_space(chars[at]) {
            proof {
                assert(rest.drop_first() =~= chars@.skip(at + 1));
                lemma_words_enough(rest.drop_first(), (rest.len() - 1) as nat);
            }
            at += 1;
        } else {
            let mut end: usize = at;
            while end < chars.len() && !white_space(chars[end])
                invariant
                    at <= end <= chars.len(),
                    word_len(chars@.skip(at as int)) == end - at + word_len(chars@.skip(end as int)),
                decreases chars.len() - end,
            {
                assert(chars@.skip(end as int).drop_first() =~= chars@.skip(end + 1));
                end += 1;
            }
            let mut word: String = String::new();
            push_chars(&mut word, vstd::slice::slice_subrange(chars.as_slice(), at, end));
            let ghost before = text_views(words@);
            words.push(word);
            proof {
                assert(word_len(chars@.skip(end as int)) == 0);
                let n = end - at;
                lemma_word_len(rest);
                assert(word@ =~= rest.take(n));
                assert(rest.skip(n) =~= chars@.skip(end as int));
                lemma_words_enough(rest.skip(n), (rest.len() - 1) as nat);
                assert(text_views(words@) =~= before.push(rest.take(n)));
            }
            at = end;
        }
    }
    assert(words_of(chars@.skip(at as int)) =~= seq![]);
    words
}

/// The number that digits stand for; `None` where a character is no digit.
pub open spec fn digits_value(text: Seq<char>) -> Option<nat>
    decreases text.len(),
{
    if text.len() == 0 {
        Some(0)
    } else {
        match digits_value(text.drop_last()) {
            Some(n) => if '0' <= text.last() <= '9' {
                Some((10 * n + (text.last() as nat - 48)) as nat)
            } else {
                None
            },
            None => None,
        }
    }
}

/// A text without a plus sign in front of it.
pub open spec fn without_plus(text: Seq<char>) -> Seq<char> {
    if text.len() > 0 && text[0] == '+' {
        text.drop_first()
    } else {
        text
    }
}

/// The number of at most 16 bits that a text is: digits, with or without a plus sign.
pub open spec fn number_of(text: Seq<char>) -> Option<nat> {
    let digits = without_plus(text);
    if digits.len() > 0 && digits_value(digits) is Some && digits_value(digits)->0 <= 65535 {
        digits_value(digits)
    } else {
        None
    }
}

proof fn lemma_prefix_value(text: Seq<char>, n: int)
    requires
        0 <= n <= text.len(),
    ensures
        digits_value(text.take(n)) is None ==> digits_value(text) is None,
        digits_value(text) is Some ==> digits_value(text.take(n))->0 <= digits_value(text)->0,
    decreases text.len() - n,
{
    if n < text.len() {
        lemma_prefix_value(text, n + 1);
        assert(text.take(n + 1).drop_last() =~= text.take(n));
    } else {
        assert(text.take(n) =~= text);
    }
}

/// Reads a number of at most 16 bits.
pub fn parse_u16(text: &str) -> (number: Option<u16>)
    ensures
        match number {
            Some(n) => number_of(text@) == Some(n as nat),
            None => number_of(text@) is None,
        },
{
    let chars: Vec<char> = chars_of(text);
    let start: usize = if chars.len() > 0 && chars[0] == '+' {
        1
    } else {
        0
    };
    let ghost digits = without_plus(text@);
    proof {
        assert(chars@.skip(start as int) =~= digits);
        assert(digits.take(0) =~= seq![]);
    }
    if start == chars.len() {
        return None;
    }
    let mut value: u32 = 0;
    let mut i: usize = start;
    while i < chars.len()
        invariant
            start <= i <= chars.len(),
            start < chars.len(),
            digits == without_plus(text@),
            digits == chars@.skip(start as int),
            digits_value(digits.take(i - start)) == Some(value as nat),
            value <= 65535,
        decreases chars.len() - i,
    {
        proof {
            assert(digits.take(i + 1 - start).drop_last() =~= digits.take(i - start));
            lemma_prefix_value(digits, i + 1 - start);
        }
        let c: char = chars[i];
        if !('0' <= c && c <= '9') {
            return None;
        }
        value = value * 10 + (c as u32 - 48);
        if value > 65535 {
            return None;
        }
        i += 1;
    }
    assert(digits.take(i - start) =~= digits);
    Some(value as u16)
}

/// A text holds another.
pub open spec fn holds(text: Seq<char>, part: Seq<char>) -> bool {
    exists|at: int| #[trigger] stands_at(text, part, at)
}

/// Where `part` first stands in `text` at or behind a place; `None` where it does not.
pub fn find_part(text: &[char], part: &[char], from: usize) -> (at: Option<usize>)
    requires
        from <= text@.len(),
    ensures
        match at {
            Some(a) => from <= a && stands_at(text@, part@, a as int) && forall|k: int|
                from <= k < a ==> !#[trigger] stands_at(text@, part@, k),
            None => forall|k: int| from <= k ==> !#[trigger] stands_at(text@, part@, k),
        },
{
    let mut at: usize = from;
    while at < text.len()
        invariant
            from <= at <= text.len(),
            forall|k: int| from <= k < at ==> !#[trigger] stands_at(text@, part@, k),
        decreases text.len() - at,
    {
        if is_part_at(text, part, at) {
            return Some(at);
        }
        at += 1;
    }
    if is_part_at(text, part, at) {
        return Some(at);
    }
    assert forall|k: int| from <= k implies !#[trigger] stands_at(text@, part@, k) by {
        if k > text@.len() {
        }
    }
    None
}

/// Whether a text holds another.
pub fn text_holds(text: &str, part: &str) -> (r: bool)
    ensures
        r == holds(text@, part@),
{
    let t: Vec<char> = chars_of(text);
    let p: Vec<char> = chars_of(part);
    let found: Option<usize> = find_part(t.as_slice(), p.as_slice(), 0);
    match found {
        Some(at) => {
            assert(stands_at(text@, part@, at as int));
            true
        },
        None => {
            assert forall|k: int| !#[trigger] stands_at(text@, part@, k) by {
                if k >= 0 {
                    assert(!stands_at(t@, p@, k));
                }
            }
            false
        },
    }
}

/// Appends a text.
pub fn push_text(out: &mut String, text: &str)
    ensures
        final(out)@ == old(out)@ + text@,
{
    out.append(text);
}

/// A number's digits are read back as the number, whatever its size.
pub proof fn decimal_is_read_back(n: nat)
    ensures
        decimal(n).len() > 0,
        digits_value(decimal(n)) == Some(n),
        n < 10 ==> decimal(n).len() == 1,
        n >= 10 ==> decimal(n)[0] == decimal(n / 10)[0],
    decreases n,
{
    if n < 10 {
        assert(decimal(n).drop_last() =~= Seq::<char>::empty());
        assert(digits_value(Seq::<char>::empty()) == Some(0nat));
        assert(decimal(n).last() as nat == 48 + n);
    } else {
        decimal_is_read_back(n / 10);
        assert(decimal(n).drop_last() =~= decimal(n / 10));
        assert(decimal(n).last() as nat == 48 + n % 10);
    }
}

/// A number of at most 65535 is read where the text is its digits, with or without a plus in
/// front; nothing else is a number.
pub proof fn number_is_its_digits(n: nat, text: Seq<char>)
    ensures
        n <= 65535 ==> number_of(decimal(n)) == Some(n),
        n <= 65535 ==> number_of(seq!['+'] + decimal(n)) == Some(n),
        n > 65535 ==> number_of(decimal(n)) is None,
        number_of(seq![]) is None,
        number_of(text) matches Some(v) ==> v <= 65535 && text.len() > 0,
        text.len() > 0 && !('0' <= text.last() <= '9') ==> number_of(text) is None,
{
    decimal_is_read_back(n);
    lemma_digits_begin_with_a_digit(n);
    let signed = seq!['+'] + decimal(n);
    assert(signed.drop_first() =~= decimal(n));
    if text.len() > 0 && !('0' <= text.last() <= '9') {
        let digits = without_plus(text);
        if digits.len() > 0 {
            assert(digits.last() == text.last());
        }
    }
}

proof fn lemma_digits_begin_with_a_digit(n: nat)
    ensures
        decimal(n).len() > 0,
        '0' <= decimal(n)[0] <= '9',
    decreases n,
{
    if n < 10 {
        assert(decimal(n)[0] as nat == 48 + n);
    } else {
        lemma_digits_begin_with_a_digit(n / 10);
        assert(decimal(n)[0] == decimal(n / 10)[0]);
    }
}

/// Bytes are written as two lower-case hexadecimal digits each, the high one first.
pub proof fn bytes_are_written_in_pairs(bytes: Seq<u8>, i: int)
    requires
        0 <= i < bytes.len(),
    ensures
        hex_text(bytes).len() == 2 * bytes.len(),
        hex_text(bytes)[2 * i] == hex_char(bytes[i] as nat / 16),
        hex_text(bytes)[2 * i + 1] == hex_char(bytes[i] as nat % 16),
    decreases bytes.len(),
{
    lemma_hex_len(bytes);
    lemma_hex_len(bytes.drop_last());
    if i < bytes.len() - 1 {
        bytes_are_written_in_pairs(bytes.drop_last(), i);
    }
}

proof fn lemma_hex_len(bytes: Seq<u8>)
    ensures
        hex_text(bytes).len() == 2 * bytes.len(),
    decreases bytes.len(),
{
    if bytes.len() > 0 {
        lemma_hex_len(bytes.drop_last());
    }
}

/// Hexadecimal digits are the ten digits and the first six small letters.
pub proof fn hex_digits_are_small(d: nat)
    requires
        d < 16,
    ensures
        d < 10 ==> hex_char(d) as nat == '0' as nat + d,
        d >= 10 ==> hex_char(d) as nat == 'a' as nat + d - 10,
        d < 10 ==> digit_char(d) as nat == '0' as nat + d,
{
}

/// A text stands in another where the other is made of something, the text, and something more.
pub proof fn part_stands_between(front: Seq<char>, part: Seq<char>, back: Seq<char>)
    ensures
        stands_at(front + part + back, part, front.len() as int),
        holds(front + part + back, part),
        starts_with(part + back, part),
        starts_with(back, part) ==> back == part + back.skip(part.len() as int),
        back.len() < part.len() ==> !starts_with(back, part) && !holds(back, part),
{
    let text = front + part + back;
    let at = front.len() as int;
    assert(text.subrange(at, at + part.len()) =~= part);
    assert((part + back).subrange(0, part.len() as int) =~= part);
    if starts_with(back, part) {
        assert(back =~= part + back.skip(part.len() as int));
    }
}

/// Only the 26 capital letters have another form, which is their small one.
pub proof fn case_is_that_of_ascii_letters(c: char)
    ensures
        'A' <= c <= 'Z' ==> lower(c) as int == c as int + 32,
        !('A' <= c <= 'Z') ==> lower(c) == c,
        lower(lower(c)) == lower(c),
{
}

/// Texts that differ in case alone are the same but for case, and of one length.
pub proof fn texts_are_compared_letter_by_letter(a: Seq<char>, b: Seq<char>)
    ensures
        same_but_for_case(a, a),
        same_but_for_case(a, b) ==> a.len() == b.len(),
        same_but_for_case(a, b) <==> same_but_for_case(b, a),
        same_but_for_case(a, b) <==> a.map_values(|c: char| lower(c)) == b.map_values(
            |c: char| lower(c),
        ),
{
    let x = a.map_values(|c: char| lower(c));
    let y = b.map_values(|c: char| lower(c));
    if same_but_for_case(a, b) {
        assert(x =~= y);
    }
    if x == y {
        assert(a.len() == x.len() && b.len() == y.len());
        assert forall|i: int| 0 <= i < a.len() implies lower(#[trigger] a[i]) == lower(b[i]) by {
            assert(x[i] == lower(a[i]) && y[i] == lower(b[i]));
        }
    }
}

/// Space, tab and line ends are white space; letters, digits and signs are not.
pub proof fn white_space_is_what_separates_words(c: char)
    ensures
        is_white_space(' ') && is_white_space('\u{9}') && is_white_space('\u{a}')
            && is_white_space('\u{d}'),
        '!' <= c <= '~' ==> !is_white_space(c),
{
}

/// Trimming takes off white space at both ends and nothing else: what is left neither begins nor
/// ends with any, and stands in the text between nothing but white space.
pub proof fn trimming_takes_off_white_space_alone(text: Seq<char>) -> (ends: (int, int))
    ensures
        0 <= ends.0 <= ends.1 <= text.len(),
        trimmed(text) == text.subrange(ends.0, ends.1),
        forall|i: int| 0 <= i < ends.0 ==> is_white_space(#[trigger] text[i]),
        forall|i: int| ends.1 <= i < text.len() ==> is_white_space(#[trigger] text[i]),
        trimmed(text).len() > 0 ==> !is_white_space(trimmed(text)[0]) && !is_white_space(
            trimmed(text).last(),
        ),
{
    let a = lemma_front_is_white(text);
    let rest = text.skip(a);
    let n = lemma_back_is_white(rest);
    assert(rest.take(n) =~= text.subrange(a, a + n));
    assert forall|i: int| a + n <= i < text.len() implies is_white_space(#[trigger] text[i]) by {
        assert(rest[i - a] == text[i]);
    }
    if n > 0 {
        assert(rest.take(n)[0] == rest[0]);
    }
    (a, a + n)
}

proof fn lemma_front_is_white(text: Seq<char>) -> (a: int)
    ensures
        0 <= a <= text.len(),
        trimmed_front(text) == text.skip(a),
        forall|i: int| 0 <= i < a ==> is_white_space(#[trigger] text[i]),
        a < text.len() ==> !is_white_space(text.skip(a)[0]),
    decreases text.len(),
{
    if text.len() > 0 && is_white_space(text[0]) {
        let rest = text.drop_first();
        let a = lemma_front_is_white(rest);
        assert(rest.skip(a) =~= text.skip(a + 1));
        assert forall|i: int| 0 <= i < a + 1 implies is_white_space(#[trigger] text[i]) by {
            if i > 0 {
                assert(rest[i - 1] == text[i]);
            }
        }
        a + 1
    } else {
        assert(text.skip(0) =~= text);
        0
    }
}

proof fn lemma_back_is_white(text: Seq<char>) -> (n: int)
    ensures
        0 <= n <= text.len(),
        trimmed_back(text) == text.take(n),
        forall|i: int| n <= i < text.len() ==> is_white_space(#[trigger] text[i]),
        n > 0 ==> !is_white_space(text.take(n).last()),
    decreases text.len(),
{
    if text.len() > 0 && is_white_space(text.last()) {
        let rest = text.drop_last();
        let n = lemma_back_is_white(rest);
        assert(rest.take(n) =~= text.take(n));
        assert forall|i: int| n <= i < text.len() implies is_white_space(#[trigger] text[i]) by {
            if i < rest.len() {
                assert(rest[i] == text[i]);
            }
        }
        n
    } else {
        assert(text.take(text.len() as int) =~= text);
        text.len() as int
    }
}

/// White space in front of a text changes none of its words.
pub proof fn leading_white_space_separates_nothing(c: char, text: Seq<char>)
    requires
        is_white_space(c),
    ensures
        words_of(seq![c] + text) == words_of(text),
        words_of(seq![]).len() == 0,
{
    assert((seq![c] + text).drop_first() =~= text);
    assert(words_within(seq![c] + text, text.len() + 1) == words_within(text, text.len()));
}

/// A text that begins with a word and goes on with white space has that word first.
pub proof fn first_word_ends_at_white_space(word: Seq<char>, c: char, rest: Seq<char>)
    requires
        word.len() > 0,
        forall|i: int| 0 <= i < word.len() ==> !is_white_space(#[trigger] word[i]),
        is_white_space(c),
    ensures
        words_of(word + seq![c] + rest).len() > 0,
        words_of(word + seq![c] + rest)[0] == word,
        words_of(word) == seq![word],
{
    let text = word + seq![c] + rest;
    lemma_word_reaches(word, seq![c] + rest);
    assert(text =~= word + (seq![c] + rest));
    assert(text.take(word.len() as int) =~= word);
    lemma_word_reaches(word, seq![]);
    assert(word + seq![] =~= word);
    assert(word.take(word.len() as int) =~= word);
    assert(word.skip(word.len() as int) =~= seq![]);
    assert(words_within(Seq::<char>::empty(), (word.len() - 1) as nat) =~= seq![]);
    assert(words_of(word) =~= seq![word]);
}

proof fn lemma_word_reaches(word: Seq<char>, rest: Seq<char>)
    requires
        forall|i: int| 0 <= i < word.len() ==> !is_white_space(#[trigger] word[i]),
        rest.len() == 0 || is_white_space(rest[0]),
    ensures
        word_len(word + rest) == word.len(),
    decreases word.len(),
{
    let text = word + rest;
    if word.len() > 0 {
        assert(text[0] == word[0]);
        assert(text.drop_first() =~= word.drop_first() + rest);
        assert forall|i: int| 0 <= i < word.len() - 1 implies !is_white_space(
            #[trigger] word.drop_first()[i],
        ) by {
            assert(word.drop_first()[i] == word[i + 1]);
        }
        lemma_word_reaches(word.drop_first(), rest);
    } else {
        assert(text =~= rest);
    }
}

/// Runs of bytes are ordered by the first byte in which they differ, and a run before any that
/// goes on from it; of two different runs one comes first.
pub proof fn runs_are_ordered_by_their_first_difference(
    front: Seq<u8>,
    a: u8,
    b: u8,
    x: Seq<u8>,
    y: Seq<u8>,
)
    ensures
        a < b ==> bytes_less(front + seq![a] + x, front + seq![b] + y),
        bytes_less(front, front + seq![a] + x),
        !bytes_less(front, front),
    decreases front.len(),
{
    let p = front + seq![a] + x;
    let q = front + seq![b] + y;
    if front.len() > 0 {
        let rest = front.drop_first();
        runs_are_ordered_by_their_first_difference(rest, a, b, x, y);
        assert(p.drop_first() =~= rest + seq![a] + x);
        assert(q.drop_first() =~= rest + seq![b] + y);
        assert(p[0] == front[0] && q[0] == front[0]);
    } else {
        assert(p[0] == a && q[0] == b);
    }
}

/// The words of a text that goes on after a word and white space are that word and the words of
/// the rest.
pub proof fn words_follow_each_other(word: Seq<char>, c: char, rest: Seq<char>)
    requires
        word.len() > 0,
        forall|i: int| 0 <= i < word.len() ==> !is_white_space(#[trigger] word[i]),
        is_white_space(c),
    ensures
        words_of(word + seq![c] + rest) == seq![word] + words_of(rest),
{
    let text = word + seq![c] + rest;
    lemma_word_reaches(word, seq![c] + rest);
    assert(text =~= word + (seq![c] + rest));
    assert(text.take(word.len() as int) =~= word);
    assert(text.skip(word.len() as int) =~= seq![c] + rest);
    lemma_words_enough(seq![c] + rest, (text.len() - 1) as nat);
    leading_white_space_separates_nothing(c, rest);
}

} // verus!
