//! Text as a sequence of characters: the few operations that reading an
//! interchange is made of, each with its meaning as a spec function.
//!
//! What is taken from `std` without proof stands at the end of the file.

use vstd::prelude::*;
use vstd::string::*;
use vstd::utf8::{decode_utf8, valid_utf8};

verus! {

/// The characters with Unicode's `White_Space` property.
pub open spec fn white_space(c: char) -> bool {
    let p = c as u32;
    ||| 0x9 <= p <= 0xd
    ||| p == 0x20
    ||| p == 0x85
    ||| p == 0xa0
    ||| p == 0x1680
    ||| 0x2000 <= p <= 0x200a
    ||| p == 0x2028
    ||| p == 0x2029
    ||| p == 0x202f
    ||| p == 0x205f
    ||| p == 0x3000
}

/// The ASCII digits and letters.
pub open spec fn ascii_alphanumeric(c: char) -> bool {
    ||| '0' <= c <= '9'
    ||| 'A' <= c <= 'Z'
    ||| 'a' <= c <= 'z'
}

/// The characters that count as digits or letters.
pub open spec fn alphanumeric(c: char) -> bool {
    if (c as u32) < 0x80 {
        ascii_alphanumeric(c)
    } else {
        unicode_alphanumeric(c)
    }
}

/// What may stand between a segment terminator and the next segment.
pub open spec fn line_break(c: char) -> bool {
    c == '\r' || c == '\n' || c == ' '
}

/// An ASCII digit.
pub open spec fn digit(c: char) -> bool {
    '0' <= c <= '9'
}

/// `s` without its leading white space.
pub open spec fn trim_start(s: Seq<char>) -> Seq<char>
    decreases s.len(),
{
    if s.len() > 0 && white_space(s[0]) {
        trim_start(s.skip(1))
    } else {
        s
    }
}

/// `s` without its trailing white space.
pub open spec fn trim_end(s: Seq<char>) -> Seq<char>
    decreases s.len(),
{
    if s.len() > 0 && white_space(s.last()) {
        trim_end(s.drop_last())
    } else {
        s
    }
}

/// `s` without its trailing white space, as far back as the last `kept`.
pub open spec fn trim_end_but(s: Seq<char>, kept: char) -> Seq<char>
    decreases s.len(),
{
    if s.len() > 0 && white_space(s.last()) && s.last() != kept {
        trim_end_but(s.drop_last(), kept)
    } else {
        s
    }
}

/// `s` without white space at either end.
pub open spec fn trim(s: Seq<char>) -> Seq<char> {
    trim_end(trim_start(s))
}

/// `s` without its leading line breaks and blanks.
pub open spec fn trim_breaks(s: Seq<char>) -> Seq<char>
    decreases s.len(),
{
    if s.len() > 0 && line_break(s[0]) {
        trim_breaks(s.skip(1))
    } else {
        s
    }
}

/// The pieces of `s` between the occurrences of `separator`: one more than
/// there are occurrences, so never none.
pub open spec fn split(s: Seq<char>, separator: char) -> Seq<Seq<char>>
    decreases s.len(),
{
    if s.len() == 0 {
        seq![Seq::empty()]
    } else {
        let before = split(s.drop_last(), separator);
        if s.last() == separator {
            before.push(Seq::empty())
        } else {
            before.drop_last().push(before.last().push(s.last()))
        }
    }
}

/// `c`, a lower case ASCII letter in upper case.
pub open spec fn upper_char(c: char) -> char {
    if 'a' <= c <= 'z' {
        (c as u32 - 32) as char
    } else {
        c
    }
}

/// `s` with every lower case ASCII letter in upper case.
pub open spec fn upper(s: Seq<char>) -> Seq<char> {
    Seq::new(s.len(), |i: int| upper_char(s[i]))
}

/// `n` in decimal, without leading zeros.
pub open spec fn decimal(n: nat) -> Seq<char>
    decreases n,
{
    let last = ('0' as u32 + n % 10) as char;
    if n < 10 {
        seq![last]
    } else {
        decimal(n / 10).push(last)
    }
}

/// The number that the decimal digits `s` write.
pub open spec fn value(s: Seq<char>) -> nat
    decreases s.len(),
{
    if s.len() == 0 {
        0
    } else {
        (value(s.drop_last()) * 10 + (s.last() as u32 - '0' as u32)) as nat
    }
}

/// `s` without a leading plus sign.
pub open spec fn unsigned(s: Seq<char>) -> Seq<char> {
    if s.len() > 0 && s[0] == '+' {
        s.skip(1)
    } else {
        s
    }
}

/// The count that `s` writes: decimal digits, at least one, a plus sign before
/// them or not, for a number that fits in a `usize`.
pub open spec fn count(s: Seq<char>) -> Option<nat> {
    let digits = unsigned(s);
    if digits.len() > 0 && (forall|i: int| 0 <= i < digits.len() ==> digit(#[trigger] digits[i]))
        && value(digits) <= usize::MAX {
        Some(value(digits))
    } else {
        None
    }
}

/// The texts of a sequence of strings.
pub open spec fn texts(strings: Seq<String>) -> Seq<Seq<char>> {
    Seq::new(strings.len(), |i: int| strings[i]@)
}

/// The characters of `text`.
pub fn chars_of(text: &str) -> (r: Vec<char>)
    ensures
        r@ == text@,
{
    let mut r: Vec<char> = Vec::new();
    for c in it: text.chars()
        invariant
            r@ == it.seq().take(it.index()),
            it.seq() == text@,
    {
        r.push(c);
    }
    r
}

/// Whether two texts are the same.
pub fn same(a: &str, b: &str) -> (r: bool)
    ensures
        r == (a@ == b@),
{
    let x = chars_of(a);
    let y = chars_of(b);
    if x.len() != y.len() {
        return false;
    }
    for i in 0..x.len()
        invariant
            x@ == a@,
            y@ == b@,
            x.len() == y.len(),
            forall|j: int| 0 <= j < i ==> x@[j] == y@[j],
    {
        if x[i] != y[i] {
            return false;
        }
    }
    assert(x@ =~= y@);
    true
}

/// Whether `text` begins with `prefix`.
pub fn starts_with(text: &str, prefix: &str) -> (r: bool)
    ensures
        r == prefix@.is_prefix_of(text@),
{
    let x = chars_of(text);
    let y = chars_of(prefix);
    if x.len() < y.len() {
        return false;
    }
    for i in 0..y.len()
        invariant
            x@ == text@,
            y@ == prefix@,
            y.len() <= x.len(),
            forall|j: int| 0 <= j < i ==> x@[j] == y@[j],
    {
        if x[i] != y[i] {
            assert(text@.take(y@.len() as int)[i as int] != prefix@[i as int]);
            return false;
        }
    }
    assert(x@.take(y@.len() as int) =~= y@);
    true
}

/// `text` without its leading white space.
pub fn trimmed_start(text: &str) -> (r: &str)
    ensures
        r@ == trim_start(text@),
{
    let chars = chars_of(text);
    let mut from: usize = 0;
    assert(text@.skip(0) =~= text@);
    while from < chars.len() && chars[from].is_whitespace()
        invariant
            chars@ == text@,
            from <= chars.len(),
            trim_start(text@.skip(from as int)) == trim_start(text@),
        decreases chars.len() - from,
    {
        assert(text@.skip(from as int).skip(1) =~= text@.skip(from + 1));
        from += 1;
    }
    assert(text@.skip(from as int) =~= text@.subrange(from as int, chars.len() as int));
    text.substring_char(from, chars.len())
}

/// `text` without its trailing white space.
pub fn trimmed_end(text: &str) -> (r: &str)
    ensures
        r@ == trim_end(text@),
{
    let chars = chars_of(text);
    let mut to: usize = chars.len();
    assert(text@.take(to as int) =~= text@);
    while to > 0 && chars[to - 1].is_whitespace()
        invariant
            chars@ == text@,
            to <= chars.len(),
            trim_end(text@.take(to as int)) == trim_end(text@),
        decreases to,
    {
        assert(text@.take(to as int).drop_last() =~= text@.take(to - 1));
        to -= 1;
    }
    text.substring_char(0, to)
}

/// `text` without its trailing white space, as far back as the last `kept`.
pub fn trimmed_end_but(text: &str, kept: char) -> (r: &str)
    ensures
        r@ == trim_end_but(text@, kept),
{
    let chars = chars_of(text);
    let mut to: usize = chars.len();
    assert(text@.take(to as int) =~= text@);
    while to > 0 && chars[to - 1] != kept && chars[to - 1].is_whitespace()
        invariant
            chars@ == text@,
            to <= chars.len(),
            trim_end_but(text@.take(to as int), kept) == trim_end_but(text@, kept),
        decreases to,
    {
        assert(text@.take(to as int).drop_last() =~= text@.take(to - 1));
        to -= 1;
    }
    text.substring_char(0, to)
}

/// `text` without white space at either end.
pub fn trimmed(text: &str) -> (r: &str)
    ensures
        r@ == trim(text@),
{
    trimmed_end(trimmed_start(text))
}

/// `text` without its leading line breaks and blanks.
pub fn without_breaks(text: &str) -> (r: &str)
    ensures
        r@ == trim_breaks(text@),
{
    let chars = chars_of(text);
    let mut from: usize = 0;
    assert(text@.skip(0) =~= text@);
    while from < chars.len() && (chars[from] == '\r' || chars[from] == '\n' || chars[from] == ' ')
        invariant
            chars@ == text@,
            from <= chars.len(),
            trim_breaks(text@.skip(from as int)) == trim_breaks(text@),
        decreases chars.len() - from,
    {
        assert(text@.skip(from as int).skip(1) =~= text@.skip(from + 1));
        from += 1;
    }
    assert(text@.skip(from as int) =~= text@.subrange(from as int, chars.len() as int));
    text.substring_char(from, chars.len())
}

/// The pieces of `text` between the occurrences of `separator`.
pub fn pieces(text: &str, separator: char) -> (r: Vec<String>)
    ensures
        texts(r@) == split(text@, separator),
        r.len() > 0,
{
    let chars = chars_of(text);
    let mut r: Vec<String> = Vec::new();
    let mut piece = String::new();
    assert(texts(r@).push(piece@) =~= split(text@.take(0), separator));
    for i in 0..chars.len()
        invariant
            chars@ == text@,
            texts(r@).push(piece@) == split(text@.take(i as int), separator),
    {
        let ghost before = text@.take(i as int);
        let ghost done = texts(r@);
        assert(text@.take(i + 1) =~= before.push(text@[i as int]));
        assert(before.push(text@[i as int]).drop_last() =~= before);
        assert(done.push(piece@).drop_last() =~= done);
        if chars[i] == separator {
            r.push(piece);
            piece = String::new();
            assert(texts(r@) =~= done.push(r@.last()@));
        } else {
            piece.push(chars[i]);
        }
    }
    assert(text@.take(chars.len() as int) =~= text@);
    let ghost done = texts(r@);
    r.push(piece);
    assert(texts(r@) =~= done.push(r@.last()@));
    r
}

/// `text` with every lower case ASCII letter in upper case.
pub fn uppercase(text: &str) -> (r: String)
    ensures
        r@ == upper(text@),
{
    let chars = chars_of(text);
    let mut r = String::new();
    for i in 0..chars.len()
        invariant
            chars@ == text@,
            r@ == upper(text@).take(i as int),
    {
        let c = chars[i];
        if 'a' <= c && c <= 'z' {
            r.push((c as u8 - 32) as char);
        } else {
            r.push(c);
        }
        assert(upper(text@).take(i + 1) =~= upper(text@).take(i as int).push(upper_char(c)));
    }
    assert(upper(text@).take(chars.len() as int) =~= upper(text@));
    r
}

/// `n` in decimal.
pub fn decimal_text(n: usize) -> (r: String)
    ensures
        r@ == decimal(n as nat),
    decreases n,
{
    let mut r = if n < 10 {
        String::new()
    } else {
        decimal_text(n / 10)
    };
    r.push(('0' as u8 + (n % 10) as u8) as char);
    r
}

/// More digits write no smaller a number.
proof fn lemma_value_grows(s: Seq<char>, n: int)
    requires
        0 <= n <= s.len(),
        forall|i: int| 0 <= i < s.len() ==> digit(#[trigger] s[i]),
    ensures
        value(s.take(n)) <= value(s),
    decreases s.len(),
{
    if n == s.len() {
        assert(s.take(n) =~= s);
    } else {
        let init = s.drop_last();
        assert forall|i: int| 0 <= i < init.len() implies digit(#[trigger] init[i]) by {
            assert(init[i] == s[i]);
        }
        lemma_value_grows(init, n);
        assert(init.take(n) =~= s.take(n));
        assert(digit(s[s.len() - 1]));
    }
}

/// The count that `text` writes, if it writes one.
pub fn read_count(text: &str) -> (r: Option<usize>)
    ensures
        match r {
            Some(n) => count(text@) == Some(n as nat),
            None => count(text@) is None,
        },
{
    let chars = chars_of(text);
    let first: usize = if chars.len() > 0 && chars[0] == '+' {
        1
    } else {
        0
    };
    let ghost digits = unsigned(text@);
    assert(digits =~= text@.skip(first as int));
    if first == chars.len() {
        return None;
    }
    let mut n: usize = 0;
    let mut i: usize = first;
    while i < chars.len()
        invariant
            chars@ == text@,
            first <= i <= chars.len(),
            digits == text@.skip(first as int),
            digits == unsigned(text@),
            forall|j: int| 0 <= j < i - first ==> digit(#[trigger] digits[j]),
            n == value(digits.take(i - first)),
        decreases chars.len() - i,
    {
        let c = chars[i];
        let ghost here = digits.take(i - first);
        let ghost next = digits.take(i - first + 1);
        assert(next.drop_last() =~= here);
        assert(next.last() == c && digits[i - first] == c);
        if c < '0' || '9' < c {
            assert(!digit(digits[i - first]));
            return None;
        }
        let ghost all_digits = forall|j: int| 0 <= j < digits.len() ==> digit(#[trigger] digits[j]);
        proof {
            if all_digits {
                lemma_value_grows(digits, i - first + 1);
            }
        }
        let d: usize = (c as u8 - '0' as u8) as usize;
        match n.checked_mul(10) {
            None => {
                return None;
            },
            Some(tens) => match tens.checked_add(d) {
                None => {
                    return None;
                },
                Some(sum) => {
                    n = sum;
                },
            },
        }
        i += 1;
    }
    assert(digits.take(digits.len() as int) =~= digits);
    Some(n)
}

/// What `char::is_alphanumeric` answers beyond ASCII: the Unicode tables it
/// looks up are too long to list.
pub uninterp spec fn unicode_alphanumeric(c: char) -> bool;

/// `s` as `std` shows it for debugging: in double quotes, with escapes.
pub uninterp spec fn quoted(s: Seq<char>) -> Seq<char>;

/// How `std` words the fault of bytes that are not UTF-8.
pub uninterp spec fn utf8_fault(bytes: Seq<u8>) -> Seq<char>;

/// `char::is_whitespace` answers whether the character has the `White_Space`
/// property.
pub assume_specification[ char::is_whitespace ](c: char) -> (r: bool)
    ensures
        r == white_space(c),
;

/// `char::is_alphanumeric` picks, of the ASCII characters, the digits and the
/// letters. Beyond ASCII its answer depends on the character alone.
pub assume_specification[ char::is_alphanumeric ](c: char) -> (r: bool)
    ensures
        (c as u32) < 0x80 ==> r == ascii_alphanumeric(c),
        (c as u32) >= 0x80 ==> r == unicode_alphanumeric(c),
;

/// `String::push` appends the character.
pub assume_specification[ String::push ](s: &mut String, c: char)
    ensures
        final(s)@ == old(s)@.push(c),
;

/// The `Debug` form of a `str`: it depends on the text alone.
#[verifier::external_body]
pub(crate) fn quote(text: &str) -> (r: String)
    ensures
        r@ == quoted(text@),
{
    format!("{text:?}")
}

/// `std::str::from_utf8` gives the text exactly when the bytes are UTF-8; the
/// wording of its error depends on the bytes alone.
#[verifier::external_body]
pub(crate) fn decode(bytes: &[u8]) -> (r: Result<&str, String>)
    ensures
        r is Ok <==> valid_utf8(bytes@),
        r matches Ok(text) ==> text@ == decode_utf8(bytes@),
        r matches Err(fault) ==> fault@ == utf8_fault(bytes@),
{
    match std::str::from_utf8(bytes) {
        Ok(text) => Ok(text),
        Err(error) => Err(error.to_string()),
    }
}

}
