//! Words: what trimming, splitting, upper casing and counting give, said of
//! the characters themselves.

use vstd::prelude::*;

use crate::laws::reading;
use crate::text;

verus! {

/// White space is these characters and no others.
pub proof fn law_white_space_is_listed(c: char)
    ensures
        text::white_space(c) <==> seq![
            0x9u32,
            0xa,
            0xb,
            0xc,
            0xd,
            0x20,
            0x85,
            0xa0,
            0x1680,
            0x2000,
            0x2001,
            0x2002,
            0x2003,
            0x2004,
            0x2005,
            0x2006,
            0x2007,
            0x2008,
            0x2009,
            0x200a,
            0x2028,
            0x2029,
            0x202f,
            0x205f,
            0x3000,
        ].contains(c as u32),
{
    let p = c as u32;
    let listed = seq![
        0x9u32,
        0xa,
        0xb,
        0xc,
        0xd,
        0x20,
        0x85,
        0xa0,
        0x1680,
        0x2000,
        0x2001,
        0x2002,
        0x2003,
        0x2004,
        0x2005,
        0x2006,
        0x2007,
        0x2008,
        0x2009,
        0x200a,
        0x2028,
        0x2029,
        0x202f,
        0x205f,
        0x3000,
    ];
    if text::white_space(c) {
        let i: int = if p <= 0xd {
            p - 0x9
        } else if p == 0x20 {
            5
        } else if p == 0x85 {
            6
        } else if p == 0xa0 {
            7
        } else if p == 0x1680 {
            8
        } else if p <= 0x200a {
            9 + (p - 0x2000)
        } else if p == 0x2028 {
            20
        } else if p == 0x2029 {
            21
        } else if p == 0x202f {
            22
        } else if p == 0x205f {
            23
        } else {
            24
        };
        assert(listed[i] == p);
    }
}

/// Of the ASCII characters the digits and the letters are alphanumeric, and no
/// others; of the others those that `std` says are.
pub proof fn law_alphanumeric(c: char)
    ensures
        (c as u32) < 128 ==> (text::alphanumeric(c) <==> '0' <= c <= '9' || 'A' <= c <= 'Z' || 'a'
            <= c <= 'z'),
        (c as u32) >= 128 ==> (text::alphanumeric(c) <==> text::unicode_alphanumeric(c)),
{
}

/// White space only.
pub open spec fn blank(s: Seq<char>) -> bool {
    forall|i: int| 0 <= i < s.len() ==> text::white_space(#[trigger] s[i])
}

/// Trimming the start takes off the white space before a text, and only that.
pub proof fn law_trim_start(before: Seq<char>, kept: Seq<char>)
    requires
        blank(before),
        kept.len() > 0 ==> !text::white_space(kept[0]),
    ensures
        text::trim_start(before + kept) == kept,
    decreases before.len(),
{
    let s = before + kept;
    if before.len() == 0 {
        assert(s =~= kept);
    } else {
        let rest = before.skip(1);
        assert forall|i: int| 0 <= i < rest.len() implies text::white_space(
            #[trigger] rest[i],
        ) by {
            assert(rest[i] == before[i + 1]);
        }
        law_trim_start(rest, kept);
        assert(s[0] == before[0]);
        assert(s.skip(1) =~= rest + kept);
    }
}

/// Trimming the end takes off the white space after a text, and only that.
proof fn lemma_trim_end_of(kept: Seq<char>, after: Seq<char>)
    requires
        blank(after),
        kept.len() > 0 ==> !text::white_space(kept.last()),
    ensures
        text::trim_end(kept + after) == kept,
    decreases after.len(),
{
    let s = kept + after;
    if after.len() == 0 {
        assert(s =~= kept);
    } else {
        let init = after.drop_last();
        assert forall|i: int| 0 <= i < init.len() implies text::white_space(
            #[trigger] init[i],
        ) by {
            assert(init[i] == after[i]);
        }
        lemma_trim_end_of(kept, init);
        assert(text::white_space(after[after.len() - 1]));
        assert(s.last() == after.last());
        assert(s.drop_last() =~= kept + init);
    }
}

/// Trimming takes off the white space around a text, and only that.
pub proof fn law_trim(before: Seq<char>, kept: Seq<char>, after: Seq<char>)
    requires
        blank(before),
        blank(after),
        kept.len() > 0 ==> !text::white_space(kept[0]) && !text::white_space(kept.last()),
    ensures
        text::trim(before + kept + after) == kept,
{
    let empty = Seq::<char>::empty();
    if kept.len() == 0 {
        let all = before + kept + after;
        assert forall|i: int| 0 <= i < all.len() implies text::white_space(#[trigger] all[i]) by {
            if i < before.len() {
                assert(all[i] == before[i]);
            } else {
                assert(all[i] == after[i - before.len()]);
            }
        }
        law_trim_start(all, empty);
        assert(all + empty =~= all);
        assert(kept =~= empty);
    } else {
        assert((kept + after)[0] == kept[0]);
        law_trim_start(before, kept + after);
        assert(before + kept + after =~= before + (kept + after));
        lemma_trim_end_of(kept, after);
    }
}

/// Trimming the start leaves what begins before a character that is no white
/// space.
proof fn lemma_trim_start_keeps(s: Seq<char>, i: int)
    requires
        0 <= i < s.len(),
        !text::white_space(s[i]),
    ensures
        ({
            let left = text::trim_start(s);
            let cut = s.len() - left.len();
            0 <= cut <= i && left == s.skip(cut)
        }),
    decreases s.len(),
{
    if text::white_space(s[0]) {
        let rest = s.skip(1);
        assert(rest[i - 1] == s[i]);
        lemma_trim_start_keeps(rest, i - 1);
        let cut = rest.len() - text::trim_start(rest).len();
        assert(rest.skip(cut) =~= s.skip(cut + 1));
    } else {
        assert(s.skip(0) =~= s);
    }
}

/// Trimming the end leaves a character that is no white space.
proof fn lemma_trim_end_keeps(s: Seq<char>, i: int)
    requires
        0 <= i < s.len(),
        !text::white_space(s[i]),
    ensures
        text::trim_end(s).len() > i,
    decreases s.len(),
{
    if text::white_space(s.last()) {
        lemma_trim_end_keeps(s.drop_last(), i);
    }
}

/// A text with a character that is no white space is not trimmed away.
pub proof fn lemma_trim_keeps(s: Seq<char>, i: int)
    requires
        0 <= i < s.len(),
        !text::white_space(s[i]),
    ensures
        text::trim(s).len() > 0,
{
    lemma_trim_start_keeps(s, i);
    let left = text::trim_start(s);
    let cut = s.len() - left.len();
    assert(left[i - cut] == s[i]);
    lemma_trim_end_keeps(left, i - cut);
}

/// Trimming breaks takes off the carriage returns, line feeds and blanks
/// before a text, and only those.
pub proof fn law_trim_breaks(before: Seq<char>, kept: Seq<char>)
    requires
        reading::line_breaks(before),
        kept.len() > 0 ==> kept[0] != '\r' && kept[0] != '\n' && kept[0] != ' ',
    ensures
        text::trim_breaks(before + kept) == kept,
    decreases before.len(),
{
    let s = before + kept;
    if before.len() == 0 {
        assert(s =~= kept);
    } else {
        let rest = before.skip(1);
        assert forall|i: int| 0 <= i < rest.len() implies #[trigger] rest[i] == '\r' || rest[i]
            == '\n' || rest[i] == ' ' by {
            assert(rest[i] == before[i + 1]);
        }
        law_trim_breaks(rest, kept);
        assert(s[0] == before[0]);
        assert(s.skip(1) =~= rest + kept);
    }
}

/// Trimming the end back to a character takes off the white space after the
/// last such character, and only that.
pub proof fn law_trim_end_but(kept: Seq<char>, after: Seq<char>, c: char)
    requires
        blank(after),
        !after.contains(c),
        kept.len() > 0 ==> !text::white_space(kept.last()) || kept.last() == c,
    ensures
        text::trim_end_but(kept + after, c) == kept,
    decreases after.len(),
{
    let s = kept + after;
    if after.len() == 0 {
        assert(s =~= kept);
    } else {
        let init = after.drop_last();
        assert forall|i: int| 0 <= i < init.len() implies text::white_space(
            #[trigger] init[i],
        ) by {
            assert(init[i] == after[i]);
        }
        assert(!init.contains(c)) by {
            if init.contains(c) {
                let i = choose|i: int| 0 <= i < init.len() && init[i] == c;
                assert(after[i] == c);
            }
        }
        law_trim_end_but(kept, init, c);
        assert(text::white_space(after[after.len() - 1]));
        assert(after.contains(after[after.len() - 1]));
        assert(s.last() == after.last());
        assert(s.drop_last() =~= kept + init);
    }
}

/// A text without the separator is one piece.
pub proof fn law_split_without_separator(s: Seq<char>, separator: char)
    requires
        !s.contains(separator),
    ensures
        text::split(s, separator) == seq![s],
{
    assert forall|i: int| 0 <= i < s.len() implies s[i] != separator by {
        assert(s.contains(s[i]));
    }
    reading::lemma_no_separator(s, separator);
}

/// At a separator the pieces of what stands before it end, and those of what
/// stands after it begin.
pub proof fn law_split_at_separator(a: Seq<char>, b: Seq<char>, separator: char)
    ensures
        text::split(a + seq![separator] + b, separator) == text::split(a, separator) + text::split(
            b,
            separator,
        ),
    decreases b.len(),
{
    let s = a + seq![separator] + b;
    let left = text::split(a, separator);
    let right = text::split(b, separator);
    if b.len() == 0 {
        assert(s.drop_last() =~= a);
        assert(text::split(s, separator) =~= left + right);
    } else {
        let init = b.drop_last();
        law_split_at_separator(a, init, separator);
        reading::lemma_split_is_not_empty(init, separator);
        assert(s.drop_last() =~= a + seq![separator] + init);
        assert(s.last() == b.last());
        let before = text::split(init, separator);
        assert((left + before).last() == before.last());
        assert((left + before).drop_last() =~= left + before.drop_last());
        assert(text::split(s, separator) =~= left + right);
    }
}

/// `u` is `s` with each lower case ASCII letter as the letter 32 before it,
/// and nothing else changed.
pub open spec fn in_upper_case(s: Seq<char>, u: Seq<char>) -> bool {
    &&& u.len() == s.len()
    &&& forall|i: int|
        0 <= i < s.len() ==> if 'a' <= #[trigger] s[i] <= 'z' {
            u[i] as u32 == s[i] as u32 - 32
        } else {
            u[i] == s[i]
        }
}

/// Characters with the same code are the same.
proof fn lemma_code(a: char, b: char)
    requires
        a as u32 == b as u32,
    ensures
        a == b,
{
}

/// Upper casing changes the lower case ASCII letters and nothing else.
pub proof fn law_upper(s: Seq<char>, u: Seq<char>)
    ensures
        text::upper(s) == u <==> in_upper_case(s, u),
{
    if in_upper_case(s, u) {
        assert forall|i: int| 0 <= i < s.len() implies text::upper(s)[i] == u[i] by {
            if 'a' <= s[i] <= 'z' {
                assert(u[i] as u32 == s[i] as u32 - 32);
                lemma_code(u[i], text::upper(s)[i]);
            }
        }
        assert(text::upper(s) =~= u);
    }
}

/// The digit for a number below ten.
pub open spec fn figure(d: nat) -> char {
    "0123456789"@[d as int]
}

/// The figures are the characters from `0` on.
pub proof fn lemma_figure(d: nat)
    requires
        d < 10,
    ensures
        figure(d) as u32 == '0' as u32 + d,
        '0' <= figure(d) <= '9',
{
    reveal_strlit("0123456789");
    let all = "0123456789"@;
    assert(all[0] == '0' && all[1] == '1' && all[2] == '2' && all[3] == '3' && all[4] == '4');
    assert(all[5] == '5' && all[6] == '6' && all[7] == '7' && all[8] == '8' && all[9] == '9');
}

/// A number below ten is written as its figure; ten times a number and some
/// more is written as the number with one more figure.
pub proof fn law_decimal(n: nat, d: nat)
    requires
        d < 10,
    ensures
        text::decimal(d) == seq![figure(d)],
        n > 0 ==> text::decimal(n * 10 + d) == text::decimal(n).push(figure(d)),
{
    lemma_figure(d);
    assert((n * 10 + d) / 10 == n && (n * 10 + d) % 10 == d);
}

/// Only figures, and at most a plus sign before them, write a count; and there
/// is at least one figure.
pub proof fn law_count_is_of_figures(s: Seq<char>)
    ensures
        text::count(s) is Some ==> s.len() > 0 && s.last() != '+' && forall|i: int|
            0 <= i < s.len() ==> '0' <= #[trigger] s[i] <= '9' || i == 0 && s[i] == '+',
{
    if text::count(s) is Some {
        let digits = text::unsigned(s);
        let first: int = if s[0] == '+' {
            1
        } else {
            0
        };
        assert forall|i: int| 0 <= i < s.len() implies '0' <= #[trigger] s[i] <= '9' || i == 0
            && s[i] == '+' by {
            if i >= first {
                assert(digits[i - first] == s[i]);
            }
        }
        assert(digits[digits.len() - 1] == s.last());
    }
}

/// A figure alone is its number. A figure after a count makes ten times the
/// count and the figure's number, if a `usize` can hold it, else no count. A
/// plus sign before figures is nothing.
pub proof fn law_count(s: Seq<char>, d: nat)
    requires
        d < 10,
    ensures
        text::count(seq![figure(d)]) == Some(d),
        text::count(s) matches Some(n) ==> text::count(s.push(figure(d))) == if n * 10 + d
            <= usize::MAX {
            Some(n * 10 + d)
        } else {
            None
        },
        s.len() > 0 && s[0] != '+' && text::count(s) is None ==> text::count(
            s.push(figure(d)),
        ) is None,
        s.len() > 0 && s[0] != '+' ==> text::count(seq!['+'] + s) == text::count(s),
{
    lemma_figure(d);
    let c = figure(d);
    let one = seq![c];
    let more = s.push(c);
    let digits = text::unsigned(s);
    let after = text::unsigned(more);
    assert(text::unsigned(one) == one);
    assert(one.drop_last() =~= Seq::empty());
    assert(text::value(Seq::empty()) == 0);
    assert(text::value(one) == d);
    if s.len() > 0 {
        assert(more[0] == s[0]);
        assert(after =~= digits.push(c));
        assert(after.drop_last() =~= digits);
        assert(text::value(after) == text::value(digits) * 10 + d);
        assert(forall|i: int| 0 <= i < digits.len() ==> after[i] == #[trigger] digits[i]);
        if forall|i: int| 0 <= i < digits.len() ==> text::digit(#[trigger] digits[i]) {
            assert forall|i: int| 0 <= i < after.len() implies text::digit(#[trigger] after[i]) by {
                if i < digits.len() {
                    assert(text::digit(digits[i]));
                }
            }
        } else {
            let i = choose|i: int| 0 <= i < digits.len() && !text::digit(#[trigger] digits[i]);
            assert(!text::digit(after[i]));
        }
        if s[0] != '+' {
            assert((seq!['+'] + s).skip(1) =~= s);
        }
    }
}

}
