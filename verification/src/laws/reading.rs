//! Reading: what splitting and trimming keep, how a read interchange opens,
//! and what line breaks do to it.

use vstd::prelude::*;
use vstd::utf8::{decode_utf8, encode_utf8, valid_utf8};

use crate::syntax;
use crate::syntax::{SegmentView, Separators};
use crate::text;
use crate::x12;

verus! {

/// The pieces put together, `separator` between each two.
pub open spec fn join(pieces: Seq<Seq<char>>, separator: char) -> Seq<char>
    decreases pieces.len(),
{
    if pieces.len() == 0 {
        Seq::empty()
    } else if pieces.len() == 1 {
        pieces[0]
    } else {
        join(pieces.drop_last(), separator).push(separator) + pieces.last()
    }
}

/// Splitting gives at least one piece.
pub proof fn lemma_split_is_not_empty(s: Seq<char>, separator: char)
    ensures
        text::split(s, separator).len() > 0,
    decreases s.len(),
{
    if s.len() > 0 {
        lemma_split_is_not_empty(s.drop_last(), separator);
    }
}

/// A character after the last piece goes to that piece.
proof fn lemma_join_push(pieces: Seq<Seq<char>>, separator: char, c: char)
    requires
        pieces.len() > 0,
    ensures
        join(pieces.drop_last().push(pieces.last().push(c)), separator) == join(
            pieces,
            separator,
        ).push(c),
{
    let longer = pieces.drop_last().push(pieces.last().push(c));
    assert(longer.drop_last() =~= pieces.drop_last());
    assert(join(longer, separator) =~= join(pieces, separator).push(c));
}

/// Splitting loses nothing: the pieces put together are the text, and no piece
/// holds the separator.
pub proof fn law_split_loses_nothing(s: Seq<char>, separator: char)
    ensures
        join(text::split(s, separator), separator) == s,
        forall|i: int|
            0 <= i < text::split(s, separator).len() ==> !(#[trigger] text::split(
                s,
                separator,
            )[i]).contains(separator),
    decreases s.len(),
{
    if s.len() > 0 {
        let init = s.drop_last();
        let before = text::split(init, separator);
        let after = text::split(s, separator);
        law_split_loses_nothing(init, separator);
        lemma_split_is_not_empty(init, separator);
        assert(init.push(s.last()) =~= s);
        if s.last() == separator {
            assert(after.drop_last() =~= before);
            assert(join(after, separator) =~= s);
        } else {
            lemma_join_push(before, separator, s.last());
            assert(!before.last().contains(separator));
            assert forall|i: int| 0 <= i < after.last().len() implies after.last()[i]
                != separator by {
                if i < before.last().len() {
                    assert(before.last().contains(before.last()[i]));
                }
            }
        }
    }
}

/// A text without the separator after the rest goes to the last piece.
pub proof fn lemma_split_append(s: Seq<char>, more: Seq<char>, separator: char)
    requires
        !more.contains(separator),
    ensures
        text::split(s + more, separator) == text::split(s, separator).drop_last().push(
            text::split(s, separator).last() + more,
        ),
    decreases more.len(),
{
    let pieces = text::split(s, separator);
    lemma_split_is_not_empty(s, separator);
    if more.len() == 0 {
        assert(s + more =~= s);
        assert(pieces.last() + more =~= pieces.last());
        assert(pieces.drop_last().push(pieces.last()) =~= pieces);
    } else {
        let init = more.drop_last();
        assert(more.contains(more[more.len() - 1]));
        assert(!init.contains(separator)) by {
            if init.contains(separator) {
                let i = choose|i: int| 0 <= i < init.len() && init[i] == separator;
                assert(more[i] == separator);
            }
        }
        lemma_split_append(s, init, separator);
        assert((s + more).drop_last() =~= s + init);
        assert((s + more).last() == more.last());
        let before = pieces.drop_last().push(pieces.last() + init);
        assert(before.drop_last() =~= pieces.drop_last());
        assert((pieces.last() + init).push(more.last()) =~= pieces.last() + more);
    }
}

/// Splitting undoes joining, whatever the pieces, if there is one and none
/// holds the separator.
pub proof fn law_split_undoes_join(pieces: Seq<Seq<char>>, separator: char)
    requires
        pieces.len() > 0,
        forall|i: int| 0 <= i < pieces.len() ==> !(#[trigger] pieces[i]).contains(separator),
    ensures
        text::split(join(pieces, separator), separator) == pieces,
    decreases pieces.len(),
{
    let empty = Seq::<char>::empty();
    if pieces.len() == 1 {
        lemma_split_append(empty, pieces[0], separator);
        assert(empty + pieces[0] =~= pieces[0]);
        assert(text::split(empty, separator) =~= seq![empty]);
        assert(text::split(pieces[0], separator) =~= pieces);
    } else {
        let init = pieces.drop_last();
        assert forall|i: int| 0 <= i < init.len() implies !(#[trigger] init[i]).contains(
            separator,
        ) by {
            assert(init[i] == pieces[i]);
        }
        law_split_undoes_join(init, separator);
        let head = join(init, separator).push(separator);
        assert(head.drop_last() =~= join(init, separator));
        assert(text::split(head, separator) =~= init.push(empty));
        assert(!pieces.last().contains(separator)) by {
            assert(pieces.last() == pieces[pieces.len() - 1]);
        }
        lemma_split_append(head, pieces.last(), separator);
        assert(empty + pieces.last() =~= pieces.last());
        assert(init.push(empty).drop_last().push(pieces.last()) =~= pieces);
    }
}

/// A segment's tag and elements, each element written out.
pub open spec fn parts(segment: SegmentView, s: Separators) -> Seq<Seq<char>> {
    Seq::new(
        segment.elements.len() + 1,
        |i: int|
            if i == 0 {
                segment.tag
            } else {
                join(segment.elements[i - 1], s.component)
            },
    )
}

/// A segment written out with its separators.
pub open spec fn written(segment: SegmentView, s: Separators) -> Seq<char> {
    join(parts(segment, s), s.element)
}

/// Taking a segment apart loses nothing: written out again it is what was
/// read.
pub proof fn law_segment_is_written_as_read(raw: Seq<char>, s: Separators)
    ensures
        written(syntax::segment_of(raw, s), s) == raw,
{
    let split = text::split(raw, s.element);
    let segment = syntax::segment_of(raw, s);
    lemma_split_is_not_empty(raw, s.element);
    law_split_loses_nothing(raw, s.element);
    assert forall|i: int| 0 <= i < split.len() implies #[trigger] parts(segment, s)[i]
        == split[i] by {
        if i > 0 {
            law_split_loses_nothing(split[i], s.component);
        }
    }
    assert(parts(segment, s) =~= split);
}

/// The first piece begins as the text does, up to the first separator.
proof fn lemma_first_piece(s: Seq<char>, separator: char, n: int)
    requires
        0 <= n <= s.len(),
        forall|i: int| 0 <= i < n ==> s[i] != separator,
    ensures
        text::split(s, separator)[0].len() >= n,
        text::split(s, separator)[0].take(n) == s.take(n),
        n < s.len() && s[n] == separator ==> text::split(s, separator)[0] == s.take(n),
    decreases s.len(),
{
    lemma_split_is_not_empty(s, separator);
    if s.len() > 0 {
        let init = s.drop_last();
        let before = text::split(init, separator);
        lemma_split_is_not_empty(init, separator);
        let m = if n == s.len() {
            n - 1
        } else {
            n
        };
        lemma_first_piece(init, separator, m);
        assert(init.take(m) =~= s.take(m));
        if n == s.len() {
            lemma_no_separator(init, separator);
            assert(text::split(s, separator)[0] =~= s);
            assert(s.take(n) =~= s);
        } else if s[n] == separator && n == init.len() {
            lemma_no_separator(init, separator);
            assert(text::split(s, separator)[0] =~= s.take(n));
        } else if n < init.len() && s[n] == separator {
            lemma_separator_splits(init, separator, n);
            assert(text::split(s, separator)[0] == before[0]);
        } else {
            assert(text::split(s, separator)[0].take(n) =~= before[0].take(n));
        }
    }
}

/// A text without the separator is one piece.
pub proof fn lemma_no_separator(s: Seq<char>, separator: char)
    requires
        forall|i: int| 0 <= i < s.len() ==> s[i] != separator,
    ensures
        text::split(s, separator) == seq![s],
    decreases s.len(),
{
    if s.len() > 0 {
        lemma_no_separator(s.drop_last(), separator);
        assert(s.drop_last().push(s.last()) =~= s);
        assert(text::split(s, separator) =~= seq![s]);
    } else {
        assert(s =~= Seq::empty());
    }
}

/// A text with the separator is more than one piece.
proof fn lemma_separator_splits(s: Seq<char>, separator: char, n: int)
    requires
        0 <= n < s.len(),
        s[n] == separator,
    ensures
        text::split(s, separator).len() > 1,
    decreases s.len(),
{
    lemma_split_is_not_empty(s.drop_last(), separator);
    if n < s.len() - 1 {
        lemma_separator_splits(s.drop_last(), separator, n);
    }
}

/// A first piece that says something is the first segment.
proof fn lemma_first_segment(pieces: Seq<Seq<char>>)
    requires
        pieces.len() > 0,
        text::trim_breaks(pieces[0]).len() > 0,
    ensures
        syntax::raw_segments(pieces).len() > 0,
        syntax::raw_segments(pieces)[0] == text::trim_breaks(pieces[0]),
    decreases pieces.len(),
{
    if pieces.len() == 1 {
        assert(syntax::raw_segments(pieces.drop_last()) =~= Seq::empty());
    } else {
        lemma_first_segment(pieces.drop_last());
    }
}

/// Where the head of a text declares distinct separators, the first segment is
/// `ISA`.
proof fn lemma_isa_is_first(text: Seq<char>)
    requires
        "ISA"@.is_prefix_of(text),
        text.len() >= syntax::ISA_LENGTH,
        syntax::distinct(syntax::declared(text)),
    ensures
        ({
            let s = syntax::declared(text);
            let raws = syntax::raw_segments(text::split(text, s.terminator));
            raws.len() > 0 && syntax::tag_of(raws[0], s) == "ISA"@
        }),
{
    let s = syntax::declared(text);
    let pieces = text::split(text, s.terminator);
    let first = pieces[0];
    reveal_strlit("ISA");
    assert(text.take(3) == "ISA"@);
    assert(text[0] == "ISA"@[0] && text[1] == "ISA"@[1] && text[2] == "ISA"@[2]);
    assert(text[0] == 'I' && text[1] == 'S' && text[2] == 'A');
    lemma_split_is_not_empty(text, s.terminator);
    lemma_first_piece(text, s.terminator, 4);
    assert(forall|i: int| 0 <= i < 4 ==> first.take(4)[i] == #[trigger] text.take(4)[i]);
    assert(first[0] == first.take(4)[0] && first[1] == first.take(4)[1]);
    assert(first[2] == first.take(4)[2] && first[3] == first.take(4)[3]);
    assert(text::trim_breaks(first) == first);
    lemma_first_segment(pieces);
    lemma_first_piece(first, s.element, 3);
    assert(first.take(3) =~= "ISA"@);
}

/// What reads as an interchange has a first segment, and that is `ISA`. So a
/// text that declares its separators never reads as no segment.
pub proof fn law_isa_opens(text: Seq<char>)
    ensures
        syntax::interchange(text) matches Ok(read) ==> read.segments.len() > 0
            && read.segments[0].tag == "ISA"@,
        ({
            let head = text::trim_start(text);
            &&& "ISA"@.is_prefix_of(head)
            &&& head.len() >= syntax::ISA_LENGTH
            &&& syntax::distinct(syntax::declared(head))
            &&& syntax::read(head, syntax::declared(head)) is Ok
        }) ==> syntax::interchange(text) is Ok,
{
    let head = text::trim_start(text);
    if "ISA"@.is_prefix_of(head) && head.len() >= syntax::ISA_LENGTH && syntax::distinct(
        syntax::declared(head),
    ) {
        lemma_isa_is_first(head);
    }
}

/// Whatever character `ISA` declares as the terminator, white space too: a
/// text that ends with it, and whose segments have identifiers, is read.
pub proof fn law_terminated_text_is_read(text: Seq<char>)
    requires
        ({
            let head = text::trim_start(text);
            let s = syntax::declared(head);
            &&& "ISA"@.is_prefix_of(head)
            &&& head.len() >= syntax::ISA_LENGTH
            &&& syntax::distinct(s)
            &&& syntax::first_refused(
                syntax::raw_segments(text::split(head, s.terminator)),
                s,
            ) is None
            &&& head.last() == s.terminator
        }),
    ensures
        syntax::interchange(text) matches Ok(read) && read.separators == syntax::declared(
            text::trim_start(text),
        ) && read.segments == syntax::segments_of(
            syntax::raw_segments(text::split(text::trim_start(text), read.separators.terminator)),
            read.separators,
        ),
{
    law_isa_opens(text);
}

/// A tag that is not refused is a segment identifier.
proof fn lemma_none_refused(raws: Seq<Seq<char>>, s: Separators)
    requires
        syntax::first_refused(raws, s) is None,
    ensures
        forall|i: int|
            0 <= i < raws.len() ==> syntax::segment_identifier(
                syntax::tag_of(#[trigger] raws[i], s),
            ),
    decreases raws.len(),
{
    if raws.len() > 0 {
        let init = raws.drop_last();
        lemma_none_refused(init, s);
        assert forall|i: int| 0 <= i < raws.len() implies syntax::segment_identifier(
            syntax::tag_of(#[trigger] raws[i], s),
        ) by {
            if i < init.len() {
                assert(init[i] == raws[i]);
            }
        }
    }
}

/// What stands in a piece stands in the text.
proof fn lemma_piece_is_of_the_text(s: Seq<char>, separator: char, c: char)
    requires
        !s.contains(c),
    ensures
        forall|i: int|
            0 <= i < text::split(s, separator).len() ==> !(#[trigger] text::split(
                s,
                separator,
            )[i]).contains(c),
    decreases s.len(),
{
    if s.len() > 0 {
        let init = s.drop_last();
        let before = text::split(init, separator);
        let after = text::split(s, separator);
        assert(s.contains(s[s.len() - 1]));
        assert(!init.contains(c)) by {
            if init.contains(c) {
                let i = choose|i: int| 0 <= i < init.len() && init[i] == c;
                assert(s[i] == c);
            }
        }
        lemma_piece_is_of_the_text(init, separator, c);
        lemma_split_is_not_empty(init, separator);
        assert forall|i: int| 0 <= i < after.len() implies !(#[trigger] after[i]).contains(c) by {
            if i < before.len() {
                assert(!before[i].contains(c));
                if after[i].contains(c) {
                    let j = choose|j: int| 0 <= j < after[i].len() && after[i][j] == c;
                    assert(before[i][j] == c);
                }
            }
        }
    }
}

/// What stands in a trimmed text stands in the text.
proof fn lemma_trimmed_is_of_the_text(s: Seq<char>, c: char)
    requires
        !s.contains(c),
    ensures
        !text::trim_breaks(s).contains(c),
    decreases s.len(),
{
    if s.len() > 0 && text::line_break(s[0]) {
        let rest = s.skip(1);
        assert(!rest.contains(c)) by {
            if rest.contains(c) {
                let i = choose|i: int| 0 <= i < rest.len() && rest[i] == c;
                assert(s[i + 1] == c);
            }
        }
        lemma_trimmed_is_of_the_text(rest, c);
    }
}

/// What stands in a raw segment stands in a piece.
proof fn lemma_raw_is_of_a_piece(pieces: Seq<Seq<char>>, c: char)
    requires
        forall|i: int| 0 <= i < pieces.len() ==> !(#[trigger] pieces[i]).contains(c),
    ensures
        forall|i: int|
            0 <= i < syntax::raw_segments(pieces).len() ==> !(#[trigger] syntax::raw_segments(
                pieces,
            )[i]).contains(c),
    decreases pieces.len(),
{
    if pieces.len() > 0 {
        let init = pieces.drop_last();
        assert forall|i: int| 0 <= i < init.len() implies !(#[trigger] init[i]).contains(c) by {
            assert(init[i] == pieces[i]);
        }
        lemma_raw_is_of_a_piece(init, c);
        assert(!pieces[pieces.len() - 1].contains(c));
        lemma_trimmed_is_of_the_text(pieces.last(), c);
        let before = syntax::raw_segments(init);
        let raws = syntax::raw_segments(pieces);
        assert forall|i: int| 0 <= i < raws.len() implies !(#[trigger] raws[i]).contains(c) by {
            if i < before.len() {
                assert(raws[i] == before[i]);
            }
        }
    } else {
        assert(syntax::raw_segments(pieces) =~= Seq::empty());
    }
}

/// The tag and every component are free of the separators they were read with.
pub open spec fn holds_no_separator(segment: SegmentView, s: Separators) -> bool {
    &&& !segment.tag.contains(s.element) && !segment.tag.contains(s.terminator)
    &&& forall|i: int, j: int|
        0 <= i < segment.elements.len() && 0 <= j < segment.elements[i].len() ==> {
            let component = #[trigger] segment.elements[i][j];
            &&& !component.contains(s.component)
            &&& !component.contains(s.element)
            &&& !component.contains(s.terminator)
        }
}

/// A raw segment taken apart is free of its separators.
proof fn lemma_segment_holds_no_separator(raw: Seq<char>, s: Separators)
    requires
        !raw.contains(s.terminator),
    ensures
        holds_no_separator(syntax::segment_of(raw, s), s),
{
    let split = text::split(raw, s.element);
    let segment = syntax::segment_of(raw, s);
    lemma_split_is_not_empty(raw, s.element);
    law_split_loses_nothing(raw, s.element);
    lemma_piece_is_of_the_text(raw, s.element, s.terminator);
    assert(!split[0].contains(s.element) && !split[0].contains(s.terminator));
    assert forall|i: int, j: int|
        0 <= i < segment.elements.len() && 0 <= j < segment.elements[i].len() implies {
        let component = #[trigger] segment.elements[i][j];
        &&& !component.contains(s.component)
        &&& !component.contains(s.element)
        &&& !component.contains(s.terminator)
    } by {
        let element = split[i + 1];
        assert(!element.contains(s.element) && !element.contains(s.terminator));
        law_split_loses_nothing(element, s.component);
        lemma_piece_is_of_the_text(element, s.component, s.element);
        lemma_piece_is_of_the_text(element, s.component, s.terminator);
        assert(segment.elements[i] == text::split(element, s.component));
    }
}

/// Two or three characters, each from `A` to `Z` or from `0` to `9`, in any
/// place.
pub open spec fn two_or_three(tag: Seq<char>) -> bool {
    &&& 2 <= tag.len() <= 3
    &&& forall|i: int|
        0 <= i < tag.len() ==> 'A' <= #[trigger] tag[i] <= 'Z' || '0' <= tag[i] <= '9'
}

/// Such tags are segment identifiers, and no others are.
pub proof fn lemma_two_or_three(tag: Seq<char>)
    ensures
        syntax::segment_identifier(tag) <==> two_or_three(tag),
{
    if two_or_three(tag) {
        assert forall|i: int| 0 <= i < tag.len() implies 'A' <= #[trigger] tag[i] <= 'Z'
            || text::digit(tag[i]) by {
            assert('A' <= tag[i] <= 'Z' || '0' <= tag[i] <= '9');
        }
    }
    if syntax::segment_identifier(tag) {
        assert forall|i: int| 0 <= i < tag.len() implies 'A' <= #[trigger] tag[i] <= 'Z' || '0'
            <= tag[i] <= '9' by {
            assert('A' <= tag[i] <= 'Z' || text::digit(tag[i]));
        }
    }
}

/// Every segment of a read interchange has a tag of two or three upper case
/// letters and digits, has a component in every element, and holds none of the
/// separators it was read with.
pub proof fn law_segments_are_well_formed(text: Seq<char>)
    ensures
        syntax::interchange(text) matches Ok(read) ==> forall|i: int|
            0 <= i < read.segments.len() ==> {
                let segment = #[trigger] read.segments[i];
                &&& two_or_three(segment.tag)
                &&& forall|j: int|
                    0 <= j < segment.elements.len() ==> (#[trigger] segment.elements[j]).len() > 0
                &&& holds_no_separator(segment, read.separators)
            },
{
    if let Ok(read) = syntax::interchange(text) {
        let s = read.separators;
        let head = text::trim_start(text);
        let pieces = text::split(head, s.terminator);
        let raws = syntax::raw_segments(pieces);
        lemma_none_refused(raws, s);
        law_split_loses_nothing(head, s.terminator);
        lemma_raw_is_of_a_piece(pieces, s.terminator);
        assert forall|i: int| 0 <= i < read.segments.len() implies {
            let segment = #[trigger] read.segments[i];
            &&& two_or_three(segment.tag)
            &&& forall|j: int|
                0 <= j < segment.elements.len() ==> (#[trigger] segment.elements[j]).len() > 0
            &&& holds_no_separator(segment, s)
        } by {
            let segment = read.segments[i];
            assert(!raws[i].contains(s.terminator));
            lemma_segment_holds_no_separator(raws[i], s);
            lemma_two_or_three(segment.tag);
            assert forall|j: int| 0 <= j < segment.elements.len() implies (
            #[trigger] segment.elements[j]).len() > 0 by {
                let element = text::split(raws[i], s.element)[j + 1];
                lemma_split_is_not_empty(element, s.component);
            }
        }
    }
}

/// `s` with a run after each `terminator`: after the one at `i`, `runs[i]`.
pub open spec fn broken(s: Seq<char>, terminator: char, runs: Seq<Seq<char>>) -> Seq<char>
    decreases s.len(),
{
    if s.len() == 0 {
        Seq::empty()
    } else {
        let before = broken(s.drop_last(), terminator, runs).push(s.last());
        if s.last() == terminator {
            before + runs[s.len() - 1]
        } else {
            before
        }
    }
}

/// Carriage returns, line feeds and blanks only.
pub open spec fn line_breaks(run: Seq<char>) -> bool {
    forall|i: int|
        0 <= i < run.len() ==> #[trigger] run[i] == '\r' || run[i] == '\n' || run[i] == ' '
}

/// A run of line breaks and blanks for each of `n` characters.
pub open spec fn runs_of_line_breaks(runs: Seq<Seq<char>>, n: nat) -> bool {
    runs.len() == n && forall|i: int| 0 <= i < n ==> line_breaks(#[trigger] runs[i])
}

/// Line breaks before a text are trimmed with those it begins with.
proof fn lemma_trim_breaks(run: Seq<char>, s: Seq<char>)
    requires
        line_breaks(run),
    ensures
        text::trim_breaks(run + s) == text::trim_breaks(s),
        text::trim_start(run + s) == text::trim_start(s),
    decreases run.len(),
{
    if run.len() == 0 {
        assert(run + s =~= s);
    } else {
        let rest = run.skip(1);
        assert forall|i: int| 0 <= i < rest.len() implies #[trigger] rest[i] == '\r'
            || rest[i] == '\n' || rest[i] == ' ' by {
            assert(rest[i] == run[i + 1]);
        }
        lemma_trim_breaks(rest, s);
        assert((run + s)[0] == run[0]);
        assert((run + s).skip(1) =~= rest + s);
    }
}

/// Line breaks after a text are trimmed, back to the terminator or to the
/// white space that the text ends with.
proof fn lemma_trim_end_but_breaks(s: Seq<char>, run: Seq<char>, kept: char)
    requires
        line_breaks(run),
    ensures
        ({
            let tail = text::trim_end_but(s + run, kept);
            tail == text::trim_end_but(s, kept) || tail.len() > 0 && tail.last() == kept
        }),
    decreases run.len(),
{
    if run.len() == 0 {
        assert(s + run =~= s);
    } else {
        let init = run.drop_last();
        assert forall|i: int| 0 <= i < init.len() implies #[trigger] init[i] == '\r'
            || init[i] == '\n' || init[i] == ' ' by {
            assert(init[i] == run[i]);
        }
        lemma_trim_end_but_breaks(s, init, kept);
        assert(text::line_break(run[run.len() - 1]));
        assert((s + run).last() == run.last());
        assert((s + run).drop_last() =~= s + init);
    }
}

/// A run of line breaks where a segment could begin begins none.
proof fn lemma_run_is_no_segment(s: Seq<char>, run: Seq<char>, terminator: char)
    requires
        line_breaks(run),
        line_breaks(text::split(s, terminator).last()),
    ensures
        ({
            let before = text::split(s, terminator);
            let after = text::split(s + run, terminator);
            &&& syntax::raw_segments(after.drop_last()) == syntax::raw_segments(
                before.drop_last(),
            )
            &&& line_breaks(after.last())
        }),
    decreases run.len(),
{
    if run.len() == 0 {
        assert(s + run =~= s);
    } else {
        let init = run.drop_last();
        let last = run.last();
        assert forall|i: int| 0 <= i < init.len() implies #[trigger] init[i] == '\r'
            || init[i] == '\n' || init[i] == ' ' by {
            assert(init[i] == run[i]);
        }
        assert(text::line_break(run[run.len() - 1]));
        lemma_run_is_no_segment(s, init, terminator);
        lemma_split_is_not_empty(s + init, terminator);
        assert((s + run).last() == last);
        assert((s + run).drop_last() =~= s + init);
        let pieces = text::split(s + init, terminator);
        let after = text::split(s + run, terminator);
        if last == terminator {
            assert(after.drop_last() =~= pieces);
            let empty = Seq::<char>::empty();
            assert(pieces.last() + empty =~= pieces.last());
            lemma_trim_breaks(pieces.last(), empty);
        } else {
            assert(after.drop_last() =~= pieces.drop_last());
            assert(after.last() == pieces.last().push(last));
        }
    }
}

/// Runs after the terminators leave the segments as they are, and stand before
/// the last piece.
proof fn lemma_broken_pieces(s: Seq<char>, terminator: char, runs: Seq<Seq<char>>) -> (run: Seq<
    char,
>)
    requires
        s.len() <= runs.len(),
        forall|i: int| 0 <= i < runs.len() ==> line_breaks(#[trigger] runs[i]),
    ensures
        ({
            let pieces = text::split(s, terminator);
            let after = text::split(broken(s, terminator, runs), terminator);
            &&& pieces.len() > 0
            &&& after.len() > 0
            &&& syntax::raw_segments(after.drop_last()) == syntax::raw_segments(
                pieces.drop_last(),
            )
            &&& line_breaks(run)
            &&& after.last() == run + pieces.last()
        }),
    decreases s.len(),
{
    let empty = Seq::<char>::empty();
    lemma_split_is_not_empty(s, terminator);
    lemma_split_is_not_empty(broken(s, terminator, runs), terminator);
    if s.len() == 0 {
        assert(s =~= empty);
        assert(empty + empty =~= empty);
        empty
    } else {
        let init = s.drop_last();
        let last = s.last();
        let run = lemma_broken_pieces(init, terminator, runs);
        let pieces = text::split(init, terminator);
        let after = text::split(broken(init, terminator, runs), terminator);
        let head = broken(init, terminator, runs).push(last);
        assert(head.drop_last() =~= broken(init, terminator, runs));
        if last == terminator {
            lemma_trim_breaks(run, pieces.last());
            assert(text::split(head, terminator) == after.push(empty));
            assert(after.push(empty).drop_last() =~= after);
            assert(pieces.push(empty).drop_last() =~= pieces);
            assert(line_breaks(empty));
            assert(line_breaks(runs[s.len() - 1]));
            lemma_run_is_no_segment(head, runs[s.len() - 1], terminator);
            let next = text::split(broken(s, terminator, runs), terminator).last();
            assert(next + empty =~= next);
            next
        } else {
            let longer = pieces.drop_last().push(pieces.last().push(last));
            assert(longer.drop_last() =~= pieces.drop_last());
            let broken_longer = after.drop_last().push(after.last().push(last));
            assert(broken_longer.drop_last() =~= after.drop_last());
            assert((run + pieces.last()).push(last) =~= run + pieces.last().push(last));
            run
        }
    }
}

/// Runs after the terminators leave the text terminated, or not, as it is.
proof fn lemma_broken_end(s: Seq<char>, terminator: char, runs: Seq<Seq<char>>)
    requires
        s.len() <= runs.len(),
        forall|i: int| 0 <= i < runs.len() ==> line_breaks(#[trigger] runs[i]),
    ensures
        ({
            let tail = text::trim_end_but(s, terminator);
            let after = text::trim_end_but(broken(s, terminator, runs), terminator);
            &&& after.len() > 0 <==> tail.len() > 0
            &&& tail.len() > 0 ==> after.last() == tail.last()
        }),
    decreases s.len(),
{
    if s.len() > 0 {
        let head = broken(s.drop_last(), terminator, runs).push(s.last());
        lemma_broken_end(s.drop_last(), terminator, runs);
        assert(head.drop_last() =~= broken(s.drop_last(), terminator, runs));
        if s.last() == terminator {
            assert(line_breaks(runs[s.len() - 1]));
            lemma_trim_end_but_breaks(head, runs[s.len() - 1], terminator);
        }
    }
}

/// Line breaks and blanks after the terminators, any after each, do not change
/// what a text reads as.
pub proof fn law_line_breaks_change_no_segment(
    text: Seq<char>,
    s: Separators,
    runs: Seq<Seq<char>>,
)
    requires
        runs_of_line_breaks(runs, text.len()),
    ensures
        syntax::read(broken(text, s.terminator, runs), s) == syntax::read(text, s),
{
    let run = lemma_broken_pieces(text, s.terminator, runs);
    lemma_trim_breaks(run, text::split(text, s.terminator).last());
    lemma_broken_end(text, s.terminator, runs);
}

/// Breaking a text is breaking its parts.
proof fn lemma_broken_joins(a: Seq<char>, b: Seq<char>, terminator: char, runs: Seq<Seq<char>>)
    requires
        a.len() + b.len() <= runs.len(),
    ensures
        broken(a + b, terminator, runs) == broken(a, terminator, runs) + broken(
            b,
            terminator,
            runs.skip(a.len() as int),
        ),
    decreases b.len(),
{
    let rest = runs.skip(a.len() as int);
    if b.len() == 0 {
        assert(a + b =~= a);
        assert(broken(a, terminator, runs) + broken(b, terminator, rest) =~= broken(
            a,
            terminator,
            runs,
        ));
    } else {
        lemma_broken_joins(a, b.drop_last(), terminator, runs);
        assert((a + b).drop_last() =~= a + b.drop_last());
        assert(rest[b.len() - 1] == runs[a.len() + b.len() - 1]);
        assert(broken(a + b, terminator, runs) =~= broken(a, terminator, runs) + broken(
            b,
            terminator,
            rest,
        ));
    }
}

/// A text without terminator is not broken.
proof fn lemma_unbroken(s: Seq<char>, terminator: char, runs: Seq<Seq<char>>)
    requires
        forall|i: int| 0 <= i < s.len() ==> s[i] != terminator,
    ensures
        broken(s, terminator, runs) == s,
    decreases s.len(),
{
    if s.len() > 0 {
        lemma_unbroken(s.drop_last(), terminator, runs);
        assert(s.drop_last().push(s.last()) =~= s);
    } else {
        assert(s =~= Seq::empty());
    }
}

/// White space before a text is trimmed whether the text is broken or not.
proof fn lemma_broken_start(s: Seq<char>, terminator: char, runs: Seq<Seq<char>>)
    requires
        runs_of_line_breaks(runs, s.len()),
    ensures
        text::trim_start(s).len() <= s.len(),
        text::trim_start(broken(s, terminator, runs)) == broken(
            text::trim_start(s),
            terminator,
            runs.skip(s.len() - text::trim_start(s).len()),
        ),
    decreases s.len(),
{
    if s.len() == 0 {
        assert(runs.skip(0) =~= runs);
    } else {
        let first = seq![s[0]];
        let rest = s.skip(1);
        let later = runs.skip(1);
        assert(first + rest =~= s);
        lemma_broken_joins(first, rest, terminator, runs);
        assert(first.drop_last() =~= Seq::empty());
        let head = broken(first, terminator, runs);
        let after = broken(rest, terminator, later);
        assert(broken(first.drop_last(), terminator, runs).push(s[0]) =~= first);
        assert(head[0] == s[0]);
        assert((head + after)[0] == s[0]);
        if text::white_space(s[0]) {
            assert forall|i: int| 0 <= i < rest.len() implies line_breaks(#[trigger] later[i]) by {
                assert(later[i] == runs[i + 1]);
            }
            lemma_broken_start(rest, terminator, later);
            assert(line_breaks(runs[0]));
            lemma_trim_breaks(runs[0], after);
            if s[0] == terminator {
                assert((head + after).skip(1) =~= runs[0] + after);
            } else {
                assert((head + after).skip(1) =~= after);
            }
            let skipped = rest.len() - text::trim_start(rest).len();
            assert(later.skip(skipped) =~= runs.skip(skipped + 1));
        } else {
            assert(runs.skip(0) =~= runs);
        }
    }
}

/// Line breaks and blanks after the terminators are tolerated, any after each:
/// where the first terminator is the one that ends `ISA`, they do not change
/// the interchange.
pub proof fn law_line_breaks_are_tolerated(text: Seq<char>, runs: Seq<Seq<char>>)
    requires
        runs_of_line_breaks(runs, text.len()),
        ({
            let head = text::trim_start(text);
            &&& head.len() >= syntax::ISA_LENGTH
            &&& !head.take(syntax::ISA_LENGTH - 1).contains(syntax::declared(head).terminator)
        }),
    ensures
        syntax::interchange(
            broken(text, syntax::declared(text::trim_start(text)).terminator, runs),
        ) == syntax::interchange(text),
{
    let head = text::trim_start(text);
    let s = syntax::declared(head);
    let t = s.terminator;
    lemma_broken_start(text, t, runs);
    let later = runs.skip(text.len() - head.len());
    assert forall|i: int| 0 <= i < head.len() implies line_breaks(#[trigger] later[i]) by {
        assert(later[i] == runs[i + (text.len() - head.len())]);
    }
    let isa = head.take(syntax::ISA_LENGTH as int);
    let before = head.take(syntax::ISA_LENGTH - 1);
    let rest = head.skip(syntax::ISA_LENGTH as int);
    let after = broken(head, t, later);
    assert(isa + rest =~= head);
    lemma_broken_joins(isa, rest, t, later);
    assert forall|i: int| 0 <= i < before.len() implies before[i] != t by {
        assert(before.contains(before[i]));
    }
    lemma_unbroken(before, t, later);
    assert(isa.drop_last() =~= before);
    assert(before.push(t) =~= isa);
    assert(after =~= isa + (later[syntax::ISA_LENGTH - 1] + broken(
        rest,
        t,
        later.skip(syntax::ISA_LENGTH as int),
    )));
    assert(forall|i: int| 0 <= i < syntax::ISA_LENGTH ==> after[i] == head[i]);
    assert(syntax::declared(after) == s);
    reveal_strlit("ISA");
    assert(after.take(3) =~= head.take(3));
    law_line_breaks_change_no_segment(head, s, later);
}

/// Bytes of a text that begins with an ASCII character begin with that
/// character's byte.
proof fn lemma_first_byte(chars: Seq<char>)
    requires
        chars.len() > 0,
        (chars[0] as u32) < 0x80,
    ensures
        encode_utf8(chars).len() > 0,
        encode_utf8(chars)[0] as u32 == chars[0] as u32,
        encode_utf8(chars).skip(1) == encode_utf8(chars.skip(1)),
{
    let c = chars[0] as u32;
    assert(c & 0x7F == c) by (bit_vector)
        requires
            c < 0x80,
    ;
    assert(vstd::utf8::encode_scalar(c) == seq![c as u8]);
    assert(encode_utf8(chars)[0] == vstd::utf8::encode_scalar(c)[0]);
    assert(chars.drop_first() =~= chars.skip(1));
    assert(encode_utf8(chars).skip(1) =~= encode_utf8(chars.skip(1)));
}

/// What reads as an interchange, no white space before it, is identified by
/// its bytes.
pub proof fn law_what_reads_is_identified(bytes: Seq<u8>)
    requires
        valid_utf8(bytes),
        syntax::interchange(decode_utf8(bytes)) is Ok,
        !text::white_space(decode_utf8(bytes)[0]),
    ensures
        x12::opens_with_isa(bytes),
{
    let text = decode_utf8(bytes);
    vstd::utf8::decode_utf8_encode_utf8(bytes);
    reveal_strlit("ISA");
    assert(text::trim_start(text) == text);
    assert(text.take(3) == "ISA"@);
    assert(text[0] == "ISA"@[0] && text[1] == "ISA"@[1] && text[2] == "ISA"@[2]);
    let one = text.skip(1);
    let two = one.skip(1);
    assert(one[0] == text[1] && two[0] == text[2]);
    lemma_first_byte(text);
    lemma_first_byte(one);
    lemma_first_byte(two);
    assert(bytes.skip(1)[0] == bytes[1] && bytes.skip(1).skip(1)[0] == bytes[2]);
}

/// A number in decimal is digits, and they write that number.
proof fn lemma_decimal(n: nat)
    ensures
        text::decimal(n).len() > 0,
        forall|i: int|
            0 <= i < text::decimal(n).len() ==> text::digit(#[trigger] text::decimal(n)[i]),
        text::value(text::decimal(n)) == n,
        text::decimal(n)[0] != '+',
    decreases n,
{
    let last = ('0' as u32 + n % 10) as char;
    if n < 10 {
        assert(text::decimal(n).drop_last() =~= Seq::empty());
        assert(text::value(Seq::empty()) == 0);
    } else {
        lemma_decimal(n / 10);
        assert(text::decimal(n).drop_last() =~= text::decimal(n / 10));
    }
}

/// What is written as a count reads as that count.
pub proof fn law_decimal_is_read_as_written(n: nat)
    requires
        n <= usize::MAX,
    ensures
        text::count(text::decimal(n)) == Some(n),
{
    lemma_decimal(n);
}

}
