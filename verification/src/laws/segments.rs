//! Segments: how a text reads, told segment by segment from its characters.

use vstd::prelude::*;

use crate::laws::{reading, words};
use crate::syntax;
use crate::syntax::{InterchangeView, SegmentView, Separators};
use crate::text;

verus! {

/// A place where a segment may begin: at the start, or after a terminator.
pub open spec fn at_a_start(text: Seq<char>, s: Separators) -> bool {
    text.len() == 0 || text.last() == s.terminator
}

/// A run that may stand before a segment: carriage returns, line feeds and
/// blanks, none of them the terminator.
pub open spec fn run_before(run: Seq<char>, s: Separators) -> bool {
    reading::line_breaks(run) && !run.contains(s.terminator)
}

/// A segment that can be written with the separators: its tag is two or three
/// characters from `A` to `Z` and from `0` to `9`, every element has a
/// component, and no separator stands in it. Where components are not told
/// apart from elements or segments there is one in each element.
pub open spec fn writable(segment: SegmentView, s: Separators) -> bool {
    &&& s.element != s.terminator
    &&& reading::two_or_three(segment.tag)
    &&& reading::holds_no_separator(segment, s)
    &&& forall|i: int|
        0 <= i < segment.elements.len() ==> {
            let components = (#[trigger] segment.elements[i]).len();
            &&& components > 0
            &&& s.component == s.element || s.component == s.terminator ==> components == 1
        }
}

/// What is in no piece, and does not join them, is not in what they join to.
proof fn lemma_join_is_free(pieces: Seq<Seq<char>>, separator: char, c: char)
    requires
        forall|i: int| 0 <= i < pieces.len() ==> !(#[trigger] pieces[i]).contains(c),
        separator != c || pieces.len() <= 1,
    ensures
        !reading::join(pieces, separator).contains(c),
    decreases pieces.len(),
{
    let joined = reading::join(pieces, separator);
    if pieces.len() == 1 {
        assert(!pieces[0].contains(c));
    } else if pieces.len() > 1 {
        let init = pieces.drop_last();
        assert forall|i: int| 0 <= i < init.len() implies !(#[trigger] init[i]).contains(c) by {
            assert(init[i] == pieces[i]);
        }
        lemma_join_is_free(init, separator, c);
        let before = reading::join(init, separator);
        assert(!pieces[pieces.len() - 1].contains(c));
        if joined.contains(c) {
            let i = choose|i: int| 0 <= i < joined.len() && joined[i] == c;
            if i < before.len() {
                assert(before[i] == c);
            } else if i > before.len() {
                assert(pieces.last()[i - before.len() - 1] == c);
            }
        }
    }
}

/// What is joined begins with the first piece and, if there are more, the
/// separator.
proof fn lemma_join_head(pieces: Seq<Seq<char>>, separator: char)
    requires
        pieces.len() > 0,
    ensures
        ({
            let joined = reading::join(pieces, separator);
            let head = if pieces.len() > 1 {
                pieces[0].push(separator)
            } else {
                pieces[0]
            };
            head.is_prefix_of(joined)
        }),
    decreases pieces.len(),
{
    let joined = reading::join(pieces, separator);
    if pieces.len() == 1 {
        assert(joined.take(joined.len() as int) =~= joined);
    } else if pieces.len() == 2 {
        let init = pieces.drop_last();
        assert(reading::join(init, separator) == pieces[0]);
        assert(joined.take((pieces[0].len() + 1) as int) =~= pieces[0].push(separator));
    } else {
        let init = pieces.drop_last();
        lemma_join_head(init, separator);
        let before = reading::join(init, separator);
        let n = (pieces[0].len() + 1) as int;
        assert(joined.take(n) =~= before.take(n));
    }
}

/// A written segment holds no terminator, begins with its tag, and taken apart
/// is the segment again.
proof fn lemma_written(segment: SegmentView, s: Separators)
    requires
        writable(segment, s),
    ensures
        ({
            let raw = reading::written(segment, s);
            &&& raw.len() > 0
            &&& raw[0] == segment.tag[0]
            &&& !raw.contains(s.terminator)
            &&& syntax::segment_of(raw, s) == segment
        }),
{
    let raw = reading::written(segment, s);
    let parts = reading::parts(segment, s);
    assert forall|i: int| 0 <= i < parts.len() implies !(#[trigger] parts[i]).contains(s.element)
        && !parts[i].contains(s.terminator) by {
        if i > 0 {
            let element = segment.elements[i - 1];
            assert forall|j: int| 0 <= j < element.len() implies !(#[trigger] element[j]).contains(
                s.element,
            ) && !element[j].contains(s.terminator) by {
                assert(segment.elements[i - 1][j] == element[j]);
            }
            lemma_join_is_free(element, s.component, s.element);
            lemma_join_is_free(element, s.component, s.terminator);
        }
    }
    lemma_join_is_free(parts, s.element, s.terminator);
    reading::law_split_undoes_join(parts, s.element);
    let read = syntax::segment_of(raw, s);
    assert(read.elements.len() == segment.elements.len());
    assert forall|i: int| 0 <= i < segment.elements.len() implies #[trigger] read.elements[i]
        == segment.elements[i] by {
        let element = segment.elements[i];
        assert forall|j: int| 0 <= j < element.len() implies !(#[trigger] element[j]).contains(
            s.component,
        ) by {
            assert(segment.elements[i][j] == element[j]);
        }
        reading::law_split_undoes_join(element, s.component);
        assert(parts[i + 1] == reading::join(element, s.component));
    }
    assert(read.elements =~= segment.elements);
    lemma_join_head(parts, s.element);
    let head = if parts.len() > 1 {
        parts[0].push(s.element)
    } else {
        parts[0]
    };
    assert(raw.take(head.len() as int) == head);
    assert(raw.take(head.len() as int)[0] == raw[0]);
}

/// One more piece after a start is one more segment, unless it is line breaks
/// only.
proof fn lemma_next_piece(text: Seq<char>, piece: Seq<char>, s: Separators)
    requires
        at_a_start(text, s),
        !piece.contains(s.terminator),
    ensures
        ({
            let before = syntax::raw_segments(text::split(text, s.terminator));
            let raw = text::trim_breaks(piece);
            let after = if raw.len() == 0 {
                before
            } else {
                before.push(raw)
            };
            &&& syntax::raw_segments(text::split(text + piece, s.terminator)) == after
            &&& syntax::raw_segments(
                text::split(text + piece + seq![s.terminator], s.terminator),
            ) == after
        }),
{
    let empty = Seq::<char>::empty();
    let pieces = text::split(text, s.terminator);
    reading::lemma_split_is_not_empty(text, s.terminator);
    assert(pieces.last() =~= empty);
    assert(text::trim_breaks(empty) == empty);
    reading::lemma_split_append(text, piece, s.terminator);
    assert(empty + piece =~= piece);
    let more = text::split(text + piece, s.terminator);
    assert(more.drop_last() =~= pieces.drop_last());
    let ended = text + piece + seq![s.terminator];
    assert(ended.drop_last() =~= text + piece);
    let all = text::split(ended, s.terminator);
    assert(all.drop_last() =~= more);
    assert(all.last() =~= empty);
}

/// One more segment is refused if none was before it.
proof fn lemma_one_more(raws: Seq<Seq<char>>, raw: Seq<char>, s: Separators)
    ensures
        syntax::first_refused(raws.push(raw), s) == if syntax::first_refused(raws, s) is None
            && !syntax::segment_identifier(syntax::tag_of(raw, s)) {
            Some(syntax::tag_of(raw, s))
        } else {
            syntax::first_refused(raws, s)
        },
        syntax::segments_of(raws.push(raw), s) == syntax::segments_of(raws, s).push(
            syntax::segment_of(raw, s),
        ),
{
    assert(raws.push(raw).drop_last() =~= raws);
    assert(syntax::segments_of(raws.push(raw), s) =~= syntax::segments_of(raws, s).push(
        syntax::segment_of(raw, s),
    ));
}

/// An empty text reads as no segments.
pub proof fn law_nothing_is_read(s: Separators)
    ensures
        syntax::read(Seq::empty(), s) == Ok::<Seq<SegmentView>, Seq<char>>(Seq::empty()),
{
    let empty = Seq::<char>::empty();
    let pieces = seq![empty];
    assert(text::split(empty, s.terminator) == pieces);
    assert(pieces.drop_last() =~= Seq::empty());
    assert(syntax::raw_segments(Seq::<Seq<char>>::empty()) =~= Seq::empty());
    assert(text::trim_breaks(empty) == empty);
    assert(syntax::raw_segments(pieces) =~= Seq::empty());
    assert(syntax::segments_of(Seq::empty(), s) =~= Seq::empty());
}

/// A written segment, its terminator after it and a run before it, is read as
/// that segment after those that are read from the text before it, whatever
/// upper case letters and digits its tag is made of.
pub proof fn law_next_segment(
    text: Seq<char>,
    run: Seq<char>,
    segment: SegmentView,
    s: Separators,
)
    requires
        at_a_start(text, s),
        run_before(run, s),
        writable(segment, s),
    ensures
        syntax::read(text + (run + reading::written(segment, s)) + seq![s.terminator], s)
            == match syntax::read(text, s) {
            Ok(before) => Ok(before.push(segment)),
            Err(message) => Err(message),
        },
{
    let raw = reading::written(segment, s);
    let piece = run + raw;
    lemma_piece(run, segment, s);
    lemma_next_piece(text, piece, s);
    lemma_one_more(syntax::raw_segments(text::split(text, s.terminator)), raw, s);
    reading::lemma_two_or_three(segment.tag);
    let all = text + piece + seq![s.terminator];
    assert(all.last() == s.terminator);
    assert(text::trim_end_but(all, s.terminator) == all);
}

/// A run and a written segment are a piece that trims to the segment.
proof fn lemma_piece(run: Seq<char>, segment: SegmentView, s: Separators)
    requires
        run_before(run, s),
        writable(segment, s),
    ensures
        ({
            let raw = reading::written(segment, s);
            &&& !(run + raw).contains(s.terminator)
            &&& text::trim_breaks(run + raw) == raw
            &&& raw.len() > 0
            &&& syntax::tag_of(raw, s) == segment.tag
            &&& syntax::segment_of(raw, s) == segment
            &&& !text::white_space(raw[0])
        }),
{
    let raw = reading::written(segment, s);
    let piece = run + raw;
    lemma_written(segment, s);
    assert('A' <= segment.tag[0] <= 'Z' || '0' <= segment.tag[0] <= '9');
    words::law_trim_breaks(run, raw);
    if piece.contains(s.terminator) {
        let i = choose|i: int| 0 <= i < piece.len() && piece[i] == s.terminator;
        if i < run.len() {
            assert(run[i] == s.terminator);
        } else {
            assert(raw[i - run.len()] == s.terminator);
        }
    }
}

/// A run that is terminated, or that ends the text, is no segment.
pub proof fn law_a_run_is_no_segment(text: Seq<char>, run: Seq<char>, s: Separators)
    requires
        at_a_start(text, s),
        run_before(run, s),
    ensures
        syntax::read(text + run + seq![s.terminator], s) == syntax::read(text, s),
        syntax::read(text + run, s) == syntax::read(text, s),
{
    let empty = Seq::<char>::empty();
    words::law_trim_breaks(run, empty);
    assert(run + empty =~= run);
    lemma_next_piece(text, run, s);
    let all = text + run + seq![s.terminator];
    assert(all.last() == s.terminator);
    assert(text::trim_end_but(all, s.terminator) == all);
    assert(text::trim_end_but(text, s.terminator) == text);
    words::law_trim_end_but(text, run, s.terminator);
}

/// Once a text cannot be read, nothing after its terminator changes what is
/// said of it.
pub proof fn law_first_fault_stays(text: Seq<char>, rest: Seq<char>, s: Separators)
    requires
        at_a_start(text, s),
        syntax::read(text, s) is Err,
    ensures
        syntax::read(text + rest, s) == syntax::read(text, s),
{
    let t = s.terminator;
    if text.len() == 0 {
        law_nothing_is_read(s);
        assert(text =~= Seq::empty());
    } else {
        let init = text.drop_last();
        assert(init + seq![t] + rest =~= text + rest);
        words::law_split_at_separator(init, rest, t);
        let before = text::split(init, t);
        let pieces = text::split(text + rest, t);
        assert(pieces.take(before.len() as int) =~= before);
        assert(text::split(text, t) =~= before.push(Seq::empty()));
        assert(before.push(Seq::empty()).drop_last() =~= before);
        assert(text::trim_breaks(Seq::empty()) == Seq::<char>::empty());
        assert(syntax::raw_segments(text::split(text, t)) == syntax::raw_segments(before));
        assert(text::trim_end_but(text, t) == text);
        syntax::lemma_first_refused_stays(pieces, before.len() as int, s);
    }
}

/// A segment whose tag is anything but two or three characters from `A` to `Z`
/// and from `0` to `9` is refused, and the tag is what stands before the first
/// element separator.
pub proof fn law_other_tags_are_refused(
    text: Seq<char>,
    run: Seq<char>,
    tag: Seq<char>,
    elements: Seq<char>,
    rest: Seq<char>,
    s: Separators,
)
    requires
        at_a_start(text, s),
        syntax::read(text, s) is Ok,
        run_before(run, s),
        !tag.contains(s.element),
        elements.len() > 0 ==> elements[0] == s.element,
        (tag + elements).len() > 0,
        (tag + elements)[0] != '\r',
        (tag + elements)[0] != '\n',
        (tag + elements)[0] != ' ',
        !(tag + elements).contains(s.terminator),
        rest.len() > 0 ==> rest[0] == s.terminator,
        !reading::two_or_three(tag),
    ensures
        syntax::read(text + (run + (tag + elements)) + rest, s) == Err::<
            Seq<SegmentView>,
            Seq<char>,
        >(text::quoted(tag) + " is not a segment identifier"@),
{
    let t = s.terminator;
    let raw = tag + elements;
    let piece = run + raw;
    let raws = syntax::raw_segments(text::split(text, t));
    words::law_trim_breaks(run, raw);
    assert(!piece.contains(t)) by {
        if piece.contains(t) {
            let i = choose|i: int| 0 <= i < piece.len() && piece[i] == t;
            if i < run.len() {
                assert(run[i] == t);
            } else {
                assert(raw[i - run.len()] == t);
            }
        }
    }
    lemma_next_piece(text, piece, s);
    lemma_one_more(raws, raw, s);
    reading::lemma_two_or_three(tag);
    words::law_split_without_separator(tag, s.element);
    if elements.len() == 0 {
        assert(raw =~= tag);
    } else {
        let after = elements.skip(1);
        assert(raw =~= tag + seq![s.element] + after);
        words::law_split_at_separator(tag, after, s.element);
    }
    assert(syntax::tag_of(raw, s) == tag);
    assert(text::trim_end_but(text, t) == text);
    if rest.len() == 0 {
        assert(text + piece + rest =~= text + piece);
    } else {
        let ended = text + piece + seq![t];
        assert(ended + rest.skip(1) =~= text + piece + rest);
        assert(ended.last() == t);
        law_first_fault_stays(ended, rest.skip(1), s);
    }
}

/// Trimming back to the terminator leaves what is no white space.
proof fn lemma_trim_end_but_keeps(s: Seq<char>, n: int, kept: char)
    requires
        0 <= n < s.len(),
        !text::white_space(s[n]),
    ensures
        n < text::trim_end_but(s, kept).len() <= s.len(),
        text::trim_end_but(s, kept) == s.take(text::trim_end_but(s, kept).len() as int),
    decreases s.len(),
{
    let trimmed = text::trim_end_but(s, kept);
    if text::white_space(s.last()) && s.last() != kept {
        lemma_trim_end_but_keeps(s.drop_last(), n, kept);
        assert(s.drop_last().take(trimmed.len() as int) =~= s.take(trimmed.len() as int));
    } else {
        assert(s.take(s.len() as int) =~= s);
    }
}

/// A written segment at the end of a text, no terminator after it, makes the
/// text unreadable.
pub proof fn law_last_segment_needs_its_terminator(
    text: Seq<char>,
    run: Seq<char>,
    segment: SegmentView,
    s: Separators,
)
    requires
        at_a_start(text, s),
        run_before(run, s),
        writable(segment, s),
    ensures
        syntax::read(text + (run + reading::written(segment, s)), s) == match syntax::read(
            text,
            s,
        ) {
            Ok(_) => Err::<Seq<SegmentView>, Seq<char>>("the last segment has no terminator"@),
            Err(message) => Err(message),
        },
{
    let t = s.terminator;
    let raw = reading::written(segment, s);
    let piece = run + raw;
    let all = text + piece;
    lemma_piece(run, segment, s);
    lemma_next_piece(text, piece, s);
    lemma_one_more(syntax::raw_segments(text::split(text, t)), raw, s);
    reading::lemma_two_or_three(segment.tag);
    let first = text.len() + run.len();
    assert(all[first as int] == raw[0]);
    lemma_trim_end_but_keeps(all, first as int, t);
    let tail = text::trim_end_but(all, t);
    let last = tail.len() - 1;
    assert(tail.last() == all[last]);
    assert(all[last] == piece[last - text.len()]);
    assert(piece.contains(piece[last - text.len()]));
    assert(text::trim_end_but(text, t) == text);
}

/// Segments written one after the other, each with its terminator.
pub open spec fn written_all(segments: Seq<SegmentView>, s: Separators) -> Seq<char>
    decreases segments.len(),
{
    if segments.len() == 0 {
        Seq::empty()
    } else {
        written_all(segments.drop_last(), s) + reading::written(segments.last(), s)
            + seq![s.terminator]
    }
}

/// Segments written one after the other, each with its terminator, are read as
/// those segments.
pub proof fn law_written_segments_are_read(segments: Seq<SegmentView>, s: Separators)
    requires
        forall|i: int| 0 <= i < segments.len() ==> writable(#[trigger] segments[i], s),
    ensures
        syntax::read(written_all(segments, s), s) == Ok::<Seq<SegmentView>, Seq<char>>(segments),
    decreases segments.len(),
{
    if segments.len() == 0 {
        law_nothing_is_read(s);
        assert(segments =~= Seq::empty());
    } else {
        let init = segments.drop_last();
        let last = segments.last();
        assert forall|i: int| 0 <= i < init.len() implies writable(#[trigger] init[i], s) by {
            assert(init[i] == segments[i]);
        }
        law_written_segments_are_read(init, s);
        assert(writable(segments[segments.len() - 1], s));
        let before = written_all(init, s);
        let empty = Seq::<char>::empty();
        assert(empty + reading::written(last, s) =~= reading::written(last, s));
        law_next_segment(before, empty, last, s);
        assert(init.push(last) =~= segments);
    }
}

/// How a text reads as an interchange, the white space before it aside. It is
/// refused, in this order: when it does not begin with the letters `ISA`; when
/// it has fewer than 106 characters; when its fourth and its hundred and sixth
/// character are the same, or either is a letter or a digit. Else it is read
/// with the fourth as element separator, the hundred and fifth as component
/// separator and the hundred and sixth as segment terminator.
pub proof fn law_interchange(before: Seq<char>, text: Seq<char>)
    requires
        words::blank(before),
        text.len() > 0 ==> !text::white_space(text[0]),
    ensures
        ({
            let opens = text.len() >= 3 && text[0] == 'I' && text[1] == 'S' && text[2] == 'A';
            let s = Separators { element: text[3], component: text[104], terminator: text[105] };
            let apart = text[3] != text[105] && !text::alphanumeric(text[3])
                && !text::alphanumeric(text[105]);
            syntax::interchange(before + text) == if !opens {
                Err("the interchange does not open with ISA"@)
            } else if text.len() < 106 {
                Err("ISA is shorter than its 106 characters"@)
            } else if !apart {
                Err("ISA does not declare distinct separators"@)
            } else {
                match syntax::read(text, s) {
                    Ok(segments) => Ok(InterchangeView { separators: s, segments }),
                    Err(message) => Err(message),
                }
            }
        }),
{
    words::law_trim_start(before, text);
    words::law_trim_start(Seq::empty(), text);
    assert(Seq::<char>::empty() + text =~= text);
    reveal_strlit("ISA");
    let opens = text.len() >= 3 && text[0] == 'I' && text[1] == 'S' && text[2] == 'A';
    if text.len() >= 3 {
        let head = text.take(3);
        if opens {
            assert(head =~= "ISA"@);
        } else if "ISA"@.is_prefix_of(text) {
            assert(head == "ISA"@);
            assert(head[0] == text[0] && head[1] == text[1] && head[2] == text[2]);
        }
    }
    reading::law_isa_opens(text);
}

/// Segments written one after the other, `ISA` first with the separators in
/// their places, are read as an interchange of those segments, whatever upper
/// case letters and digits their tags are made of.
pub proof fn law_written_interchange_is_read(segments: Seq<SegmentView>, s: Separators)
    requires
        segments.len() > 0,
        segments[0].tag == "ISA"@,
        segments[0].elements.len() > 0,
        forall|i: int| 0 <= i < segments.len() ==> writable(#[trigger] segments[i], s),
        written_all(segments, s).len() >= 106,
        written_all(segments, s)[104] == s.component,
        written_all(segments, s)[105] == s.terminator,
        !text::alphanumeric(s.element),
        !text::alphanumeric(s.terminator),
    ensures
        syntax::interchange(written_all(segments, s)) == Ok::<InterchangeView, Seq<char>>(
            InterchangeView { separators: s, segments },
        ),
{
    let text = written_all(segments, s);
    let empty = Seq::<char>::empty();
    lemma_begins_with_first(segments, s);
    reveal_strlit("ISA");
    assert(segments[0].tag[0] == 'I' && segments[0].tag[1] == 'S' && segments[0].tag[2] == 'A');
    law_interchange(empty, text);
    assert(empty + text =~= text);
    assert(writable(segments[0], s));
    law_written_segments_are_read(segments, s);
}

/// Written segments begin with the first of them: its tag, then the element
/// separator if it has an element.
proof fn lemma_begins_with_first(segments: Seq<SegmentView>, s: Separators)
    requires
        segments.len() > 0,
        segments[0].elements.len() > 0,
    ensures
        segments[0].tag.push(s.element).is_prefix_of(written_all(segments, s)),
        forall|i: int|
            0 <= i < segments[0].tag.len() ==> written_all(segments, s)[i]
                == segments[0].tag[i],
        written_all(segments, s)[segments[0].tag.len() as int] == s.element,
    decreases segments.len(),
{
    let text = written_all(segments, s);
    let head = segments[0].tag.push(s.element);
    let n = head.len() as int;
    if segments.len() == 1 {
        let parts = reading::parts(segments[0], s);
        lemma_join_head(parts, s.element);
        let raw = reading::written(segments[0], s);
        assert(segments.drop_last() =~= Seq::empty());
        assert(written_all(Seq::empty(), s) =~= Seq::empty());
        assert(text =~= raw + seq![s.terminator]);
        assert(text.take(n) =~= raw.take(n));
    } else {
        let init = segments.drop_last();
        lemma_begins_with_first(init, s);
        assert(text.take(n) =~= written_all(init, s).take(n));
    }
    assert forall|i: int| 0 <= i < n implies text[i] == #[trigger] head[i] by {
        assert(text.take(n)[i] == text[i]);
    }
    assert forall|i: int| 0 <= i < segments[0].tag.len() implies text[i]
        == segments[0].tag[i] by {
        assert(text[i] == head[i]);
    }
    assert(head[segments[0].tag.len() as int] == s.element);
}

}
