//! ASC X12 syntax: reading an interchange into segments, and the soundness
//! checks the envelope segments carry.
//!
//! The `ISA` segment is fixed at 106 characters and declares the separators
//! by position: the element separator is the fourth character, the component
//! separator the 105th, and the segment terminator the 106th. Everything
//! after is read with those. An issue's `code` is `malformed` when the text
//! cannot be read as segments at all, else `envelope` for a departure of
//! `ISA`/`IEA`, `GS`/`GE` or `ST`/`SE`; its `path` is `segment N (TAG)`.

use vstd::prelude::*;
use vstd::string::*;

use crate::contract;
use crate::contract::{envelope, malformed, IssueView, ValidationIssue};
use crate::text;
use crate::text::{
    chars_of, decimal_text, pieces, quote, read_count, same, starts_with, trimmed,
    trimmed_end_but, trimmed_start, without_breaks,
};

verus! {

/// The length `ISA` always has, terminator included.
pub const ISA_LENGTH: usize = 106;

/// The separators an interchange declares.
#[derive(Clone, Copy, Debug)]
pub struct Separators {
    pub element: char,
    pub component: char,
    pub terminator: char,
}

/// One segment: a tag and its elements, each a list of components.
#[derive(Clone, Debug, PartialEq, Eq)]
pub struct Segment {
    pub tag: String,
    pub elements: Vec<Vec<String>>,
}

/// The text of a segment.
pub struct SegmentView {
    pub tag: Seq<char>,
    pub elements: Seq<Seq<Seq<char>>>,
}

impl SegmentView {
    /// The components of element `index`, counted from one, or none.
    pub open spec fn element(self, index: int) -> Seq<Seq<char>> {
        if 1 <= index <= self.elements.len() {
            self.elements[index - 1]
        } else {
            Seq::empty()
        }
    }

    /// The first component of element `index`, trimmed, or empty.
    pub open spec fn simple(self, index: int) -> Seq<char> {
        if self.element(index).len() > 0 {
            text::trim(self.element(index)[0])
        } else {
            Seq::empty()
        }
    }
}

/// The texts of a segment's elements.
pub open spec fn element_views(elements: Seq<Vec<String>>) -> Seq<Seq<Seq<char>>> {
    Seq::new(elements.len(), |i: int| text::texts(elements[i]@))
}

impl View for Segment {
    type V = SegmentView;

    open spec fn view(&self) -> SegmentView {
        SegmentView { tag: self.tag@, elements: element_views(self.elements@) }
    }
}

/// The texts of a sequence of segments.
pub open spec fn segment_views(segments: Seq<Segment>) -> Seq<SegmentView> {
    Seq::new(segments.len(), |i: int| segments[i]@)
}

impl Segment {
    /// The components of element `index` (1-based, after the tag), or none.
    #[must_use]
    pub fn element(&self, index: usize) -> (r: &[String])
        requires
            index >= 1,
        ensures
            text::texts(r@) == self@.element(index as int),
    {
        if index <= self.elements.len() {
            self.elements[index - 1].as_slice()
        } else {
            &[]
        }
    }

    /// The first component of element `index`, trimmed, or empty.
    #[must_use]
    pub fn simple(&self, index: usize) -> (r: &str)
        requires
            index >= 1,
        ensures
            r@ == self@.simple(index as int),
    {
        let components = self.element(index);
        if components.len() > 0 {
            assert(text::texts(components@)[0] == components@[0]@);
            trimmed(components[0].as_str())
        } else {
            proof {
                reveal_strlit("");
            }
            ""
        }
    }
}

// --- reading ---------------------------------------------------------------

/// The segments of a text that was split at its terminators, as they stand:
/// each piece without the line breaks before it, none that is then empty.
pub open spec fn raw_segments(pieces: Seq<Seq<char>>) -> Seq<Seq<char>>
    decreases pieces.len(),
{
    if pieces.len() == 0 {
        Seq::empty()
    } else {
        let before = raw_segments(pieces.drop_last());
        let raw = text::trim_breaks(pieces.last());
        if raw.len() == 0 {
            before
        } else {
            before.push(raw)
        }
    }
}

/// The tag of a raw segment: what stands before the first element separator.
pub open spec fn tag_of(raw: Seq<char>, s: Separators) -> Seq<char> {
    text::split(raw, s.element)[0]
}

/// A raw segment taken apart.
pub open spec fn segment_of(raw: Seq<char>, s: Separators) -> SegmentView {
    let parts = text::split(raw, s.element);
    SegmentView {
        tag: parts[0],
        elements: Seq::new(
            (parts.len() - 1) as nat,
            |i: int| text::split(parts[i + 1], s.component),
        ),
    }
}

/// Every raw segment taken apart.
pub open spec fn segments_of(raws: Seq<Seq<char>>, s: Separators) -> Seq<SegmentView> {
    Seq::new(raws.len(), |i: int| segment_of(raws[i], s))
}

/// Two or three upper case letters and digits.
pub open spec fn segment_identifier(tag: Seq<char>) -> bool {
    &&& 2 <= tag.len() <= 3
    &&& forall|i: int| 0 <= i < tag.len() ==> 'A' <= #[trigger] tag[i] <= 'Z' || text::digit(tag[i])
}

/// The first tag that is not a segment identifier.
pub open spec fn first_refused(raws: Seq<Seq<char>>, s: Separators) -> Option<Seq<char>>
    decreases raws.len(),
{
    if raws.len() == 0 {
        None
    } else {
        let before = first_refused(raws.drop_last(), s);
        let tag = tag_of(raws.last(), s);
        if before is None && !segment_identifier(tag) {
            Some(tag)
        } else {
            before
        }
    }
}

/// A text that says something and does not end with `terminator`, white space
/// after it aside.
pub open spec fn unterminated(text: Seq<char>, terminator: char) -> bool {
    let tail = text::trim_end_but(text, terminator);
    tail.len() > 0 && tail.last() != terminator
}

/// What a text reads as with given separators: its segments, or what is wrong
/// with it.
pub open spec fn read(text: Seq<char>, s: Separators) -> Result<Seq<SegmentView>, Seq<char>> {
    let raws = raw_segments(text::split(text, s.terminator));
    match first_refused(raws, s) {
        Some(tag) => Err(text::quoted(tag) + " is not a segment identifier"@),
        None => if unterminated(text, s.terminator) {
            Err("the last segment has no terminator"@)
        } else {
            Ok(segments_of(raws, s))
        },
    }
}

/// A refused tag stays the first one whatever follows it.
pub proof fn lemma_first_refused_stays(pieces: Seq<Seq<char>>, n: int, s: Separators)
    requires
        0 <= n <= pieces.len(),
        first_refused(raw_segments(pieces.take(n)), s) is Some,
    ensures
        first_refused(raw_segments(pieces), s) == first_refused(raw_segments(pieces.take(n)), s),
    decreases pieces.len(),
{
    if n == pieces.len() {
        assert(pieces.take(n) =~= pieces);
    } else {
        let init = pieces.drop_last();
        assert(init.take(n) =~= pieces.take(n));
        lemma_first_refused_stays(init, n, s);
        let before = raw_segments(init);
        let raw = text::trim_breaks(pieces.last());
        assert(before.push(raw).drop_last() =~= before);
    }
}

/// Whether `tag` is two or three upper case letters and digits.
fn is_segment_identifier(tag: &str) -> (r: bool)
    ensures
        r == segment_identifier(tag@),
{
    let chars = chars_of(tag);
    if chars.len() < 2 || 3 < chars.len() {
        return false;
    }
    for i in 0..chars.len()
        invariant
            chars@ == tag@,
            forall|j: int| 0 <= j < i ==> 'A' <= #[trigger] tag@[j] <= 'Z' || text::digit(tag@[j]),
    {
        let c = chars[i];
        if !('A' <= c && c <= 'Z' || '0' <= c && c <= '9') {
            assert(!('A' <= tag@[i as int] <= 'Z' || text::digit(tag@[i as int])));
            return false;
        }
    }
    true
}

/// The issue of a tag that is not a segment identifier, shown as `shown`.
pub fn not_an_identifier(shown: &str) -> (r: ValidationIssue)
    ensures
        r@ == contract::malformed_issue(shown@ + " is not a segment identifier"@),
{
    let mut message = shown.to_owned();
    message.append(" is not a segment identifier");
    malformed(message.as_str())
}

/// A raw segment taken apart.
fn segment(raw: &str, s: Separators) -> (r: Segment)
    ensures
        r@ == segment_of(raw@, s),
{
    let parts = pieces(raw, s.element);
    let ghost views = text::split(raw@, s.element);
    let mut elements: Vec<Vec<String>> = Vec::new();
    for i in 1..parts.len()
        invariant
            text::texts(parts@) == views,
            views == text::split(raw@, s.element),
            elements@.len() == i - 1,
            forall|j: int|
                0 <= j < i - 1 ==> text::texts(#[trigger] elements@[j]@) == text::split(
                    views[j + 1],
                    s.component,
                ),
    {
        assert(views[i as int] == parts@[i as int]@);
        elements.push(pieces(parts[i].as_str(), s.component));
    }
    assert(views[0] == parts@[0]@);
    let r = Segment { tag: parts[0].clone(), elements };
    assert(r@.elements =~= segment_of(raw@, s).elements);
    r
}

/// The segments of `text`, read with the separators `s`.
///
/// # Errors
/// The one `malformed` issue: the first tag that is not a segment identifier,
/// else a last segment without terminator.
pub fn segments(text: &str, s: Separators) -> (r: Result<Vec<Segment>, ValidationIssue>)
    ensures
        match read(text@, s) {
            Ok(views) => r matches Ok(segments) && segment_views(segments@) == views,
            Err(message) => r matches Err(issue) && issue@ == contract::malformed_issue(message),
        },
{
    let parts = pieces(text, s.terminator);
    let ghost views = text::split(text@, s.terminator);
    let mut segments: Vec<Segment> = Vec::new();
    for i in 0..parts.len()
        invariant
            text::texts(parts@) == views,
            views == text::split(text@, s.terminator),
            first_refused(raw_segments(views.take(i as int)), s) is None,
            segment_views(segments@) == segments_of(raw_segments(views.take(i as int)), s),
    {
        let ghost before = raw_segments(views.take(i as int));
        assert(views.take(i + 1).drop_last() =~= views.take(i as int));
        assert(views[i as int] == parts@[i as int]@);
        let raw = without_breaks(parts[i].as_str());
        if !raw.is_empty() {
            assert(before.push(raw@).drop_last() =~= before);
            let read = segment(raw, s);
            if !is_segment_identifier(read.tag.as_str()) {
                proof {
                    lemma_first_refused_stays(views, i + 1, s);
                }
                return Err(not_an_identifier(quote(read.tag.as_str()).as_str()));
            }
            let ghost done = segment_views(segments@);
            segments.push(read);
            assert(segment_views(segments@) =~= done.push(read@));
            assert(segments_of(before.push(raw@), s) =~= segments_of(before, s).push(
                segment_of(raw@, s),
            ));
        }
    }
    assert(views.take(parts.len() as int) =~= views);
    let tail = chars_of(trimmed_end_but(text, s.terminator));
    if tail.len() > 0 && tail[tail.len() - 1] != s.terminator {
        return Err(malformed("the last segment has no terminator"));
    }
    Ok(segments)
}

/// The separators that the `ISA` at the head of `text` declares.
pub open spec fn declared(text: Seq<char>) -> Separators {
    Separators { element: text[3], component: text[104], terminator: text[105] }
}

/// Separators that tell segments and elements apart.
pub open spec fn distinct(s: Separators) -> bool {
    &&& s.element != s.terminator
    &&& !text::alphanumeric(s.element)
    &&& !text::alphanumeric(s.terminator)
}

/// What an interchange holds.
pub struct InterchangeView {
    pub separators: Separators,
    pub segments: Seq<SegmentView>,
}

/// What a text reads as: an interchange, or what is wrong with it.
pub open spec fn interchange(text: Seq<char>) -> Result<InterchangeView, Seq<char>> {
    let text = text::trim_start(text);
    let separators = declared(text);
    if !"ISA"@.is_prefix_of(text) {
        Err("the interchange does not open with ISA"@)
    } else if text.len() < ISA_LENGTH {
        Err("ISA is shorter than its 106 characters"@)
    } else if !distinct(separators) {
        Err("ISA does not declare distinct separators"@)
    } else {
        match read(text, separators) {
            Err(message) => Err(message),
            Ok(segments) => if segments.len() == 0 {
                Err("no segment"@)
            } else {
                Ok(InterchangeView { separators, segments })
            },
        }
    }
}

// --- soundness -------------------------------------------------------------

/// Where segment `n`, counted from zero, stands.
pub open spec fn place(segments: Seq<SegmentView>, n: int) -> Seq<char> {
    "segment "@ + text::decimal((n + 1) as nat) + " ("@ + segments[n].tag + ")"@
}

/// How many of the first `n` segments have the tag.
pub open spec fn tally(segments: Seq<SegmentView>, n: int, tag: Seq<char>) -> nat
    decreases n,
{
    if n <= 0 {
        0
    } else if segments[n - 1].tag == tag {
        tally(segments, n - 1, tag) + 1
    } else {
        tally(segments, n - 1, tag)
    }
}

/// The opening segment that is in force before segment `n`: the nearest
/// `opener`, if no `closer` has come since.
pub open spec fn open_at(
    segments: Seq<SegmentView>,
    n: int,
    opener: Seq<char>,
    closer: Seq<char>,
) -> Option<int>
    decreases n,
{
    if n <= 0 {
        None
    } else if segments[n - 1].tag == opener {
        Some(n - 1)
    } else if segments[n - 1].tag == closer {
        None
    } else {
        open_at(segments, n - 1, opener, closer)
    }
}

/// The set that is open before segment `n`.
pub open spec fn open_set(segments: Seq<SegmentView>, n: int) -> Option<int> {
    open_at(segments, n, "ST"@, "SE"@)
}

/// The group that is open before segment `n`.
pub open spec fn open_group(segments: Seq<SegmentView>, n: int) -> Option<int> {
    open_at(segments, n, "GS"@, "GE"@)
}

/// The issue at segment `n` unless `holds`.
pub open spec fn unless(
    holds: bool,
    message: Seq<char>,
    segments: Seq<SegmentView>,
    n: int,
) -> Seq<IssueView> {
    if holds {
        Seq::empty()
    } else {
        seq![contract::envelope_issue(message, place(segments, n))]
    }
}

/// What is wrong with the `ST` at `n`: it stands inside a set.
pub open spec fn st_issues(segments: Seq<SegmentView>, n: int) -> Seq<IssueView> {
    match open_set(segments, n) {
        None => Seq::empty(),
        Some(start) => unless(
            false,
            "ST inside the set opened at segment "@ + text::decimal((start + 1) as nat),
            segments,
            n,
        ),
    }
}

/// What is wrong with the `SE` at `n`: no set is open, or it does not count
/// the segments of the set, or it does not repeat the set's control number.
pub open spec fn se_issues(segments: Seq<SegmentView>, n: int) -> Seq<IssueView> {
    let se = segments[n];
    match open_set(segments, n) {
        None => unless(false, "SE with no set open"@, segments, n),
        Some(start) => {
            let st = segments[start];
            let counted = (n - start + 1) as nat;
            unless(
                text::count(se.simple(1)) == Some(counted),
                "SE counts "@ + se.simple(1) + " segments, the set has "@ + text::decimal(counted),
                segments,
                n,
            ) + unless(
                se.simple(2) == st.simple(2),
                "SE closes "@ + se.simple(2) + ", ST opened "@ + st.simple(2),
                segments,
                n,
            )
        },
    }
}

/// What is wrong with the `GS` at `n`: it stands inside a group.
pub open spec fn gs_issues(segments: Seq<SegmentView>, n: int) -> Seq<IssueView> {
    unless(open_group(segments, n) is None, "GS inside an open group"@, segments, n)
}

/// How many sets were opened from segment `start` up to segment `n`.
pub open spec fn sets_between(segments: Seq<SegmentView>, start: int, n: int) -> nat {
    (tally(segments, n, "ST"@) - tally(segments, start, "ST"@)) as nat
}

/// What is wrong with the `GE` at `n`: no group is open, or it does not count
/// the sets of the group, or it does not repeat the group's control number, or
/// a set is still open.
pub open spec fn ge_issues(segments: Seq<SegmentView>, n: int) -> Seq<IssueView> {
    let ge = segments[n];
    match open_group(segments, n) {
        None => unless(false, "GE with no group open"@, segments, n),
        Some(start) => {
            let gs = segments[start];
            let counted = sets_between(segments, start, n);
            unless(
                text::count(ge.simple(1)) == Some(counted),
                "GE counts "@ + ge.simple(1) + " sets, the group has "@ + text::decimal(counted),
                segments,
                n,
            ) + unless(
                ge.simple(2) == gs.simple(6),
                "GE closes "@ + ge.simple(2) + ", GS opened "@ + gs.simple(6),
                segments,
                n,
            ) + match open_set(segments, n) {
                None => Seq::empty(),
                Some(set) => unless(
                    false,
                    "GE inside the set opened at segment "@ + text::decimal((set + 1) as nat),
                    segments,
                    n,
                ),
            }
        },
    }
}

/// What is wrong with the `IEA` at `n`: it does not count the groups before
/// it, or it does not repeat the interchange's control number.
pub open spec fn iea_issues(segments: Seq<SegmentView>, n: int) -> Seq<IssueView> {
    let isa = segments[0];
    let iea = segments[n];
    let groups = tally(segments, n, "GS"@);
    unless(
        text::count(iea.simple(1)) == Some(groups),
        "IEA counts "@ + iea.simple(1) + " groups, the interchange has "@ + text::decimal(groups),
        segments,
        n,
    ) + unless(
        iea.simple(2) == isa.simple(13),
        "IEA closes "@ + iea.simple(2) + ", ISA opened "@ + isa.simple(13),
        segments,
        n,
    )
}

/// What is wrong with segment `n`.
pub open spec fn issues_at(segments: Seq<SegmentView>, n: int) -> Seq<IssueView> {
    let tag = segments[n].tag;
    if tag == "ST"@ {
        st_issues(segments, n)
    } else if tag == "SE"@ {
        se_issues(segments, n)
    } else if tag == "GS"@ {
        gs_issues(segments, n)
    } else if tag == "GE"@ {
        ge_issues(segments, n)
    } else if tag == "IEA"@ {
        iea_issues(segments, n)
    } else {
        Seq::empty()
    }
}

/// What is wrong with the first `n` segments, in their order.
pub open spec fn issues_before(segments: Seq<SegmentView>, n: int) -> Seq<IssueView>
    decreases n,
{
    if n <= 0 {
        Seq::empty()
    } else {
        issues_before(segments, n - 1) + issues_at(segments, n - 1)
    }
}

/// The issue of an opening segment that is still open at the end.
pub open spec fn never_closed(
    open: Option<int>,
    message: Seq<char>,
    segments: Seq<SegmentView>,
) -> Seq<IssueView> {
    match open {
        None => Seq::empty(),
        Some(start) => unless(false, message, segments, start),
    }
}

/// Every departure of the envelope segments from X12, in the order in which
/// they are named.
pub open spec fn departures(segments: Seq<SegmentView>) -> Seq<IssueView> {
    let n = segments.len() as int;
    unless(
        segments[n - 1].tag == "IEA"@,
        "the interchange does not close with IEA"@,
        segments,
        n - 1,
    ) + issues_before(segments, n) + never_closed(
        open_set(segments, n),
        "the set is never closed by SE"@,
        segments,
    ) + never_closed(open_group(segments, n), "the group is never closed by GE"@, segments)
}

/// An optional index as a mathematical one.
pub open spec fn index_of(index: Option<usize>) -> Option<int> {
    match index {
        Some(index) => Some(index as int),
        None => None,
    }
}

/// Where segment `n` stands.
fn at(segments: &[Segment], n: usize) -> (r: String)
    requires
        n < segments@.len(),
    ensures
        r@ == place(segment_views(segments@), n as int),
{
    let mut r = "segment ".to_owned();
    assert(n < segments.len());
    r.append(decimal_text(n + 1).as_str());
    r.append(" (");
    r.append(segments[n].tag.as_str());
    r.append(")");
    r
}

/// Names a departure of segment `n`.
fn report(issues: &mut Vec<ValidationIssue>, segments: &[Segment], n: usize, message: &str)
    requires
        n < segments@.len(),
    ensures
        contract::issue_views(final(issues)@) == contract::issue_views(old(issues)@) + unless(
            false,
            message@,
            segment_views(segments@),
            n as int,
        ),
{
    let ghost before = contract::issue_views(issues@);
    issues.push(envelope(message, at(segments, n).as_str()));
    assert(contract::issue_views(issues@) =~= before + unless(
        false,
        message@,
        segment_views(segments@),
        n as int,
    ));
}

/// Names what is wrong with the `ST` at `n`, given the set that is open.
fn check_st(issues: &mut Vec<ValidationIssue>, segments: &[Segment], n: usize, open: Option<usize>)
    requires
        n < segments@.len(),
        index_of(open) == open_set(segment_views(segments@), n as int),
        open matches Some(start) ==> start < n,
    ensures
        contract::issue_views(final(issues)@) == contract::issue_views(old(issues)@) + st_issues(
            segment_views(segments@),
            n as int,
        ),
{
    if let Some(start) = open {
        let mut message = "ST inside the set opened at segment ".to_owned();
        message.append(decimal_text(start + 1).as_str());
        report(issues, segments, n, message.as_str());
    }
}

/// What a closing segment says, and what it should have said.
fn phrase(closer: &str, said: &str, opener: &str, due: &str) -> (r: String)
    ensures
        r@ == closer@ + said@ + opener@ + due@,
{
    let mut message = closer.to_owned();
    message.append(said);
    message.append(opener);
    message.append(due);
    message
}

/// Names what is wrong with the `SE` at `n`, given the set that is open.
fn check_se(issues: &mut Vec<ValidationIssue>, segments: &[Segment], n: usize, open: Option<usize>)
    requires
        n < segments@.len(),
        index_of(open) == open_set(segment_views(segments@), n as int),
        open matches Some(start) ==> start < n,
    ensures
        contract::issue_views(final(issues)@) == contract::issue_views(old(issues)@) + se_issues(
            segment_views(segments@),
            n as int,
        ),
{
    let ghost before = contract::issue_views(issues@);
    let se = &segments[n];
    match open {
        Some(start) => {
            let st = &segments[start];
            let counted: usize = n - start + 1;
            if read_count(se.simple(1)) != Some(counted) {
                let message = phrase(
                    "SE counts ",
                    se.simple(1),
                    " segments, the set has ",
                    decimal_text(counted).as_str(),
                );
                report(issues, segments, n, message.as_str());
            }
            if !same(se.simple(2), st.simple(2)) {
                let message = phrase("SE closes ", se.simple(2), ", ST opened ", st.simple(2));
                report(issues, segments, n, message.as_str());
            }
            assert(contract::issue_views(issues@) =~= before + se_issues(
                segment_views(segments@),
                n as int,
            ));
        },
        None => report(issues, segments, n, "SE with no set open"),
    }
}

/// Names what is wrong with the `GS` at `n`, given the group that is open.
fn check_gs(issues: &mut Vec<ValidationIssue>, segments: &[Segment], n: usize, open: Option<usize>)
    requires
        n < segments@.len(),
        index_of(open) == open_group(segment_views(segments@), n as int),
    ensures
        contract::issue_views(final(issues)@) == contract::issue_views(old(issues)@) + gs_issues(
            segment_views(segments@),
            n as int,
        ),
{
    if open.is_some() {
        report(issues, segments, n, "GS inside an open group");
    }
}

/// Names what is wrong with the `GE` at `n`, given the group that is open, how
/// many sets it has, and the set that is open.
fn check_ge(
    issues: &mut Vec<ValidationIssue>,
    segments: &[Segment],
    n: usize,
    open: Option<usize>,
    counted: usize,
    set: Option<usize>,
)
    requires
        n < segments@.len(),
        index_of(set) == open_set(segment_views(segments@), n as int),
        set matches Some(set) ==> set < n,
        index_of(open) == open_group(segment_views(segments@), n as int),
        open matches Some(start) ==> start < n && counted == sets_between(
            segment_views(segments@),
            start as int,
            n as int,
        ),
    ensures
        contract::issue_views(final(issues)@) == contract::issue_views(old(issues)@) + ge_issues(
            segment_views(segments@),
            n as int,
        ),
{
    let ghost before = contract::issue_views(issues@);
    let ge = &segments[n];
    match open {
        Some(start) => {
            let gs = &segments[start];
            if read_count(ge.simple(1)) != Some(counted) {
                let message = phrase(
                    "GE counts ",
                    ge.simple(1),
                    " sets, the group has ",
                    decimal_text(counted).as_str(),
                );
                report(issues, segments, n, message.as_str());
            }
            if !same(ge.simple(2), gs.simple(6)) {
                let message = phrase("GE closes ", ge.simple(2), ", GS opened ", gs.simple(6));
                report(issues, segments, n, message.as_str());
            }
            if let Some(set) = set {
                let mut message = "GE inside the set opened at segment ".to_owned();
                message.append(decimal_text(set + 1).as_str());
                report(issues, segments, n, message.as_str());
            }
            assert(contract::issue_views(issues@) =~= before + ge_issues(
                segment_views(segments@),
                n as int,
            ));
        },
        None => report(issues, segments, n, "GE with no group open"),
    }
}

/// Names what is wrong with the `IEA` at `n`, given the number of groups
/// before it.
fn check_iea(issues: &mut Vec<ValidationIssue>, segments: &[Segment], n: usize, groups: usize)
    requires
        n < segments@.len(),
        groups == tally(segment_views(segments@), n as int, "GS"@),
    ensures
        contract::issue_views(final(issues)@) == contract::issue_views(old(issues)@) + iea_issues(
            segment_views(segments@),
            n as int,
        ),
{
    let ghost before = contract::issue_views(issues@);
    let isa = &segments[0];
    let iea = &segments[n];
    if read_count(iea.simple(1)) != Some(groups) {
        let message = phrase(
            "IEA counts ",
            iea.simple(1),
            " groups, the interchange has ",
            decimal_text(groups).as_str(),
        );
        report(issues, segments, n, message.as_str());
    }
    if !same(iea.simple(2), isa.simple(13)) {
        let message = phrase("IEA closes ", iea.simple(2), ", ISA opened ", isa.simple(13));
        report(issues, segments, n, message.as_str());
    }
    assert(contract::issue_views(issues@) =~= before + iea_issues(
        segment_views(segments@),
        n as int,
    ));
}

/// The tags of the envelope differ.
pub proof fn lemma_tags_differ()
    ensures
        "ST"@ != "SE"@,
        "ST"@ != "GS"@,
        "ST"@ != "GE"@,
        "ST"@ != "IEA"@,
        "SE"@ != "GS"@,
        "SE"@ != "GE"@,
        "SE"@ != "IEA"@,
        "GS"@ != "GE"@,
        "GS"@ != "IEA"@,
        "GE"@ != "IEA"@,
{
    reveal_strlit("ST");
    reveal_strlit("SE");
    reveal_strlit("GS");
    reveal_strlit("GE");
    reveal_strlit("IEA");
    assert("ST"@[0] == 'S' && "ST"@[1] == 'T');
    assert("SE"@[0] == 'S' && "SE"@[1] == 'E');
    assert("GS"@[0] == 'G' && "GS"@[1] == 'S');
    assert("GE"@[0] == 'G' && "GE"@[1] == 'E');
}

/// What is open was opened before.
pub proof fn lemma_open_at_is_before(
    segments: Seq<SegmentView>,
    n: int,
    opener: Seq<char>,
    closer: Seq<char>,
)
    requires
        n <= segments.len(),
    ensures
        open_at(segments, n, opener, closer) matches Some(start) ==> 0 <= start < n
            && segments[start].tag == opener,
    decreases n,
{
    if n > 0 && segments[n - 1].tag != opener && segments[n - 1].tag != closer {
        lemma_open_at_is_before(segments, n - 1, opener, closer);
    }
}

/// No more segments have a tag than there are, and counting on only adds.
pub proof fn lemma_tally_grows(segments: Seq<SegmentView>, m: int, n: int, tag: Seq<char>)
    requires
        0 <= m <= n,
    ensures
        tally(segments, m, tag) <= tally(segments, n, tag) <= n,
    decreases n,
{
    if n > m {
        lemma_tally_grows(segments, m, n - 1, tag);
    } else if n > 0 {
        lemma_tally_grows(segments, m - 1, n - 1, tag);
    }
}

// --- transaction sets ------------------------------------------------------

/// A transaction set: its ordinal, its `ST`, and the `GS` in force at it.
pub struct SetView {
    pub ordinal: nat,
    pub header: SegmentView,
    pub group: Option<SegmentView>,
}

/// The `GS` in force before segment `n`: that of the open group.
pub open spec fn group_in_force(segments: Seq<SegmentView>, n: int) -> Option<SegmentView> {
    match open_group(segments, n) {
        Some(start) => Some(segments[start]),
        None => None,
    }
}

/// The transaction sets that the first `n` segments open.
pub open spec fn sets_before(segments: Seq<SegmentView>, n: int) -> Seq<SetView>
    decreases n,
{
    if n <= 0 {
        Seq::empty()
    } else if segments[n - 1].tag == "ST"@ {
        sets_before(segments, n - 1).push(
            SetView {
                ordinal: tally(segments, n, "ST"@),
                header: segments[n - 1],
                group: group_in_force(segments, n - 1),
            },
        )
    } else {
        sets_before(segments, n - 1)
    }
}

/// Every transaction set, numbered from one.
pub open spec fn sets(segments: Seq<SegmentView>) -> Seq<SetView> {
    sets_before(segments, segments.len() as int)
}

/// The text of an optional segment.
pub open spec fn segment_view(segment: Option<&Segment>) -> Option<SegmentView> {
    match segment {
        Some(segment) => Some(segment@),
        None => None,
    }
}

/// The texts of transaction sets.
pub open spec fn set_views(sets: Seq<(usize, &Segment, Option<&Segment>)>) -> Seq<SetView> {
    Seq::new(
        sets.len(),
        |i: int|
            SetView {
                ordinal: sets[i].0 as nat,
                header: sets[i].1@,
                group: segment_view(sets[i].2),
            },
    )
}

/// A read interchange.
pub struct Interchange {
    separators: Separators,
    segments: Vec<Segment>,
}

impl View for Interchange {
    type V = InterchangeView;

    closed spec fn view(&self) -> InterchangeView {
        InterchangeView { separators: self.separators, segments: segment_views(self.segments@) }
    }
}

impl Interchange {
    /// There is at least one segment.
    #[verifier::type_invariant]
    spec fn well_formed(self) -> bool {
        self.segments@.len() > 0
    }

    /// Read `text` with the separators its `ISA` declares.
    ///
    /// # Errors
    /// The one `malformed` issue when the text is not an interchange at all.
    pub fn parse(text: &str) -> (r: Result<Self, ValidationIssue>)
        ensures
            match interchange(text@) {
                Ok(view) => r matches Ok(read) && read@ == view,
                Err(message) => r matches Err(issue) && issue@ == contract::malformed_issue(
                    message,
                ),
            },
    {
        let text = trimmed_start(text);
        if !starts_with(text, "ISA") {
            return Err(malformed("the interchange does not open with ISA"));
        }
        let head = chars_of(text);
        if head.len() < ISA_LENGTH {
            return Err(malformed("ISA is shorter than its 106 characters"));
        }
        let separators = Separators {
            element: head[3],
            component: head[104],
            terminator: head[105],
        };
        if separators.element == separators.terminator || separators.element.is_alphanumeric()
            || separators.terminator.is_alphanumeric() {
            return Err(malformed("ISA does not declare distinct separators"));
        }
        match segments(text, separators) {
            Ok(segments) => {
                if segments.len() == 0 {
                    return Err(malformed("no segment"));
                }
                Ok(Interchange { separators, segments })
            },
            Err(issue) => Err(issue),
        }
    }

    /// The separators the interchange declares.
    #[must_use]
    pub fn separators(&self) -> (r: Separators)
        ensures
            r == self@.separators,
    {
        self.separators
    }

    /// The segments, in their order.
    #[must_use]
    pub fn segments(&self) -> (r: &[Segment])
        ensures
            segment_views(r@) == self@.segments,
    {
        self.segments.as_slice()
    }

    /// Every `ST`, numbered from 1, with the `GS` in force at it.
    #[must_use]
    pub fn transaction_sets(&self) -> (r: Vec<(usize, &Segment, Option<&Segment>)>)
        ensures
            set_views(r@) == sets(self@.segments),
    {
        let segments = self.segments.as_slice();
        let ghost views = segment_views(segments@);
        let mut sets: Vec<(usize, &Segment, Option<&Segment>)> = Vec::new();
        let mut group: Option<&Segment> = None;
        let mut ordinal: usize = 0;
        for n in 0..segments.len()
            invariant
                views == segment_views(segments@),
                segment_view(group) == group_in_force(views, n as int),
                ordinal == tally(views, n as int, "ST"@),
                set_views(sets@) == sets_before(views, n as int),
        {
            proof {
                lemma_tags_differ();
                lemma_tally_grows(views, 0, n as int, "ST"@);
                assert(views[n as int] == segments@[n as int]@);
                assert(n < segments.len());
            }
            let segment = &segments[n];
            if same(segment.tag.as_str(), "GS") {
                group = Some(segment);
            } else if same(segment.tag.as_str(), "GE") {
                group = None;
            }
            if same(segment.tag.as_str(), "ST") {
                ordinal += 1;
                sets.push((ordinal, segment, group));
                assert(set_views(sets@) =~= sets_before(views, n + 1));
            }
        }
        sets
    }

    /// Every departure of the envelope segments from X12.
    #[must_use]
    pub fn soundness(&self) -> (r: Vec<ValidationIssue>)
        ensures
            contract::issue_views(r@) == departures(self@.segments),
    {
        proof {
            use_type_invariant(self);
        }
        let segments = self.segments.as_slice();
        let ghost views = segment_views(segments@);
        let mut issues: Vec<ValidationIssue> = Vec::new();
        let last: usize = segments.len() - 1;
        if !same(segments[last].tag.as_str(), "IEA") {
            report(&mut issues, segments, last, "the interchange does not close with IEA");
        }
        let ghost opening = contract::issue_views(issues@);
        let mut set: Option<usize> = None;
        let mut group: Option<usize> = None;
        let mut sets: usize = 0;
        let mut sets_before_group: usize = 0;
        let mut groups: usize = 0;
        for n in 0..segments.len()
            invariant
                views == segment_views(segments@),
                index_of(set) == open_set(views, n as int),
                index_of(group) == open_group(views, n as int),
                sets == tally(views, n as int, "ST"@),
                groups == tally(views, n as int, "GS"@),
                group matches Some(start) ==> sets_before_group == tally(
                    views,
                    start as int,
                    "ST"@,
                ),
                contract::issue_views(issues@) == opening + issues_before(views, n as int),
        {
            proof {
                lemma_tags_differ();
                lemma_open_at_is_before(views, n as int, "ST"@, "SE"@);
                lemma_open_at_is_before(views, n as int, "GS"@, "GE"@);
                lemma_tally_grows(views, 0, n as int, "ST"@);
                lemma_tally_grows(views, 0, n as int, "GS"@);
                if let Some(start) = group {
                    lemma_tally_grows(views, start as int, n as int, "ST"@);
                }
                assert(views[n as int].tag == segments@[n as int].tag@);
                assert(n < segments.len());
            }
            let ghost before = contract::issue_views(issues@);
            let tag = segments[n].tag.as_str();
            if same(tag, "ST") {
                check_st(&mut issues, segments, n, set);
                set = Some(n);
                sets += 1;
            } else if same(tag, "SE") {
                check_se(&mut issues, segments, n, set);
                set = None;
            } else if same(tag, "GS") {
                check_gs(&mut issues, segments, n, group);
                group = Some(n);
                sets_before_group = sets;
                groups += 1;
            } else if same(tag, "GE") {
                let counted: usize = if group.is_some() {
                    sets - sets_before_group
                } else {
                    0
                };
                check_ge(&mut issues, segments, n, group, counted, set);
                group = None;
            } else if same(tag, "IEA") {
                check_iea(&mut issues, segments, n, groups);
            }
            assert(contract::issue_views(issues@) =~= before + issues_at(views, n as int));
            assert(opening + issues_before(views, n + 1) =~= before + issues_at(views, n as int));
        }
        proof {
            lemma_open_at_is_before(views, views.len() as int, "ST"@, "SE"@);
            lemma_open_at_is_before(views, views.len() as int, "GS"@, "GE"@);
        }
        if let Some(start) = set {
            report(&mut issues, segments, start, "the set is never closed by SE");
        }
        if let Some(start) = group {
            report(&mut issues, segments, start, "the group is never closed by GE");
        }
        assert(contract::issue_views(issues@) =~= departures(views));
        issues
    }
}

}
