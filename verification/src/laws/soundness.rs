//! Soundness: what it means that an interchange has no departures, and where
//! a departure is said to be.

use vstd::prelude::*;

use crate::contract;
use crate::contract::IssueView;
use crate::syntax;
use crate::syntax::SegmentView;
use crate::text;

verus! {

/// How many segments from `from` up to `to` have the tag.
pub open spec fn number_of(
    segments: Seq<SegmentView>,
    from: int,
    to: int,
    tag: Seq<char>,
) -> nat {
    segments.subrange(from, to).filter(|segment: SegmentView| segment.tag == tag).len()
}

/// There are none in no segments, and one more with each segment that has the
/// tag.
pub proof fn law_number_of(segments: Seq<SegmentView>, from: int, to: int, tag: Seq<char>)
    requires
        0 <= from <= to <= segments.len(),
    ensures
        number_of(segments, from, from, tag) == 0,
        to < segments.len() ==> number_of(segments, from, to + 1, tag) == number_of(
            segments,
            from,
            to,
            tag,
        ) + if segments[to].tag == tag {
            1nat
        } else {
            0nat
        },
{
    reveal(Seq::filter);
    assert(segments.subrange(from, from).len() == 0);
    if to < segments.len() {
        let more = segments.subrange(from, to + 1);
        assert(more.drop_last() =~= segments.subrange(from, to));
        assert(more.last() == segments[to]);
    }
}

/// The tallies of the first segments differ by the number between.
pub proof fn lemma_tally(segments: Seq<SegmentView>, from: int, to: int, tag: Seq<char>)
    requires
        0 <= from <= to <= segments.len(),
    ensures
        syntax::tally(segments, to, tag) == syntax::tally(segments, from, tag) + number_of(
            segments,
            from,
            to,
            tag,
        ),
    decreases to,
{
    if from < to {
        lemma_tally(segments, from, to - 1, tag);
        law_number_of(segments, from, to - 1, tag);
    } else {
        law_number_of(segments, from, to, tag);
    }
}

/// The sets counted from a `GS` on are those after it.
pub proof fn lemma_sets_between(segments: Seq<SegmentView>, start: int, n: int)
    requires
        0 <= start < n <= segments.len(),
        segments[start].tag == "GS"@,
    ensures
        syntax::sets_between(segments, start, n) == number_of(segments, start + 1, n, "ST"@),
{
    syntax::lemma_tags_differ();
    lemma_tally(segments, start + 1, n, "ST"@);
    assert(syntax::tally(segments, start + 1, "ST"@) == syntax::tally(segments, start, "ST"@));
}

/// The segment at `end` closes what the one at `start` opened: neither tag
/// stands between them.
pub open spec fn closes(
    segments: Seq<SegmentView>,
    start: int,
    end: int,
    opener: Seq<char>,
    closer: Seq<char>,
) -> bool {
    &&& 0 <= start < end < segments.len()
    &&& segments[start].tag == opener
    &&& segments[end].tag == closer
    &&& forall|i: int|
        start < i < end ==> (#[trigger] segments[i]).tag != opener && segments[i].tag != closer
}

/// Every opener is closed, and every closer closes one.
pub open spec fn paired(segments: Seq<SegmentView>, opener: Seq<char>, closer: Seq<char>) -> bool {
    &&& forall|start: int|
        0 <= start < segments.len() && (#[trigger] segments[start]).tag == opener ==> exists|
            end: int,
        |
            closes(segments, start, end, opener, closer)
    &&& forall|end: int|
        0 <= end < segments.len() && (#[trigger] segments[end]).tag == closer ==> exists|start: int|
            closes(segments, start, end, opener, closer)
}

/// Every `ST` is closed by an `SE` with the same control number and the right
/// segment count, and no group is closed between them.
pub open spec fn sets_sound(segments: Seq<SegmentView>) -> bool {
    &&& paired(segments, "ST"@, "SE"@)
    &&& forall|start: int, end: int| #[trigger]
        closes(segments, start, end, "ST"@, "SE"@) ==> {
            &&& text::count(segments[end].simple(1)) == Some((end - start + 1) as nat)
            &&& segments[end].simple(2) == segments[start].simple(2)
            &&& forall|i: int| start < i < end ==> (#[trigger] segments[i]).tag != "GE"@
        }
}

/// Every `GS` is closed by a `GE` with the same control number and the number
/// of the `ST` between them.
pub open spec fn groups_sound(segments: Seq<SegmentView>) -> bool {
    &&& paired(segments, "GS"@, "GE"@)
    &&& forall|start: int, end: int| #[trigger]
        closes(segments, start, end, "GS"@, "GE"@) ==> {
            &&& text::count(segments[end].simple(1)) == Some(
                number_of(segments, start + 1, end, "ST"@),
            )
            &&& segments[end].simple(2) == segments[start].simple(6)
        }
}

/// `IEA` closes, and each `IEA` has the first segment's control number and the
/// right count of the groups before it.
pub open spec fn closing_sound(segments: Seq<SegmentView>) -> bool {
    &&& segments.last().tag == "IEA"@
    &&& forall|n: int|
        0 <= n < segments.len() && (#[trigger] segments[n]).tag == "IEA"@ ==> {
            &&& text::count(segments[n].simple(1)) == Some(number_of(segments, 0, n, "GS"@))
            &&& segments[n].simple(2) == segments[0].simple(13)
        }
}

/// A sound interchange.
pub open spec fn sound(segments: Seq<SegmentView>) -> bool {
    &&& closing_sound(segments)
    &&& groups_sound(segments)
    &&& sets_sound(segments)
}

/// What is open before `n` is the nearest opener, with neither tag after it.
pub proof fn lemma_open_at(
    segments: Seq<SegmentView>,
    n: int,
    start: int,
    opener: Seq<char>,
    closer: Seq<char>,
)
    requires
        opener != closer,
        0 <= n <= segments.len(),
    ensures
        syntax::open_at(segments, n, opener, closer) == Some(start) <==> {
            &&& 0 <= start < n
            &&& segments[start].tag == opener
            &&& forall|i: int|
                start < i < n ==> (#[trigger] segments[i]).tag != opener && segments[i].tag
                    != closer
        },
    decreases n,
{
    if n > 0 {
        let tag = segments[n - 1].tag;
        if tag != opener && tag != closer {
            lemma_open_at(segments, n - 1, start, opener, closer);
        }
    }
}

/// The next opener or closer from `from` on.
proof fn lemma_next(
    segments: Seq<SegmentView>,
    from: int,
    opener: Seq<char>,
    closer: Seq<char>,
) -> (next: int)
    requires
        0 <= from <= segments.len(),
    ensures
        from <= next <= segments.len(),
        forall|i: int|
            from <= i < next ==> (#[trigger] segments[i]).tag != opener && segments[i].tag
                != closer,
        next < segments.len() ==> segments[next].tag == opener || segments[next].tag == closer,
    decreases segments.len() - from,
{
    if from == segments.len() || segments[from].tag == opener || segments[from].tag == closer {
        from
    } else {
        lemma_next(segments, from + 1, opener, closer)
    }
}

/// No opener stands inside another, every closer has one open, and none is
/// open at the end.
spec fn in_turn(segments: Seq<SegmentView>, opener: Seq<char>, closer: Seq<char>) -> bool {
    &&& forall|n: int|
        0 <= n < segments.len() && (#[trigger] segments[n]).tag == opener ==> syntax::open_at(
            segments,
            n,
            opener,
            closer,
        ) is None
    &&& forall|n: int|
        0 <= n < segments.len() && (#[trigger] segments[n]).tag == closer ==> syntax::open_at(
            segments,
            n,
            opener,
            closer,
        ) is Some
    &&& syntax::open_at(segments, segments.len() as int, opener, closer) is None
}

/// Openers and closers pair up when they come in turn.
proof fn lemma_in_turn_is_paired(
    segments: Seq<SegmentView>,
    opener: Seq<char>,
    closer: Seq<char>,
)
    requires
        opener != closer,
    ensures
        in_turn(segments, opener, closer) <==> paired(segments, opener, closer),
{
    if in_turn(segments, opener, closer) {
        assert forall|start: int|
            0 <= start < segments.len() && (#[trigger] segments[start]).tag
                == opener implies exists|end: int|
            closes(segments, start, end, opener, closer) by {
            let next = lemma_next(segments, start + 1, opener, closer);
            lemma_open_at(segments, next, start, opener, closer);
            assert(next < segments.len());
            assert(segments[next].tag == closer);
            assert(closes(segments, start, next, opener, closer));
        }
        assert forall|end: int|
            0 <= end < segments.len() && (#[trigger] segments[end]).tag
                == closer implies exists|start: int|
            closes(segments, start, end, opener, closer) by {
            let start = syntax::open_at(segments, end, opener, closer)->0;
            lemma_open_at(segments, end, start, opener, closer);
            assert(closes(segments, start, end, opener, closer));
        }
    }
    if paired(segments, opener, closer) {
        assert forall|n: int|
            0 <= n < segments.len() && (#[trigger] segments[n]).tag
                == opener implies syntax::open_at(segments, n, opener, closer) is None by {
            lemma_paired_open(segments, n, opener, closer);
        }
        assert forall|n: int|
            0 <= n < segments.len() && (#[trigger] segments[n]).tag
                == closer implies syntax::open_at(segments, n, opener, closer) is Some by {
            let start = choose|start: int| closes(segments, start, n, opener, closer);
            lemma_open_at(segments, n, start, opener, closer);
        }
        lemma_paired_open(segments, segments.len() as int, opener, closer);
    }
}

/// What is open where the tags pair up is closed by the next of them.
proof fn lemma_paired_open(
    segments: Seq<SegmentView>,
    n: int,
    opener: Seq<char>,
    closer: Seq<char>,
)
    requires
        opener != closer,
        paired(segments, opener, closer),
        0 <= n <= segments.len(),
        n < segments.len() ==> segments[n].tag == opener,
    ensures
        syntax::open_at(segments, n, opener, closer) is None,
{
    if let Some(start) = syntax::open_at(segments, n, opener, closer) {
        lemma_open_at(segments, n, start, opener, closer);
        assert(segments[start].tag == opener);
        let end = choose|end: int| closes(segments, start, end, opener, closer);
        assert(closes(segments, start, end, opener, closer));
        if end < n {
            assert(segments[end].tag == closer);
        }
    }
}

/// There is nothing wrong with the first `n` segments just when there is
/// nothing wrong with each.
proof fn lemma_issues_before(segments: Seq<SegmentView>, n: int)
    requires
        0 <= n <= segments.len(),
    ensures
        syntax::issues_before(segments, n).len() == 0 <==> forall|i: int|
            0 <= i < n ==> (#[trigger] syntax::issues_at(segments, i)).len() == 0,
    decreases n,
{
    if n > 0 {
        lemma_issues_before(segments, n - 1);
    }
}

/// What follows for one segment when there is nothing wrong with it.
spec fn clean(segments: Seq<SegmentView>, n: int) -> bool {
    let segment = segments[n];
    let set = syntax::open_set(segments, n);
    let group = syntax::open_group(segments, n);
    &&& segment.tag == "ST"@ ==> set is None
    &&& segment.tag == "SE"@ ==> (set matches Some(start) && text::count(segment.simple(1))
        == Some((n - start + 1) as nat) && segment.simple(2) == segments[start].simple(2))
    &&& segment.tag == "GS"@ ==> group is None
    &&& segment.tag == "GE"@ ==> (group matches Some(start) && text::count(segment.simple(1))
        == Some(number_of(segments, start + 1, n, "ST"@)) && segment.simple(2)
        == segments[start].simple(6) && set is None)
    &&& segment.tag == "IEA"@ ==> text::count(segment.simple(1)) == Some(
        number_of(segments, 0, n, "GS"@),
    ) && segment.simple(2) == segments[0].simple(13)
}

/// There is nothing wrong with a segment just when it is clean.
proof fn lemma_clean(segments: Seq<SegmentView>, n: int)
    requires
        0 <= n < segments.len(),
    ensures
        syntax::issues_at(segments, n).len() == 0 <==> clean(segments, n),
{
    syntax::lemma_tags_differ();
    lemma_tally(segments, 0, n, "GS"@);
    if let Some(start) = syntax::open_group(segments, n) {
        lemma_open_at(segments, n, start, "GS"@, "GE"@);
        lemma_sets_between(segments, start, n);
    }
}

/// Every segment is clean, `IEA` closes, and nothing is open at the end.
spec fn all_clean(segments: Seq<SegmentView>) -> bool {
    let len = segments.len() as int;
    &&& forall|n: int| 0 <= n < len ==> #[trigger] clean(segments, n)
    &&& segments[len - 1].tag == "IEA"@
    &&& syntax::open_set(segments, len) is None
    &&& syntax::open_group(segments, len) is None
}

/// There are no departures just when every segment is clean, `IEA` closes, and
/// nothing is open at the end.
proof fn lemma_no_departures(segments: Seq<SegmentView>)
    requires
        segments.len() > 0,
    ensures
        syntax::departures(segments).len() == 0 <==> all_clean(segments),
{
    let len = segments.len() as int;
    lemma_issues_before(segments, len);
    assert forall|i: int| 0 <= i < len implies (#[trigger] syntax::issues_at(segments, i)).len()
        == 0 <==> clean(segments, i) by {
        lemma_clean(segments, i);
    }
    if syntax::issues_before(segments, len).len() == 0 {
        assert forall|n: int| 0 <= n < len implies #[trigger] clean(segments, n) by {
            assert(syntax::issues_at(segments, n).len() == 0);
        }
    }
    if all_clean(segments) {
        assert forall|n: int| 0 <= n < len implies (#[trigger] syntax::issues_at(segments, n)).len()
            == 0 by {
            assert(clean(segments, n));
        }
    }
}

/// Where every segment is clean the sets are sound.
proof fn lemma_clean_sets(segments: Seq<SegmentView>)
    requires
        all_clean(segments),
    ensures
        sets_sound(segments),
{
    syntax::lemma_tags_differ();
    assert(in_turn(segments, "ST"@, "SE"@)) by {
        assert forall|n: int| 0 <= n < segments.len() implies {
            let segment = #[trigger] segments[n];
            &&& segment.tag == "ST"@ ==> syntax::open_set(segments, n) is None
            &&& segment.tag == "SE"@ ==> syntax::open_set(segments, n) is Some
        } by {
            assert(clean(segments, n));
        }
    }
    lemma_in_turn_is_paired(segments, "ST"@, "SE"@);
    assert forall|start: int, end: int| #[trigger]
        closes(segments, start, end, "ST"@, "SE"@) implies {
        &&& text::count(segments[end].simple(1)) == Some((end - start + 1) as nat)
        &&& segments[end].simple(2) == segments[start].simple(2)
        &&& forall|i: int| start < i < end ==> (#[trigger] segments[i]).tag != "GE"@
    } by {
        lemma_open_at(segments, end, start, "ST"@, "SE"@);
        assert(clean(segments, end));
        assert forall|i: int| start < i < end implies (#[trigger] segments[i]).tag != "GE"@ by {
            lemma_open_at(segments, i, start, "ST"@, "SE"@);
            assert(clean(segments, i));
        }
    }
}

/// Where every segment is clean the groups are sound.
proof fn lemma_clean_groups(segments: Seq<SegmentView>)
    requires
        all_clean(segments),
    ensures
        groups_sound(segments),
{
    syntax::lemma_tags_differ();
    assert(in_turn(segments, "GS"@, "GE"@)) by {
        assert forall|n: int| 0 <= n < segments.len() implies {
            let segment = #[trigger] segments[n];
            &&& segment.tag == "GS"@ ==> syntax::open_group(segments, n) is None
            &&& segment.tag == "GE"@ ==> syntax::open_group(segments, n) is Some
        } by {
            assert(clean(segments, n));
        }
    }
    lemma_in_turn_is_paired(segments, "GS"@, "GE"@);
    assert forall|start: int, end: int| #[trigger]
        closes(segments, start, end, "GS"@, "GE"@) implies {
        &&& text::count(segments[end].simple(1)) == Some(
            number_of(segments, start + 1, end, "ST"@),
        )
        &&& segments[end].simple(2) == segments[start].simple(6)
    } by {
        lemma_open_at(segments, end, start, "GS"@, "GE"@);
        assert(clean(segments, end));
    }
}

/// No set is open at a `GE` of a sound interchange.
proof fn lemma_no_set_open(segments: Seq<SegmentView>, n: int)
    requires
        sets_sound(segments),
        0 <= n < segments.len(),
        segments[n].tag == "GE"@,
    ensures
        syntax::open_set(segments, n) is None,
{
    syntax::lemma_tags_differ();
    if let Some(set) = syntax::open_set(segments, n) {
        lemma_open_at(segments, n, set, "ST"@, "SE"@);
        assert(segments[set].tag == "ST"@);
        let end = choose|end: int| closes(segments, set, end, "ST"@, "SE"@);
        assert(closes(segments, set, end, "ST"@, "SE"@));
        assert(segments[end].tag == "SE"@);
    }
}

/// Every segment of a sound interchange is clean.
proof fn lemma_sound_is_clean(segments: Seq<SegmentView>, n: int)
    requires
        sound(segments),
        0 <= n < segments.len(),
    ensures
        clean(segments, n),
{
    let segment = segments[n];
    syntax::lemma_tags_differ();
    lemma_in_turn_is_paired(segments, "ST"@, "SE"@);
    lemma_in_turn_is_paired(segments, "GS"@, "GE"@);
    if segment.tag == "SE"@ {
        let start = choose|start: int| closes(segments, start, n, "ST"@, "SE"@);
        assert(closes(segments, start, n, "ST"@, "SE"@));
        lemma_open_at(segments, n, start, "ST"@, "SE"@);
    }
    if segment.tag == "GE"@ {
        let start = choose|start: int| closes(segments, start, n, "GS"@, "GE"@);
        assert(closes(segments, start, n, "GS"@, "GE"@));
        lemma_open_at(segments, n, start, "GS"@, "GE"@);
        lemma_no_set_open(segments, n);
    }
}

/// An interchange has no departures just when it is sound: `IEA` closes it
/// with the right control number and group count, every `GS` is closed by a
/// `GE`, and every `ST` by an `SE`, with the same control number and the right
/// count, and no group is closed while a set is open.
pub proof fn law_no_departures_is_sound(segments: Seq<SegmentView>)
    requires
        segments.len() > 0,
    ensures
        syntax::departures(segments).len() == 0 <==> sound(segments),
{
    lemma_no_departures(segments);
    if all_clean(segments) {
        lemma_clean_sets(segments);
        lemma_clean_groups(segments);
        syntax::lemma_tags_differ();
        assert forall|n: int|
            0 <= n < segments.len() && (#[trigger] segments[n]).tag == "IEA"@ implies {
            &&& text::count(segments[n].simple(1)) == Some(number_of(segments, 0, n, "GS"@))
            &&& segments[n].simple(2) == segments[0].simple(13)
        } by {
            assert(clean(segments, n));
        }
    }
    if sound(segments) {
        syntax::lemma_tags_differ();
        lemma_in_turn_is_paired(segments, "ST"@, "SE"@);
        lemma_in_turn_is_paired(segments, "GS"@, "GE"@);
        assert forall|n: int| 0 <= n < segments.len() implies #[trigger] clean(segments, n) by {
            lemma_sound_is_clean(segments, n);
        }
    }
}

/// A sound interchange closes with the count of all its groups.
pub proof fn law_iea_counts_every_group(segments: Seq<SegmentView>)
    requires
        segments.len() > 0,
        syntax::departures(segments).len() == 0,
    ensures
        segments.last().tag == "IEA"@,
        text::count(segments.last().simple(1)) == Some(
            number_of(segments, 0, segments.len() as int, "GS"@),
        ),
        segments.last().simple(2) == segments[0].simple(13),
{
    syntax::lemma_tags_differ();
    law_no_departures_is_sound(segments);
    law_number_of(segments, 0, segments.len() - 1, "GS"@);
}

/// What is said of segment `n`, with its number counted from one and its tag.
pub open spec fn said_at(segments: Seq<SegmentView>, n: int, message: Seq<char>) -> IssueView {
    IssueView {
        code: "envelope"@,
        message,
        path: Some(
            "segment "@ + text::decimal((n + 1) as nat) + " ("@ + segments[n].tag + ")"@,
        ),
    }
}

/// The issue is an envelope segment's, and says where it stands.
pub open spec fn placed(segments: Seq<SegmentView>, issue: IssueView) -> bool {
    exists|n: int, message: Seq<char>|
        0 <= n < segments.len() && issue == #[trigger] said_at(segments, n, message)
}

/// Every issue that `issues` holds is placed.
spec fn all_placed(segments: Seq<SegmentView>, issues: Seq<IssueView>) -> bool {
    forall|i: int| 0 <= i < issues.len() ==> placed(segments, #[trigger] issues[i])
}

/// An issue is placed where its segment is.
proof fn lemma_unless_placed(holds: bool, message: Seq<char>, segments: Seq<SegmentView>, n: int)
    requires
        0 <= n < segments.len(),
    ensures
        all_placed(segments, syntax::unless(holds, message, segments, n)),
{
    assert(contract::envelope_issue(message, syntax::place(segments, n)) == said_at(
        segments,
        n,
        message,
    ));
}

/// Placed issues after placed issues are placed issues.
proof fn lemma_all_placed_joins(
    segments: Seq<SegmentView>,
    a: Seq<IssueView>,
    b: Seq<IssueView>,
)
    requires
        all_placed(segments, a),
        all_placed(segments, b),
    ensures
        all_placed(segments, a + b),
{
    assert forall|i: int| 0 <= i < (a + b).len() implies placed(
        segments,
        #[trigger] (a + b)[i],
    ) by {
        if i < a.len() {
            assert((a + b)[i] == a[i]);
        } else {
            assert((a + b)[i] == b[i - a.len()]);
        }
    }
}

/// What is wrong with one segment is said of that segment.
proof fn lemma_issues_at_placed(segments: Seq<SegmentView>, n: int)
    requires
        0 <= n < segments.len(),
    ensures
        all_placed(segments, syntax::issues_at(segments, n)),
{
    assert forall|i: int|
        0 <= i < syntax::issues_at(segments, n).len() implies placed(
        segments,
        #[trigger] syntax::issues_at(segments, n)[i],
    ) by {
        let issue = syntax::issues_at(segments, n)[i];
        assert(issue == said_at(segments, n, issue.message));
    }
}

/// What is wrong with the first segments is placed.
proof fn lemma_issues_before_placed(segments: Seq<SegmentView>, n: int)
    requires
        0 <= n <= segments.len(),
    ensures
        all_placed(segments, syntax::issues_before(segments, n)),
    decreases n,
{
    if n > 0 {
        lemma_issues_before_placed(segments, n - 1);
        lemma_issues_at_placed(segments, n - 1);
        lemma_all_placed_joins(
            segments,
            syntax::issues_before(segments, n - 1),
            syntax::issues_at(segments, n - 1),
        );
    }
}

/// Every departure has the code `envelope` and the path `segment N (TAG)` of a
/// segment of the interchange.
pub proof fn law_departures_say_where(segments: Seq<SegmentView>)
    requires
        segments.len() > 0,
    ensures
        forall|i: int|
            0 <= i < syntax::departures(segments).len() ==> placed(
                segments,
                #[trigger] syntax::departures(segments)[i],
            ),
{
    let n = segments.len() as int;
    let last = syntax::unless(
        segments[n - 1].tag == "IEA"@,
        "the interchange does not close with IEA"@,
        segments,
        n - 1,
    );
    let within = syntax::issues_before(segments, n);
    let set = syntax::never_closed(
        syntax::open_set(segments, n),
        "the set is never closed by SE"@,
        segments,
    );
    let group = syntax::never_closed(
        syntax::open_group(segments, n),
        "the group is never closed by GE"@,
        segments,
    );
    syntax::lemma_open_at_is_before(segments, n, "ST"@, "SE"@);
    syntax::lemma_open_at_is_before(segments, n, "GS"@, "GE"@);
    lemma_unless_placed(
        segments[n - 1].tag == "IEA"@,
        "the interchange does not close with IEA"@,
        segments,
        n - 1,
    );
    lemma_issues_before_placed(segments, n);
    if let Some(start) = syntax::open_set(segments, n) {
        lemma_unless_placed(false, "the set is never closed by SE"@, segments, start);
    }
    if let Some(start) = syntax::open_group(segments, n) {
        lemma_unless_placed(false, "the group is never closed by GE"@, segments, start);
    }
    lemma_all_placed_joins(segments, last, within);
    lemma_all_placed_joins(segments, last + within, set);
    lemma_all_placed_joins(segments, last + within + set, group);
}

}
