//! The envelope: what is said of each `ST`, `SE`, `GS`, `GE` and `IEA`, told
//! from where the other segments stand.

use vstd::prelude::*;

use crate::contract::IssueView;
use crate::laws::soundness;
use crate::syntax;
use crate::syntax::SegmentView;
use crate::text;

verus! {

/// The segment at `start` opens something that is still open before segment
/// `n`: neither tag stands between them.
pub open spec fn still_open(
    segments: Seq<SegmentView>,
    start: int,
    n: int,
    opener: Seq<char>,
    closer: Seq<char>,
) -> bool {
    &&& 0 <= start < n
    &&& segments[start].tag == opener
    &&& forall|i: int|
        start < i < n ==> (#[trigger] segments[i]).tag != opener && segments[i].tag != closer
}

/// What is open before segment `n`: the segment at the index, or nothing.
pub open spec fn in_force(
    segments: Seq<SegmentView>,
    n: int,
    opener: Seq<char>,
    closer: Seq<char>,
    open: Option<int>,
) -> bool {
    match open {
        Some(start) => still_open(segments, start, n, opener, closer),
        None => forall|start: int| !#[trigger] still_open(segments, start, n, opener, closer),
    }
}

/// What is in force is found.
pub proof fn lemma_in_force(
    segments: Seq<SegmentView>,
    n: int,
    opener: Seq<char>,
    closer: Seq<char>,
    open: Option<int>,
)
    requires
        opener != closer,
        0 <= n <= segments.len(),
    ensures
        in_force(segments, n, opener, closer, open) <==> syntax::open_at(
            segments,
            n,
            opener,
            closer,
        ) == open,
{
    let found = syntax::open_at(segments, n, opener, closer);
    match open {
        Some(start) => {
            soundness::lemma_open_at(segments, n, start, opener, closer);
        },
        None => {
            if let Some(start) = found {
                soundness::lemma_open_at(segments, n, start, opener, closer);
                assert(still_open(segments, start, n, opener, closer));
            } else {
                assert forall|start: int| !#[trigger] still_open(
                    segments,
                    start,
                    n,
                    opener,
                    closer,
                ) by {
                    soundness::lemma_open_at(segments, n, start, opener, closer);
                }
            }
        },
    }
}

/// What is said of segment `n` unless something holds.
pub open spec fn said_unless(
    holds: bool,
    segments: Seq<SegmentView>,
    n: int,
    message: Seq<char>,
) -> Seq<IssueView> {
    if holds {
        seq![]
    } else {
        seq![soundness::said_at(segments, n, message)]
    }
}

/// An `ST` is at fault just when the set of an earlier `ST` is still open, and
/// names that `ST` by its number.
pub proof fn law_st(segments: Seq<SegmentView>, n: int, set: Option<int>)
    requires
        0 <= n < segments.len(),
        segments[n].tag == "ST"@,
        in_force(segments, n, "ST"@, "SE"@, set),
    ensures
        syntax::issues_at(segments, n) == match set {
            None => seq![],
            Some(start) => seq![
                soundness::said_at(
                    segments,
                    n,
                    "ST inside the set opened at segment "@ + text::decimal((start + 1) as nat),
                ),
            ],
        },
{
    syntax::lemma_tags_differ();
    lemma_in_force(segments, n, "ST"@, "SE"@, set);
}

/// An `SE` is at fault when no set is open; else when its first element does
/// not count the segments from the `ST` to it, both included, and when its
/// second is not the `ST`'s second.
pub proof fn law_se(segments: Seq<SegmentView>, n: int, set: Option<int>)
    requires
        0 <= n < segments.len(),
        segments[n].tag == "SE"@,
        in_force(segments, n, "ST"@, "SE"@, set),
    ensures
        syntax::issues_at(segments, n) == match set {
            None => seq![soundness::said_at(segments, n, "SE with no set open"@)],
            Some(start) => {
                let se = segments[n];
                let st = segments[start];
                let size = segments.subrange(start, n + 1).len();
                said_unless(
                    text::count(se.simple(1)) == Some(size),
                    segments,
                    n,
                    "SE counts "@ + se.simple(1) + " segments, the set has "@ + text::decimal(size),
                ) + said_unless(
                    se.simple(2) == st.simple(2),
                    segments,
                    n,
                    "SE closes "@ + se.simple(2) + ", ST opened "@ + st.simple(2),
                )
            },
        },
{
    syntax::lemma_tags_differ();
    lemma_in_force(segments, n, "ST"@, "SE"@, set);
}

/// A `GS` is at fault just when the group of an earlier `GS` is still open.
pub proof fn law_gs(segments: Seq<SegmentView>, n: int, group: Option<int>)
    requires
        0 <= n < segments.len(),
        segments[n].tag == "GS"@,
        in_force(segments, n, "GS"@, "GE"@, group),
    ensures
        syntax::issues_at(segments, n) == said_unless(
            group is None,
            segments,
            n,
            "GS inside an open group"@,
        ),
{
    syntax::lemma_tags_differ();
    lemma_in_force(segments, n, "GS"@, "GE"@, group);
}

/// A `GE` is at fault when no group is open; else when its first element does
/// not count the `ST` between the `GS` and it, whatever stands before the `GS`;
/// when its second is not the `GS`'s sixth; and when a set is still open.
pub proof fn law_ge(segments: Seq<SegmentView>, n: int, group: Option<int>, set: Option<int>)
    requires
        0 <= n < segments.len(),
        segments[n].tag == "GE"@,
        in_force(segments, n, "GS"@, "GE"@, group),
        in_force(segments, n, "ST"@, "SE"@, set),
    ensures
        syntax::issues_at(segments, n) == match group {
            None => seq![soundness::said_at(segments, n, "GE with no group open"@)],
            Some(start) => {
                let ge = segments[n];
                let gs = segments[start];
                let size = soundness::number_of(segments, start + 1, n, "ST"@);
                said_unless(
                    text::count(ge.simple(1)) == Some(size),
                    segments,
                    n,
                    "GE counts "@ + ge.simple(1) + " sets, the group has "@ + text::decimal(size),
                ) + said_unless(
                    ge.simple(2) == gs.simple(6),
                    segments,
                    n,
                    "GE closes "@ + ge.simple(2) + ", GS opened "@ + gs.simple(6),
                ) + match set {
                    None => seq![],
                    Some(st) => seq![
                        soundness::said_at(
                            segments,
                            n,
                            "GE inside the set opened at segment "@ + text::decimal(
                                (st + 1) as nat,
                            ),
                        ),
                    ],
                }
            },
        },
{
    syntax::lemma_tags_differ();
    lemma_in_force(segments, n, "GS"@, "GE"@, group);
    lemma_in_force(segments, n, "ST"@, "SE"@, set);
    if let Some(start) = group {
        soundness::lemma_sets_between(segments, start, n);
    }
}

/// An `IEA` is at fault when its first element does not count the `GS` before
/// it, and when its second is not the thirteenth of the first segment.
pub proof fn law_iea(segments: Seq<SegmentView>, n: int)
    requires
        0 <= n < segments.len(),
        segments[n].tag == "IEA"@,
    ensures
        syntax::issues_at(segments, n) == {
            let iea = segments[n];
            let isa = segments[0];
            let size = soundness::number_of(segments, 0, n, "GS"@);
            said_unless(
                text::count(iea.simple(1)) == Some(size),
                segments,
                n,
                "IEA counts "@ + iea.simple(1) + " groups, the interchange has "@ + text::decimal(
                    size,
                ),
            ) + said_unless(
                iea.simple(2) == isa.simple(13),
                segments,
                n,
                "IEA closes "@ + iea.simple(2) + ", ISA opened "@ + isa.simple(13),
            )
        },
{
    syntax::lemma_tags_differ();
    soundness::lemma_tally(segments, 0, n, "GS"@);
}

/// Nothing is said of any other segment.
pub proof fn law_other_segments(segments: Seq<SegmentView>, n: int)
    requires
        0 <= n < segments.len(),
        segments[n].tag != "ST"@,
        segments[n].tag != "SE"@,
        segments[n].tag != "GS"@,
        segments[n].tag != "GE"@,
        segments[n].tag != "IEA"@,
    ensures
        syntax::issues_at(segments, n) == Seq::<IssueView>::empty(),
{
}

/// What is said of the first segments comes segment by segment.
proof fn lemma_issues_before(segments: Seq<SegmentView>, n: int)
    requires
        0 <= n <= segments.len(),
    ensures
        syntax::issues_before(segments, n) == Seq::new(
            n as nat,
            |i: int| syntax::issues_at(segments, i),
        ).flatten(),
    decreases n,
{
    let all = Seq::new(n as nat, |i: int| syntax::issues_at(segments, i));
    if n > 0 {
        lemma_issues_before(segments, n - 1);
        let init = Seq::new((n - 1) as nat, |i: int| syntax::issues_at(segments, i));
        assert(all.drop_last() =~= init);
        init.lemma_flatten_and_flatten_alt_are_equivalent();
        all.lemma_flatten_and_flatten_alt_are_equivalent();
    }
}

/// The departures are, in this order: that the last segment is not `IEA`; what
/// is said of each segment, in the order of the segments; that a set is open
/// at the end; that a group is.
pub proof fn law_departures(segments: Seq<SegmentView>, set: Option<int>, group: Option<int>)
    requires
        segments.len() > 0,
        in_force(segments, segments.len() as int, "ST"@, "SE"@, set),
        in_force(segments, segments.len() as int, "GS"@, "GE"@, group),
    ensures
        syntax::departures(segments) == said_unless(
            segments.last().tag == "IEA"@,
            segments,
            segments.len() - 1,
            "the interchange does not close with IEA"@,
        ) + Seq::new(segments.len(), |n: int| syntax::issues_at(segments, n)).flatten()
            + match set {
            None => seq![],
            Some(st) => seq![
                soundness::said_at(segments, st, "the set is never closed by SE"@),
            ],
        } + match group {
            None => seq![],
            Some(gs) => seq![
                soundness::said_at(segments, gs, "the group is never closed by GE"@),
            ],
        },
{
    let n = segments.len() as int;
    syntax::lemma_tags_differ();
    lemma_in_force(segments, n, "ST"@, "SE"@, set);
    lemma_in_force(segments, n, "GS"@, "GE"@, group);
    lemma_issues_before(segments, n);
    assert(Seq::new(n as nat, |i: int| syntax::issues_at(segments, i)) =~= Seq::new(
        segments.len(),
        |n: int| syntax::issues_at(segments, n),
    ));
}

}
