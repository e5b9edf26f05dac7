//! Conformance: the transaction sets of an interchange, and what holds of a
//! message under a contract.

use vstd::prelude::*;

use crate::contract::IssueView;
use crate::laws::{envelope, soundness, words};
use crate::syntax;
use crate::syntax::{SegmentView, SetView};
use crate::text;
use crate::transaction_set;
use crate::transaction_set::TransactionSetView;
use crate::x12;

verus! {

/// The sets of the first `n` segments, one for each `ST` among them.
proof fn lemma_sets_before(segments: Seq<SegmentView>, n: int)
    requires
        0 <= n <= segments.len(),
    ensures
        syntax::sets_before(segments, n).len() == syntax::tally(segments, n, "ST"@),
        forall|m: int|
            0 <= m < n && (#[trigger] segments[m]).tag == "ST"@ ==> {
                let before = syntax::tally(segments, m, "ST"@);
                &&& before < syntax::sets_before(segments, n).len()
                &&& syntax::sets_before(segments, n)[before as int] == (SetView {
                    ordinal: before + 1,
                    header: segments[m],
                    group: syntax::group_in_force(segments, m),
                })
            },
    decreases n,
{
    if n > 0 {
        lemma_sets_before(segments, n - 1);
    }
}

/// There is one transaction set for each `ST`, in their order: it has the
/// number of that `ST`, counted from one, and the `GS` before it with no `GS`
/// and no `GE` between, whatever else stands between them; where there is no
/// such `GS` it has none.
pub proof fn law_one_set_for_each_st(segments: Seq<SegmentView>)
    ensures
        syntax::sets(segments).len() == soundness::number_of(
            segments,
            0,
            segments.len() as int,
            "ST"@,
        ),
        forall|n: int, group: Option<int>|
            0 <= n < segments.len() && segments[n].tag == "ST"@ && #[trigger] envelope::in_force(
                segments,
                n,
                "GS"@,
                "GE"@,
                group,
            ) ==> {
                let before = soundness::number_of(segments, 0, n, "ST"@);
                &&& before < syntax::sets(segments).len()
                &&& syntax::sets(segments)[before as int] == (SetView {
                    ordinal: before + 1,
                    header: segments[n],
                    group: match group {
                        Some(gs) => Some(segments[gs]),
                        None => None,
                    },
                })
            },
{
    syntax::lemma_tags_differ();
    lemma_sets_before(segments, segments.len() as int);
    soundness::lemma_tally(segments, 0, segments.len() as int, "ST"@);
    assert forall|n: int, group: Option<int>|
        0 <= n < segments.len() && segments[n].tag == "ST"@ && #[trigger] envelope::in_force(
            segments,
            n,
            "GS"@,
            "GE"@,
            group,
        ) implies {
        let before = soundness::number_of(segments, 0, n, "ST"@);
        &&& before < syntax::sets(segments).len()
        &&& syntax::sets(segments)[before as int] == (SetView {
            ordinal: before + 1,
            header: segments[n],
            group: match group {
                Some(gs) => Some(segments[gs]),
                None => None,
            },
        })
    } by {
        soundness::lemma_tally(segments, 0, n, "ST"@);
        envelope::lemma_in_force(segments, n, "GS"@, "GE"@, group);
    }
}

/// The set's `ST01` is the wanted identifier and, where a version is wanted,
/// its group's `GS08` is that version, whatever its case.
pub open spec fn conforms(wanted: TransactionSetView, set: SetView) -> bool {
    &&& set.header.simple(1) == wanted.identifier
    &&& wanted.version matches Some(version) ==> match set.group {
        Some(group) => words::in_upper_case(group.simple(8), version),
        None => version.len() == 0,
    }
}

/// A set is told apart from the wanted one by its `ST01` first; then, where a
/// version is wanted, by its group's `GS08` in upper case, which is empty where
/// there is no group. A set that conforms is not told apart.
pub proof fn law_difference(
    wanted: TransactionSetView,
    header: SegmentView,
    group: Option<SegmentView>,
    actual: Seq<char>,
)
    requires
        match group {
            Some(group) => words::in_upper_case(group.simple(8), actual),
            None => actual.len() == 0,
        },
    ensures
        transaction_set::difference(wanted, header, group) is None <==> conforms(
            wanted,
            SetView { ordinal: 1, header, group },
        ),
        header.simple(1) != wanted.identifier ==> transaction_set::difference(wanted, header, group)
            == Some("is "@ + header.simple(1) + ", the contract is "@ + wanted.identifier),
        header.simple(1) == wanted.identifier && (wanted.version matches Some(version) && version
            != actual) ==> transaction_set::difference(wanted, header, group) == Some(
            "is "@ + wanted.identifier + " "@ + actual + ", the contract is "@ + (wanted.identifier
                + ":"@ + wanted.version->0),
        ),
{
    if let Some(group) = group {
        words::law_upper(group.simple(8), actual);
        if let Some(version) = wanted.version {
            words::law_upper(group.simple(8), version);
        }
    } else {
        assert(actual =~= Seq::empty());
        if let Some(version) = wanted.version {
            assert(version.len() == 0 ==> version =~= Seq::<char>::empty());
        }
    }
}

/// No issue is found with the sets just when each of them conforms.
proof fn lemma_set_issues(wanted: TransactionSetView, sets: Seq<SetView>)
    ensures
        x12::set_issues(wanted, sets).len() == 0 <==> forall|i: int|
            0 <= i < sets.len() ==> conforms(wanted, #[trigger] sets[i]),
    decreases sets.len(),
{
    if sets.len() > 0 {
        let init = sets.drop_last();
        lemma_set_issues(wanted, init);
        assert(forall|i: int| 0 <= i < init.len() ==> init[i] == #[trigger] sets[i]);
        let set = sets.last();
        let actual = match set.group {
            Some(group) => text::upper(group.simple(8)),
            None => Seq::empty(),
        };
        if let Some(group) = set.group {
            words::law_upper(group.simple(8), actual);
        }
        law_difference(wanted, set.header, set.group, actual);
        if x12::set_issues(wanted, sets).len() == 0 {
            assert forall|i: int| 0 <= i < sets.len() implies conforms(
                wanted,
                #[trigger] sets[i],
            ) by {
                if i < init.len() {
                    assert(conforms(wanted, init[i]));
                }
            }
        }
        if forall|i: int| 0 <= i < sets.len() ==> conforms(wanted, #[trigger] sets[i]) {
            assert forall|i: int| 0 <= i < init.len() implies conforms(
                wanted,
                #[trigger] init[i],
            ) by {
                assert(conforms(wanted, sets[i]));
            }
            assert(conforms(wanted, sets[sets.len() - 1]));
        }
    }
}

/// A message holds just when it is text that reads as a sound interchange and,
/// where a transaction set is bound, every set in it is that one.
pub proof fn law_what_holds(
    wanted: Option<TransactionSetView>,
    decoded: Result<Seq<char>, Seq<char>>,
)
    ensures
        x12::findings(wanted, decoded).len() == 0 <==> {
            &&& decoded matches Ok(text)
            &&& syntax::interchange(text) matches Ok(read)
            &&& soundness::sound(read.segments)
            &&& wanted matches Some(wanted) ==> forall|i: int|
                0 <= i < syntax::sets(read.segments).len() ==> conforms(
                    wanted,
                    #[trigger] syntax::sets(read.segments)[i],
                )
        },
{
    if let Ok(text) = decoded {
        if let Ok(read) = syntax::interchange(text) {
            soundness::law_no_departures_is_sound(read.segments);
            if let Some(wanted) = wanted {
                lemma_set_issues(wanted, syntax::sets(read.segments));
            }
        }
    }
}

/// What is said of a set that is not the wanted one.
pub open spec fn said_of(wanted: TransactionSetView, set: SetView) -> Seq<IssueView> {
    match transaction_set::difference(wanted, set.header, set.group) {
        None => seq![],
        Some(message) => seq![
            IssueView {
                code: "transaction-set"@,
                message,
                path: Some("set "@ + text::decimal(set.ordinal)),
            },
        ],
    }
}

/// What is said of the sets comes set by set.
proof fn lemma_said_of(wanted: TransactionSetView, sets: Seq<SetView>)
    ensures
        x12::set_issues(wanted, sets) == sets.map_values(
            |set: SetView| said_of(wanted, set),
        ).flatten(),
    decreases sets.len(),
{
    let all = sets.map_values(|set: SetView| said_of(wanted, set));
    if sets.len() > 0 {
        let init = sets.drop_last();
        lemma_said_of(wanted, init);
        let before = init.map_values(|set: SetView| said_of(wanted, set));
        assert(all.drop_last() =~= before);
        assert(all.last() == said_of(wanted, sets.last()));
        before.lemma_flatten_and_flatten_alt_are_equivalent();
        all.lemma_flatten_and_flatten_alt_are_equivalent();
        assert(x12::set_issues(wanted, sets) =~= all.flatten());
    } else {
        assert(all.len() == 0);
    }
}

/// Bytes that are no text give the one `malformed` issue with the fault; a
/// text that is no interchange gives the one with what is wrong; an interchange
/// gives its departures and, where a set is wanted, what is said of each set,
/// in the order of the sets.
pub proof fn law_findings(
    wanted: Option<TransactionSetView>,
    decoded: Result<Seq<char>, Seq<char>>,
)
    ensures
        decoded matches Err(fault) ==> x12::findings(wanted, decoded) == seq![
            (IssueView { code: "malformed"@, message: "not text: "@ + fault, path: None }),
        ],
        decoded matches Ok(text) ==> (syntax::interchange(text) matches Err(message)
            ==> x12::findings(wanted, decoded) == seq![
            (IssueView { code: "malformed"@, message, path: None }),
        ]),
        decoded matches Ok(text) ==> (syntax::interchange(text) matches Ok(read)
            ==> x12::findings(wanted, decoded) == syntax::departures(read.segments) + match wanted {
            None => seq![],
            Some(wanted) => syntax::sets(read.segments).map_values(
                |set: SetView| said_of(wanted, set),
            ).flatten(),
        }),
{
    if let Ok(text) = decoded {
        if let Ok(read) = syntax::interchange(text) {
            if let Some(wanted) = wanted {
                lemma_said_of(wanted, syntax::sets(read.segments));
            }
        }
    }
}

/// A bound contract finds all that the bare one finds, and finds it first; so
/// what holds bound holds bare.
pub proof fn law_bound_finds_no_less(
    wanted: TransactionSetView,
    decoded: Result<Seq<char>, Seq<char>>,
)
    ensures
        x12::findings(None, decoded).is_prefix_of(x12::findings(Some(wanted), decoded)),
        x12::findings(Some(wanted), decoded).len() == 0 ==> x12::findings(None, decoded).len()
            == 0,
{
    let bare = x12::findings(None, decoded);
    let bound = x12::findings(Some(wanted), decoded);
    assert(bare =~= bound.take(bare.len() as int));
}

/// The issues of transaction sets say so, and which set it is.
proof fn lemma_set_issue_codes(wanted: TransactionSetView, sets: Seq<SetView>)
    ensures
        forall|i: int|
            0 <= i < x12::set_issues(wanted, sets).len() ==> {
                let issue = #[trigger] x12::set_issues(wanted, sets)[i];
                issue.path is Some && issue.code == "transaction-set"@
            },
    decreases sets.len(),
{
    if sets.len() > 0 {
        lemma_set_issue_codes(wanted, sets.drop_last());
    }
}

/// A message that cannot be read gives the one `malformed` issue, which has no
/// path. One that can be read gives none: each of its issues is an envelope's
/// or a transaction set's.
pub proof fn law_malformed_stands_alone(
    wanted: Option<TransactionSetView>,
    decoded: Result<Seq<char>, Seq<char>>,
)
    ensures
        match decoded {
            Ok(text) => syntax::interchange(text) is Err,
            Err(_) => true,
        } ==> {
            let found = x12::findings(wanted, decoded);
            found.len() == 1 && found[0].code == "malformed"@ && found[0].path is None
        },
        match decoded {
            Ok(text) => syntax::interchange(text) is Ok,
            Err(_) => false,
        } ==> forall|i: int|
            0 <= i < x12::findings(wanted, decoded).len() ==> {
                let issue = #[trigger] x12::findings(wanted, decoded)[i];
                issue.path is Some && (issue.code == "envelope"@ || issue.code
                    == "transaction-set"@)
            },
{
    if let Ok(text) = decoded {
        if let Ok(read) = syntax::interchange(text) {
            let departures = syntax::departures(read.segments);
            let sets = match wanted {
                Some(wanted) => x12::set_issues(wanted, syntax::sets(read.segments)),
                None => Seq::empty(),
            };
            soundness::law_departures_say_where(read.segments);
            if let Some(wanted) = wanted {
                lemma_set_issue_codes(wanted, syntax::sets(read.segments));
            }
            assert forall|i: int|
                0 <= i < x12::findings(wanted, decoded).len() implies {
                let issue = #[trigger] x12::findings(wanted, decoded)[i];
                issue.path is Some && (issue.code == "envelope"@ || issue.code
                    == "transaction-set"@)
            } by {
                if i < departures.len() {
                    assert(soundness::placed(read.segments, departures[i]));
                } else {
                    assert(x12::findings(wanted, decoded)[i] == sets[i - departures.len()]);
                }
            }
        }
    }
}

}
