//! Operations: what the public functions give back, told from what they were
//! given.

use vstd::prelude::*;
use vstd::utf8::{encode_utf8, valid_utf8};

use crate::contract;
use crate::contract::{
    ContractDescriptor, ContractError, IssueView, Stream, ValidationIssue, ValidationResult,
};
use crate::laws::{
    conformance, envelope, message, reference, segments, soundness, words,
};
use crate::syntax;
use crate::syntax::{Interchange, Segment, SegmentView, Separators, SetView};
use crate::text;
use crate::transaction_set::{mismatch, TransactionSet, TransactionSetView};
use crate::x12;
use crate::x12::{X12, X12Factory};

verus! {

/// A message is X12 just when its bytes begin with the letters `ISA`, or its
/// media type, up to the first semicolon and white space around it aside, is
/// `application/EDI-X12` up to ASCII case.
pub proof fn law_identify(
    contract: &X12,
    stream: &Stream,
    identified: Result<bool, ContractError>,
    before: Seq<char>,
    essence: Seq<char>,
    after: Seq<char>,
    parameters: Seq<char>,
)
    requires
        call_ensures(X12::identify, (contract, stream), identified),
        stream.media_type matches Some(media_type) ==> media_type@ == before + essence + after
            + parameters,
        reference::padded(before, essence, after),
        !essence.contains(';'),
        parameters.len() > 0 ==> parameters[0] == ';',
    ensures
        identified matches Ok(x12) && (x12 <==> {
            let bytes = stream.bytes@;
            ||| bytes.len() >= 3 && bytes[0] as u32 == 'I' as u32 && bytes[1] as u32 == 'S' as u32
                && bytes[2] as u32 == 'A' as u32
            ||| stream.media_type is Some && message::same_but_case(
                essence,
                "application/EDI-X12"@,
            )
        }),
{
    message::law_media_type(before, essence, after, parameters);
    message::law_opens_with_isa(stream.bytes@);
    reveal_strlit("application/EDI-X12");
    assert(identified is Ok);
}

/// What a segment gives for an element: counted from one, its components, and
/// simply its first, trimmed; nothing where there is none.
pub proof fn law_segment(segment: &Segment, index: usize, components: &[String], simple: &str)
    requires
        index >= 1,
        call_ensures(Segment::element, (segment, index), components),
        call_ensures(Segment::simple, (segment, index), simple),
    ensures
        index <= segment.elements@.len() ==> {
            let element = segment.elements@[index - 1]@;
            &&& components@.len() == element.len()
            &&& forall|i: int| 0 <= i < element.len() ==> components@[i]@ == element[i]@
            &&& element.len() > 0 ==> simple@ == text::trim(element[0]@)
            &&& element.len() == 0 ==> simple@.len() == 0
        },
        index > segment.elements@.len() ==> components@.len() == 0 && simple@.len() == 0,
{
    message::law_segment_shows_all(*segment);
    message::law_element(segment@, index as int);
    message::law_texts_show_all(components@);
    if index <= segment.elements@.len() {
        let element = segment.elements@[index - 1]@;
        let shown = text::texts(components@);
        assert(shown == segment@.elements[index - 1]);
        assert forall|i: int| 0 <= i < element.len() implies components@[i]@ == element[i]@ by {
            assert(shown[i] == components@[i]@);
            assert(segment@.elements[index - 1][i] == element[i]@);
        }
        if element.len() > 0 {
            assert(segment@.elements[index - 1][0] == element[0]@);
        }
    }
}

/// The one issue of a text that cannot be read.
pub open spec fn malformed_as(issue: ValidationIssue, wording: Seq<char>) -> bool {
    issue.code@ == "malformed"@ && issue.message@ == wording && issue.path is None
}

/// Parsing refuses a text, the white space before it aside, that does not
/// begin with `ISA`, has fewer than 106 characters, or whose fourth and hundred
/// and sixth character are the same or letters or digits. Any other it reads
/// with those and the hundred and fifth as separators.
pub proof fn law_parse(
    given: &str,
    parsed: Result<Interchange, ValidationIssue>,
    before: Seq<char>,
    text: Seq<char>,
)
    requires
        call_ensures(Interchange::parse, (given,), parsed),
        given@ == before + text,
        words::blank(before),
        text.len() > 0 ==> !text::white_space(text[0]),
    ensures
        ({
            let opens = text.len() >= 3 && text[0] == 'I' && text[1] == 'S' && text[2] == 'A';
            let s = Separators { element: text[3], component: text[104], terminator: text[105] };
            let apart = text[3] != text[105] && !text::alphanumeric(text[3])
                && !text::alphanumeric(text[105]);
            if !opens {
                parsed matches Err(issue) && malformed_as(
                    issue,
                    "the interchange does not open with ISA"@,
                )
            } else if text.len() < 106 {
                parsed matches Err(issue) && malformed_as(
                    issue,
                    "ISA is shorter than its 106 characters"@,
                )
            } else if !apart {
                parsed matches Err(issue) && malformed_as(
                    issue,
                    "ISA does not declare distinct separators"@,
                )
            } else {
                match syntax::read(text, s) {
                    Ok(segments) => parsed matches Ok(read) && read@.separators == s
                        && read@.segments == segments,
                    Err(wording) => parsed matches Err(issue) && malformed_as(issue, wording),
                }
            }
        }),
{
    segments::law_interchange(before, text);
}

/// Parsing gives back the segments that a text was written from, whatever
/// upper case letters and digits their tags are made of, and the separators it
/// was written with.
pub proof fn law_parse_undoes_writing(
    given: &str,
    parsed: Result<Interchange, ValidationIssue>,
    segments: Seq<SegmentView>,
    s: Separators,
)
    requires
        call_ensures(Interchange::parse, (given,), parsed),
        given@ == segments::written_all(segments, s),
        segments.len() > 0,
        segments[0].tag == "ISA"@,
        segments[0].elements.len() > 0,
        forall|i: int| 0 <= i < segments.len() ==> segments::writable(#[trigger] segments[i], s),
        given@.len() >= 106,
        given@[104] == s.component,
        given@[105] == s.terminator,
        !text::alphanumeric(s.element),
        !text::alphanumeric(s.terminator),
    ensures
        parsed matches Ok(read) && read@.segments == segments && read@.separators == s,
{
    segments::law_written_interchange_is_read(segments, s);
}

/// A read interchange gives out the separators and the segments it was read
/// as.
pub proof fn law_interchange_gives_out(
    read: &Interchange,
    separators: Separators,
    given: &[Segment],
)
    requires
        call_ensures(Interchange::separators, (read,), separators),
        call_ensures(Interchange::segments, (read,), given),
    ensures
        separators == read@.separators,
        given@.len() == read@.segments.len(),
        forall|i: int| 0 <= i < given@.len() ==> (#[trigger] given@[i])@ == read@.segments[i],
{
    message::law_segments_show_all(given@);
    assert forall|i: int| 0 <= i < given@.len() implies (#[trigger] given@[i])@
        == read@.segments[i] by {
        assert(syntax::segment_views(given@)[i] == given@[i]@);
    }
}

/// There is one transaction set for each `ST`, in their order: its number,
/// counted from one; the `ST`; and the `GS` before it with no `GS` and no `GE`
/// between, whatever else stands between them, or none.
pub proof fn law_transaction_sets<'a>(
    read: &'a Interchange,
    given: Vec<(usize, &'a Segment, Option<&'a Segment>)>,
    n: int,
    group: Option<int>,
)
    requires
        call_ensures(Interchange::transaction_sets, (read,), given),
        0 <= n < read@.segments.len(),
        read@.segments[n].tag == "ST"@,
        envelope::in_force(read@.segments, n, "GS"@, "GE"@, group),
    ensures
        given@.len() == soundness::number_of(
            read@.segments,
            0,
            read@.segments.len() as int,
            "ST"@,
        ),
        ({
            let before = soundness::number_of(read@.segments, 0, n, "ST"@);
            &&& before < given@.len()
            &&& given@[before as int].0 == before + 1
            &&& given@[before as int].1@ == read@.segments[n]
            &&& match group {
                Some(start) => given@[before as int].2 matches Some(gs) && gs@
                    == read@.segments[start],
                None => given@[before as int].2 is None,
            }
        }),
{
    let before = soundness::number_of(read@.segments, 0, n, "ST"@) as int;
    conformance::law_one_set_for_each_st(read@.segments);
    message::law_sets_show_all(given@);
    let shown: SetView = syntax::set_views(given@)[before];
    assert(shown == syntax::sets(read@.segments)[before]);
}

/// Soundness finds nothing just when the interchange is sound.
pub proof fn law_soundness(read: &Interchange, issues: Vec<ValidationIssue>)
    requires
        read@.segments.len() > 0,
        call_ensures(Interchange::soundness, (read,), issues),
    ensures
        issues@.len() == 0 <==> soundness::sound(read@.segments),
{
    soundness::law_no_departures_is_sound(read@.segments);
    message::law_issues_show_all(issues@);
}

/// What is in a sequence of sequences is in what they flatten to.
proof fn lemma_flatten_holds(all: Seq<Seq<IssueView>>, n: int, issue: IssueView)
    requires
        0 <= n < all.len(),
        all[n].contains(issue),
    ensures
        all.flatten().contains(issue),
    decreases all.len(),
{
    let rest = all.drop_first();
    let first = all.first();
    let flat = first + rest.flatten();
    assert(all.flatten() == flat);
    if n == 0 {
        let i = choose|i: int| 0 <= i < first.len() && first[i] == issue;
        assert(flat[i] == issue);
    } else {
        assert(rest[n - 1] == all[n]);
        lemma_flatten_holds(rest, n - 1, issue);
        let i = choose|i: int| 0 <= i < rest.flatten().len() && rest.flatten()[i] == issue;
        assert(flat[first.len() + i] == issue);
    }
}

/// What is wrong with a segment is among the departures.
proof fn lemma_departures_hold(segments: Seq<SegmentView>, n: int, issue: IssueView)
    requires
        0 <= n < segments.len(),
        syntax::issues_at(segments, n).contains(issue),
    ensures
        syntax::departures(segments).contains(issue),
{
    let len = segments.len() as int;
    let set = syntax::open_set(segments, len);
    let group = syntax::open_group(segments, len);
    syntax::lemma_tags_differ();
    envelope::lemma_in_force(segments, len, "ST"@, "SE"@, set);
    envelope::lemma_in_force(segments, len, "GS"@, "GE"@, group);
    envelope::law_departures(segments, set, group);
    let each = Seq::new(segments.len(), |n: int| syntax::issues_at(segments, n));
    assert(each[n] == syntax::issues_at(segments, n));
    lemma_flatten_holds(each, n, issue);
    let head = envelope::said_unless(
        segments.last().tag == "IEA"@,
        segments,
        segments.len() - 1,
        "the interchange does not close with IEA"@,
    );
    let i = choose|i: int| 0 <= i < each.flatten().len() && each.flatten()[i] == issue;
    assert(syntax::departures(segments)[head.len() + i] == issue);
}

/// A `GE` is held to the number of the `ST` between its `GS` and it, whatever
/// stands before that `GS`: one that counts anything else is reported, and so
/// is one whose control number is not the `GS`'s.
pub proof fn law_ge_is_reported(
    read: &Interchange,
    issues: Vec<ValidationIssue>,
    start: int,
    n: int,
)
    requires
        call_ensures(Interchange::soundness, (read,), issues),
        0 <= n < read@.segments.len(),
        read@.segments[n].tag == "GE"@,
        envelope::still_open(read@.segments, start, n, "GS"@, "GE"@),
    ensures
        ({
            let ge = read@.segments[n];
            let gs = read@.segments[start];
            let size = soundness::number_of(read@.segments, start + 1, n, "ST"@);
            let found = contract::issue_views(issues@);
            &&& text::count(ge.simple(1)) != Some(size) ==> found.contains(
                soundness::said_at(
                    read@.segments,
                    n,
                    "GE counts "@ + ge.simple(1) + " sets, the group has "@ + text::decimal(size),
                ),
            )
            &&& ge.simple(2) != gs.simple(6) ==> found.contains(
                soundness::said_at(
                    read@.segments,
                    n,
                    "GE closes "@ + ge.simple(2) + ", GS opened "@ + gs.simple(6),
                ),
            )
        }),
{
    let segments = read@.segments;
    let ge = segments[n];
    let gs = segments[start];
    let size = soundness::number_of(segments, start + 1, n, "ST"@);
    let set = syntax::open_set(segments, n);
    syntax::lemma_tags_differ();
    envelope::lemma_in_force(segments, n, "ST"@, "SE"@, set);
    envelope::law_ge(segments, n, Some(start), set);
    let here = syntax::issues_at(segments, n);
    if text::count(ge.simple(1)) != Some(size) {
        let issue = soundness::said_at(
            segments,
            n,
            "GE counts "@ + ge.simple(1) + " sets, the group has "@ + text::decimal(size),
        );
        assert(here[0] == issue);
        lemma_departures_hold(segments, n, issue);
    }
    if ge.simple(2) != gs.simple(6) {
        let issue = soundness::said_at(
            segments,
            n,
            "GE closes "@ + ge.simple(2) + ", GS opened "@ + gs.simple(6),
        );
        let i: int = if text::count(ge.simple(1)) == Some(size) {
            0
        } else {
            1
        };
        assert(here[i] == issue);
        lemma_departures_hold(segments, n, issue);
    }
}

/// A reference that names a set is parsed as that set, and loads the contract
/// that is bound to it.
pub open spec fn names(
    parsed: Result<TransactionSet, ContractError>,
    loaded: Result<X12, ContractError>,
    set: TransactionSetView,
) -> bool {
    &&& parsed matches Ok(read) && read@ == set
    &&& loaded matches Ok(contract) && contract@ == Some(set)
}

/// A refusal shows the reference and says what one is.
pub open spec fn refused<T>(answer: Result<T, ContractError>, given: Seq<char>) -> bool {
    answer matches Err(error) && error.message@ == text::quoted(given)
        + " is not SET or SET:VERSION, the set three digits"@
}

/// Any three characters from `0` to `9`, white space around them or not, name
/// the set that they are, without a version. White space alone names none, and
/// loads the bare contract. Any other reference without a colon is refused.
pub proof fn law_reference_without_colon(
    factory: &X12Factory,
    given: &str,
    parsed: Result<TransactionSet, ContractError>,
    loaded: Result<X12, ContractError>,
    before: Seq<char>,
    identifier: Seq<char>,
    after: Seq<char>,
)
    requires
        call_ensures(TransactionSet::parse, (given,), parsed),
        call_ensures(X12Factory::load, (factory, given), loaded),
        given@ == before + identifier + after,
        reference::padded(before, identifier, after),
        !identifier.contains(':'),
    ensures
        if reference::three_digits(identifier) {
            names(parsed, loaded, TransactionSetView { identifier, version: None })
        } else {
            &&& refused(parsed, given@)
            &&& if identifier.len() == 0 {
                loaded matches Ok(contract) && contract@ is None
            } else {
                refused(loaded, given@)
            }
        },
{
    reference::law_three_digits_name_a_set(before, identifier, after);
    reference::law_refusal(text::quoted(given@));
    words::law_trim(before, identifier, after);
}

/// Three characters from `0` to `9`, a colon and anything else that holds no
/// colon, white space around either or not, name the set of those three with
/// the rest, in upper case, as its version. Any other reference with one colon
/// is refused.
pub proof fn law_reference_with_colon(
    factory: &X12Factory,
    given: &str,
    parsed: Result<TransactionSet, ContractError>,
    loaded: Result<X12, ContractError>,
    before: Seq<char>,
    identifier: Seq<char>,
    after: Seq<char>,
    left: Seq<char>,
    version: Seq<char>,
    right: Seq<char>,
    upper: Seq<char>,
)
    requires
        call_ensures(TransactionSet::parse, (given,), parsed),
        call_ensures(X12Factory::load, (factory, given), loaded),
        given@ == before + identifier + after + seq![':'] + (left + version + right),
        reference::padded(before, identifier, after),
        !identifier.contains(':'),
        reference::padded(left, version, right),
        !version.contains(':'),
        words::in_upper_case(version, upper),
    ensures
        if reference::three_digits(identifier) && version.len() > 0 {
            names(parsed, loaded, TransactionSetView { identifier, version: Some(upper) })
        } else {
            refused(parsed, given@) && refused(loaded, given@)
        },
{
    reference::law_version_after_a_colon(
        before,
        identifier,
        after,
        left,
        version,
        right,
        upper,
    );
    reference::law_refusal(text::quoted(given@));
    let colon = (before + identifier + after).len() as int;
    assert(given@[colon] == ':');
    words::lemma_trim_keeps(given@, colon);
}

/// A reference with two colons or more is refused.
pub proof fn law_reference_with_two_colons(
    factory: &X12Factory,
    given: &str,
    parsed: Result<TransactionSet, ContractError>,
    loaded: Result<X12, ContractError>,
    a: Seq<char>,
    b: Seq<char>,
    c: Seq<char>,
)
    requires
        call_ensures(TransactionSet::parse, (given,), parsed),
        call_ensures(X12Factory::load, (factory, given), loaded),
        given@ == a + seq![':'] + b + seq![':'] + c,
    ensures
        refused(parsed, given@),
        refused(loaded, given@),
{
    reference::law_two_colons_name_nothing(a, b, c);
    reference::law_refusal(text::quoted(given@));
    assert(given@[a.len() as int] == ':');
    words::lemma_trim_keeps(given@, a.len() as int);
}

/// The new contract and the default one are bare, one made of a set is bound
/// to it, and each says which it is and describes itself so.
pub proof fn law_contracts(
    set: TransactionSet,
    fresh: X12,
    usual: X12,
    bound: X12,
    is_fresh_bound: bool,
    is_bound: bool,
    fresh_descriptor: &ContractDescriptor,
    bound_descriptor: &ContractDescriptor,
    referred: String,
)
    requires
        call_ensures(X12::new, (), fresh),
        call_ensures(<X12 as Default>::default, (), usual),
        call_ensures(X12::of, (set,), bound),
        call_ensures(X12::is_bound, (&fresh,), is_fresh_bound),
        call_ensures(X12::is_bound, (&bound,), is_bound),
        call_ensures(X12::descriptor, (&fresh,), fresh_descriptor),
        call_ensures(X12::descriptor, (&bound,), bound_descriptor),
        call_ensures(TransactionSet::reference, (&set,), referred),
    ensures
        fresh@ is None,
        usual@ is None,
        bound@ == Some(set@),
        !is_fresh_bound,
        is_bound,
        fresh_descriptor.id.0@ == "edi-x12"@,
        fresh_descriptor.version@ == "1"@,
        fresh_descriptor.representation@ == "application/EDI-X12"@,
        bound_descriptor.id.0@ == "edi-x12"@ + seq![':'] + referred@,
        bound_descriptor.version@ == "1"@,
        bound_descriptor.representation@ == "application/EDI-X12"@,
        referred@ == match set.version {
            Some(version) => set.identifier@ + seq![':'] + version@,
            None => set.identifier@,
        },
{
    message::law_descriptor(set@);
    message::law_names_show_all(set, *fresh_descriptor);
    message::law_names_show_all(set, *bound_descriptor);
    match set.version {
        Some(version) => {
            reference::law_reference(set.identifier@, version@);
        },
        None => {
            reference::law_reference(set.identifier@, Seq::empty());
        },
    }
}

/// A set that is not the wanted one is told apart: by its `ST01`, else, where
/// a version is wanted, by its group's `GS08` in upper case, empty where there
/// is no group. One that is the wanted set is not.
pub proof fn law_mismatch(
    wanted: &TransactionSet,
    header: &Segment,
    group: Option<&Segment>,
    told: Option<String>,
    actual: Seq<char>,
)
    requires
        call_ensures(mismatch, (wanted, header, group), told),
        match group {
            Some(gs) => words::in_upper_case(gs@.simple(8), actual),
            None => actual.len() == 0,
        },
    ensures
        if header@.simple(1) != wanted.identifier@ {
            told matches Some(told) && told@ == "is "@ + header@.simple(1) + ", the contract is "@
                + wanted.identifier@
        } else if wanted.version matches Some(version) && version@ != actual {
            told matches Some(told) && told@ == "is "@ + wanted.identifier@ + " "@ + actual
                + ", the contract is "@ + (wanted.identifier@ + ":"@ + wanted.version->0@)
        } else {
            told is None
        },
{
    let gs = match group {
        Some(gs) => Some(gs@),
        None => None,
    };
    conformance::law_difference(wanted@, header@, gs, actual);
}

/// A message is the bytes and the media type it is made of.
pub proof fn law_stream(bytes: Vec<u8>, media_type: Option<String>, stream: Stream)
    requires
        call_ensures(Stream::new, (bytes, media_type), stream),
    ensures
        stream.bytes == bytes,
        stream.media_type == media_type,
{
}

/// What is found in a message does not depend on how it was decoded, but only
/// on what it was decoded as: a fault is the one `malformed` issue, and a text
/// is judged as the bytes of that text are.
pub proof fn law_examine(
    contract: &X12,
    text: &str,
    fault: String,
    stream: &Stream,
    examined: ValidationResult,
    faulty: ValidationResult,
    validated: Result<ValidationResult, ContractError>,
)
    requires
        call_ensures(X12::examine, (contract, Ok::<&str, String>(text)), examined),
        call_ensures(X12::examine, (contract, Err::<&str, String>(fault)), faulty),
        call_ensures(X12::validate, (contract, stream), validated),
        stream.bytes@ == encode_utf8(text@),
    ensures
        examined.valid <==> examined.issues@.len() == 0,
        validated matches Ok(validated) && contract::issue_views(validated.issues@)
            == contract::issue_views(examined.issues@) && validated.valid == examined.valid,
        !faulty.valid,
        faulty.issues@.len() == 1 && malformed_as(faulty.issues@[0], "not text: "@ + fault@),
{
    message::law_decoded(text@, stream.bytes@);
    message::law_decoded_shows_all(text, fault);
    conformance::law_findings(contract@, Err(fault@));
    message::law_issues_show_all(examined.issues@);
    message::law_issues_show_all(faulty.issues@);
    assert(validated is Ok);
    message::law_issues_show_all(validated->Ok_0.issues@);
    let shown: IssueView = contract::issue_views(faulty.issues@)[0];
    assert(shown.code == "malformed"@);
}

/// The verdict on a message is valid just when it has no issues, and that is
/// when its bytes are text, the text an interchange, the interchange sound and,
/// where the contract is bound, every set in it the bound one. Bytes that are
/// no text, and a text that is no interchange, have the one `malformed` issue.
pub proof fn law_validate(
    contract: &X12,
    stream: &Stream,
    verdict: Result<ValidationResult, ContractError>,
    text: Seq<char>,
)
    requires
        call_ensures(X12::validate, (contract, stream), verdict),
        valid_utf8(stream.bytes@) ==> stream.bytes@ == encode_utf8(text),
    ensures
        verdict matches Ok(verdict) && {
            &&& verdict.valid <==> verdict.issues@.len() == 0
            &&& verdict.valid <==> {
                &&& valid_utf8(stream.bytes@)
                &&& syntax::interchange(text) matches Ok(read)
                &&& soundness::sound(read.segments)
                &&& contract@ matches Some(wanted) ==> forall|i: int|
                    0 <= i < syntax::sets(read.segments).len() ==> conformance::conforms(
                        wanted,
                        #[trigger] syntax::sets(read.segments)[i],
                    )
            }
            &&& !valid_utf8(stream.bytes@) ==> verdict.issues@.len() == 1 && malformed_as(
                verdict.issues@[0],
                "not text: "@ + text::utf8_fault(stream.bytes@),
            )
            &&& valid_utf8(stream.bytes@) ==> (syntax::interchange(text) matches Err(wording)
                ==> verdict.issues@.len() == 1 && malformed_as(verdict.issues@[0], wording))
            &&& valid_utf8(stream.bytes@) ==> (syntax::interchange(text) matches Ok(read)
                ==> contract::issue_views(verdict.issues@) == syntax::departures(read.segments)
                + match contract@ {
                None => seq![],
                Some(wanted) => syntax::sets(read.segments).map_values(
                    |set: SetView| conformance::said_of(wanted, set),
                ).flatten(),
            })
        },
{
    let bytes = stream.bytes@;
    let decoded = x12::decoded(bytes);
    message::law_decoded(text, bytes);
    conformance::law_what_holds(contract@, decoded);
    conformance::law_findings(contract@, decoded);
    assert(verdict is Ok);
    let issues = verdict->Ok_0.issues@;
    message::law_issues_show_all(issues);
    assert(contract::issue_views(issues) == x12::findings(contract@, decoded));
    if issues.len() == 1 {
        let shown: IssueView = contract::issue_views(issues)[0];
        assert(shown.code == issues[0].code@);
    }
}

/// The factory loads contracts of `edi-x12`.
pub proof fn law_technology(factory: &X12Factory, technology: &'static str)
    requires
        call_ensures(X12Factory::technology, (factory,), technology),
    ensures
        technology@ == "edi-x12"@,
{
}

}
