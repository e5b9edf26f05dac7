//! Messages: which of them are X12, what their bytes say, and how the values
//! that the library gives out are read.

use vstd::prelude::*;
use vstd::utf8::{decode_utf8, encode_utf8, valid_utf8};

use crate::contract;
use crate::contract::{ContractDescriptor, DescriptorView, IssueView, ValidationIssue};
use crate::laws::{reference, words};
use crate::syntax;
use crate::syntax::{Segment, SegmentView, SetView};
use crate::text;
use crate::transaction_set::{TransactionSet, TransactionSetView};
use crate::x12;

verus! {

/// The same character, or the two cases of one ASCII letter.
pub open spec fn same_letter(a: char, b: char) -> bool {
    ||| a == b
    ||| 'a' <= a <= 'z' && a as u32 - 32 == b as u32
    ||| 'a' <= b <= 'z' && b as u32 - 32 == a as u32
}

/// As long, and at each place the same character up to ASCII case.
pub open spec fn same_but_case(a: Seq<char>, b: Seq<char>) -> bool {
    a.len() == b.len() && forall|i: int|
        0 <= i < a.len() ==> same_letter(#[trigger] a[i], b[i])
}

/// Characters are the same in upper case just when they are the same up to
/// case.
proof fn lemma_same_letter(a: char, b: char)
    ensures
        text::upper_char(a) == text::upper_char(b) <==> same_letter(a, b),
{
    if same_letter(a, b) {
        if 'a' <= a <= 'z' && a != b {
            assert(text::upper_char(a) as u32 == text::upper_char(b) as u32);
        }
    }
}

/// Texts are the same in upper case just when they are the same up to case.
pub proof fn law_upper_forgets_case(a: Seq<char>, b: Seq<char>)
    ensures
        text::upper(a) == text::upper(b) <==> same_but_case(a, b),
{
    let x = text::upper(a);
    let y = text::upper(b);
    if x == y {
        assert(x.len() == a.len() && y.len() == b.len());
        assert forall|i: int| 0 <= i < a.len() implies same_letter(#[trigger] a[i], b[i]) by {
            assert(x[i] == y[i]);
            lemma_same_letter(a[i], b[i]);
        }
    }
    if same_but_case(a, b) {
        assert forall|i: int| 0 <= i < a.len() implies x[i] == y[i] by {
            assert(same_letter(a[i], b[i]));
            lemma_same_letter(a[i], b[i]);
        }
        assert(x =~= y);
    }
}

/// A media type is X12's just when, up to its first semicolon and white space
/// around it aside, it is `application/EDI-X12`, each of those characters up to
/// ASCII case, and no other.
pub proof fn law_media_type(
    before: Seq<char>,
    essence: Seq<char>,
    after: Seq<char>,
    parameters: Seq<char>,
)
    requires
        reference::padded(before, essence, after),
        !essence.contains(';'),
        parameters.len() > 0 ==> parameters[0] == ';',
    ensures
        x12::x12_media_type(before + essence + after + parameters) <==> same_but_case(
            essence,
            seq![
                'a',
                'p',
                'p',
                'l',
                'i',
                'c',
                'a',
                't',
                'i',
                'o',
                'n',
                '/',
                'E',
                'D',
                'I',
                '-',
                'X',
                '1',
                '2',
            ],
        ),
{
    let name = before + essence + after;
    let all = name + parameters;
    assert(!name.contains(';')) by {
        if name.contains(';') {
            let i = choose|i: int| 0 <= i < name.len() && name[i] == ';';
            if i < before.len() {
                assert(text::white_space(before[i]));
            } else if i < before.len() + essence.len() {
                assert(essence[i - before.len()] == ';');
            } else {
                assert(text::white_space(after[i - before.len() - essence.len()]));
            }
        }
    }
    words::law_split_without_separator(name, ';');
    if parameters.len() == 0 {
        assert(all =~= name);
    } else {
        let rest = parameters.skip(1);
        assert(all =~= name + seq![';'] + rest);
        words::law_split_at_separator(name, rest, ';');
    }
    assert(text::split(all, ';')[0] == name);
    words::law_trim(before, essence, after);
    reveal_strlit("application/EDI-X12");
    assert("application/EDI-X12"@ =~= seq![
        'a',
        'p',
        'p',
        'l',
        'i',
        'c',
        'a',
        't',
        'i',
        'o',
        'n',
        '/',
        'E',
        'D',
        'I',
        '-',
        'X',
        '1',
        '2',
    ]);
    law_upper_forgets_case(essence, "application/EDI-X12"@);
}

/// Bytes open with `ISA` just when they begin with those three letters.
pub proof fn law_opens_with_isa(bytes: Seq<u8>)
    ensures
        x12::opens_with_isa(bytes) <==> bytes.len() >= 3 && bytes[0] as u32 == 'I' as u32
            && bytes[1] as u32 == 'S' as u32 && bytes[2] as u32 == 'A' as u32,
{
}

/// The bytes of a text say that text. Bytes that are no text say what `std`
/// says of them.
pub proof fn law_decoded(text: Seq<char>, bytes: Seq<u8>)
    ensures
        x12::decoded(encode_utf8(text)) == Ok::<Seq<char>, Seq<char>>(text),
        x12::decoded(bytes) is Ok <==> valid_utf8(bytes),
        !valid_utf8(bytes) ==> x12::decoded(bytes) == Err::<Seq<char>, Seq<char>>(
            text::utf8_fault(bytes),
        ),
        x12::decoded(bytes) matches Ok(said) ==> encode_utf8(said) == bytes,
{
    vstd::utf8::encode_utf8_valid_utf8(text);
    vstd::utf8::encode_utf8_decode_utf8(text);
    if valid_utf8(bytes) {
        vstd::utf8::decode_utf8_encode_utf8(bytes);
        assert(x12::decoded(bytes) == Ok::<Seq<char>, Seq<char>>(decode_utf8(bytes)));
    }
}

/// The bare contract goes by `edi-x12`, and one bound to a set by that, a
/// colon and how the set is referred to. Either has version `1` and governs
/// `application/EDI-X12`.
pub proof fn law_descriptor(set: TransactionSetView)
    ensures
        x12::descriptor_of(None) == (DescriptorView {
            id: "edi-x12"@,
            version: "1"@,
            representation: "application/EDI-X12"@,
        }),
        x12::descriptor_of(Some(set)) == (DescriptorView {
            id: "edi-x12"@ + seq![':'] + set.reference(),
            version: "1"@,
            representation: "application/EDI-X12"@,
        }),
        x12::contract_id(None) == "edi-x12"@,
        x12::contract_id(Some(set)) == "edi-x12"@ + seq![':'] + set.reference(),
{
    reveal_strlit("edi-x12");
    reveal_strlit("edi-x12:");
    assert("edi-x12:"@ =~= "edi-x12"@ + seq![':']);
}

/// A segment shows its tag, its elements and their components, each in its
/// place.
pub proof fn law_segment_shows_all(segment: Segment)
    ensures
        segment@.tag == segment.tag@,
        segment@.elements.len() == segment.elements@.len(),
        forall|i: int|
            0 <= i < segment.elements@.len() ==> (#[trigger] segment@.elements[i]).len()
                == segment.elements@[i]@.len(),
        forall|i: int, j: int|
            0 <= i < segment.elements@.len() && 0 <= j < segment.elements@[i]@.len()
                ==> #[trigger] segment@.elements[i][j] == segment.elements@[i]@[j]@,
{
}

/// Element `index` of a segment is counted from one, and is nothing where
/// there is none; read simply it is its first component, trimmed, and empty
/// where there is none.
pub proof fn law_element(segment: SegmentView, index: int)
    ensures
        1 <= index <= segment.elements.len() ==> segment.element(index) == segment.elements[index
            - 1],
        !(1 <= index <= segment.elements.len()) ==> segment.element(index).len() == 0,
        1 <= index <= segment.elements.len() && segment.elements[index - 1].len() > 0
            ==> segment.simple(index) == text::trim(segment.elements[index - 1][0]),
        1 <= index <= segment.elements.len() && segment.elements[index - 1].len() == 0
            ==> segment.simple(index).len() == 0,
        !(1 <= index <= segment.elements.len()) ==> segment.simple(index).len() == 0,
{
}

/// A sequence of segments shows each in its place.
pub proof fn law_segments_show_all(segments: Seq<Segment>)
    ensures
        syntax::segment_views(segments).len() == segments.len(),
        forall|i: int|
            0 <= i < segments.len() ==> #[trigger] syntax::segment_views(segments)[i]
                == segments[i]@,
{
}

/// A sequence of transaction sets shows each in its place: its number, its
/// `ST`, and its `GS` if it has one.
pub proof fn law_sets_show_all(sets: Seq<(usize, &Segment, Option<&Segment>)>)
    ensures
        syntax::set_views(sets).len() == sets.len(),
        forall|i: int|
            0 <= i < sets.len() ==> {
                let shown: SetView = #[trigger] syntax::set_views(sets)[i];
                &&& shown.ordinal == sets[i].0
                &&& shown.header == sets[i].1@
                &&& shown.group is Some <==> sets[i].2 is Some
                &&& sets[i].2 matches Some(gs) ==> shown.group == Some(gs@)
            },
{
}

/// A sequence of strings shows each in its place.
pub proof fn law_texts_show_all(strings: Seq<String>)
    ensures
        text::texts(strings).len() == strings.len(),
        forall|i: int| 0 <= i < strings.len() ==> #[trigger] text::texts(strings)[i] == strings[i]@,
{
}

/// An issue shows its code, its message and, if it has one, its path; a
/// sequence of issues shows each in its place.
pub proof fn law_issues_show_all(issues: Seq<ValidationIssue>)
    ensures
        contract::issue_views(issues).len() == issues.len(),
        forall|i: int|
            0 <= i < issues.len() ==> {
                let shown: IssueView = #[trigger] contract::issue_views(issues)[i];
                &&& shown.code == issues[i].code@
                &&& shown.message == issues[i].message@
                &&& shown.path is Some <==> issues[i].path is Some
                &&& issues[i].path matches Some(path) ==> shown.path == Some(path@)
            },
{
}

/// A transaction set shows its identifier and, if it has one, its version; a
/// descriptor shows its name, its version and its media type.
pub proof fn law_names_show_all(set: TransactionSet, descriptor: ContractDescriptor)
    ensures
        set@.identifier == set.identifier@,
        set@.version is Some <==> set.version is Some,
        set.version matches Some(version) ==> set@.version == Some(version@),
        x12::set_view(Some(set)) == Some(set@),
        x12::set_view(None) is None,
        descriptor@.id == descriptor.id.0@,
        descriptor@.version == descriptor.version@,
        descriptor@.representation == descriptor.representation@,
{
}

/// What was decoded shows its text, or its fault.
pub proof fn law_decoded_shows_all(text: &str, fault: String)
    ensures
        x12::decoded_view(Ok(text)) == Ok::<Seq<char>, Seq<char>>(text@),
        x12::decoded_view(Err(fault)) == Err::<Seq<char>, Seq<char>>(fault@),
{
}

/// A text that cannot be read is `malformed`, without a path; what is wrong
/// with an envelope segment is `envelope`, with one.
pub proof fn law_issue_codes(message: Seq<char>, path: Seq<char>)
    ensures
        contract::malformed_issue(message) == (IssueView {
            code: "malformed"@,
            message,
            path: None,
        }),
        contract::envelope_issue(message, path) == (IssueView {
            code: "envelope"@,
            message,
            path: Some(path),
        }),
{
}

}
