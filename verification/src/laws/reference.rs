//! References: how a transaction set is named, and the contract after it.

use vstd::prelude::*;

use crate::laws::{reading, words};
use crate::text;
use crate::transaction_set;
use crate::transaction_set::TransactionSetView;
use crate::x12;

verus! {

/// What trimming leaves: a stretch of the text that neither begins nor ends
/// with white space.
proof fn lemma_trim(s: Seq<char>)
    ensures
        text::trim(s).len() > 0 ==> !text::white_space(text::trim(s)[0]) && !text::white_space(
            text::trim(s).last(),
        ),
        forall|c: char| text::trim(s).contains(c) ==> #[trigger] s.contains(c),
{
    lemma_trim_start(s);
    lemma_trim_end(text::trim_start(s));
}

/// What trimming the start leaves.
proof fn lemma_trim_start(s: Seq<char>)
    ensures
        text::trim_start(s).len() > 0 ==> !text::white_space(text::trim_start(s)[0]),
        forall|c: char| text::trim_start(s).contains(c) ==> #[trigger] s.contains(c),
    decreases s.len(),
{
    if s.len() > 0 && text::white_space(s[0]) {
        let rest = s.skip(1);
        lemma_trim_start(rest);
        assert forall|c: char| text::trim_start(s).contains(c) implies #[trigger] s.contains(
            c,
        ) by {
            assert(rest.contains(c));
            let i = choose|i: int| 0 <= i < rest.len() && rest[i] == c;
            assert(s[i + 1] == c);
        }
    }
}

/// What trimming the end leaves.
proof fn lemma_trim_end(s: Seq<char>)
    ensures
        text::trim_end(s).len() > 0 ==> !text::white_space(text::trim_end(s).last())
            && text::trim_end(s)[0] == s[0],
        forall|c: char| text::trim_end(s).contains(c) ==> #[trigger] s.contains(c),
    decreases s.len(),
{
    if s.len() > 0 && text::white_space(s.last()) {
        let init = s.drop_last();
        lemma_trim_end(init);
        assert forall|c: char| text::trim_end(s).contains(c) implies #[trigger] s.contains(c) by {
            assert(init.contains(c));
            let i = choose|i: int| 0 <= i < init.len() && init[i] == c;
            assert(s[i] == c);
        }
    }
}

/// A text that neither begins nor ends with white space is left alone.
proof fn lemma_trim_nothing(s: Seq<char>)
    requires
        s.len() > 0,
        !text::white_space(s[0]),
        !text::white_space(s.last()),
    ensures
        text::trim(s) == s,
{
}

/// A set identifier holds no colon, and nothing to trim.
proof fn lemma_set_identifier(s: Seq<char>)
    requires
        transaction_set::set_identifier(s),
    ensures
        !s.contains(':'),
        text::trim(s) == s,
{
    assert(text::digit(s[0]) && text::digit(s[1]) && text::digit(s[2]));
    lemma_trim_nothing(s);
}

/// A version as it is kept holds no colon, has nothing to trim, and is in
/// upper case already.
proof fn lemma_version(s: Seq<char>)
    requires
        text::trim(s).len() > 0,
        !s.contains(':'),
    ensures
        ({
            let version = text::upper(text::trim(s));
            &&& version.len() > 0
            &&& !version.contains(':')
            &&& text::trim(version) == version
            &&& text::upper(version) == version
        }),
{
    let trimmed = text::trim(s);
    let version = text::upper(trimmed);
    lemma_trim(s);
    assert(!version.contains(':')) by {
        if version.contains(':') {
            let i = choose|i: int| 0 <= i < version.len() && version[i] == ':';
            assert(text::upper_char(trimmed[i]) == ':');
            assert(trimmed.contains(trimmed[i]));
            assert(s.contains(':'));
        }
    }
    assert(version[0] == text::upper_char(trimmed[0]));
    assert(version.last() == text::upper_char(trimmed.last()));
    lemma_trim_nothing(version);
    assert(text::upper(version) =~= version);
}

/// Three characters, each from `0` to `9`.
pub open spec fn three_digits(s: Seq<char>) -> bool {
    s.len() == 3 && forall|i: int| 0 <= i < s.len() ==> '0' <= #[trigger] s[i] <= '9'
}

/// A text that trimming leaves alone.
pub open spec fn compact(s: Seq<char>) -> bool {
    s.len() > 0 ==> !text::white_space(s[0]) && !text::white_space(s.last())
}

/// A text with white space around it.
pub open spec fn padded(before: Seq<char>, kept: Seq<char>, after: Seq<char>) -> bool {
    words::blank(before) && compact(kept) && words::blank(after)
}

/// White space holds no colon.
proof fn lemma_padded_has_no_colon(before: Seq<char>, kept: Seq<char>, after: Seq<char>)
    requires
        padded(before, kept, after),
        !kept.contains(':'),
    ensures
        !(before + kept + after).contains(':'),
{
    let all = before + kept + after;
    if all.contains(':') {
        let i = choose|i: int| 0 <= i < all.len() && all[i] == ':';
        if i < before.len() {
            assert(text::white_space(before[i]));
        } else if i < before.len() + kept.len() {
            assert(kept[i - before.len()] == ':');
        } else {
            assert(text::white_space(after[i - before.len() - kept.len()]));
        }
    }
}

/// Three digits are a set identifier, and nothing else is.
proof fn lemma_three_digits(s: Seq<char>)
    ensures
        transaction_set::set_identifier(s) <==> three_digits(s),
{
    if three_digits(s) {
        assert forall|i: int| 0 <= i < s.len() implies text::digit(#[trigger] s[i]) by {
            assert('0' <= s[i] <= '9');
        }
    }
    if transaction_set::set_identifier(s) {
        assert forall|i: int| 0 <= i < s.len() implies '0' <= #[trigger] s[i] <= '9' by {
            assert(text::digit(s[i]));
        }
    }
}

/// A reference without a colon names a set just when, white space around it
/// aside, it is three characters from `0` to `9`, whichever they are; they are
/// then the set's identifier, and it has no version.
pub proof fn law_three_digits_name_a_set(
    before: Seq<char>,
    identifier: Seq<char>,
    after: Seq<char>,
)
    requires
        padded(before, identifier, after),
        !identifier.contains(':'),
    ensures
        transaction_set::named(before + identifier + after) == if three_digits(identifier) {
            Some(TransactionSetView { identifier, version: None })
        } else {
            None
        },
{
    lemma_padded_has_no_colon(before, identifier, after);
    words::law_split_without_separator(before + identifier + after, ':');
    words::law_trim(before, identifier, after);
    lemma_three_digits(identifier);
}

/// A reference with one colon names a set just when, white space around either
/// part aside, what stands before the colon is three characters from `0` to
/// `9` and what stands after it is something; the first is then the set's
/// identifier and the second, in upper case, its version.
pub proof fn law_version_after_a_colon(
    before: Seq<char>,
    identifier: Seq<char>,
    after: Seq<char>,
    left: Seq<char>,
    version: Seq<char>,
    right: Seq<char>,
    upper: Seq<char>,
)
    requires
        padded(before, identifier, after),
        !identifier.contains(':'),
        padded(left, version, right),
        !version.contains(':'),
        words::in_upper_case(version, upper),
    ensures
        transaction_set::named(
            before + identifier + after + seq![':'] + (left + version + right),
        ) == if three_digits(identifier) && version.len() > 0 {
            Some(TransactionSetView { identifier, version: Some(upper) })
        } else {
            None
        },
{
    let a = before + identifier + after;
    let b = left + version + right;
    lemma_padded_has_no_colon(before, identifier, after);
    lemma_padded_has_no_colon(left, version, right);
    words::law_split_at_separator(a, b, ':');
    words::law_split_without_separator(a, ':');
    words::law_split_without_separator(b, ':');
    words::law_trim(before, identifier, after);
    words::law_trim(left, version, right);
    words::law_upper(version, upper);
    lemma_three_digits(identifier);
    assert(seq![a] + seq![b] =~= seq![a, b]);
}

/// A reference with two colons or more names no set.
pub proof fn law_two_colons_name_nothing(a: Seq<char>, b: Seq<char>, c: Seq<char>)
    ensures
        transaction_set::named(a + seq![':'] + b + seq![':'] + c) is None,
{
    words::law_split_at_separator(a + seq![':'] + b, c, ':');
    words::law_split_at_separator(a, b, ':');
    reading::lemma_split_is_not_empty(a, ':');
    reading::lemma_split_is_not_empty(b, ':');
    reading::lemma_split_is_not_empty(c, ':');
}

/// A set is referred to by its identifier, with a colon and its version after
/// it where it has one.
pub proof fn law_reference(identifier: Seq<char>, version: Seq<char>)
    ensures
        (TransactionSetView { identifier, version: None }).reference() == identifier,
        (TransactionSetView { identifier, version: Some(version) }).reference() == identifier
            + seq![':'] + version,
{
    reveal_strlit(":");
    assert(":"@ =~= seq![':']);
}

/// What is said of a reference that names no set begins with the reference as
/// it is shown.
pub proof fn law_refusal(shown: Seq<char>)
    ensures
        transaction_set::refusal(shown) == shown
            + " is not SET or SET:VERSION, the set three digits"@,
{
}

/// A transaction set is named by its own reference: what a reference names is
/// named again by how it is referred to.
pub proof fn law_reference_names_its_set(reference: Seq<char>)
    ensures
        transaction_set::named(reference) matches Some(set) ==> transaction_set::named(
            set.reference(),
        ) == Some(set),
{
    if let Some(set) = transaction_set::named(reference) {
        let parts = text::split(reference, ':');
        reading::law_split_loses_nothing(reference, ':');
        lemma_set_identifier(set.identifier);
        if set.version is None {
            assert forall|i: int| 0 <= i < set.identifier.len() implies set.identifier[i]
                != ':' by {
                assert(set.identifier.contains(set.identifier[i]));
            }
            reading::lemma_no_separator(set.identifier, ':');
        } else {
            let version = set.version->0;
            lemma_version(parts[1]);
            let pair = seq![set.identifier, version];
            reading::law_split_undoes_join(pair, ':');
            reveal_strlit(":");
            assert(pair.drop_last() =~= seq![set.identifier]);
            assert(reading::join(seq![set.identifier], ':') == set.identifier);
            assert(":"@ =~= seq![':']);
            assert(set.reference() =~= reading::join(pair, ':'));
        }
    }
}

/// Contracts go by different names unless they are bound to the same
/// transaction set, and a bound one never goes by the name of the bare one.
pub proof fn law_contracts_have_names_of_their_own(a: Seq<char>, b: Seq<char>)
    requires
        transaction_set::named(a) is Some,
        transaction_set::named(b) is Some,
    ensures
        x12::contract_id(transaction_set::named(a)) == x12::contract_id(transaction_set::named(b))
            ==> transaction_set::named(a) == transaction_set::named(b),
        x12::contract_id(transaction_set::named(a)) != x12::contract_id(None),
{
    let x = transaction_set::named(a)->0.reference();
    let y = transaction_set::named(b)->0.reference();
    law_reference_names_its_set(a);
    law_reference_names_its_set(b);
    let prefix = "edi-x12:"@;
    reveal_strlit("edi-x12:");
    reveal_strlit("edi-x12");
    assert((prefix + x).len() != "edi-x12"@.len());
    if prefix + x == prefix + y {
        assert((prefix + x).skip(prefix.len() as int) =~= x);
        assert((prefix + y).skip(prefix.len() as int) =~= y);
    }
}

/// The name of a contract tells whether it is bound: the bare one holds no
/// colon, a bound one does.
pub proof fn law_bare_name_has_no_colon(set: Option<TransactionSetView>)
    ensures
        x12::contract_id(set).contains(':') <==> set is Some,
{
    reveal_strlit("edi-x12:");
    reveal_strlit("edi-x12");
    match set {
        Some(set) => {
            let id = "edi-x12:"@ + set.reference();
            assert("edi-x12:"@[7] == ':');
            assert(id[7] == ':');
        },
        None => {
            let id = "edi-x12"@;
            assert(id[0] == 'e' && id[1] == 'd' && id[2] == 'i' && id[3] == '-');
            assert(id[4] == 'x' && id[5] == '1' && id[6] == '2');
        },
    }
}

/// Splitting at a colon and upper casing go in either order.
proof fn lemma_split_upper(s: Seq<char>)
    ensures
        text::split(text::upper(s), ':').len() == text::split(s, ':').len(),
        forall|i: int|
            0 <= i < text::split(s, ':').len() ==> #[trigger] text::split(text::upper(s), ':')[i]
                == text::upper(text::split(s, ':')[i]),
    decreases s.len(),
{
    if s.len() == 0 {
        assert(text::upper(s) =~= s);
        assert(text::upper(Seq::empty()) =~= Seq::<char>::empty());
    } else {
        let init = s.drop_last();
        let before = text::split(init, ':');
        lemma_split_upper(init);
        reading::lemma_split_is_not_empty(init, ':');
        assert(text::upper(s).drop_last() =~= text::upper(init));
        assert(text::upper(s).last() == text::upper_char(s.last()));
        assert(text::upper(Seq::empty()) =~= Seq::<char>::empty());
        let last = before[before.len() - 1];
        assert(text::upper(last.push(s.last())) =~= text::upper(last).push(
            text::upper_char(s.last()),
        ));
    }
}

/// Trimming the start and upper casing go in either order.
proof fn lemma_trim_start_upper(s: Seq<char>)
    ensures
        text::trim_start(text::upper(s)) == text::upper(text::trim_start(s)),
    decreases s.len(),
{
    if s.len() > 0 && text::white_space(s[0]) {
        lemma_trim_start_upper(s.skip(1));
        assert(text::upper(s).skip(1) =~= text::upper(s.skip(1)));
    }
}

/// Trimming the end and upper casing go in either order.
proof fn lemma_trim_end_upper(s: Seq<char>)
    ensures
        text::trim_end(text::upper(s)) == text::upper(text::trim_end(s)),
    decreases s.len(),
{
    if s.len() > 0 && text::white_space(s.last()) {
        lemma_trim_end_upper(s.drop_last());
        assert(text::upper(s).drop_last() =~= text::upper(s.drop_last()));
    }
}

/// Trimming and upper casing go in either order.
proof fn lemma_trim_upper(s: Seq<char>)
    ensures
        text::trim(text::upper(s)) == text::upper(text::trim(s)),
{
    lemma_trim_start_upper(s);
    lemma_trim_end_upper(text::trim_start(s));
}

/// The case of a reference does not matter.
pub proof fn law_case_of_a_reference_does_not_matter(reference: Seq<char>)
    ensures
        transaction_set::named(text::upper(reference)) == transaction_set::named(reference),
{
    let parts = text::split(reference, ':');
    lemma_split_upper(reference);
    reading::lemma_split_is_not_empty(reference, ':');
    lemma_trim_upper(parts[0]);
    let identifier = text::trim(parts[0]);
    let upper = text::upper(identifier);
    assert(transaction_set::set_identifier(identifier) <==> transaction_set::set_identifier(
        upper,
    )) by {
        assert(forall|i: int|
            0 <= i < identifier.len() ==> text::digit(#[trigger] upper[i]) == text::digit(
                identifier[i],
            ));
        if transaction_set::set_identifier(upper) {
            assert forall|i: int| 0 <= i < identifier.len() implies text::digit(
                #[trigger] identifier[i],
            ) by {
                assert(text::digit(upper[i]));
            }
        }
    }
    if transaction_set::set_identifier(identifier) {
        assert forall|i: int| 0 <= i < identifier.len() implies #[trigger] upper[i]
            == identifier[i] by {
            assert(text::digit(identifier[i]));
        }
        assert(upper =~= identifier);
    }
    if parts.len() == 2 {
        lemma_trim_upper(parts[1]);
        let version = text::upper(text::trim(parts[1]));
        assert(text::upper(version) =~= version);
    }
}

}
