//! The transaction set a contract is bound to.

use vstd::prelude::*;
use vstd::string::*;

use crate::contract::ContractError;
use crate::syntax::{Segment, SegmentView};
use crate::text;
use crate::text::{chars_of, pieces, quote, same, trimmed, uppercase};

verus! {

/// The bound transaction set: identifier, and optionally the version.
#[derive(Clone, Debug, PartialEq, Eq)]
pub struct TransactionSet {
    pub identifier: String,
    pub version: Option<String>,
}

/// The text of a transaction set.
pub struct TransactionSetView {
    pub identifier: Seq<char>,
    pub version: Option<Seq<char>>,
}

impl View for TransactionSet {
    type V = TransactionSetView;

    open spec fn view(&self) -> TransactionSetView {
        TransactionSetView {
            identifier: self.identifier@,
            version: crate::contract::text_of(self.version),
        }
    }
}

impl TransactionSetView {
    /// How the transaction set is referred to.
    pub open spec fn reference(self) -> Seq<char> {
        match self.version {
            Some(version) => self.identifier + ":"@ + version,
            None => self.identifier,
        }
    }
}

/// Three digits.
pub open spec fn set_identifier(s: Seq<char>) -> bool {
    s.len() == 3 && forall|i: int| 0 <= i < s.len() ==> text::digit(#[trigger] s[i])
}

/// The transaction set that a reference names: `SET`, or `SET:VERSION` with
/// the version in upper case; white space around either is nothing.
pub open spec fn named(reference: Seq<char>) -> Option<TransactionSetView> {
    let parts = text::split(reference, ':');
    let identifier = text::trim(parts[0]);
    if !set_identifier(identifier) {
        None
    } else if parts.len() == 1 {
        Some(TransactionSetView { identifier, version: None })
    } else if parts.len() == 2 && text::trim(parts[1]).len() > 0 {
        Some(
            TransactionSetView {
                identifier,
                version: Some(text::upper(text::trim(parts[1]))),
            },
        )
    } else {
        None
    }
}

/// The wording of a reference that names no transaction set.
pub open spec fn refusal(shown: Seq<char>) -> Seq<char> {
    shown + " is not SET or SET:VERSION, the set three digits"@
}

/// What sets an `ST` and the `GS` in force at it apart from the bound set.
pub open spec fn difference(
    wanted: TransactionSetView,
    header: SegmentView,
    group: Option<SegmentView>,
) -> Option<Seq<char>> {
    let identifier = header.simple(1);
    let actual = match group {
        Some(group) => text::upper(group.simple(8)),
        None => Seq::empty(),
    };
    if identifier != wanted.identifier {
        Some("is "@ + identifier + ", the contract is "@ + wanted.identifier)
    } else if wanted.version is Some && wanted.version != Some(actual) {
        Some("is "@ + identifier + " "@ + actual + ", the contract is "@ + wanted.reference())
    } else {
        None
    }
}

/// Whether `identifier` is three digits.
fn is_set_identifier(identifier: &str) -> (r: bool)
    ensures
        r == set_identifier(identifier@),
{
    let chars = chars_of(identifier);
    if chars.len() != 3 {
        return false;
    }
    for i in 0..chars.len()
        invariant
            chars@ == identifier@,
            forall|j: int| 0 <= j < i ==> text::digit(#[trigger] identifier@[j]),
    {
        if chars[i] < '0' || '9' < chars[i] {
            assert(!text::digit(identifier@[i as int]));
            return false;
        }
    }
    true
}

/// The error of a reference that names no transaction set, shown as `shown`.
pub fn not_a_set(shown: &str) -> (r: ContractError)
    ensures
        r.message@ == refusal(shown@),
{
    let mut message = shown.to_owned();
    message.append(" is not SET or SET:VERSION, the set three digits");
    ContractError { message }
}

impl TransactionSet {
    /// `850`, `850:004010`, `837:005010X222A1`.
    ///
    /// # Errors
    /// An identifier that is not three digits, an empty version, or more than
    /// two parts.
    pub fn parse(reference: &str) -> (r: Result<Self, ContractError>)
        ensures
            match named(reference@) {
                Some(view) => r matches Ok(set) && set@ == view,
                None => r matches Err(error) && error.message@ == refusal(
                    text::quoted(reference@),
                ),
            },
    {
        let parts = pieces(reference, ':');
        let ghost views = text::split(reference@, ':');
        assert(views[0] == parts@[0]@);
        let identifier = trimmed(parts[0].as_str());
        if is_set_identifier(identifier) {
            if parts.len() == 1 {
                return Ok(TransactionSet { identifier: identifier.to_owned(), version: None });
            }
            if parts.len() == 2 {
                assert(views[1] == parts@[1]@);
                let version = trimmed(parts[1].as_str());
                if !version.is_empty() {
                    return Ok(
                        TransactionSet {
                            identifier: identifier.to_owned(),
                            version: Some(uppercase(version)),
                        },
                    );
                }
            }
        }
        Err(not_a_set(quote(reference).as_str()))
    }

    /// How the transaction set is referred to.
    #[must_use]
    pub fn reference(&self) -> (r: String)
        ensures
            r@ == self@.reference(),
    {
        match &self.version {
            Some(version) => {
                let mut r = self.identifier.clone();
                r.append(":");
                r.append(version.as_str());
                r
            },
            None => self.identifier.clone(),
        }
    }
}

/// Why an `ST` is not the bound set, or `None` when it is.
pub fn mismatch(wanted: &TransactionSet, header: &Segment, group: Option<&Segment>) -> (r: Option<
    String,
>)
    ensures
        crate::contract::text_of(r) == difference(
            wanted@,
            header@,
            crate::syntax::segment_view(group),
        ),
{
    let identifier = header.simple(1);
    if !same(identifier, wanted.identifier.as_str()) {
        let mut message = "is ".to_owned();
        message.append(identifier);
        message.append(", the contract is ");
        message.append(wanted.identifier.as_str());
        return Some(message);
    }
    if let Some(version) = &wanted.version {
        let actual = match group {
            Some(group) => uppercase(group.simple(8)),
            None => String::new(),
        };
        if !same(actual.as_str(), version.as_str()) {
            let mut message = "is ".to_owned();
            message.append(identifier);
            message.append(" ");
            message.append(actual.as_str());
            message.append(", the contract is ");
            message.append(wanted.reference().as_str());
            return Some(message);
        }
    }
    None
}

}
