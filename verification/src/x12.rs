//! The X12 contract, and how it is loaded.

use vstd::prelude::*;
use vstd::string::*;
use vstd::utf8::{decode_utf8, valid_utf8};

use crate::contract;
use crate::contract::{
    issue, malformed, result, ContractDescriptor, ContractError, ContractId, DescriptorView,
    IssueView, Stream, ValidationIssue, ValidationResult,
};
use crate::syntax;
use crate::syntax::{Interchange, Segment, SetView};
use crate::text;
use crate::text::{decimal_text, decode, pieces, same, trimmed, uppercase};
use crate::transaction_set;
use crate::transaction_set::{mismatch, TransactionSet, TransactionSetView};

verus! {

/// The X12 contract, bare or bound to a transaction set.
pub struct X12 {
    descriptor: ContractDescriptor,
    transaction_set: Option<TransactionSet>,
}

/// Loads the contract a Location names: an empty reference is the bare
/// contract, anything else a transaction set, `850` or `850:004010`.
pub struct X12Factory;

/// The text of an optional transaction set.
pub open spec fn set_view(set: Option<TransactionSet>) -> Option<TransactionSetView> {
    match set {
        Some(set) => Some(set@),
        None => None,
    }
}

/// A contract is the transaction set it is bound to, or none.
impl View for X12 {
    type V = Option<TransactionSetView>;

    closed spec fn view(&self) -> Option<TransactionSetView> {
        set_view(self.transaction_set)
    }
}

/// The name of the contract that is bound to `set`, or of the bare one.
pub open spec fn contract_id(set: Option<TransactionSetView>) -> Seq<char> {
    match set {
        Some(set) => "edi-x12:"@ + set.reference(),
        None => "edi-x12"@,
    }
}

/// The descriptor of the contract that is bound to `set`, or of the bare one.
pub open spec fn descriptor_of(set: Option<TransactionSetView>) -> DescriptorView {
    DescriptorView {
        id: contract_id(set),
        version: "1"@,
        representation: "application/EDI-X12"@,
    }
}

/// A media type, its parameters aside and whatever its case, that is X12's.
pub open spec fn x12_media_type(media_type: Seq<char>) -> bool {
    text::upper(text::trim(text::split(media_type, ';')[0])) == text::upper(
        "application/EDI-X12"@,
    )
}

/// Bytes that open with `ISA`.
pub open spec fn opens_with_isa(bytes: Seq<u8>) -> bool {
    bytes.len() >= 3 && bytes[0] == 0x49 && bytes[1] == 0x53 && bytes[2] == 0x41
}

/// What bytes say as text, or why they say nothing.
pub open spec fn decoded(bytes: Seq<u8>) -> Result<Seq<char>, Seq<char>> {
    if valid_utf8(bytes) {
        Ok(decode_utf8(bytes))
    } else {
        Err(text::utf8_fault(bytes))
    }
}

/// The issue of a transaction set that is not the bound one.
pub open spec fn set_issue(set: SetView, message: Seq<char>) -> IssueView {
    IssueView {
        code: "transaction-set"@,
        message,
        path: Some("set "@ + text::decimal(set.ordinal)),
    }
}

/// An issue for each transaction set that is not `wanted`, in their order.
pub open spec fn set_issues(wanted: TransactionSetView, sets: Seq<SetView>) -> Seq<IssueView>
    decreases sets.len(),
{
    if sets.len() == 0 {
        Seq::empty()
    } else {
        let before = set_issues(wanted, sets.drop_last());
        let set = sets.last();
        match transaction_set::difference(wanted, set.header, set.group) {
            Some(message) => before.push(set_issue(set, message)),
            None => before,
        }
    }
}

/// Everything that the contract bound to `wanted`, or the bare one, finds in a
/// message.
pub open spec fn findings(
    wanted: Option<TransactionSetView>,
    decoded: Result<Seq<char>, Seq<char>>,
) -> Seq<IssueView> {
    match decoded {
        Err(fault) => seq![contract::malformed_issue("not text: "@ + fault)],
        Ok(text) => match syntax::interchange(text) {
            Err(message) => seq![contract::malformed_issue(message)],
            Ok(read) => syntax::departures(read.segments) + match wanted {
                Some(wanted) => set_issues(wanted, syntax::sets(read.segments)),
                None => Seq::empty(),
            },
        },
    }
}

/// The texts of decoded bytes.
pub open spec fn decoded_view(decoded: Result<&str, String>) -> Result<Seq<char>, Seq<char>> {
    match decoded {
        Ok(text) => Ok(text@),
        Err(fault) => Err(fault@),
    }
}

/// The descriptor of the contract named `id`.
fn descriptor(id: &str) -> (r: ContractDescriptor)
    ensures
        r@ == (DescriptorView {
            id: id@,
            version: "1"@,
            representation: "application/EDI-X12"@,
        }),
{
    ContractDescriptor {
        id: ContractId(id.to_owned()),
        version: "1".to_owned(),
        representation: "application/EDI-X12".to_owned(),
    }
}

/// The issues of the transaction sets that are not `wanted`.
fn mismatches(
    wanted: &TransactionSet,
    sets: &Vec<(usize, &Segment, Option<&Segment>)>,
    issues: &mut Vec<ValidationIssue>,
)
    ensures
        contract::issue_views(final(issues)@) == contract::issue_views(old(issues)@) + set_issues(
            wanted@,
            syntax::set_views(sets@),
        ),
{
    let ghost before = contract::issue_views(issues@);
    let ghost views = syntax::set_views(sets@);
    for i in 0..sets.len()
        invariant
            views == syntax::set_views(sets@),
            contract::issue_views(issues@) == before + set_issues(wanted@, views.take(i as int)),
    {
        let ghost done = contract::issue_views(issues@);
        assert(views.take(i + 1).drop_last() =~= views.take(i as int));
        let (ordinal, header, group) = sets[i];
        if let Some(message) = mismatch(wanted, header, group) {
            let mut path = "set ".to_owned();
            path.append(decimal_text(ordinal).as_str());
            issues.push(issue("transaction-set", message.as_str(), Some(path)));
            assert(contract::issue_views(issues@) =~= done.push(
                set_issue(views[i as int], message@),
            ));
            assert(before + set_issues(wanted@, views.take(i + 1)) =~= done.push(
                set_issue(views[i as int], message@),
            ));
        }
    }
    assert(views.take(sets.len() as int) =~= views);
}

impl X12 {
    /// The descriptor is that of the bound set.
    #[verifier::type_invariant]
    spec fn well_formed(self) -> bool {
        self.descriptor@ == descriptor_of(set_view(self.transaction_set))
    }

    /// A sound interchange, of any transaction sets.
    #[must_use]
    pub fn new() -> (r: Self)
        ensures
            r@ is None,
    {
        X12 { descriptor: descriptor("edi-x12"), transaction_set: None }
    }

    /// A sound interchange whose every set is `transaction_set`.
    #[must_use]
    pub fn of(transaction_set: TransactionSet) -> (r: Self)
        ensures
            r@ == Some(transaction_set@),
    {
        let mut id = "edi-x12:".to_owned();
        id.append(transaction_set.reference().as_str());
        X12 { descriptor: descriptor(id.as_str()), transaction_set: Some(transaction_set) }
    }

    /// Whether a transaction set is bound.
    #[must_use]
    pub fn is_bound(&self) -> (r: bool)
        ensures
            r == (self@ is Some),
    {
        self.transaction_set.is_some()
    }

    /// The contract's descriptor.
    #[must_use]
    pub fn descriptor(&self) -> (r: &ContractDescriptor)
        ensures
            r@ == descriptor_of(self@),
    {
        proof {
            use_type_invariant(self);
        }
        &self.descriptor
    }

    /// Whether the message is X12, by its media type or by its first bytes.
    ///
    /// # Errors
    /// None.
    pub fn identify(&self, stream: &Stream) -> (r: Result<bool, ContractError>)
        ensures
            r matches Ok(x12) && x12 == ((stream.media_type matches Some(media_type)
                && x12_media_type(media_type@)) || opens_with_isa(stream.bytes@)),
    {
        if let Some(media_type) = &stream.media_type {
            let parts = pieces(media_type.as_str(), ';');
            assert(text::split(media_type@, ';')[0] == parts@[0]@);
            let essence = trimmed(parts[0].as_str());
            if same(uppercase(essence).as_str(), uppercase("application/EDI-X12").as_str()) {
                return Ok(true);
            }
        }
        let bytes = &stream.bytes;
        Ok(bytes.len() >= 3 && bytes[0] == 0x49 && bytes[1] == 0x53 && bytes[2] == 0x41)
    }

    /// What the contract finds in a message whose bytes were decoded as
    /// `decoded`: the text, or the wording of the fault.
    #[must_use]
    pub fn examine(&self, decoded: Result<&str, String>) -> (r: ValidationResult)
        ensures
            r@ == findings(self@, decoded_view(decoded)),
            r.valid == (r@.len() == 0),
    {
        let text = match decoded {
            Ok(text) => text,
            Err(fault) => {
                let mut message = "not text: ".to_owned();
                message.append(fault.as_str());
                let r = result(vec![malformed(message.as_str())]);
                assert(r@ =~= findings(self@, decoded_view(decoded)));
                return r;
            },
        };
        let interchange = match Interchange::parse(text) {
            Ok(interchange) => interchange,
            Err(unsound) => {
                let r = result(vec![unsound]);
                assert(r@ =~= findings(self@, decoded_view(decoded)));
                return r;
            },
        };
        let mut issues = interchange.soundness();
        if let Some(wanted) = &self.transaction_set {
            mismatches(wanted, &interchange.transaction_sets(), &mut issues);
        }
        let r = result(issues);
        assert(r@ =~= findings(self@, decoded_view(decoded)));
        r
    }

    /// What the contract finds in the message: that it is not text, that it is
    /// not an interchange, or every departure of its envelopes and, where a
    /// transaction set is bound, every set that is another.
    ///
    /// # Errors
    /// None.
    pub fn validate(&self, stream: &Stream) -> (r: Result<ValidationResult, ContractError>)
        ensures
            r matches Ok(verdict) && verdict@ == findings(self@, decoded(stream.bytes@))
                && verdict.valid == (verdict@.len() == 0),
    {
        Ok(self.examine(decode(stream.bytes.as_slice())))
    }
}

impl Default for X12 {
    fn default() -> (r: Self)
        ensures
            r@ is None,
    {
        X12::new()
    }
}

impl X12Factory {
    /// The technology the factory loads contracts of.
    #[must_use]
    pub fn technology(&self) -> (r: &'static str)
        ensures
            r@ == "edi-x12"@,
    {
        "edi-x12"
    }

    /// The contract that `reference` names.
    ///
    /// # Errors
    /// A reference that says something and names no transaction set.
    pub fn load(&self, reference: &str) -> (r: Result<X12, ContractError>)
        ensures
            if text::trim(reference@).len() == 0 {
                r matches Ok(contract) && contract@ is None
            } else {
                match transaction_set::named(reference@) {
                    Some(set) => r matches Ok(contract) && contract@ == Some(set),
                    None => r matches Err(error) && error.message@ == transaction_set::refusal(
                        text::quoted(reference@),
                    ),
                }
            },
    {
        if trimmed(reference).is_empty() {
            return Ok(X12::new());
        }
        match TransactionSet::parse(reference) {
            Ok(set) => Ok(X12::of(set)),
            Err(error) => Err(error),
        }
    }
}

}
