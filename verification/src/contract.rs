//! What a contract is described by, and what it answers.

use vstd::prelude::*;

verus! {

/// The name a contract goes by.
#[derive(Clone, Debug, PartialEq, Eq)]
pub struct ContractId(pub String);

/// A contract's name and version, and the media type it governs.
#[derive(Clone, Debug, PartialEq, Eq)]
pub struct ContractDescriptor {
    pub id: ContractId,
    pub version: String,
    pub representation: String,
}

/// Why a contract could not be loaded or applied.
#[derive(Clone, Debug, PartialEq, Eq)]
pub struct ContractError {
    pub message: String,
}

/// One departure from a contract: its kind, its wording, and where it is.
#[derive(Clone, Debug, PartialEq, Eq)]
pub struct ValidationIssue {
    pub code: String,
    pub message: String,
    pub path: Option<String>,
}

/// The departures found; `valid` when there are none.
#[derive(Clone, Debug, PartialEq, Eq)]
pub struct ValidationResult {
    pub valid: bool,
    pub issues: Vec<ValidationIssue>,
}

/// A message: its bytes, and the media type it was declared with.
#[derive(Clone, Debug, PartialEq, Eq)]
pub struct Stream {
    pub bytes: Vec<u8>,
    pub media_type: Option<String>,
}

/// The text of a descriptor.
pub struct DescriptorView {
    pub id: Seq<char>,
    pub version: Seq<char>,
    pub representation: Seq<char>,
}

/// The text of an issue.
pub struct IssueView {
    pub code: Seq<char>,
    pub message: Seq<char>,
    pub path: Option<Seq<char>>,
}

/// The text of an optional string.
pub open spec fn text_of(s: Option<String>) -> Option<Seq<char>> {
    match s {
        Some(s) => Some(s@),
        None => None,
    }
}

impl View for ContractDescriptor {
    type V = DescriptorView;

    open spec fn view(&self) -> DescriptorView {
        DescriptorView {
            id: self.id.0@,
            version: self.version@,
            representation: self.representation@,
        }
    }
}

impl View for ValidationIssue {
    type V = IssueView;

    open spec fn view(&self) -> IssueView {
        IssueView { code: self.code@, message: self.message@, path: text_of(self.path) }
    }
}

/// The texts of a sequence of issues.
pub open spec fn issue_views(issues: Seq<ValidationIssue>) -> Seq<IssueView> {
    Seq::new(issues.len(), |i: int| issues[i]@)
}

impl View for ValidationResult {
    type V = Seq<IssueView>;

    open spec fn view(&self) -> Seq<IssueView> {
        issue_views(self.issues@)
    }
}

impl Stream {
    /// A message of `bytes`, declared as `media_type` or not declared.
    pub fn new(bytes: Vec<u8>, media_type: Option<String>) -> (r: Self)
        ensures
            r.bytes == bytes,
            r.media_type == media_type,
    {
        Stream { bytes, media_type }
    }
}

/// A text that cannot be read.
pub open spec fn malformed_issue(message: Seq<char>) -> IssueView {
    IssueView { code: "malformed"@, message, path: None }
}

/// An envelope segment that departs from X12.
pub open spec fn envelope_issue(message: Seq<char>, path: Seq<char>) -> IssueView {
    IssueView { code: "envelope"@, message, path: Some(path) }
}

/// An issue of the given kind, wording and place.
pub fn issue(code: &str, message: &str, path: Option<String>) -> (r: ValidationIssue)
    ensures
        r@ == (IssueView { code: code@, message: message@, path: text_of(path) }),
{
    ValidationIssue { code: code.to_owned(), message: message.to_owned(), path }
}

/// The issue of a text that cannot be read.
pub fn malformed(message: &str) -> (r: ValidationIssue)
    ensures
        r@ == malformed_issue(message@),
{
    issue("malformed", message, None)
}

/// The issue of an envelope segment.
pub fn envelope(message: &str, path: &str) -> (r: ValidationIssue)
    ensures
        r@ == envelope_issue(message@, path@),
{
    issue("envelope", message, Some(path.to_owned()))
}

/// The verdict on `issues`: valid when there are none.
pub fn result(issues: Vec<ValidationIssue>) -> (r: ValidationResult)
    ensures
        r.issues == issues,
        r.valid == (issues@.len() == 0),
{
    ValidationResult { valid: issues.len() == 0, issues }
}

}
