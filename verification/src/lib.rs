//! The ASC X12 content contract.
//!
//! Two claims: **well-formedness is a given** and **conformance is a given
//! once a contract is named**.
//!
//! Well-formed here is a *sound interchange*: segments read with the
//! separators `ISA` declares by position; `ISA` opens and `IEA` closes with
//! the same control number and the right group count; every `GS` is closed
//! by a `GE` with the same control number and the right set count; every
//! `ST` by an `SE` with the same control number and the right segment count,
//! and before its group is closed.
//! That is what a partner's interchange must satisfy before any transaction
//! set in it means anything.
//!
//! Conformance is the *transaction set*: a Location that names this contract
//! with `850:004010` bound has every set's `ST01` held to that identifier and
//! its group's `GS08` to that version, and `850` alone holds the identifier.
//!
//! Both claims are stated and proved in [`laws`].

pub mod contract;
pub mod laws;
pub mod syntax;
pub mod text;
pub mod transaction_set;
pub mod x12;

pub use transaction_set::TransactionSet;
pub use x12::{X12Factory, X12};
