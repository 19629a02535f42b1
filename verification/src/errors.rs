//! What can go wrong, as values.

use crate::text::{dec_digits, push_decimal};
use vstd::prelude::*;
use vstd::string::*;

verus! {

/// What is wrong with an entry of a schema.
#[derive(Debug, Clone, Copy, PartialEq, Eq)]
pub enum SchemaIssue {
    /// The entry's `type` is none of the six known kinds.
    UnknownEntryType,
    /// A function, event or error without a name.
    MissingName,
    /// A constructor or function without a state mutability.
    MissingStateMutability,
    /// A state mutability other than `pure`, `view`, `nonpayable`, `payable`.
    InvalidStateMutability,
    /// An event without its `anonymous` flag.
    MissingAnonymous,
    /// A parameter whose type string the grammar does not admit.
    InvalidType,
    /// A parameter of type `tuple` without component descriptors.
    MissingComponents,
}

/// The errors of the library.
#[derive(Debug, Clone, Copy, PartialEq, Eq)]
pub enum AbiError {
    /// The entry at index `entry` of a schema is malformed.
    Schema { entry: usize, issue: SchemaIssue },
    /// Calldata shorter than a selector, or data too short for the head or
    /// the tail that the types declare, or an offset that points outside.
    ShortInput,
    /// No function has the selector that leads the calldata.
    UnknownSelector,
    /// No event has the first topic as its id.
    UnknownTopic,
    /// A log without topics where the event's id is expected.
    MissingTopic,
    /// The number of topics differs from the number of indexed parameters.
    IndexedArityMismatch,
    /// A value that its own type does not admit.
    InvalidValue,
    /// A type that is not well formed.
    InvalidType,
    /// A type nests deeper, or an array declares more elements, than the
    /// limits allow.
    LimitExceeded,
    /// Text that is not an even number of hexadecimal digits.
    InvalidHex,
}

/// The limits that decoding enforces on what the data declares.
#[derive(Debug, Clone, Copy, PartialEq, Eq)]
pub struct Limits {
    /// How deep arrays and tuples may nest.
    pub max_depth: usize,
    /// How many elements a dynamic array may declare.
    pub max_array_len: usize,
}

/// The limits that decoding enforces where none are given: arrays and
/// tuples nest 32 deep, a dynamic array declares up to 2^20 elements.
pub open spec fn standard_limits() -> Limits {
    Limits { max_depth: 32, max_array_len: 0x10_0000 }
}

impl Limits {
    /// Depth 32 and 2^20 elements.
    pub fn standard() -> (l: Limits)
        ensures
            l == standard_limits(),
    {
        Limits { max_depth: 32, max_array_len: 0x10_0000 }
    }
}

/// What is wrong with an entry, in words.
pub open spec fn issue_text(issue: SchemaIssue) -> Seq<char> {
    match issue {
        SchemaIssue::UnknownEntryType => "invalid ABI entry type"@,
        SchemaIssue::MissingName => "missing name"@,
        SchemaIssue::MissingStateMutability => "missing state mutability"@,
        SchemaIssue::InvalidStateMutability => "invalid state mutability"@,
        SchemaIssue::MissingAnonymous => "missing event anonymous field"@,
        SchemaIssue::InvalidType => "invalid parameter type"@,
        SchemaIssue::MissingComponents => "tuple without components"@,
    }
}

/// The error in words. The message of a schema error names the place of
/// the entry.
pub open spec fn error_text(e: AbiError) -> Seq<char> {
    match e {
        AbiError::Schema { entry, issue } => "ABI entry "@ + dec_digits(entry as nat) + ": "@
            + issue_text(issue),
        AbiError::ShortInput => "input too short"@,
        AbiError::UnknownSelector => "ABI function not found"@,
        AbiError::UnknownTopic => "ABI event not found"@,
        AbiError::MissingTopic => "missing event topic id"@,
        AbiError::IndexedArityMismatch => "topics do not match the indexed parameters"@,
        AbiError::InvalidValue => "invalid value"@,
        AbiError::InvalidType => "invalid type"@,
        AbiError::LimitExceeded => "decoding limit exceeded"@,
        AbiError::InvalidHex => "invalid hexadecimal text"@,
    }
}

impl SchemaIssue {
    /// What is wrong with the entry, in words.
    pub fn message(&self) -> (s: &'static str)
        ensures
            s@ == issue_text(*self),
    {
        match self {
            SchemaIssue::UnknownEntryType => "invalid ABI entry type",
            SchemaIssue::MissingName => "missing name",
            SchemaIssue::MissingStateMutability => "missing state mutability",
            SchemaIssue::InvalidStateMutability => "invalid state mutability",
            SchemaIssue::MissingAnonymous => "missing event anonymous field",
            SchemaIssue::InvalidType => "invalid parameter type",
            SchemaIssue::MissingComponents => "tuple without components",
        }
    }
}

impl AbiError {
    /// The error in words.
    pub fn message(&self) -> (s: String)
        ensures
            s@ == error_text(*self),
    {
        match self {
            AbiError::Schema { entry, issue } => {
                let mut out = String::from_str("ABI entry ");
                push_decimal(&mut out, *entry);
                out.append(": ");
                out.append(issue.message());
                out
            },
            AbiError::ShortInput => String::from_str("input too short"),
            AbiError::UnknownSelector => String::from_str("ABI function not found"),
            AbiError::UnknownTopic => String::from_str("ABI event not found"),
            AbiError::MissingTopic => String::from_str("missing event topic id"),
            AbiError::IndexedArityMismatch => String::from_str(
                "topics do not match the indexed parameters",
            ),
            AbiError::InvalidValue => String::from_str("invalid value"),
            AbiError::InvalidType => String::from_str("invalid type"),
            AbiError::LimitExceeded => String::from_str("decoding limit exceeded"),
            AbiError::InvalidHex => String::from_str("invalid hexadecimal text"),
        }
    }
}

} // verus!
