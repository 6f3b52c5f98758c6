//! The errors that checking a protobuf file reports.
use vstd::prelude::*;
use std::ops::Range;
use crate::names::DuplicateNameError;

verus! {

/// The largest number a message field may have.
pub const MAX_MESSAGE_FIELD_NUMBER: i32 = 536_870_911;

/// The first field number of the range that protobuf reserves for itself.
pub const RESERVED_MESSAGE_FIELD_NUMBERS_START: i32 = 19_000;

/// The end (exclusive) of the range that protobuf reserves for itself.
pub const RESERVED_MESSAGE_FIELD_NUMBERS_END: i32 = 20_000;

/// An error found while checking a file; spans are byte ranges of its source.
#[derive(Debug, PartialEq)]
pub enum CheckError {
    DuplicateName(DuplicateNameError),
    DuplicateCamelCaseFieldName {
        first_name: String,
        first: Range<usize>,
        second_name: String,
        second: Range<usize>,
    },
    TypeNameNotFound { name: String, span: Range<usize> },
    InvalidMessageFieldTypeName { name: String, span: Range<usize> },
    InvalidMapFieldKeyType { span: Range<usize> },
    InvalidExtendeeTypeName { name: String, span: Range<usize> },
    InvalidMethodTypeName { name: String, kind: &'static str, span: Range<usize> },
    InvalidMessageNumber { span: Range<usize> },
    ReservedMessageNumber { span: Range<usize> },
    InvalidEnumNumber { span: Range<usize> },
    InvalidDefault { kind: &'static str, span: Range<usize> },
    Proto3DefaultValue { span: Range<usize> },
    InvalidExtendFieldKind { kind: &'static str, span: Range<usize> },
    RequiredExtendField { span: Range<usize> },
    MapFieldWithLabel { span: Range<usize> },
    Proto2FieldMissingLabel { span: Range<usize> },
    Proto3GroupField { span: Range<usize> },
    Proto3RequiredField { span: Range<usize> },
    InvalidOneofFieldKind { kind: &'static str, span: Range<usize> },
    OneofFieldWithLabel { span: Range<usize> },
    OptionUnknownField { name: String, namespace: String, span: Range<usize> },
    OptionScalarFieldAccess { span: Range<usize> },
    OptionInvalidTypeName { name: String, span: Range<usize> },
    OptionAlreadySet { name: String, first: Range<usize>, second: Range<usize> },
    ValueInvalidType { expected: String, actual: String, span: Range<usize> },
    IntegerValueOutOfRange {
        expected: String,
        actual: String,
        min: String,
        max: String,
        span: Range<usize>,
    },
    StringValueInvalidUtf8 { span: Range<usize> },
    InvalidEnumValue { value_name: String, enum_name: String, span: Range<usize> },
}

} // verus!
