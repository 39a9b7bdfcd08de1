use vstd::prelude::*;

verus! {

/// Why a byte string was not accepted as a DNS message or a part of one.
#[derive(Debug, PartialEq, Eq, Clone, Copy, Structural)]
pub enum WireError {
    /// The bytes end too early, use a reserved label form, point outside the
    /// message, chain too many pointers, or carry a value no field admits.
    Malformed,
}

/// Why a line of zone text was not accepted as a record.
#[derive(Debug, PartialEq, Eq, Clone, Copy, Structural)]
pub enum RecordParseError {
    /// The line holds no owner name.
    MissingName,
    /// The line holds no record type.
    MissingType,
    /// The line holds nothing after the record type.
    MissingData,
    /// The record type is not one of the names the zone text knows.
    InvalidType,
    /// The record type is known but zone text cannot carry its data.
    UnsupportedType,
    /// The data of an address record is not a dotted quad.
    InvalidAddress,
    /// A name has a label longer than 63 bytes, or is too long as record data.
    InvalidName,
    /// The text is too long for the data of one record.
    DataTooLong,
}

/// Why the key/value plane did not answer a question.
#[derive(Debug, PartialEq, Eq, Clone, Copy, Structural)]
pub enum KvError {
    /// The queried name has neither one label nor two.
    InvalidQuery,
}

} // verus!
