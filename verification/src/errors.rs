//! The error taxonomy shared by construction, finalization and reading.
//!
//! Every fallible operation returns a `Result` whose error is one of these
//! kinds; absence (a lookup that finds nothing) is reported as `None`, never
//! as an error.

use vstd::prelude::*;

verus! {

/// One error kind per failure class: resource/IO, schema, format/version,
/// capacity, lookup, handle state and option handling.
#[derive(Debug, Clone, Copy, PartialEq, Eq, Structural)]
pub enum Error {
    Nomem,
    PathTooLong,
    UnknownField,
    UnknownUuid,
    InvalidTrailId,
    HandleIsNull,
    HandleAlreadyOpened,
    UnknownOption,
    InvalidOptionValue,
    InvalidUuid,
    IoOpen,
    IoClose,
    IoWrite,
    IoRead,
    IoTruncate,
    IoPackage,
    InvalidInfoFile,
    InvalidVersionFile,
    IncompatibleVersion,
    InvalidFieldsFile,
    InvalidUuidsFile,
    InvalidCodebookFile,
    InvalidTrailsFile,
    InvalidLexiconFile,
    InvalidPackage,
    TooManyFields,
    DuplicateFields,
    InvalidFieldname,
    TooManyTrails,
    ValueTooLong,
    AppendFieldsMismatch,
    LexiconTooLarge,
    TimestampTooLarge,
    TrailTooLong,
    OnlyDiffFilter,
}

impl Error {
    /// The kind's name, as spoken of in contracts.
    pub open spec fn spec_name(self) -> Seq<char> {
        match self {
            Error::Nomem => "Nomem"@,
            Error::PathTooLong => "PathTooLong"@,
            Error::UnknownField => "UnknownField"@,
            Error::UnknownUuid => "UnknownUuid"@,
            Error::InvalidTrailId => "InvalidTrailId"@,
            Error::HandleIsNull => "HandleIsNull"@,
            Error::HandleAlreadyOpened => "HandleAlreadyOpened"@,
            Error::UnknownOption => "UnknownOption"@,
            Error::InvalidOptionValue => "InvalidOptionValue"@,
            Error::InvalidUuid => "InvalidUuid"@,
            Error::IoOpen => "IoOpen"@,
            Error::IoClose => "IoClose"@,
            Error::IoWrite => "IoWrite"@,
            Error::IoRead => "IoRead"@,
            Error::IoTruncate => "IoTruncate"@,
            Error::IoPackage => "IoPackage"@,
            Error::InvalidInfoFile => "InvalidInfoFile"@,
            Error::InvalidVersionFile => "InvalidVersionFile"@,
            Error::IncompatibleVersion => "IncompatibleVersion"@,
            Error::InvalidFieldsFile => "InvalidFieldsFile"@,
            Error::InvalidUuidsFile => "InvalidUuidsFile"@,
            Error::InvalidCodebookFile => "InvalidCodebookFile"@,
            Error::InvalidTrailsFile => "InvalidTrailsFile"@,
            Error::InvalidLexiconFile => "InvalidLexiconFile"@,
            Error::InvalidPackage => "InvalidPackage"@,
            Error::TooManyFields => "TooManyFields"@,
            Error::DuplicateFields => "DuplicateFields"@,
            Error::InvalidFieldname => "InvalidFieldname"@,
            Error::TooManyTrails => "TooManyTrails"@,
            Error::ValueTooLong => "ValueTooLong"@,
            Error::AppendFieldsMismatch => "AppendFieldsMismatch"@,
            Error::LexiconTooLarge => "LexiconTooLarge"@,
            Error::TimestampTooLarge => "TimestampTooLarge"@,
            Error::TrailTooLong => "TrailTooLong"@,
            Error::OnlyDiffFilter => "OnlyDiffFilter"@,
        }
    }

    /// A human-readable name for the error kind.
    pub fn name(&self) -> (r: &'static str)
        ensures
            r@ == self.spec_name(),
    {
        match *self {
            Error::Nomem => "Nomem",
            Error::PathTooLong => "PathTooLong",
            Error::UnknownField => "UnknownField",
            Error::UnknownUuid => "UnknownUuid",
            Error::InvalidTrailId => "InvalidTrailId",
            Error::HandleIsNull => "HandleIsNull",
            Error::HandleAlreadyOpened => "HandleAlreadyOpened",
            Error::UnknownOption => "UnknownOption",
            Error::InvalidOptionValue => "InvalidOptionValue",
            Error::InvalidUuid => "InvalidUuid",
            Error::IoOpen => "IoOpen",
            Error::IoClose => "IoClose",
            Error::IoWrite => "IoWrite",
            Error::IoRead => "IoRead",
            Error::IoTruncate => "IoTruncate",
            Error::IoPackage => "IoPackage",
            Error::InvalidInfoFile => "InvalidInfoFile",
            Error::InvalidVersionFile => "InvalidVersionFile",
            Error::IncompatibleVersion => "IncompatibleVersion",
            Error::InvalidFieldsFile => "InvalidFieldsFile",
            Error::InvalidUuidsFile => "InvalidUuidsFile",
            Error::InvalidCodebookFile => "InvalidCodebookFile",
            Error::InvalidTrailsFile => "InvalidTrailsFile",
            Error::InvalidLexiconFile => "InvalidLexiconFile",
            Error::InvalidPackage => "InvalidPackage",
            Error::TooManyFields => "TooManyFields",
            Error::DuplicateFields => "DuplicateFields",
            Error::InvalidFieldname => "InvalidFieldname",
            Error::TooManyTrails => "TooManyTrails",
            Error::ValueTooLong => "ValueTooLong",
            Error::AppendFieldsMismatch => "AppendFieldsMismatch",
            Error::LexiconTooLarge => "LexiconTooLarge",
            Error::TimestampTooLarge => "TimestampTooLarge",
            Error::TrailTooLong => "TrailTooLong",
            Error::OnlyDiffFilter => "OnlyDiffFilter",
        }
    }
}

} // verus!
