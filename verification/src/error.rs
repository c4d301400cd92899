//! Everything a query or a migration can fail with.
use vstd::prelude::*;

verus! {

/// Everything a query can fail with, parameterised by the driver's own error.
#[derive(Debug)]
#[non_exhaustive]
pub enum Error<DriverError> {
    Driver(DriverError),
    FromRow(FromRowError),
    ParamCount(ParamCountError),
    /// A parameter whose type the target database has no representation for,
    /// such as an array bound against MySQL.
    UnsupportedParam(&'static str),
    Migration(MigrationError),
}

/// A query carrying a different number of placeholders than parameters, which
/// the server would reject.
#[derive(Debug)]
#[non_exhaustive]
pub struct ParamCountError {
    pub placeholders: usize,
    pub params: usize,
}

#[derive(Debug)]
#[non_exhaustive]
pub enum FromRowError {
    ColumnNotFound(String),
    TypeMismatch { expected: &'static str, got: String },
    NoRows,
    Utf8Error,
}

/// A migration that could not be loaded or does not match what was applied.
#[derive(Debug)]
pub struct MigrationError {
    pub error: MigrationErrorKind,
    pub filename: String,
}

#[derive(Debug)]
#[non_exhaustive]
pub enum MigrationErrorKind {
    /// The filename is not `<version>_<name>.sql`.
    FilenameError,
    /// The checksum differs from the migration that was applied.
    ChecksumError,
    /// The version is not a number that fits.
    ParseIntError(std::num::ParseIntError),
    /// The file cannot be read.
    IOError(std::io::Error),
}

#[verifier::external_type_specification]
#[verifier::external_body]
pub struct ExParseIntError(std::num::ParseIntError);

#[verifier::external_type_specification]
#[verifier::external_body]
pub struct ExIoError(std::io::Error);

impl<E> From<FromRowError> for Error<E> {
    fn from(value: FromRowError) -> (r: Self) {
        Error::FromRow(value)
    }
}

impl<E> vstd::std_specs::convert::FromSpecImpl<FromRowError> for Error<E> {
    open spec fn obeys_from_spec() -> bool {
        true
    }

    open spec fn from_spec(v: FromRowError) -> Self {
        Error::FromRow(v)
    }
}

impl<E> From<ParamCountError> for Error<E> {
    fn from(value: ParamCountError) -> (r: Self) {
        Error::ParamCount(value)
    }
}

impl<E> vstd::std_specs::convert::FromSpecImpl<ParamCountError> for Error<E> {
    open spec fn obeys_from_spec() -> bool {
        true
    }

    open spec fn from_spec(v: ParamCountError) -> Self {
        Error::ParamCount(v)
    }
}

impl<E> From<MigrationError> for Error<E> {
    fn from(value: MigrationError) -> (r: Self) {
        Error::Migration(value)
    }
}

impl<E> vstd::std_specs::convert::FromSpecImpl<MigrationError> for Error<E> {
    open spec fn obeys_from_spec() -> bool {
        true
    }

    open spec fn from_spec(v: MigrationError) -> Self {
        Error::Migration(v)
    }
}

impl From<std::num::ParseIntError> for MigrationErrorKind {
    fn from(value: std::num::ParseIntError) -> (r: Self) {
        MigrationErrorKind::ParseIntError(value)
    }
}

impl vstd::std_specs::convert::FromSpecImpl<std::num::ParseIntError> for MigrationErrorKind {
    open spec fn obeys_from_spec() -> bool {
        true
    }

    open spec fn from_spec(v: std::num::ParseIntError) -> Self {
        MigrationErrorKind::ParseIntError(v)
    }
}

impl From<std::io::Error> for MigrationErrorKind {
    fn from(value: std::io::Error) -> (r: Self) {
        MigrationErrorKind::IOError(value)
    }
}

impl vstd::std_specs::convert::FromSpecImpl<std::io::Error> for MigrationErrorKind {
    open spec fn obeys_from_spec() -> bool {
        true
    }

    open spec fn from_spec(v: std::io::Error) -> Self {
        MigrationErrorKind::IOError(v)
    }
}

} // verus!
