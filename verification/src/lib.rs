//! An in-memory, column-oriented table ("column store") with typed converters
//! that move data between it and structured JSON objects, relational rows and
//! a self-describing columnar exchange block.

use vstd::prelude::*;
use vstd::string::StringExecFns;

pub mod codec;
pub mod concat;
pub mod db;
pub mod df;
pub mod json;
pub mod meta;
pub mod series;

verus! {

/// Errors reported by every fallible operation of this crate.
///
/// No operation silently coerces a type mismatch into wrong data: a mismatch
/// is always reported. Individual scalar parse failures are the one deliberate
/// exception elsewhere in the crate: they degrade to a null value.
#[derive(Debug)]
pub enum Error {
    /// An index or range violation.
    OutOfBounds,
    /// A column length disagrees with the store's row count.
    RowsNotMatch,
    /// A schema-shape mismatch during union or merge.
    ColsNotMatch,
    /// A column's native storage disagrees with an operation's expected type.
    TypeMismatch,
    /// The named column or key already exists.
    AlreadyExists(String),
    /// The named column or key does not exist.
    NotFound(String),
    /// An otherwise valid but unsupported logical type or input shape.
    Unimplemented(String),
    /// A formatting or naming violation.
    Other(String),
}

impl Error {
    /// Wrap an arbitrary message as an [`Error::Other`].
    pub fn other(msg: String) -> (r: Error)
        ensures
            r == Error::Other(msg),
    {
        Error::Other(msg)
    }

    /// The error as readable text.
    pub fn message(&self) -> (r: String)
        ensures
            r@ == spec_message(*self),
    {
        match self {
            Error::OutOfBounds => String::from_str("index out of bounds"),
            Error::RowsNotMatch => String::from_str("row count does not match"),
            Error::ColsNotMatch => String::from_str("column count does not match"),
            Error::TypeMismatch => String::from_str("type does not match"),
            Error::AlreadyExists(s) => {
                let mut out = String::from_str("already exists: ");
                out.append(s.as_str());
                out
            },
            Error::NotFound(s) => {
                let mut out = String::from_str("not found: ");
                out.append(s.as_str());
                out
            },
            Error::Unimplemented(s) => {
                let mut out = String::from_str("feature/type not implemented: ");
                out.append(s.as_str());
                out
            },
            Error::Other(s) => s.clone(),
        }
    }
}

/// The text [`Error::message`] renders.
pub open spec fn spec_message(e: Error) -> Seq<char> {
    match e {
        Error::OutOfBounds => "index out of bounds"@,
        Error::RowsNotMatch => "row count does not match"@,
        Error::ColsNotMatch => "column count does not match"@,
        Error::TypeMismatch => "type does not match"@,
        Error::AlreadyExists(s) => "already exists: "@ + s@,
        Error::NotFound(s) => "not found: "@ + s@,
        Error::Unimplemented(s) => "feature/type not implemented: "@ + s@,
        Error::Other(s) => s@,
    }
}

/// The time zone attached to a timestamp column's declared type.
///
/// The process-local zone is never read here: a caller that wants the local
/// zone resolves its name itself and passes it in (see [`TimeZone::into_zone_name`]).
pub enum TimeZone {
    /// The caller's process-local time zone, whose resolved name the caller supplies.
    Local,
    /// A fixed, caller-chosen zone name.
    Custom(String),
    /// A naive timestamp with no zone.
    No,
}

impl TimeZone {
    /// The zone name to record in a declared timestamp type, given the
    /// caller-resolved name of the process-local zone.
    pub fn into_zone_name(self, local_name: String) -> (r: Option<String>)
        ensures
            match self {
                TimeZone::Local => r == Some(local_name),
                TimeZone::Custom(s) => r == Some(s),
                TimeZone::No => r is None,
            },
    {
        match self {
            TimeZone::Local => Some(local_name),
            TimeZone::Custom(s) => Some(s),
            TimeZone::No => None,
        }
    }
}

/// A point in time split into whole seconds and a nanosecond remainder.
#[derive(Clone, Copy, PartialEq, Eq, Structural, Debug)]
pub struct Time {
    /// Whole seconds since the epoch.
    pub sec: u64,
    /// Nanoseconds past the whole second.
    pub nsec: u64,
}

impl Time {
    /// The timestamp in whole nanoseconds.
    pub fn timestamp_ns(&self) -> (r: u64)
        requires
            self.sec * 1_000_000_000 + self.nsec <= u64::MAX,
        ensures
            r == self.sec * 1_000_000_000 + self.nsec,
    {
        self.sec * 1_000_000_000 + self.nsec
    }

    /// The timestamp in whole microseconds.
    pub fn timestamp_us(&self) -> (r: u64)
        requires
            self.sec * 1_000_000 + self.nsec / 1_000 <= u64::MAX,
        ensures
            r == self.sec * 1_000_000 + self.nsec / 1_000,
    {
        self.sec * 1_000_000 + self.nsec / 1_000
    }

    /// The timestamp in whole milliseconds.
    pub fn timestamp_ms(&self) -> (r: u64)
        requires
            self.sec * 1_000 + self.nsec / 1_000_000 <= u64::MAX,
        ensures
            r == self.sec * 1_000 + self.nsec / 1_000_000,
    {
        self.sec * 1_000 + self.nsec / 1_000_000
    }
}

} // verus!
