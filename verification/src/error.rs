//! The error taxonomy: domain validation, I/O and serialization failures.

use vstd::prelude::*;

verus! {

/// Everything that can go wrong in one command invocation.
///
/// The domain-validation variants are produced by the verified engine; the
/// I/O and serialization variants carry the offending path and the
/// collaborator's message, and are produced by the unverified shell around
/// the engine.
#[derive(Debug)]
pub enum NwError {
    DuplicateAssetId(String),
    AssetNotFound(String),
    SnapshotAlreadyExists(String),
    SnapshotNotFound(String),
    UsdRateRejected,
    InvalidDate(String),
    InvalidHistoryRange(String),
    ReadFile { path: String, message: String },
    WriteFile { path: String, message: String },
    MalformedJson { path: String, message: String },
    SerializeJson { path: String, message: String },
    NoConfigDir,
    RateMissing(String),
}

/// The user-facing text of an error.
pub open spec fn message_of(e: NwError) -> Seq<char> {
    match e {
        NwError::DuplicateAssetId(id) => "asset id '"@ + id@ + "' already exists"@,
        NwError::AssetNotFound(id) => "asset id '"@ + id@ + "' not found"@,
        NwError::SnapshotAlreadyExists(d) => "snapshot for date '"@ + d@ + "' already exists"@,
        NwError::SnapshotNotFound(d) => "snapshot for date '"@ + d@ + "' not found"@,
        NwError::UsdRateRejected => "USD is the base currency and cannot have a rate"@,
        NwError::InvalidDate(d) => "invalid date format '"@ + d@ + "': expected YYYY-MM-DD"@,
        NwError::InvalidHistoryRange(r) => "invalid history range '"@ + r@
            + "': expected 1M, 6M, 1Y, 5Y, or ALL"@,
        NwError::ReadFile { path, message } => "failed to read portfolio file at "@ + path@ + ": "@
            + message@,
        NwError::WriteFile { path, message } => "failed to write portfolio file at "@ + path@
            + ": "@ + message@,
        NwError::MalformedJson { path, message } => "malformed JSON in "@ + path@ + ": "@
            + message@,
        NwError::SerializeJson { path, message } => "failed to serialize portfolio at "@ + path@
            + ": "@ + message@,
        NwError::NoConfigDir => "could not determine config directory"@,
        NwError::RateMissing(c) => "no rate found for currency '"@ + c@ + "'"@,
    }
}

impl NwError {
    /// Render the error for the end user.
    pub fn message(&self) -> (r: String)
        ensures
            r@ == message_of(*self),
    {
        match self {
            NwError::DuplicateAssetId(id) => quoted("asset id '", id, "' already exists"),
            NwError::AssetNotFound(id) => quoted("asset id '", id, "' not found"),
            NwError::SnapshotAlreadyExists(d) => quoted("snapshot for date '", d, "' already exists"),
            NwError::SnapshotNotFound(d) => quoted("snapshot for date '", d, "' not found"),
            NwError::UsdRateRejected => String::from_str(
                "USD is the base currency and cannot have a rate",
            ),
            NwError::InvalidDate(d) => quoted("invalid date format '", d, "': expected YYYY-MM-DD"),
            NwError::InvalidHistoryRange(r) => quoted(
                "invalid history range '",
                r,
                "': expected 1M, 6M, 1Y, 5Y, or ALL",
            ),
            NwError::ReadFile { path, message } => located(
                "failed to read portfolio file at ",
                path,
                message,
            ),
            NwError::WriteFile { path, message } => located(
                "failed to write portfolio file at ",
                path,
                message,
            ),
            NwError::MalformedJson { path, message } => located("malformed JSON in ", path, message),
            NwError::SerializeJson { path, message } => located(
                "failed to serialize portfolio at ",
                path,
                message,
            ),
            NwError::NoConfigDir => String::from_str("could not determine config directory"),
            NwError::RateMissing(c) => quoted("no rate found for currency '", c, "'"),
        }
    }
}

/// `before` + `subject` + `after`.
fn quoted(before: &str, subject: &String, after: &str) -> (r: String)
    ensures
        r@ == before@ + subject@ + after@,
{
    let mut r = before.to_owned();
    r.append(subject.as_str());
    r.append(after);
    r
}

/// `what` + `path` + ": " + `message`.
fn located(what: &str, path: &String, message: &String) -> (r: String)
    ensures
        r@ == what@ + path@ + ": "@ + message@,
{
    let mut r = what.to_owned();
    r.append(path.as_str());
    r.append(": ");
    r.append(message.as_str());
    r
}

} // verus!
