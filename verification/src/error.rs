//! Errors of the library.
use vstd::prelude::*;
use vstd::string::StringExecFns;

verus! {

/// What can go wrong when a journal is queried or encoded.
#[derive(Debug)]
pub enum Error {
    /// No checkpoint has this name or number.
    CheckpointNotFound(String),
    /// No marker has this name or number.
    MarkerNotFound(String),
    /// The start of a range comes after its end.
    FromAfterTo,
    /// A record index is past the end of the journal.
    RecordOutOfBounds,
    /// A path is longer than a 16-bit length can tell.
    PathTooLong,
    /// A path to be restored is longer than a 16-bit length can tell.
    RestorePathTooLong,
    /// The origin of a redirect is longer than a 16-bit length can tell.
    BaseTooLong,
    /// A checkpoint name is longer than a 16-bit length can tell.
    NameTooLong,
    /// The home directory is not known.
    HomeNotSet,
    /// Not the name of a permission.
    UnknownPermission(String),
}

impl Error {
    /// The message shown to the user.
    pub open spec fn text(self) -> Seq<char> {
        match self {
            Error::CheckpointNotFound(n) => "checkpoint not found: "@ + n@,
            Error::MarkerNotFound(n) => "marker not found: "@ + n@,
            Error::FromAfterTo => {
                "invalid range: --from checkpoint comes after --to checkpoint"@
            },
            Error::RecordOutOfBounds => "record index out of bounds"@,
            Error::PathTooLong => "path too long"@,
            Error::RestorePathTooLong => "restore path too long"@,
            Error::BaseTooLong => "restore base too long"@,
            Error::NameTooLong => "checkpoint name too long"@,
            Error::HomeNotSet => "$HOME not set"@,
            Error::UnknownPermission(p) => "unknown permission: "@ + p@,
        }
    }

    /// The message shown to the user.
    pub fn message(&self) -> (r: String)
        ensures
            r@ == self.text(),
    {
        match self {
            Error::CheckpointNotFound(n) => "checkpoint not found: ".to_owned().concat(n.as_str()),
            Error::MarkerNotFound(n) => "marker not found: ".to_owned().concat(n.as_str()),
            Error::FromAfterTo => {
                "invalid range: --from checkpoint comes after --to checkpoint".to_owned()
            },
            Error::RecordOutOfBounds => "record index out of bounds".to_owned(),
            Error::PathTooLong => "path too long".to_owned(),
            Error::RestorePathTooLong => "restore path too long".to_owned(),
            Error::BaseTooLong => "restore base too long".to_owned(),
            Error::NameTooLong => "checkpoint name too long".to_owned(),
            Error::HomeNotSet => "$HOME not set".to_owned(),
            Error::UnknownPermission(p) => "unknown permission: ".to_owned().concat(p.as_str()),
        }
    }
}

/// The ways in which a query for a range of segments can fail.
pub enum SpanError {
    NotFound(Seq<char>),
    Reversed,
}

/// The error value says what the model of the failure says.
pub open spec fn reports(e: Error, m: SpanError) -> bool {
    match m {
        SpanError::NotFound(n) => match e {
            Error::CheckpointNotFound(s) => s@ == n,
            Error::MarkerNotFound(s) => s@ == n,
            _ => false,
        },
        SpanError::Reversed => e is FromAfterTo,
    }
}

} // verus!
