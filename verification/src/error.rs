//! What can go wrong while loading a bundle or driving a session.
use vstd::prelude::*;
use vstd::string::StringExecFns;

verus! {

/// `std::io::ErrorKind`, the kind of an i/o error, carried as an opaque
/// value.
#[verifier::external_type_specification]
#[verifier::external_body]
pub struct ExIoErrorKind(std::io::ErrorKind);

/// Everything that can go wrong while loading the strategy bundle or
/// driving a solving session.
#[derive(Debug, Clone, Copy)]
pub enum SolverError {
    InvalidWord,
    InvalidFeedback,
    UnknownAnswer,
    UnknownGuess,
    Contradiction,
    AlreadySolved,
    GuessNotIssued,
    AssetCorrupt,
    Io(std::io::ErrorKind),
}

/// The `Debug` text of an i/o error kind: the name of its variant.
pub uninterp spec fn io_kind_name(kind: std::io::ErrorKind) -> Seq<char>;

/// Formats an i/o error kind with `Debug` (`format!("{kind:?}")`), which
/// writes the name of the kind's variant.
#[verifier::external_body]
fn io_kind_text(kind: std::io::ErrorKind) -> (s: String)
    ensures
        s@ == io_kind_name(kind),
{
    format!("{kind:?}")
}

impl SolverError {
    /// The human readable description of the error.
    pub fn message(&self) -> (r: String)
        ensures
            (self is InvalidWord) ==> r@ == "invalid word"@,
            (self is InvalidFeedback) ==> r@ == "invalid feedback"@,
            (self is UnknownAnswer) ==> r@ == "unknown answer"@,
            (self is UnknownGuess) ==> r@ == "unknown guess"@,
            (self is Contradiction) ==> r@ == "feedback contradicts previous constraints"@,
            (self is AlreadySolved) ==> r@ == "solver is already solved"@,
            (self is GuessNotIssued) ==> r@ == "no pending solver guess"@,
            (self is AssetCorrupt) ==> r@ == "bundled strategy asset is corrupt"@,
            self matches SolverError::Io(kind) ==> r@ == "i/o error: "@ + io_kind_name(*kind),
    {
        match self {
            SolverError::InvalidWord => String::from_str("invalid word"),
            SolverError::InvalidFeedback => String::from_str("invalid feedback"),
            SolverError::UnknownAnswer => String::from_str("unknown answer"),
            SolverError::UnknownGuess => String::from_str("unknown guess"),
            SolverError::Contradiction => String::from_str("feedback contradicts previous constraints"),
            SolverError::AlreadySolved => String::from_str("solver is already solved"),
            SolverError::GuessNotIssued => String::from_str("no pending solver guess"),
            SolverError::AssetCorrupt => String::from_str("bundled strategy asset is corrupt"),
            SolverError::Io(kind) => {
                let mut s = String::from_str("i/o error: ");
                let name = io_kind_text(*kind);
                s.append(name.as_str());
                s
            },
        }
    }
}

} // verus!
