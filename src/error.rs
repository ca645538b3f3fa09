//! The failures the program reports to its user.
use vstd::prelude::*;

verus! {

/// A failure of the whole run, with the message of its cause.
pub enum Error {
    /// The prerequisite checks failed.
    ChecksFailed,
    /// The fortune settings could not be loaded.
    FortuneSettingsLoadFailure(String),
    /// The fortune slips could not be generated.
    PdfGenerateFailure(String),
}

} // verus!
