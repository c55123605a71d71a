//! What can go wrong while working with GAP.

use crate::path::PosixPath;
use crate::text::{signed_decimal, signed_text, text_of};
use vstd::prelude::*;
use vstd::string::*;

verus! {

/// What was being done when GAP reported an error.
#[derive(Clone, Copy, Debug, PartialEq, Eq, Structural)]
pub enum Activity {
    /// Looking up a global variable.
    GlobalLookup,
    /// Calling a GAP function.
    FunctionCall,
}

/// What can go wrong while working with GAP.
#[derive(Debug, PartialEq, Eq)]
pub enum GapError {
    /// The root does not hold the core initialization file.
    InvalidRoot(PosixPath),
    /// The root list cannot be handed to GAP as a C string.
    NulInRoot,
    /// GAP reported an error while it was being initialized.
    InitializationReported,
    /// GAP's output stream could not be opened.
    NoOutputStream,
    /// A command could not be evaluated.
    EvaluationFailed,
    /// The name of a global variable cannot be handed to GAP as a C string.
    NulInName,
    /// GAP reported an error.
    Reported(Activity),
    /// A GAP integer is negative where a count was wanted.
    NegativeInteger(i64),
    /// An object is neither of GAP's booleans.
    NotABoolean,
    /// A permutation sent a point below the first point.
    OutsideDegree,
    /// A thread panicked while it was initializing the shared runtime.
    InitializationPoisoned,
    /// A thread panicked while it was using the shared runtime.
    RuntimePoisoned,
    /// The shared runtime exists already.
    AlreadyInitialized,
}

/// What is said of an error.
pub open spec fn error_text(e: GapError) -> Seq<char> {
    match e {
        GapError::InvalidRoot(root) => "GAP root `"@ + text_of(root@)
            + "` does not contain `lib/init.g`; set GAP_SYS_ROOT to a valid GAP root"@,
        GapError::NulInRoot => "GAP root contains an interior NUL byte"@,
        GapError::InitializationReported =>
            "GAP reported an error during initialization; check that GAP's root and package directories are complete"@,
        GapError::NoOutputStream => "Unable to open GAP output stream"@,
        GapError::EvaluationFailed => "Error evaluating command"@,
        GapError::NulInName => "GAP global variable name contains an interior NUL byte"@,
        GapError::Reported(Activity::GlobalLookup) =>
            "GAP reported an error while looking up a global variable"@,
        GapError::Reported(Activity::FunctionCall) =>
            "GAP reported an error while calling a GAP function"@,
        GapError::NegativeInteger(value) => "GAP integer "@ + signed_decimal(value as int)
            + " cannot be represented as usize"@,
        GapError::NotABoolean => "GAP object is not a boolean"@,
        GapError::OutsideDegree => "permutation sent a point outside [1..degree]"@,
        GapError::InitializationPoisoned => "global GAP initialization mutex was poisoned"@,
        GapError::RuntimePoisoned => "global GAP runtime mutex was poisoned"@,
        GapError::AlreadyInitialized => "global GAP runtime is already initialized"@,
    }
}

impl GapError {
    /// What is said of the error.
    pub fn message(&self) -> (text: String)
        ensures
            text@ == error_text(*self),
    {
        match self {
            GapError::InvalidRoot(root) => {
                let mut text = "GAP root `".to_owned();
                text.append(root.display().as_str());
                text.append(
                    "` does not contain `lib/init.g`; set GAP_SYS_ROOT to a valid GAP root",
                );
                text
            },
            GapError::NulInRoot => "GAP root contains an interior NUL byte".to_owned(),
            GapError::InitializationReported =>
                "GAP reported an error during initialization; check that GAP's root and package directories are complete".to_owned(),
            GapError::NoOutputStream => "Unable to open GAP output stream".to_owned(),
            GapError::EvaluationFailed => "Error evaluating command".to_owned(),
            GapError::NulInName =>
                "GAP global variable name contains an interior NUL byte".to_owned(),
            GapError::Reported(Activity::GlobalLookup) =>
                "GAP reported an error while looking up a global variable".to_owned(),
            GapError::Reported(Activity::FunctionCall) =>
                "GAP reported an error while calling a GAP function".to_owned(),
            GapError::NegativeInteger(value) => {
                let mut text = "GAP integer ".to_owned();
                text.append(signed_text(*value).as_str());
                text.append(" cannot be represented as usize");
                text
            },
            GapError::NotABoolean => "GAP object is not a boolean".to_owned(),
            GapError::OutsideDegree =>
                "permutation sent a point outside [1..degree]".to_owned(),
            GapError::InitializationPoisoned =>
                "global GAP initialization mutex was poisoned".to_owned(),
            GapError::RuntimePoisoned => "global GAP runtime mutex was poisoned".to_owned(),
            GapError::AlreadyInitialized =>
                "global GAP runtime is already initialized".to_owned(),
        }
    }
}


/// What is said of a refused root names all of it, and what is said of a negative integer
/// gives its whole number.
pub proof fn law_errors_name_their_subject(root: PosixPath, value: i64)
    ensures
        error_text(GapError::InvalidRoot(root)) == "GAP root `"@ + text_of(root@)
            + "` does not contain `lib/init.g`; set GAP_SYS_ROOT to a valid GAP root"@,
        error_text(GapError::NegativeInteger(value)) == "GAP integer "@ + signed_decimal(
            value as int,
        ) + " cannot be represented as usize"@,
{
}

}
