//! Error taxonomy of the library.

use vstd::prelude::*;
use vstd::string::StringExecFns;

verus! {

/// Failure classes surfaced by the core: parse failures are fatal per file
/// and soft across a multi-file pass; network failures abort a sync; file
/// failures are surfaced per resolved file.
#[derive(Debug)]
pub enum CoreError {
    Parsing { details: String },
    IO { details: String },
    HTTP { details: String },
    Typst { details: String },
    FSRS { details: String },
}

impl CoreError {
    /// A parse failure with a description.
    pub fn parsing(details: &str) -> (r: CoreError)
        ensures
            r matches CoreError::Parsing { details: d } && d@ == details@,
    {
        CoreError::Parsing { details: String::from_str(details) }
    }

    /// The description carried by the error.
    pub fn details(&self) -> (r: &String)
        ensures
            match self {
                CoreError::Parsing { details } => r@ == details@,
                CoreError::IO { details } => r@ == details@,
                CoreError::HTTP { details } => r@ == details@,
                CoreError::Typst { details } => r@ == details@,
                CoreError::FSRS { details } => r@ == details@,
            },
    {
        match self {
            CoreError::Parsing { details } => details,
            CoreError::IO { details } => details,
            CoreError::HTTP { details } => details,
            CoreError::Typst { details } => details,
            CoreError::FSRS { details } => details,
        }
    }
}

/// A soft per-file loading failure: the description and the path of the
/// file it came from.
pub struct LoadError {
    pub error: String,
    pub path: String,
}

impl LoadError {
    pub fn new(error: String, path: String) -> (r: LoadError)
        ensures
            r.error@ == error@,
            r.path@ == path@,
    {
        LoadError { error, path }
    }

    /// Human-readable description of the failure.
    pub fn message(&self) -> (r: String)
        ensures
            self.path@.len() == 0 ==> r@ == "Error loading typst file: "@ + self.error@,
            self.path@.len() > 0 ==> r@ == "Error loading typst file: "@ + self.error@ + " (at "@
                + self.path@ + ")"@,
    {
        let mut out = String::from_str("Error loading typst file: ");
        out.append(self.error.as_str());
        if !self.path.as_str().is_empty() {
            out.append(" (at ");
            out.append(self.path.as_str());
            out.append(")");
        }
        out
    }
}

/// An error reduced to its display and debug renderings, for callers that
/// only report it.
pub struct AnyError {
    pub display: String,
    pub debug: String,
}

impl AnyError {
    pub fn new(display: String, debug: String) -> (r: AnyError)
        ensures
            r.display@ == display@,
            r.debug@ == debug@,
    {
        AnyError { display, debug }
    }

    pub fn display(&self) -> (r: String)
        ensures
            r@ == self.display@,
    {
        self.display.clone()
    }

    pub fn debug(&self) -> (r: String)
        ensures
            r@ == self.debug@,
    {
        self.debug.clone()
    }
}

} // verus!
