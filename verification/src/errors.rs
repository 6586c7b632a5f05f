//! Error types.
//!
//! Object- and stream-scoped failures degrade to anomaly records and
//! a partial result; only document-scoped failures surface as one of
//! these.

use vstd::prelude::*;

verus! {

/// Library-wide error type. Causes from outside subsystems (the
/// byte source, the network, serialization) are carried as their
/// messages.
#[derive(Clone, Debug)]
pub enum Error {
    Io(String),
    Pdf(String),
    Analysis(String),
    Network(String),
    Serialization(String),
}

impl Error {
    /// A short label naming the variant.
    pub fn label(&self) -> (r: &'static str)
        ensures
            self is Io ==> r@ == "IO error"@,
            self is Pdf ==> r@ == "PDF error"@,
            self is Analysis ==> r@ == "Analysis error"@,
            self is Network ==> r@ == "Network error"@,
            self is Serialization ==> r@ == "Serialization error"@,
    {
        match self {
            Error::Io(_) => "IO error",
            Error::Pdf(_) => "PDF error",
            Error::Analysis(_) => "Analysis error",
            Error::Network(_) => "Network error",
            Error::Serialization(_) => "Serialization error",
        }
    }
}

} // verus!
