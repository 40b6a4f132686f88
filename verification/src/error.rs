//! One error type for everything that can stop a read.
//!
//! The ways a file is wrong but still readable are warnings. What is left here
//! is the set of failures where there is nothing to return.

use crate::text::{cat2, cat3, cat4, cat5, decimal, decimal_of};
use vstd::prelude::*;

verus! {

#[derive(Debug)]
pub enum Error {
    /// The bytes are not the format they were claimed to be.
    NotFormat { format: &'static str, detail: String },
    /// A structure declared a length or an offset the source cannot satisfy.
    Truncated { need: u64, got: u64, what: String },
    /// Well-formed, and asking for something not implemented.
    Unsupported(String),
    /// A manifest parsed as JSON but did not hold what the format requires.
    Manifest { path: String, detail: String },
    /// A byte source failed. Carries whatever the transport said.
    Source(String),
    /// A point record could not be decompressed.
    Codec(String),
    /// Writing failed, in the words of the system.
    Io(String),
}

/// An error as text.
pub enum Failure {
    NotFormat { format: Seq<char>, detail: Seq<char> },
    Truncated { need: u64, got: u64, what: Seq<char> },
    Unsupported(Seq<char>),
    Manifest { path: Seq<char>, detail: Seq<char> },
    Source(Seq<char>),
    Codec(Seq<char>),
    Io(Seq<char>),
}

impl View for Error {
    type V = Failure;

    open spec fn view(&self) -> Failure {
        match *self {
            Error::NotFormat { format, detail } => Failure::NotFormat {
                format: format@,
                detail: detail@,
            },
            Error::Truncated { need, got, what } => Failure::Truncated { need, got, what: what@ },
            Error::Unsupported(what) => Failure::Unsupported(what@),
            Error::Manifest { path, detail } => Failure::Manifest { path: path@, detail: detail@ },
            Error::Source(detail) => Failure::Source(detail@),
            Error::Codec(detail) => Failure::Codec(detail@),
            Error::Io(detail) => Failure::Io(detail@),
        }
    }
}

/// What an error says, in one line.
pub open spec fn failure_text(f: Failure) -> Seq<char> {
    match f {
        Failure::NotFormat { format, detail } => "not "@ + format + ": "@ + detail,
        Failure::Truncated { need, got, what } => what + " needs "@ + decimal(need as nat)
            + " bytes and the source has "@ + decimal(got as nat),
        Failure::Unsupported(what) => "unsupported: "@ + what,
        Failure::Manifest { path, detail } => path + ": "@ + detail,
        Failure::Source(detail) => detail,
        Failure::Codec(detail) => "decode failed: "@ + detail,
        Failure::Io(detail) => detail,
    }
}

impl Error {
    /// Shorthand for the common `NotFormat` construction.
    pub fn not_format(format: &'static str, detail: String) -> (e: Self)
        ensures
            e@ == (Failure::NotFormat { format: format@, detail: detail@ }),
    {
        Error::NotFormat { format, detail }
    }

    /// Shorthand for a manifest field that is missing or the wrong shape.
    pub fn manifest(path: String, detail: String) -> (e: Self)
        ensures
            e@ == (Failure::Manifest { path: path@, detail: detail@ }),
    {
        Error::Manifest { path, detail }
    }

    /// What the error says, in one line.
    pub fn to_text(&self) -> (out: String)
        ensures
            out@ == failure_text(self@),
    {
        match self {
            Error::NotFormat { format, detail } => cat4("not ", format, ": ", detail.as_str()),
            Error::Truncated { need, got, what } => {
                let n = decimal_of(*need);
                let g = decimal_of(*got);
                cat5(
                    what.as_str(),
                    " needs ",
                    n.as_str(),
                    " bytes and the source has ",
                    g.as_str(),
                )
            },
            Error::Unsupported(what) => cat2("unsupported: ", what.as_str()),
            Error::Manifest { path, detail } => cat3(path.as_str(), ": ", detail.as_str()),
            Error::Source(detail) => detail.clone(),
            Error::Codec(detail) => cat2("decode failed: ", detail.as_str()),
            Error::Io(detail) => detail.clone(),
        }
    }
}

} // verus!
