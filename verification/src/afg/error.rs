//! Why a workflow operation failed.

use vstd::prelude::*;
use crate::text::{append_str, string_of_vec};

verus! {

/// Why a workflow operation failed.
#[derive(Debug, Clone, PartialEq, Eq)]
pub enum AfgError {
    /// The workflow text is not valid YAML of the workflow shape.
    Parse(String),
    /// The workflow breaks a rule the runtime relies on.
    Validation(String),
    /// What was not found.
    NotFound(&'static str),
    /// A workflow file could not be read.
    Io(String),
    /// Neither a source path nor inline text was given.
    MissingSource,
    /// A workflow source path escapes the project root.
    PathOutsideProject,
    /// The store failed.
    Storage(String),
}

/// [`AfgError`] as a value.
pub enum AfgFault {
    Parse(Seq<char>),
    Validation(Seq<char>),
    NotFound(Seq<char>),
    Io(Seq<char>),
    MissingSource,
    PathOutsideProject,
    Storage(Seq<char>),
}

impl View for AfgError {
    type V = AfgFault;

    open spec fn view(&self) -> AfgFault {
        match self {
            AfgError::Parse(m) => AfgFault::Parse(m@),
            AfgError::Validation(m) => AfgFault::Validation(m@),
            AfgError::NotFound(w) => AfgFault::NotFound(w@),
            AfgError::Io(m) => AfgFault::Io(m@),
            AfgError::MissingSource => AfgFault::MissingSource,
            AfgError::PathOutsideProject => AfgFault::PathOutsideProject,
            AfgError::Storage(m) => AfgFault::Storage(m@),
        }
    }
}

/// The message of a failure.
pub open spec fn afg_message(e: AfgFault) -> Seq<char> {
    match e {
        AfgFault::Parse(m) => "invalid workflow YAML: "@ + m,
        AfgFault::Validation(m) => "invalid workflow spec: "@ + m,
        AfgFault::NotFound(w) => w + " not found"@,
        AfgFault::Io(m) => "could not read workflow file: "@ + m,
        AfgFault::MissingSource => "must provide either source_path or yaml"@,
        AfgFault::PathOutsideProject => "workflow source path escapes the project root"@,
        AfgFault::Storage(m) => "storage failure: "@ + m,
    }
}

impl AfgError {
    /// What went wrong, in one sentence.
    pub fn message(&self) -> (r: String)
        ensures
            r@ == afg_message(self@),
    {
        let mut m: Vec<char> = Vec::new();
        match self {
            AfgError::Parse(x) => {
                append_str(&mut m, "invalid workflow YAML: ");
                append_str(&mut m, x.as_str());
            },
            AfgError::Validation(x) => {
                append_str(&mut m, "invalid workflow spec: ");
                append_str(&mut m, x.as_str());
            },
            AfgError::NotFound(w) => {
                append_str(&mut m, w);
                append_str(&mut m, " not found");
            },
            AfgError::Io(x) => {
                append_str(&mut m, "could not read workflow file: ");
                append_str(&mut m, x.as_str());
            },
            AfgError::MissingSource => {
                append_str(&mut m, "must provide either source_path or yaml");
            },
            AfgError::PathOutsideProject => {
                append_str(&mut m, "workflow source path escapes the project root");
            },
            AfgError::Storage(x) => {
                append_str(&mut m, "storage failure: ");
                append_str(&mut m, x.as_str());
            },
        }
        string_of_vec(&m)
    }
}

} // verus!
