//! Why a project-map operation failed.

use vstd::prelude::*;

verus! {

/// Why a project-map operation failed.
#[derive(Debug, Clone, PartialEq, Eq)]
pub enum GraphError {
    /// The project name was empty.
    EmptyProject,
    /// The project root is not a directory.
    RootNotADirectory(String),
    /// The tree, or git, could not be read; the reason is carried.
    Walk(String),
    /// No node has that identity.
    NotFound,
    /// The store failed.
    Storage(String),
}

} // verus!

verus! {

impl GraphError {
    /// What the error says to a reader.
    pub fn message(&self) -> (r: String)
        ensures
            match self {
                GraphError::EmptyProject => r@ == "project must not be empty"@,
                GraphError::RootNotADirectory(p) => r@ == "project root "@ + crate::text::debug_text(p@)
                    + " is not a directory"@,
                GraphError::Walk(m) => r@ == "could not read the project tree: "@ + m@,
                GraphError::NotFound => r@ == "no node found for that identity"@,
                GraphError::Storage(m) => r@ == "storage failure: "@ + m@,
            },
    {
        match self {
            GraphError::EmptyProject => crate::text::string_of_vec(&crate::text::chars_of("project must not be empty")),
            GraphError::RootNotADirectory(p) => {
                let mut m = crate::text::chars_of("project root ");
                let q = crate::text::debug_quote(p.as_str());
                crate::text::append_str(&mut m, q.as_str());
                crate::text::append_str(&mut m, " is not a directory");
                crate::text::string_of_vec(&m)
            },
            GraphError::Walk(w) => {
                let mut m = crate::text::chars_of("could not read the project tree: ");
                crate::text::append_str(&mut m, w.as_str());
                crate::text::string_of_vec(&m)
            },
            GraphError::NotFound => crate::text::string_of_vec(&crate::text::chars_of("no node found for that identity")),
            GraphError::Storage(s) => {
                let mut m = crate::text::chars_of("storage failure: ");
                crate::text::append_str(&mut m, s.as_str());
                crate::text::string_of_vec(&m)
            },
        }
    }
}

} // verus!
