//! Why a resolution fails.

use vstd::prelude::*;
use vstd::string::StringExecFns;

verus! {

/// What is wrong with a configured search root.
#[derive(Clone, Copy, Debug, PartialEq, Eq)]
pub enum Violation {
    /// The path is not absolute.
    NotAbsolute,
    /// The path is not that of an existing directory.
    NotADirectory,
}

/// A failure that ends a resolution.
#[derive(Clone, Debug, PartialEq, Eq)]
pub enum ResolveError {
    /// A configured search root is not valid.
    ConfigError { path: String, violation: Violation },
    /// The listing of a search root could not be read.
    IoError { path: String, cause: String },
}

/// A `ResolveError` as sequences of characters.
pub enum ResolveErrorView {
    ConfigError { path: Seq<char>, violation: Violation },
    IoError { path: Seq<char>, cause: Seq<char> },
}

impl View for ResolveError {
    type V = ResolveErrorView;

    open spec fn view(&self) -> ResolveErrorView {
        match self {
            ResolveError::ConfigError { path, violation } => ResolveErrorView::ConfigError {
                path: path@,
                violation: *violation,
            },
            ResolveError::IoError { path, cause } => ResolveErrorView::IoError {
                path: path@,
                cause: cause@,
            },
        }
    }
}

impl ResolveErrorView {
    /// The text that describes the failure: the offending path, and what is wrong with it.
    pub open spec fn message(self) -> Seq<char> {
        match self {
            ResolveErrorView::ConfigError { path, violation } => "DYLINT_LIBRARY_PATH contains `"@
                + path + match violation {
                Violation::NotAbsolute => "`, which is not absolute"@,
                Violation::NotADirectory => "`, which is not a directory"@,
            },
            ResolveErrorView::IoError { path, cause } => "`read_dir` failed for `"@ + path + "`: "@
                + cause,
        }
    }
}

impl ResolveError {
    /// The path that the failure is about.
    pub fn path(&self) -> (r: &String)
        ensures
            r@ == match self@ {
                ResolveErrorView::ConfigError { path, .. } => path,
                ResolveErrorView::IoError { path, .. } => path,
            },
    {
        match self {
            ResolveError::ConfigError { path, .. } => path,
            ResolveError::IoError { path, .. } => path,
        }
    }

    /// The text that describes the failure.
    pub fn message(&self) -> (r: String)
        ensures
            r@ == self@.message(),
    {
        match self {
            ResolveError::ConfigError { path, violation } => {
                let mut r = String::from_str("DYLINT_LIBRARY_PATH contains `");
                r.append(path.as_str());
                match violation {
                    Violation::NotAbsolute => r.append("`, which is not absolute"),
                    Violation::NotADirectory => r.append("`, which is not a directory"),
                }
                r
            },
            ResolveError::IoError { path, cause } => {
                let mut r = String::from_str("`read_dir` failed for `");
                r.append(path.as_str());
                r.append("`: ");
                r.append(cause.as_str());
                r
            },
        }
    }
}

} // verus!
