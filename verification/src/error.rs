//! What can go wrong while a module is loaded.

use vstd::prelude::*;
use vstd::string::*;

verus! {

/// The reason a load was given up. Each one ends the load it occurs in.
#[derive(Debug, Clone, PartialEq, Eq)]
pub enum Error {
    /// The source at `path` could not be read.
    IoError { path: String, cause: String },
    /// `path` is asked for again while it is still being resolved; `from` is
    /// the module that asks.
    CircularDependency { path: String, from: String },
    /// `path` has no directory to resolve its includes against.
    InvalidPath { path: String },
    /// The flattened code of the module that was asked for is not valid.
    ValidationError { diagnostic: String },
}

/// An [`Error`] with its texts as character sequences.
pub enum ErrorView {
    IoError { path: Seq<char>, cause: Seq<char> },
    CircularDependency { path: Seq<char>, from: Seq<char> },
    InvalidPath { path: Seq<char> },
    ValidationError { diagnostic: Seq<char> },
}

impl View for Error {
    type V = ErrorView;

    open spec fn view(&self) -> ErrorView {
        match self {
            Error::IoError { path, cause } => ErrorView::IoError { path: path@, cause: cause@ },
            Error::CircularDependency { path, from } => ErrorView::CircularDependency {
                path: path@,
                from: from@,
            },
            Error::InvalidPath { path } => ErrorView::InvalidPath { path: path@ },
            Error::ValidationError { diagnostic } => ErrorView::ValidationError {
                diagnostic: diagnostic@,
            },
        }
    }
}

/// The cause given for a source that the storage does not hold.
pub const NOT_STORED: &'static str = "no such source";

impl ErrorView {
    /// The text that describes the error to a reader.
    pub open spec fn message(self) -> Seq<char> {
        match self {
            ErrorView::IoError { path, cause } => cause + " '"@ + path + "'"@,
            ErrorView::CircularDependency { path, from } => "circular dependency "@ + path
                + " from "@ + from,
            ErrorView::InvalidPath { path } => "invalid path '"@ + path + "'"@,
            ErrorView::ValidationError { diagnostic } => diagnostic,
        }
    }
}

impl Error {
    /// The text that describes the error to a reader.
    pub fn message(&self) -> (r: String)
        ensures
            r@ == self@.message(),
    {
        match self {
            Error::IoError { path, cause } => {
                let mut out = cause.clone();
                out.append(" '");
                out.append(path.as_str());
                out.append("'");
                out
            },
            Error::CircularDependency { path, from } => {
                let mut out = String::from_str("circular dependency ");
                out.append(path.as_str());
                out.append(" from ");
                out.append(from.as_str());
                out
            },
            Error::InvalidPath { path } => {
                let mut out = String::from_str("invalid path '");
                out.append(path.as_str());
                out.append("'");
                out
            },
            Error::ValidationError { diagnostic } => diagnostic.clone(),
        }
    }
}

} // verus!
