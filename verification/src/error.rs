//! What can go wrong.

use crate::text::{cat, decimal, decimal_of};
use vstd::prelude::*;

verus! {

/// Errors from loading, compiling or checking a trace.
#[derive(Debug, PartialEq, Eq)]
pub enum Error {
    /// What the operating system said.
    Io(String),
    /// A malformed trace file.
    Trace(String),
    /// A trace op that cannot apply to the state before it (e.g. writing a
    /// file that does not exist).
    Model { op: usize, msg: String },
    /// Recording with strace failed or its output could not be understood.
    Strace(String),
}

/// An error, over mathematical values.
pub enum ErrorView {
    Io(Seq<char>),
    Trace(Seq<char>),
    Model { op: usize, msg: Seq<char> },
    Strace(Seq<char>),
}

impl View for Error {
    type V = ErrorView;

    open spec fn view(&self) -> ErrorView {
        match *self {
            Error::Io(m) => ErrorView::Io(m@),
            Error::Trace(m) => ErrorView::Trace(m@),
            Error::Model { op, msg } => ErrorView::Model { op, msg: msg@ },
            Error::Strace(m) => ErrorView::Strace(m@),
        }
    }
}

/// What an error says.
pub open spec fn told(e: ErrorView) -> Seq<char> {
    match e {
        ErrorView::Io(m) => m,
        ErrorView::Trace(m) => m,
        ErrorView::Model { op, msg } => "trace op #"@ + decimal(op as nat) + " ("@ + msg + ")"@,
        ErrorView::Strace(m) => m,
    }
}

impl Error {
    /// What the error says.
    pub fn message(&self) -> (r: String)
        ensures
            r@ == told(self@),
    {
        match self {
            Error::Io(m) => m.clone(),
            Error::Trace(m) => m.clone(),
            Error::Strace(m) => m.clone(),
            Error::Model { op, msg } => {
                let s = cat("trace op #".to_owned(), decimal_of(*op as u64).as_str());
                let s = cat(s, " (");
                let s = cat(s, msg.as_str());
                cat(s, ")")
            },
        }
    }
}

} // verus!
