//! The errors of resolution, and their mathematical view.

use vstd::prelude::*;

verus! {

/// The I/O error of the standard library, carried through unchanged.
#[verifier::external_type_specification]
#[verifier::external_body]
pub struct ExIoError(std::io::Error);

/// Everything that can go wrong while resolving a name.
#[derive(Debug)]
pub enum ResolverError {
    Io(std::io::Error),
    Protocol(String),
    ServerError(String),
    NameTooLong(String),
    EmptyLabel(String),
    LabelTooLong { label: String },
    InvalidPointer { offset: usize, len: usize },
    PointerLoop,
    Timeout { server: String, timeout: u64 },
    TruncatedResponse,
    QueryFailed { attempts: u8, last_error: String },
    UnsupportedType(String),
    Other(String),
}

/// The view of a [`ResolverError`]: the same variants, with texts as
/// character sequences.  An I/O error is seen only as such.
pub enum ErrorView {
    Io,
    Protocol(Seq<char>),
    ServerError(Seq<char>),
    NameTooLong(Seq<char>),
    EmptyLabel(Seq<char>),
    LabelTooLong { label: Seq<char> },
    InvalidPointer { offset: usize, len: usize },
    PointerLoop,
    Timeout { server: Seq<char>, timeout: u64 },
    TruncatedResponse,
    QueryFailed { attempts: u8, last_error: Seq<char> },
    UnsupportedType(Seq<char>),
    Other(Seq<char>),
}

impl View for ResolverError {
    type V = ErrorView;

    open spec fn view(&self) -> ErrorView {
        match self {
            ResolverError::Io(_) => ErrorView::Io,
            ResolverError::Protocol(s) => ErrorView::Protocol(s@),
            ResolverError::ServerError(s) => ErrorView::ServerError(s@),
            ResolverError::NameTooLong(s) => ErrorView::NameTooLong(s@),
            ResolverError::EmptyLabel(s) => ErrorView::EmptyLabel(s@),
            ResolverError::LabelTooLong { label } => ErrorView::LabelTooLong { label: label@ },
            ResolverError::InvalidPointer { offset, len } => ErrorView::InvalidPointer {
                offset: *offset,
                len: *len,
            },
            ResolverError::PointerLoop => ErrorView::PointerLoop,
            ResolverError::Timeout { server, timeout } => ErrorView::Timeout {
                server: server@,
                timeout: *timeout,
            },
            ResolverError::TruncatedResponse => ErrorView::TruncatedResponse,
            ResolverError::QueryFailed { attempts, last_error } => ErrorView::QueryFailed {
                attempts: *attempts,
                last_error: last_error@,
            },
            ResolverError::UnsupportedType(s) => ErrorView::UnsupportedType(s@),
            ResolverError::Other(s) => ErrorView::Other(s@),
        }
    }
}

} // verus!
