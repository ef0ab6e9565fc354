//! Errors of reading an archive, and their messages.

use vstd::prelude::*;
use vstd::string::*;

use crate::text::append_decimal;

verus! {

/// What is wrong with the content of a tar archive.
#[derive(Debug)]
pub enum TarError {
    InvalidIndexSize { size: usize, entry_size: usize },
    EmptyIndex,
    FirstEntryNotIndex { actual: String },
    MissingIndexNoScan,
    InvalidHeader(String),
}

/// A [`TarError`] with its text as characters.
pub enum TarErrorView {
    InvalidIndexSize { size: usize, entry_size: usize },
    EmptyIndex,
    FirstEntryNotIndex { actual: Seq<char> },
    MissingIndexNoScan,
    InvalidHeader(Seq<char>),
}

impl View for TarError {
    type V = TarErrorView;

    open spec fn view(&self) -> TarErrorView {
        match *self {
            TarError::InvalidIndexSize { size, entry_size } => TarErrorView::InvalidIndexSize {
                size,
                entry_size,
            },
            TarError::EmptyIndex => TarErrorView::EmptyIndex,
            TarError::FirstEntryNotIndex { actual } => TarErrorView::FirstEntryNotIndex {
                actual: actual@,
            },
            TarError::MissingIndexNoScan => TarErrorView::MissingIndexNoScan,
            TarError::InvalidHeader(what) => TarErrorView::InvalidHeader(what@),
        }
    }
}

impl TarErrorView {
    /// The message of the error.
    pub open spec fn message(self) -> Seq<char> {
        match self {
            TarErrorView::InvalidIndexSize { size, entry_size } => "index.bin size "@
                + crate::text::decimal(size as nat) + " is not a multiple of entry size "@
                + crate::text::decimal(entry_size as nat),
            TarErrorView::EmptyIndex => "index.bin is empty"@,
            TarErrorView::FirstEntryNotIndex { actual } => "first tar entry must be 'index.bin', got '"@
                + actual + "'"@,
            TarErrorView::MissingIndexNoScan =>
                "archive has no index.bin; re-run with --scan-index to build index from tar headers"@,
            TarErrorView::InvalidHeader(what) => "invalid tar header: "@ + what,
        }
    }
}

impl TarError {
    /// The message of the error.
    pub fn message(&self) -> (s: String)
        ensures
            s@ == self@.message(),
    {
        match self {
            TarError::InvalidIndexSize { size, entry_size } => {
                let mut s = "index.bin size ".to_owned();
                append_decimal(&mut s, *size as u64);
                s.append(" is not a multiple of entry size ");
                append_decimal(&mut s, *entry_size as u64);
                s
            },
            TarError::EmptyIndex => "index.bin is empty".to_owned(),
            TarError::FirstEntryNotIndex { actual } => {
                let mut s = "first tar entry must be 'index.bin', got '".to_owned();
                s.append(actual.as_str());
                s.append("'");
                s
            },
            TarError::MissingIndexNoScan =>
                "archive has no index.bin; re-run with --scan-index to build index from tar headers".to_owned(),
            TarError::InvalidHeader(what) => {
                let mut s = "invalid tar header: ".to_owned();
                s.append(what.as_str());
                s
            },
        }
    }
}

/// What went wrong between the archive and the object store that holds it.
#[derive(Debug)]
pub enum S3Error {
    Request(String),
    Protocol(String),
    Tar(TarError),
}

/// An [`S3Error`] with its text as characters.
pub enum S3ErrorView {
    Request(Seq<char>),
    Protocol(Seq<char>),
    Tar(TarErrorView),
}

impl View for S3Error {
    type V = S3ErrorView;

    open spec fn view(&self) -> S3ErrorView {
        match *self {
            S3Error::Request(what) => S3ErrorView::Request(what@),
            S3Error::Protocol(what) => S3ErrorView::Protocol(what@),
            S3Error::Tar(e) => S3ErrorView::Tar(e@),
        }
    }
}

impl S3ErrorView {
    /// The message of the error.
    pub open spec fn message(self) -> Seq<char> {
        match self {
            S3ErrorView::Request(what) => "S3 request failed: "@ + what,
            S3ErrorView::Protocol(what) => what,
            S3ErrorView::Tar(e) => e.message(),
        }
    }
}

impl S3Error {
    /// The message of the error.
    pub fn message(&self) -> (s: String)
        ensures
            s@ == self@.message(),
    {
        match self {
            S3Error::Request(what) => {
                let mut s = "S3 request failed: ".to_owned();
                s.append(what.as_str());
                s
            },
            S3Error::Protocol(what) => what.clone(),
            S3Error::Tar(e) => e.message(),
        }
    }
}

/// A result with both sides taken by their views.
pub open spec fn result_view<T: View, E: View>(r: Result<T, E>) -> Result<T::V, E::V> {
    match r {
        Ok(v) => Ok(v@),
        Err(e) => Err(e@),
    }
}

/// What the errors say.
pub proof fn law_messages(size: usize, entry_size: usize, text: Seq<char>, e: TarErrorView)
    ensures
        (TarErrorView::InvalidIndexSize { size, entry_size }).message() == "index.bin size "@
            + crate::text::decimal(size as nat) + " is not a multiple of entry size "@
            + crate::text::decimal(entry_size as nat),
        TarErrorView::EmptyIndex.message() == "index.bin is empty"@,
        (TarErrorView::FirstEntryNotIndex { actual: text }).message()
            == "first tar entry must be 'index.bin', got '"@ + text + "'"@,
        TarErrorView::MissingIndexNoScan.message()
            == "archive has no index.bin; re-run with --scan-index to build index from tar headers"@,
        TarErrorView::InvalidHeader(text).message() == "invalid tar header: "@ + text,
        S3ErrorView::Request(text).message() == "S3 request failed: "@ + text,
        S3ErrorView::Protocol(text).message() == text,
        S3ErrorView::Tar(e).message() == e.message(),
{
}

/// A result keeps its side and its value when it is taken by its view.
pub proof fn law_result_view<T: View, E: View>(value: T, error: E)
    ensures
        result_view::<T, E>(Ok(value)) == Ok::<T::V, E::V>(value@),
        result_view::<T, E>(Err(error)) == Err::<T::V, E::V>(error@),
{
}

/// Errors hold what their views say.
pub proof fn law_error_views(size: usize, entry_size: usize, text: String, e: TarError)
    ensures
        (TarError::InvalidIndexSize { size, entry_size })@ == (TarErrorView::InvalidIndexSize {
            size,
            entry_size,
        }),
        TarError::EmptyIndex@ == TarErrorView::EmptyIndex,
        (TarError::FirstEntryNotIndex { actual: text })@ == (TarErrorView::FirstEntryNotIndex {
            actual: text@,
        }),
        TarError::MissingIndexNoScan@ == TarErrorView::MissingIndexNoScan,
        TarError::InvalidHeader(text)@ == TarErrorView::InvalidHeader(text@),
        S3Error::Request(text)@ == S3ErrorView::Request(text@),
        S3Error::Protocol(text)@ == S3ErrorView::Protocol(text@),
        S3Error::Tar(e)@ == S3ErrorView::Tar(e@),
{
}

} // verus!
