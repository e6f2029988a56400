//! Named errors. No string-only error type.
use vstd::prelude::*;

use crate::text::{decimal, decimal_string};
use vstd::string::StringExecFns;

verus! {

/// Recoverable HDF5 failure. The variants named in the build specification are
/// stable; the others describe truncated or malformed files.
#[derive(Clone, Debug, PartialEq, Eq)]
pub enum HDF5Error {
    /// Bytes at the superblock location are not the HDF5 signature.
    InvalidSignature,
    /// Superblock or object-header version this crate does not read.
    UnsupportedVersion(u8),
    /// Dataset storage layout is chunked in a way this crate does not read.
    ChunkedNotSupported,
    /// Dataset storage uses a filter pipeline (compression, shuffle, ...).
    FilteredNotSupported,
    /// No object at the given path.
    NotFound(String),
    /// Append rank or trailing dimensions do not match the existing dataset.
    ShapeMismatch,
    /// File ended before a field was complete.
    Truncated,
    /// A header, checksum, or message failed validation.
    InvalidHeader,
    /// Dataspace rank is greater than `HDF5_MAX_DIMS`.
    RankNotSupported,
    /// Dataset datatype cannot satisfy the requested read.
    TypeMismatch,
    /// Dataset datatype cannot be written by this crate.
    UnsupportedDtype,
    /// Group stores links in a fractal heap / dense index.
    DenseGroupsNotSupported,
    /// Link or attribute name exceeds `HDF5_MAX_NAME_LEN`.
    NameTooLong,
    /// I/O failure reported by the caller's file system layer.
    Io(String),
}

/// `Result` alias for this crate's [`HDF5Error`].
pub type Result<T> = core::result::Result<T, HDF5Error>;

/// An [`HDF5Error`] with its text payloads taken as characters.
pub enum ErrView {
    /// See [`HDF5Error::InvalidSignature`].
    InvalidSignature,
    /// See [`HDF5Error::UnsupportedVersion`].
    UnsupportedVersion(u8),
    /// See [`HDF5Error::ChunkedNotSupported`].
    ChunkedNotSupported,
    /// See [`HDF5Error::FilteredNotSupported`].
    FilteredNotSupported,
    /// See [`HDF5Error::NotFound`].
    NotFound(Seq<char>),
    /// See [`HDF5Error::ShapeMismatch`].
    ShapeMismatch,
    /// See [`HDF5Error::Truncated`].
    Truncated,
    /// See [`HDF5Error::InvalidHeader`].
    InvalidHeader,
    /// See [`HDF5Error::RankNotSupported`].
    RankNotSupported,
    /// See [`HDF5Error::TypeMismatch`].
    TypeMismatch,
    /// See [`HDF5Error::UnsupportedDtype`].
    UnsupportedDtype,
    /// See [`HDF5Error::DenseGroupsNotSupported`].
    DenseGroupsNotSupported,
    /// See [`HDF5Error::NameTooLong`].
    NameTooLong,
    /// See [`HDF5Error::Io`].
    Io(Seq<char>),
}

impl View for HDF5Error {
    type V = ErrView;

    open spec fn view(&self) -> ErrView {
        match self {
            HDF5Error::InvalidSignature => ErrView::InvalidSignature,
            HDF5Error::UnsupportedVersion(v) => ErrView::UnsupportedVersion(*v),
            HDF5Error::ChunkedNotSupported => ErrView::ChunkedNotSupported,
            HDF5Error::FilteredNotSupported => ErrView::FilteredNotSupported,
            HDF5Error::NotFound(s) => ErrView::NotFound(s@),
            HDF5Error::ShapeMismatch => ErrView::ShapeMismatch,
            HDF5Error::Truncated => ErrView::Truncated,
            HDF5Error::InvalidHeader => ErrView::InvalidHeader,
            HDF5Error::RankNotSupported => ErrView::RankNotSupported,
            HDF5Error::TypeMismatch => ErrView::TypeMismatch,
            HDF5Error::UnsupportedDtype => ErrView::UnsupportedDtype,
            HDF5Error::DenseGroupsNotSupported => ErrView::DenseGroupsNotSupported,
            HDF5Error::NameTooLong => ErrView::NameTooLong,
            HDF5Error::Io(s) => ErrView::Io(s@),
        }
    }
}

/// The text that describes an error.
pub open spec fn spec_message(e: ErrView) -> Seq<char> {
    match e {
        ErrView::InvalidSignature => "invalid HDF5 signature"@,
        ErrView::UnsupportedVersion(v) => "unsupported HDF5 version "@ + decimal(v as nat),
        ErrView::ChunkedNotSupported => "chunked dataset not supported"@,
        ErrView::FilteredNotSupported => "filtered dataset not supported"@,
        ErrView::NotFound(p) => "HDF5 path not found: "@ + p,
        ErrView::ShapeMismatch => "HDF5 dataspace shape mismatch"@,
        ErrView::Truncated => "truncated HDF5 file"@,
        ErrView::InvalidHeader => "invalid HDF5 header"@,
        ErrView::RankNotSupported => "HDF5 rank not supported"@,
        ErrView::TypeMismatch => "HDF5 datatype mismatch"@,
        ErrView::UnsupportedDtype => "HDF5 datatype not supported for writing"@,
        ErrView::DenseGroupsNotSupported => "dense HDF5 groups not supported"@,
        ErrView::NameTooLong => "HDF5 name too long"@,
        ErrView::Io(s) => "HDF5 I/O error: "@ + s,
    }
}

impl HDF5Error {
    /// The text that describes this error.
    pub fn message(&self) -> (s: String)
        ensures
            s@ == spec_message(self@),
    {
        match self {
            HDF5Error::InvalidSignature => String::from_str("invalid HDF5 signature"),
            HDF5Error::UnsupportedVersion(v) => {
                let mut s = String::from_str("unsupported HDF5 version ");
                let d = decimal_string(*v as u64);
                s.append(d.as_str());
                s
            },
            HDF5Error::ChunkedNotSupported => String::from_str("chunked dataset not supported"),
            HDF5Error::FilteredNotSupported => String::from_str("filtered dataset not supported"),
            HDF5Error::NotFound(p) => {
                let mut s = String::from_str("HDF5 path not found: ");
                s.append(p.as_str());
                s
            },
            HDF5Error::ShapeMismatch => String::from_str("HDF5 dataspace shape mismatch"),
            HDF5Error::Truncated => String::from_str("truncated HDF5 file"),
            HDF5Error::InvalidHeader => String::from_str("invalid HDF5 header"),
            HDF5Error::RankNotSupported => String::from_str("HDF5 rank not supported"),
            HDF5Error::TypeMismatch => String::from_str("HDF5 datatype mismatch"),
            HDF5Error::UnsupportedDtype => String::from_str("HDF5 datatype not supported for writing"),
            HDF5Error::DenseGroupsNotSupported => String::from_str("dense HDF5 groups not supported"),
            HDF5Error::NameTooLong => String::from_str("HDF5 name too long"),
            HDF5Error::Io(m) => {
                let mut s = String::from_str("HDF5 I/O error: ");
                s.append(m.as_str());
                s
            },
        }
    }
}

/// The view of a result: the value as it is, the error by its view.
pub open spec fn res_view<T>(r: Result<T>) -> core::result::Result<T, ErrView> {
    match r {
        Ok(v) => Ok(v),
        Err(e) => Err(e@),
    }
}

} // verus!
