use vstd::prelude::*;

verus! {

/// What can go wrong while reading mappings or linking.
#[derive(Debug)]
pub enum DotfilesError {
    /// A mapping has an empty key.
    EmptyKey,
    /// A mapping value is neither absolute (`/...`) nor home-relative (`~...`).
    NotAbsolutePath(String),
    /// A home-relative path was given but no home directory is known.
    NoHomeDirectory,
    /// The link command created no link; the repository path is attached.
    NothingLinked(String),
}

/// The mathematical counterpart of `DotfilesError`, with strings as `Seq<char>`.
pub enum ErrorView {
    EmptyKey,
    NotAbsolutePath(Seq<char>),
    NoHomeDirectory,
    NothingLinked(Seq<char>),
}

impl View for DotfilesError {
    type V = ErrorView;

    open spec fn view(&self) -> ErrorView {
        match self {
            DotfilesError::EmptyKey => ErrorView::EmptyKey,
            DotfilesError::NotAbsolutePath(s) => ErrorView::NotAbsolutePath(s@),
            DotfilesError::NoHomeDirectory => ErrorView::NoHomeDirectory,
            DotfilesError::NothingLinked(s) => ErrorView::NothingLinked(s@),
        }
    }
}

} // verus!
