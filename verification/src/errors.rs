//! Error values of the library. Catalog construction and deck loading fail
//! by returning one of these, never by panicking; the host decides whether
//! to abort or to keep its last-known-good state.

use vstd::prelude::*;

verus! {

/// Why a deck catalog could not be built.
#[derive(Clone, Copy, PartialEq, Eq, Structural, Debug)]
pub enum CatalogError {
    /// The base path does not exist.
    DirectoryNotFound,
    /// The base path exists but is not a directory.
    NotADirectory,
    /// The directory holds no file with the deck extension.
    NoDecksFound,
}

/// Why a deck file yielded no usable card collection.
#[derive(Clone, Copy, PartialEq, Eq, Structural, Debug)]
pub enum LoadError {
    /// The file could not be opened or read.
    IoError,
    /// The file was read but no line parsed to a card with both fields
    /// non-empty; a collection of zero cards is a failure, not a success.
    NoUsableCards,
}

impl CatalogError {
    /// A short diagnostic text for the host to show.
    pub fn message(&self) -> (r: String)
        ensures
            *self is DirectoryNotFound ==> r@ == "deck folder does not exist"@,
            *self is NotADirectory ==> r@ == "deck folder is not a directory"@,
            *self is NoDecksFound ==> r@ == "no deck files found in folder"@,
    {
        match self {
            CatalogError::DirectoryNotFound => String::from_str("deck folder does not exist"),
            CatalogError::NotADirectory => String::from_str("deck folder is not a directory"),
            CatalogError::NoDecksFound => String::from_str("no deck files found in folder"),
        }
    }
}

impl LoadError {
    /// A short diagnostic text for the host to show.
    pub fn message(&self) -> (r: String)
        ensures
            *self is IoError ==> r@ == "deck file could not be read"@,
            *self is NoUsableCards ==> r@ == "deck file contains no usable cards"@,
    {
        match self {
            LoadError::IoError => String::from_str("deck file could not be read"),
            LoadError::NoUsableCards => String::from_str("deck file contains no usable cards"),
        }
    }
}

} // verus!
