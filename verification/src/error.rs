//! What can go wrong on a board.

use vstd::prelude::*;
use crate::card::CardId;

verus! {

/// `serde_json::Error`, declared so that a `BoardError` can carry one. The
/// library never makes one nor looks into one.
#[verifier::external_type_specification]
#[verifier::external_body]
pub struct ExSerdeJsonError(serde_json::Error);

/// `std::io::Error`, declared so that a `BoardError` can carry one. The
/// library never makes one nor looks into one.
#[verifier::external_type_specification]
#[verifier::external_body]
pub struct ExIoError(std::io::Error);

/// Why an action on a board was refused, or why the board could not be
/// written or read.
#[derive(Debug)]
pub enum BoardError {
    /// The board could not be turned into, or made from, its written form.
    SerdeError(serde_json::Error),
    /// The board's file could not be written or read.
    IoError(std::io::Error),
    /// No card has this identifier.
    NoSuchCard(CardId),
    /// No card has a tag of this category.
    NoSuchCategory,
    /// No card has this tag.
    NoSuchColumn,
    /// The position given for a move lies beyond the list.
    PositionOutOfBounds(usize),
    /// The card lacks the tag that was to be used.
    CardDoesntHaveTag,
    /// The card has the tag that was to be added.
    CardAlreadyHasTag,
    /// The action needs a selected card.
    NoCardSelected,
    /// The action needs a selected tag.
    NoTagSelected,
    /// The action needs the category view.
    NotInCategoryView,
}

impl From<serde_json::Error> for BoardError {
    fn from(error: serde_json::Error) -> (r: Self) {
        BoardError::SerdeError(error)
    }
}

impl vstd::std_specs::convert::FromSpecImpl<serde_json::Error> for BoardError {
    open spec fn obeys_from_spec() -> bool {
        true
    }

    open spec fn from_spec(error: serde_json::Error) -> Self {
        BoardError::SerdeError(error)
    }
}

impl From<std::io::Error> for BoardError {
    fn from(error: std::io::Error) -> (r: Self) {
        BoardError::IoError(error)
    }
}

impl vstd::std_specs::convert::FromSpecImpl<std::io::Error> for BoardError {
    open spec fn obeys_from_spec() -> bool {
        true
    }

    open spec fn from_spec(error: std::io::Error) -> Self {
        BoardError::IoError(error)
    }
}

impl BoardError {
    /// Whether the error came from writing or reading rather than from an
    /// action.
    pub open spec fn is_persistence(&self) -> bool {
        self is SerdeError || self is IoError
    }
}

} // verus!
