//! The actions a client can ask of a board.

use vstd::prelude::*;
use crate::tag::Tag;

verus! {

/// One request to a board. Offsets count cards or columns; a negative offset
/// goes up or left.
#[derive(Debug)]
pub enum Action {
    SetBoardName { name: String },
    NewCard,
    DeleteCurrentCard,
    SelectCardVerticalOffset { offset: isize },
    SelectCardHorizontalOffset { offset: isize },
    MoveCurrentCardVerticalOffset { offset: isize },
    MoveCurrentCardHorizontalInCategory { offset: isize },
    SetCurrentCardText { text: String },
    AddTagToCurrentCard { tag: Tag },
    DeleteTagFromCurrentCard { tag: Tag },
    ViewDefault,
    ViewCategory { category: String },
}

} // verus!
