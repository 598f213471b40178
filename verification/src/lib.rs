//! A single-user task board: cards with free text and `category:value` tags,
//! kept in one order, with a cursor that selects a card and, in the category
//! view, a tag.
//!
//! A client changes the board by actions (`Board::perform_action`) or card by
//! card (`Board::delete_card` and its like). Every change is checked in full
//! before the board is touched: a refused change leaves the board as it was.
//! What the board shows (its tags, its categories, the columns of a
//! category) is worked out from the cards when asked for.
//!
//! The board as a mathematical value is `model::BoardView`; `model::step`
//! says what each action makes of it, and `model::board_inv` what holds of
//! every board. `laws` proves that the actions keep it so.
//!
//! The library reads and writes no files. `Board::from_saved` puts a board
//! together from what was saved of it, and `Board::get_state` gives what a
//! client needs to draw it.

pub mod action;
pub mod board;
pub mod card;
pub mod edit;
pub mod error;
pub mod laws;
pub mod lists;
pub mod model;
pub mod nav;
pub mod perform;
pub mod persist;
pub mod sorted;
pub mod state;
pub mod tag;
pub mod text;
pub mod views;

pub use crate::action::Action;
pub use crate::board::{Board, BoardId, CardSelection, InteractionState};
pub use crate::card::{Card, CardId};
pub use crate::error::BoardError;
pub use crate::state::BoardState;
pub use crate::tag::Tag;
pub use crate::views::{Category, Column};
