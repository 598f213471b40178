//! A snapshot of a board, with all that a client needs to draw it.

use vstd::prelude::*;
use crate::board::{id_of, text_of, Board, CardSelection, InteractionState};
use crate::card::{ids, Card, CardId};
use crate::model::{all_tags, categories, category_view, listing};
use crate::sorted::texts;
use crate::tag::{category_of, Tag};
use crate::views::Category;

verus! {

/// What a board shows at one moment.
#[derive(Debug)]
pub struct BoardState {
    /// The board's name.
    pub board_name: String,
    /// The cards, in the board's order.
    pub cards: Vec<Card>,
    /// The identifiers of the cards, in the board's order.
    pub card_order: Vec<CardId>,
    /// Every category, in ascending order.
    pub categories: Vec<String>,
    /// Every tag, in ascending order.
    pub tags: Vec<Tag>,
    /// The cursor and the filter.
    pub interaction_state: InteractionState,
    /// The category view of the selected tag's category, if a tag is
    /// selected.
    pub current_category_view: Option<Category>,
}

impl Board {
    /// A copy of the state of the session.
    pub fn clone_interaction_state(&self) -> (r: InteractionState)
        ensures
            id_of(r.selection.card_id) == self@.selected_card,
            text_of(r.selection.tag) == self@.selected_tag,
            r.filter@ == self@.filter,
    {
        let tag = match &self.interaction_state.selection.tag {
            Some(tag) => Some(tag.clone()),
            None => None,
        };
        InteractionState {
            selection: CardSelection { card_id: self.interaction_state.selection.card_id, tag },
            filter: self.interaction_state.filter.clone(),
        }
    }

    /// Copies of the cards, in the board's order.
    pub fn get_cards_in_order(&self) -> (r: Vec<Card>)
        requires
            self.wf(),
        ensures
            r@.len() == self@.card_order.len(),
            forall|i: int|
                0 <= i < r@.len() ==> (#[trigger] r@[i]).wf() && r@[i]@
                    == self@.cards[self@.card_order[i]],
    {
        let mut r: Vec<Card> = Vec::new();
        let mut i: usize = 0;
        while i < self.card_order.len()
            invariant
                i <= self.card_order.len(),
                self.wf(),
                r@.len() == i,
                forall|k: int|
                    0 <= k < i ==> (#[trigger] r@[k]).wf() && r@[k]@
                        == self@.cards[self@.card_order[k]],
            decreases self.card_order.len() - i,
        {
            let id = self.card_order[i];
            assert(self@.card_order[i as int] == id@);
            assert(self@.card_order.to_set().contains(id@));
            match self.get_card(id) {
                Some(card) => {
                    r.push(card.clone());
                },
                None => {
                    r.push(Card::new(id));
                },
            }
            i = i + 1;
        }
        r
    }

    /// The board as a client sees it: its name, its cards and their order,
    /// its categories and tags, the cursor, and, in the category view, the
    /// columns of the selected tag's category.
    pub fn get_state(&self) -> (r: BoardState)
        requires
            self.wf(),
        ensures
            r.board_name@ == self@.name,
            r.cards@.len() == self@.card_order.len(),
            forall|i: int|
                0 <= i < r.cards@.len() ==> (#[trigger] r.cards@[i])@
                    == self@.cards[self@.card_order[i]],
            ids(r.card_order@) == self@.card_order,
            texts(r.categories@) == listing(categories(self@)),
            texts(r.tags@) == listing(all_tags(self@)),
            id_of(r.interaction_state.selection.card_id) == self@.selected_card,
            text_of(r.interaction_state.selection.tag) == self@.selected_tag,
            r.interaction_state.filter@ == self@.filter,
            match self@.selected_tag {
                Some(t) => r.current_category_view matches Some(view) && view@ == category_view(
                    self@,
                    category_of(t),
                ),
                None => r.current_category_view is None,
            },
    {
        let current_category_view = match &self.interaction_state.selection.tag {
            Some(tag) => Some(self.get_category(tag.category())),
            None => None,
        };
        BoardState {
            board_name: self.name.clone(),
            cards: self.get_cards_in_order(),
            card_order: self.card_order.clone(),
            categories: self.get_categories(),
            tags: self.get_all_tags(),
            interaction_state: self.clone_interaction_state(),
            current_category_view,
        }
    }
}

} // verus!
