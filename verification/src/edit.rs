//! Changing the board card by card: each card is named by its identifier,
//! wherever the cursor stands.

use vstd::prelude::*;
use crate::board::Board;
use crate::card::{Card, CardId};
use crate::error::BoardError;
use crate::lists::{lemma_insert_fresh, lemma_remove_at};
use crate::model::{
    after_add_card_tag, after_delete_card, after_delete_card_tag, after_move_card,
    after_new_card_at_end, after_set_card_text,
};
use crate::nav::position;
use crate::tag::{category_of, lemma_any_in_category_insert, Tag};

verus! {

impl Board {
    /// Takes a card out of the store, leaving the order and the cursor as
    /// they are; `put_card` must follow.
    pub(crate) fn take_card(&mut self, id: CardId) -> (card: Card)
        requires
            old(self).cards@.contains_key(id@),
        ensures
            card == old(self).cards@[id@],
            final(self).cards@ == old(self).cards@.remove(id@),
            final(self).name == old(self).name,
            final(self).next_card_id == old(self).next_card_id,
            final(self).card_order == old(self).card_order,
            final(self).file_path == old(self).file_path,
            final(self).interaction_state == old(self).interaction_state,
    {
        match self.cards.remove(&id.0) {
            Some(card) => card,
            None => Card::new(id),
        }
    }

    /// Files a card under its number.
    pub(crate) fn put_card(&mut self, card: Card)
        ensures
            final(self).cards@ == old(self).cards@.insert(card@.id, card),
            final(self).name == old(self).name,
            final(self).next_card_id == old(self).next_card_id,
            final(self).card_order == old(self).card_order,
            final(self).file_path == old(self).file_path,
            final(self).interaction_state == old(self).interaction_state,
    {
        self.cards.insert(card.id().0, card);
    }

    /// Makes a card with no text and no tags, puts it at the end of the
    /// board's order and gives back its identifier. The cursor stays.
    pub fn new_card(&mut self) -> (id: CardId)
        requires
            old(self).wf(),
            old(self)@.next_card_id < u64::MAX,
        ensures
            final(self).wf(),
            final(self)@ == after_new_card_at_end(old(self)@),
            id@ == old(self)@.next_card_id,
    {
        let ghost before = self@;
        let id = self.get_next_card_id();
        proof {
            if before.card_order.contains(id@) {
                assert(before.card_order.to_set().contains(id@));
            }
            lemma_insert_fresh(before.card_order, before.card_order.len() as int, id@);
        }
        self.put_card(Card::new(id));
        self.card_order.push(id);
        proof {
            let after = after_new_card_at_end(before);
            assert(before.card_order.push(id@) =~= before.card_order.insert(
                before.card_order.len() as int,
                id@,
            ));
            assert(self@.card_order =~= after.card_order);
            assert(self@.cards =~= after.cards);
            assert(self@.cards.dom() =~= before.cards.dom().insert(id@));
        }
        id
    }

    /// Deletes a card. If it was the selected card the cursor goes where
    /// `get_next_selection_card_after_delete` says; else it stays. A board
    /// without the card is left as it was: `NoSuchCard`.
    pub fn delete_card(&mut self, card_id: CardId) -> (r: Result<(), BoardError>)
        requires
            old(self).wf(),
        ensures
            final(self).wf(),
            match after_delete_card(old(self)@, card_id@) {
                Ok(v) => r is Ok && final(self)@ == v,
                Err(e) => r == Err::<(), BoardError>(e) && *final(self) == *old(self),
            },
    {
        let ghost before = self@;
        if !self.cards.contains_key(&card_id.0) {
            return Err(BoardError::NoSuchCard(card_id));
        }
        let next = match self.interaction_state.selection.card_id {
            Some(selected) if selected == card_id => {
                match self.get_next_selection_card_after_delete() {
                    Err(e) => {
                        return Err(e);
                    },
                    Ok(next) => Some(next),
                }
            },
            _ => None,
        };
        proof {
            assert(before.card_order.to_set().contains(card_id@));
        }
        let index: usize = match position(&self.card_order, card_id) {
            Some(index) => index,
            None => {
                return Err(BoardError::NoSuchCard(card_id));
            },
        };
        proof {
            lemma_remove_at(before.card_order, index as int);
        }
        self.card_order.remove(index);
        self.cards.remove(&card_id.0);
        if let Some(next) = next {
            self.interaction_state.selection = next;
        }
        proof {
            let after = after_delete_card(before, card_id@)->Ok_0;
            assert(self@.card_order =~= after.card_order);
            assert(self@.cards =~= after.cards);
            assert(self@.cards.dom() =~= before.cards.dom().remove(card_id@));
        }
        Ok(())
    }

    /// Replaces the text of a card. `NoSuchCard` if the board has no such
    /// card.
    pub fn set_card_text(&mut self, id: CardId, text: &str) -> (r: Result<(), BoardError>)
        requires
            old(self).wf(),
        ensures
            final(self).wf(),
            match after_set_card_text(old(self)@, id@, text@) {
                Ok(v) => r is Ok && final(self)@ == v,
                Err(e) => r == Err::<(), BoardError>(e) && *final(self) == *old(self),
            },
    {
        if !self.cards.contains_key(&id.0) {
            return Err(BoardError::NoSuchCard(id));
        }
        let mut card = self.take_card(id);
        card.set_text(text.to_owned());
        self.put_card(card);
        proof {
            assert(self@.cards =~= after_set_card_text(old(self)@, id@, text@)->Ok_0.cards);
            assert(self@.cards.dom() =~= old(self)@.cards.dom());
        }
        Ok(())
    }

    /// Moves a card to place `new_index` of the board's order, counted
    /// without the card itself. A place beyond the last is refused with
    /// `PositionOutOfBounds`, and then an unknown card with `NoSuchCard`.
    pub fn move_card_within_default_card_order(&mut self, id: CardId, new_index: usize) -> (r:
        Result<(), BoardError>)
        requires
            old(self).wf(),
        ensures
            final(self).wf(),
            match after_move_card(old(self)@, id@, new_index as int) {
                Ok(v) => r is Ok && final(self)@ == v,
                Err(e) => r == Err::<(), BoardError>(e) && *final(self) == *old(self),
            },
    {
        let ghost before = self@;
        if new_index >= self.card_order.len() {
            return Err(BoardError::PositionOutOfBounds(new_index));
        }
        let old_index: usize = match position(&self.card_order, id) {
            Some(old_index) => old_index,
            None => {
                proof {
                    if before.cards.contains_key(id@) {
                        assert(before.card_order.to_set().contains(id@));
                    }
                }
                return Err(BoardError::NoSuchCard(id));
            },
        };
        proof {
            assert(before.card_order.to_set().contains(id@));
            lemma_remove_at(before.card_order, old_index as int);
            lemma_insert_fresh(before.card_order.remove(old_index as int), new_index as int, id@);
        }
        self.card_order.remove(old_index);
        self.card_order.insert(new_index, id);
        proof {
            let after = after_move_card(before, id@, new_index as int)->Ok_0;
            assert(self@.card_order =~= after.card_order);
            assert(self@.cards =~= before.cards);
            assert(self@.card_order.to_set() =~= before.card_order.to_set());
        }
        Ok(())
    }

    /// Gives a card a tag. `NoSuchCard` if the board has no such card,
    /// `CardAlreadyHasTag` if the card has the tag.
    pub fn add_card_tag(&mut self, card_id: CardId, tag: &Tag) -> (r: Result<(), BoardError>)
        requires
            old(self).wf(),
        ensures
            final(self).wf(),
            match after_add_card_tag(old(self)@, card_id@, tag@) {
                Ok(v) => r is Ok && final(self)@ == v,
                Err(e) => r == Err::<(), BoardError>(e) && *final(self) == *old(self),
            },
    {
        let present = match self.get_card(card_id) {
            Some(card) => card.has_tag(tag),
            None => {
                return Err(BoardError::NoSuchCard(card_id));
            },
        };
        if present {
            return Err(BoardError::CardAlreadyHasTag);
        }
        let mut card = self.take_card(card_id);
        card.add_tag(tag);
        self.put_card(card);
        proof {
            let before = old(self)@;
            assert(self@.cards =~= after_add_card_tag(before, card_id@, tag@)->Ok_0.cards);
            assert(self@.cards.dom() =~= before.cards.dom());
            if before.selected_card == Some(card_id@) && before.selected_tag is Some {
                lemma_any_in_category_insert(
                    before.cards[card_id@].tags,
                    tag@,
                    category_of(before.selected_tag->0),
                );
            }
        }
        Ok(())
    }

    /// Takes a tag from a card. `NoSuchCard` if the board has no such card,
    /// `CardDoesntHaveTag` if the card lacks the tag. If the card is the
    /// selected card and is left without a tag of the selected tag's
    /// category, the board goes back to the default view.
    pub fn delete_card_tag(&mut self, card_id: CardId, tag: &Tag) -> (r: Result<(), BoardError>)
        requires
            old(self).wf(),
        ensures
            final(self).wf(),
            match after_delete_card_tag(old(self)@, card_id@, tag@) {
                Ok(v) => r is Ok && final(self)@ == v,
                Err(e) => r == Err::<(), BoardError>(e) && *final(self) == *old(self),
            },
    {
        let present = match self.get_card(card_id) {
            Some(card) => card.has_tag(tag),
            None => {
                return Err(BoardError::NoSuchCard(card_id));
            },
        };
        if !present {
            return Err(BoardError::CardDoesntHaveTag);
        }
        let mut card = self.take_card(card_id);
        card.delete_tag(tag);
        let leaves = match (
            &self.interaction_state.selection.card_id,
            &self.interaction_state.selection.tag,
        ) {
            (Some(selected), Some(shown)) => *selected == card_id && !card.has_category(
                shown.category(),
            ),
            _ => false,
        };
        self.put_card(card);
        if leaves {
            self.interaction_state.selection.tag = None;
        }
        proof {
            assert(self@.cards =~= after_delete_card_tag(old(self)@, card_id@, tag@)->Ok_0.cards);
            assert(self@.cards.dom() =~= old(self)@.cards.dom());
        }
        Ok(())
    }
}

} // verus!
