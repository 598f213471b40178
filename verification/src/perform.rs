//! Carrying out actions: each is checked in full before the board is
//! touched, so a refused action leaves the board as it was.

use vstd::prelude::*;
use crate::action::Action;
use crate::board::Board;
use crate::card::{ids, Card, CardId};
use crate::error::BoardError;
use crate::lists::{
    index_in, lemma_by_distance_contains, lemma_filter_no_duplicates, lemma_index_in,
    lemma_index_in_unique, lemma_insert_fresh, lemma_remove_at,
};
use crate::model::{
    after_add_tag, after_delete_current, after_delete_tag, after_move_horizontal,
    after_move_vertical, after_new_card, after_select_horizontal, after_select_vertical,
    after_set_text, after_view_category, after_view_default, all_tags, card_has_category,
    card_has_tag, lemma_first_in_category, step, tag_at_offset, BoardView,
};
use crate::nav::{offset_index, position};
use crate::sorted::{
    contains_text, lemma_lower_bound_contains, lemma_sorted_no_duplicates, lower_bound, texts,
};
use crate::tag::{category_of, in_category, lemma_any_in_category_insert, Tag};
use crate::views::lemma_listing;

verus! {

impl Board {
    /// Carries out one action. The action is checked in full first: a
    /// refused action leaves the board as it was, and the error says why it
    /// was refused. After an action that was carried out the board is what
    /// `step` makes of the board before. Writing the board to its file is
    /// the caller's part.
    pub fn perform_action(&mut self, action: &Action) -> (r: Result<(), BoardError>)
        requires
            old(self).wf(),
            *action is NewCard ==> old(self)@.next_card_id < u64::MAX,
        ensures
            final(self).wf(),
            match step(old(self)@, *action) {
                Ok(v) => r is Ok && final(self)@ == v,
                Err(e) => r == Err::<(), BoardError>(e) && *final(self) == *old(self),
            },
            r matches Err(e) ==> !e.is_persistence(),
    {
        match action {
            Action::SetBoardName { name } => {
                self.set_board_name(name.as_str());
                Ok(())
            },
            Action::NewCard => {
                self.new_card_after_current();
                Ok(())
            },
            Action::DeleteCurrentCard => self.delete_current_card(),
            Action::SelectCardVerticalOffset { offset } => self.select_card_vertical_offset(
                *offset,
            ),
            Action::SelectCardHorizontalOffset { offset } => self.select_card_horizontal_offset(
                *offset,
            ),
            Action::MoveCurrentCardVerticalOffset { offset } => {
                self.move_current_card_vertical_offset(*offset)
            },
            Action::MoveCurrentCardHorizontalInCategory { offset } => {
                self.move_current_card_horizontal_in_category(*offset)
            },
            Action::SetCurrentCardText { text } => self.set_current_card_text(text.as_str()),
            Action::AddTagToCurrentCard { tag } => self.add_tag_to_current_card(tag),
            Action::DeleteTagFromCurrentCard { tag } => self.delete_tag_from_current_card(tag),
            Action::ViewDefault => self.view_default(),
            Action::ViewCategory { category } => self.view_category(category.as_str()),
        }
    }

    /// `SetBoardName`: the board takes the name.
    pub fn set_board_name(&mut self, name: &str)
        requires
            old(self).wf(),
        ensures
            final(self).wf(),
            final(self)@ == (BoardView { name: name@, ..old(self)@ }),
    {
        self.name = name.to_owned();
        assert(self@.cards =~= old(self)@.cards);
    }

    /// `NewCard`: an empty card with the next identifier goes in behind the
    /// selected card, or at the end if no card is selected; it takes the
    /// selected tag if there is one, and becomes the selected card.
    pub fn new_card_after_current(&mut self) -> (id: CardId)
        requires
            old(self).wf(),
            old(self)@.next_card_id < u64::MAX,
        ensures
            final(self).wf(),
            final(self)@ == after_new_card(old(self)@),
            id@ == old(self)@.next_card_id,
    {
        let ghost before = self@;
        let id = self.next_card_id;
        self.next_card_id = self.next_card_id.next();
        let mut card = Card::new(id);
        if let Some(tag) = &self.interaction_state.selection.tag {
            card.add_tag(tag);
        }
        let at: usize = match self.interaction_state.selection.card_id {
            Some(selected) => match position(&self.card_order, selected) {
                Some(index) => index + 1,
                None => self.card_order.len(),
            },
            None => self.card_order.len(),
        };
        proof {
            if before.selected_card is Some {
                assert(before.card_order.to_set().contains(before.selected_card->0));
            }
            if before.card_order.contains(id@) {
                assert(before.card_order.to_set().contains(id@));
            }
            lemma_insert_fresh(before.card_order, at as int, id@);
        }
        self.put_card(card);
        self.card_order.insert(at, id);
        self.interaction_state.selection.card_id = Some(id);
        proof {
            let after = after_new_card(before);
            assert(self@.card_order =~= after.card_order);
            assert(self@.cards =~= after.cards);
            assert(self@.cards.dom() =~= before.cards.dom().insert(id@));
            if before.selected_tag is Some {
                lemma_any_in_category_insert(
                    Set::empty(),
                    before.selected_tag->0,
                    category_of(before.selected_tag->0),
                );
            }
        }
        id
    }

    /// `DeleteCurrentCard`: the selected card leaves the board, and the
    /// cursor goes where `get_next_selection_card_after_delete` says.
    pub fn delete_current_card(&mut self) -> (r: Result<(), BoardError>)
        requires
            old(self).wf(),
        ensures
            final(self).wf(),
            match after_delete_current(old(self)@) {
                Ok(v) => r is Ok && final(self)@ == v,
                Err(e) => r == Err::<(), BoardError>(e) && *final(self) == *old(self),
            },
    {
        match self.get_selected_card_id() {
            Err(e) => Err(e),
            Ok(selected) => self.delete_card(selected),
        }
    }

    /// `SelectCardVerticalOffset`: the cursor goes `offset` cards down the
    /// list it moves in, or up if `offset` is negative, and stops at the ends.
    pub fn select_card_vertical_offset(&mut self, offset: isize) -> (r: Result<(), BoardError>)
        requires
            old(self).wf(),
        ensures
            final(self).wf(),
            match after_select_vertical(old(self)@, offset as int) {
                Ok(v) => r is Ok && final(self)@ == v,
                Err(e) => r == Err::<(), BoardError>(e) && *final(self) == *old(self),
            },
    {
        let found = match self.get_card_at_offset_from_current_in_current_view(offset) {
            Err(e) => {
                return Err(e);
            },
            Ok(found) => found,
        };
        proof {
            assert(self@.card_order.to_set().contains(found.id()@));
        }
        self.interaction_state.selection.card_id = Some(found.card_id());
        assert(self@.cards =~= old(self)@.cards);
        Ok(())
    }

    /// `MoveCurrentCardVerticalOffset`: the selected card goes to the place,
    /// in the board's order, of the card `offset` places from it in the list
    /// the cursor moves in. The cursor stays on it.
    pub fn move_current_card_vertical_offset(&mut self, offset: isize) -> (r: Result<
        (),
        BoardError,
    >)
        requires
            old(self).wf(),
        ensures
            final(self).wf(),
            match after_move_vertical(old(self)@, offset as int) {
                Ok(v) => r is Ok && final(self)@ == v,
                Err(e) => r == Err::<(), BoardError>(e) && *final(self) == *old(self),
            },
    {
        let ghost before = self@;
        let selected = match self.get_selected_card_id() {
            Err(e) => {
                return Err(e);
            },
            Ok(selected) => selected,
        };
        let found = match self.get_card_at_offset_from_current_in_current_view(offset) {
            Err(e) => {
                return Err(e);
            },
            Ok(found) => found,
        };
        proof {
            assert(before.card_order.to_set().contains(selected@));
        }
        let from: usize = match position(&self.card_order, selected) {
            Some(from) => from,
            None => {
                return Err(BoardError::NoCardSelected);
            },
        };
        let to: usize = match position(&self.card_order, found.card_id()) {
            Some(to) => to,
            None => {
                return Err(BoardError::NoCardSelected);
            },
        };
        proof {
            lemma_remove_at(before.card_order, from as int);
            lemma_insert_fresh(before.card_order.remove(from as int), to as int, selected@);
        }
        self.card_order.remove(from);
        self.card_order.insert(to, selected);
        proof {
            let after = after_move_vertical(before, offset as int)->Ok_0;
            assert(self@.card_order =~= after.card_order);
            assert(self@.cards =~= before.cards);
            assert(self@.card_order.to_set() =~= before.card_order.to_set());
        }
        Ok(())
    }

    /// The tag `offset` columns from `tag` among the tags of its category,
    /// stopping at the first and the last. A tag that no card has is in no
    /// column: `NoSuchColumn`.
    pub fn get_tag_at_offset(&self, tag: &Tag, offset: isize) -> (r: Result<Tag, BoardError>)
        requires
            self.wf(),
        ensures
            match r {
                Ok(to) => {
                    &&& all_tags(self@).contains(tag@)
                    &&& to@ == tag_at_offset(self@, tag@, offset as int)
                    &&& all_tags(self@).contains(to@)
                    &&& category_of(to@) == category_of(tag@)
                },
                Err(e) => !all_tags(self@).contains(tag@) && e == BoardError::NoSuchColumn,
            },
    {
        let tags = self.get_tags_with_category(tag.category());
        let index: usize = lower_bound(&tags, tag.tag());
        proof {
            lemma_lower_bound_contains(texts(tags@), tag@, index as int);
            lemma_sorted_no_duplicates(texts(tags@));
        }
        if index < tags.len() && tags[index].same(tag) {
            let (to, _) = offset_index(index, offset, tags.len());
            proof {
                lemma_index_in_unique(texts(tags@), index as int);
                assert(texts(tags@).to_set().contains(texts(tags@)[to as int]));
            }
            Ok(tags[to].clone())
        } else {
            Err(BoardError::NoSuchColumn)
        }
    }

    /// `SelectCardHorizontalOffset`: the cursor goes `offset` columns to the
    /// right within the selected tag's category, or left if `offset` is
    /// negative, stopping at the first and the last column. It lands as far
    /// down the new column as it stood in the old one, or on the last card
    /// of a shorter column.
    pub fn select_card_horizontal_offset(&mut self, offset: isize) -> (r: Result<(), BoardError>)
        requires
            old(self).wf(),
        ensures
            final(self).wf(),
            match after_select_horizontal(old(self)@, offset as int) {
                Ok(v) => r is Ok && final(self)@ == v,
                Err(e) => r == Err::<(), BoardError>(e) && *final(self) == *old(self),
            },
    {
        let ghost before = self@;
        let selected = match self.get_selected_card_id() {
            Err(e) => {
                return Err(e);
            },
            Ok(selected) => selected,
        };
        let tag = match &self.interaction_state.selection.tag {
            Some(tag) => tag.clone(),
            None => {
                return Err(BoardError::NotInCategoryView);
            },
        };
        let present = match self.get_card(selected) {
            Some(card) => card.has_tag(&tag),
            None => false,
        };
        if !present {
            return Err(BoardError::CardDoesntHaveTag);
        }
        assert(card_has_tag(before, selected@, tag@));
        let target = match self.get_tag_at_offset(&tag, offset) {
            Err(e) => {
                return Err(e);
            },
            Ok(target) => target,
        };
        let from = self.get_cards_with_tag(&tag);
        let to = self.get_cards_with_tag(&target);
        proof {
            lemma_filter_no_duplicates(before.card_order, |id: u64| card_has_tag(before, id, tag@));
            lemma_filter_no_duplicates(
                before.card_order,
                |id: u64| card_has_tag(before, id, target@),
            );
            assert(before.card_order.to_set().contains(selected@));
            let holder = choose|id: u64| #[trigger] card_has_tag(before, id, target@);
            assert(before.card_order.to_set().contains(holder));
            assert(ids(to@).contains(holder));
        }
        let row: usize = match position(&from, selected) {
            Some(row) => row,
            None => {
                return Err(BoardError::CardDoesntHaveTag);
            },
        };
        let landing: usize = if row >= to.len() {
            to.len() - 1
        } else {
            row
        };
        let card = to[landing];
        proof {
            assert(ids(to@)[landing as int] == card@);
            assert(ids(to@).contains(card@));
        }
        self.interaction_state.selection.card_id = Some(card);
        self.interaction_state.selection.tag = Some(target);
        assert(self@.cards =~= before.cards);
        Ok(())
    }

    /// `MoveCurrentCardHorizontalInCategory`: the selected card goes to the
    /// column `offset` columns away, as `get_tag_at_offset` counts: it loses
    /// the selected tag and gets that column's tag, which becomes the
    /// selected tag. The action is refused, and nothing changes, if the card
    /// lacks the selected tag or has the other tag already.
    pub fn move_current_card_horizontal_in_category(&mut self, offset: isize) -> (r: Result<
        (),
        BoardError,
    >)
        requires
            old(self).wf(),
        ensures
            final(self).wf(),
            match after_move_horizontal(old(self)@, offset as int) {
                Ok(v) => r is Ok && final(self)@ == v,
                Err(e) => r == Err::<(), BoardError>(e) && *final(self) == *old(self),
            },
    {
        let ghost before = self@;
        let selected = match self.get_selected_card_id() {
            Err(e) => {
                return Err(e);
            },
            Ok(selected) => selected,
        };
        let tag = match &self.interaction_state.selection.tag {
            Some(tag) => tag.clone(),
            None => {
                return Err(BoardError::NotInCategoryView);
            },
        };
        let present = match self.get_card(selected) {
            Some(card) => card.has_tag(&tag),
            None => false,
        };
        if !present {
            return Err(BoardError::CardDoesntHaveTag);
        }
        assert(card_has_tag(before, selected@, tag@));
        let target = match self.get_tag_at_offset(&tag, offset) {
            Err(e) => {
                return Err(e);
            },
            Ok(target) => target,
        };
        let taken = match self.get_card(selected) {
            Some(card) => !target.same(&tag) && card.has_tag(&target),
            None => false,
        };
        if taken {
            return Err(BoardError::CardAlreadyHasTag);
        }
        match self.delete_tag_from_current_card(&tag) {
            Err(e) => {
                return Err(e);
            },
            Ok(()) => {},
        }
        match self.add_tag_to_current_card(&target) {
            Err(e) => {
                return Err(e);
            },
            Ok(()) => {},
        }
        self.interaction_state.selection.tag = Some(target);
        proof {
            let after = after_move_horizontal(before, offset as int)->Ok_0;
            assert(self@.cards =~= after.cards);
            lemma_any_in_category_insert(
                before.cards[selected@].tags.remove(tag@),
                target@,
                category_of(target@),
            );
        }
        Ok(())
    }

    /// `ViewCategory`: the board shows the category's columns. The selected
    /// card stays selected if it has a tag of the category; else the cursor
    /// goes to the nearest card that has one, as
    /// `get_cards_by_distance_from_selected` orders them. The first of the
    /// card's tags in the category becomes the selected tag.
    pub fn view_category(&mut self, category: &str) -> (r: Result<(), BoardError>)
        requires
            old(self).wf(),
        ensures
            final(self).wf(),
            match after_view_category(old(self)@, category@) {
                Ok(v) => r is Ok && final(self)@ == v,
                Err(e) => r == Err::<(), BoardError>(e) && *final(self) == *old(self),
            },
    {
        let ghost before = self@;
        let known = self.get_categories();
        if !contains_text(&known, category) {
            return Err(BoardError::NoSuchCategory);
        }
        let selected = match self.get_selected_card_id() {
            Err(e) => {
                return Err(e);
            },
            Ok(selected) => selected,
        };
        let stays = match self.get_card(selected) {
            Some(card) => card.has_category(category),
            None => false,
        };
        let to = if stays {
            selected
        } else {
            let others = match self.get_cards_by_distance_from_selected() {
                Err(e) => {
                    return Err(e);
                },
                Ok(others) => others,
            };
            proof {
                let t = choose|t: Seq<char>| #[trigger]
                    all_tags(before).contains(t) && category_of(t) == category@;
                let holder = choose|id: u64| #[trigger] card_has_tag(before, id, t);
                assert(before.cards[holder].tags.contains(t));
                assert(card_has_category(before, holder, category@));
                assert(before.card_order.to_set().contains(holder));
                assert(before.card_order.to_set().contains(selected@));
                lemma_index_in(before.card_order, holder);
                lemma_index_in(before.card_order, selected@);
                lemma_by_distance_contains(
                    before.card_order,
                    index_in(before.card_order, selected@),
                    1,
                    index_in(before.card_order, holder),
                );
                lemma_first_in_category(before, ids(others@), category@);
            }
            match self.first_with_category(&others, category) {
                Some(to) => to,
                None => {
                    return Err(BoardError::NoSuchCategory);
                },
            }
        };
        let tag = match self.get_card(to) {
            Some(card) => {
                let tags = card.get_tags_with_category(category);
                proof {
                    let t = choose|t: Seq<char>| #[trigger]
                        card@.tags.contains(t) && category_of(t) == category@;
                    assert(in_category(card@.tags, category@).contains(t));
                    assert(texts(tags@).contains(t));
                    lemma_listing(texts(tags@), in_category(card@.tags, category@));
                    assert(texts(tags@).to_set().contains(texts(tags@)[0]));
                }
                tags[0].clone()
            },
            None => {
                return Err(BoardError::NoSuchCategory);
            },
        };
        self.interaction_state.selection.card_id = Some(to);
        self.interaction_state.selection.tag = Some(tag);
        assert(self@.cards =~= before.cards);
        Ok(())
    }

    /// `SetCurrentCardText`: the selected card takes the text.
    pub fn set_current_card_text(&mut self, text: &str) -> (r: Result<(), BoardError>)
        requires
            old(self).wf(),
        ensures
            final(self).wf(),
            match after_set_text(old(self)@, text@) {
                Ok(v) => r is Ok && final(self)@ == v,
                Err(e) => r == Err::<(), BoardError>(e) && *final(self) == *old(self),
            },
    {
        match self.get_selected_card_id() {
            Err(e) => Err(e),
            Ok(selected) => self.set_card_text(selected, text),
        }
    }

    /// `AddTagToCurrentCard`: the selected card gets the tag, which it must
    /// not have yet.
    pub fn add_tag_to_current_card(&mut self, tag: &Tag) -> (r: Result<(), BoardError>)
        requires
            old(self).wf(),
        ensures
            final(self).wf(),
            match after_add_tag(old(self)@, tag@) {
                Ok(v) => r is Ok && final(self)@ == v,
                Err(e) => r == Err::<(), BoardError>(e) && *final(self) == *old(self),
            },
    {
        match self.get_selected_card_id() {
            Err(e) => Err(e),
            Ok(selected) => self.add_card_tag(selected, tag),
        }
    }

    /// `DeleteTagFromCurrentCard`: the selected card loses the tag, which it
    /// must have.
    pub fn delete_tag_from_current_card(&mut self, tag: &Tag) -> (r: Result<(), BoardError>)
        requires
            old(self).wf(),
        ensures
            final(self).wf(),
            match after_delete_tag(old(self)@, tag@) {
                Ok(v) => r is Ok && final(self)@ == v,
                Err(e) => r == Err::<(), BoardError>(e) && *final(self) == *old(self),
            },
    {
        match self.get_selected_card_id() {
            Err(e) => Err(e),
            Ok(selected) => self.delete_card_tag(selected, tag),
        }
    }

    /// `ViewDefault`: the category view is left; the selected card stays.
    pub fn view_default(&mut self) -> (r: Result<(), BoardError>)
        requires
            old(self).wf(),
        ensures
            final(self).wf(),
            match after_view_default(old(self)@) {
                Ok(v) => r is Ok && final(self)@ == v,
                Err(e) => r == Err::<(), BoardError>(e) && *final(self) == *old(self),
            },
    {
        if self.interaction_state.selection.tag.is_some() {
            self.interaction_state.selection.tag = None;
            assert(self@.cards =~= old(self)@.cards);
            Ok(())
        } else {
            Err(BoardError::NoTagSelected)
        }
    }
}

} // verus!
