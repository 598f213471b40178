//! Moving the cursor: positions in lists of cards, steps that stop at the
//! ends, and the search outwards from a card.

use vstd::prelude::*;
use crate::board::{id_of, text_of, Board, CardSelection};
use crate::card::{ids, CardId};
use crate::error::BoardError;
use crate::lists::{
    at_offset, by_distance, clamp, index_in, lemma_filter_no_duplicates, lemma_index_in,
    lemma_index_in_is, lemma_neighbour_differs, neighbour,
};
use crate::model::{
    card_has_category, card_has_tag, current_list, first_in_category, selection_after_delete,
};
use crate::tag::category_of;

verus! {

/// The place `offset` steps from `index` in a list of `len` items, stopping
/// at the ends, and whether the steps fitted in the list.
pub fn offset_index(index: usize, offset: isize, len: usize) -> (r: (usize, bool))
    requires
        index < len,
    ensures
        r.0 == clamp(index + offset, len as int),
        r.1 == (0 <= index + offset < len),
{
    if offset >= 0 {
        let room: usize = len - 1 - index;
        if offset as usize > room {
            (len - 1, false)
        } else {
            (index + offset as usize, true)
        }
    } else {
        let back_less_one: usize = (-(offset + 1)) as usize;
        if back_less_one >= index {
            (0, false)
        } else {
            (index - back_less_one - 1, true)
        }
    }
}

/// Where `id` first stands in `list`.
pub fn position(list: &Vec<CardId>, id: CardId) -> (r: Option<usize>)
    ensures
        match r {
            Some(i) => i < list.len() && i == index_in(ids(list@), id@) && list[i as int] == id,
            None => index_in(ids(list@), id@) == list.len(),
        },
        r is Some <==> ids(list@).contains(id@),
{
    let mut i: usize = 0;
    proof {
        lemma_index_in(ids(list@), id@);
    }
    while i < list.len()
        invariant
            i <= list.len(),
            forall|k: int| 0 <= k < i ==> ids(list@)[k] != id@,
        decreases list.len() - i,
    {
        if list[i] == id {
            proof {
                lemma_index_in_is(ids(list@), id@, i as int);
            }
            return Some(i);
        }
        i = i + 1;
    }
    None
}

/// A card found by counting from another: either the count fitted in the
/// list, or it ran past an end and stopped there.
#[derive(Debug, Clone, Copy, PartialEq, Eq, Structural)]
pub enum CardOffsetResult {
    Within(CardId),
    Clamped(CardId),
}

impl CardOffsetResult {
    /// The card that was found, however the count ended.
    pub open spec fn id(self) -> CardId {
        match self {
            CardOffsetResult::Within(id) => id,
            CardOffsetResult::Clamped(id) => id,
        }
    }

    /// The card that was found, however the count ended.
    pub fn card_id(&self) -> (r: CardId)
        ensures
            r == self.id(),
    {
        match *self {
            CardOffsetResult::Within(id) => id,
            CardOffsetResult::Clamped(id) => id,
        }
    }
}

/// The card `offset` places from `from` in `list`, if `from` is in the list.
pub fn card_at_offset(list: &Vec<CardId>, from: CardId, offset: isize) -> (r: Option<
    CardOffsetResult,
>)
    ensures
        r is Some <==> ids(list@).contains(from@),
        r is Some ==> r->0.id()@ == at_offset(ids(list@), from@, offset as int) && ids(
            list@,
        ).contains(r->0.id()@),
        match r {
            Some(CardOffsetResult::Within(id)) => neighbour(ids(list@), from@, offset as int)
                == Some(id@),
            _ => neighbour(ids(list@), from@, offset as int) is None,
        },
{
    match position(list, from) {
        None => None,
        Some(index) => {
            let (to, within) = offset_index(index, offset, list.len());
            assert(ids(list@)[to as int] == list[to as int]@);
            if within {
                Some(CardOffsetResult::Within(list[to]))
            } else {
                Some(CardOffsetResult::Clamped(list[to]))
            }
        },
    }
}

/// The card `offset` places from `from` in `list`, if there is such a place.
pub fn neighbour_in(list: &Vec<CardId>, from: CardId, offset: isize) -> (r: Option<CardId>)
    ensures
        id_of(r) == neighbour(ids(list@), from@, offset as int),
        r is Some ==> ids(list@).contains(r->0@),
{
    match card_at_offset(list, from, offset) {
        Some(CardOffsetResult::Within(id)) => Some(id),
        _ => None,
    }
}

impl Board {
    /// The card `offset` places from the selected card in `cards`, stopping
    /// at the ends of the list. Without a selected card the answer is
    /// `NoCardSelected`; if the selected card is not in the list, `NoSuchCard`.
    pub fn get_card_at_offset_from_current_in_list(&self, cards: &Vec<CardId>, offset: isize) -> (r:
        Result<CardOffsetResult, BoardError>)
        ensures
            match self@.selected_card {
                None => r matches Err(e) && e == BoardError::NoCardSelected,
                Some(c) => if ids(cards@).contains(c) {
                    &&& r matches Ok(found)
                    &&& found.id()@ == at_offset(ids(cards@), c, offset as int)
                    &&& found is Within <==> neighbour(ids(cards@), c, offset as int) is Some
                } else {
                    r matches Err(e) && e == BoardError::NoSuchCard(CardId(c))
                },
            },
    {
        match self.get_selected_card_id() {
            Err(e) => Err(e),
            Ok(selected) => match card_at_offset(cards, selected, offset) {
                Some(found) => Ok(found),
                None => Err(BoardError::NoSuchCard(selected)),
            },
        }
    }

    /// The card `offset` places from the selected card in the list the
    /// cursor moves in, stopping at the ends. In the category view a selected
    /// card that lacks the selected tag is in no column: `CardDoesntHaveTag`.
    pub fn get_card_at_offset_from_current_in_current_view(&self, offset: isize) -> (r: Result<
        CardOffsetResult,
        BoardError,
    >)
        requires
            self.wf(),
        ensures
            match self@.selected_card {
                None => r matches Err(e) && e == BoardError::NoCardSelected,
                Some(c) => if current_list(self@).contains(c) {
                    &&& r matches Ok(found)
                    &&& found.id()@ == at_offset(current_list(self@), c, offset as int)
                    &&& current_list(self@).contains(found.id()@)
                    &&& self@.card_order.contains(found.id()@)
                } else {
                    r matches Err(e) && e == BoardError::CardDoesntHaveTag
                },
            },
    {
        match self.get_selected_card_id() {
            Err(e) => Err(e),
            Ok(selected) => {
                let found = match &self.interaction_state.selection.tag {
                    Some(tag) => {
                        let cards = self.get_cards_with_tag(tag);
                        proof {
                            lemma_filter_no_duplicates(
                                self@.card_order,
                                |id: u64| card_has_tag(self@, id, tag@),
                            );
                        }
                        card_at_offset(&cards, selected, offset)
                    },
                    None => card_at_offset(&self.card_order, selected, offset),
                };
                match found {
                    Some(found) => Ok(found),
                    None => {
                        proof {
                            assert(self@.card_order.to_set().contains(selected@));
                        }
                        Err(BoardError::CardDoesntHaveTag)
                    },
                }
            },
        }
    }

    /// The other cards by their distance from the selected card in the
    /// board's order: the card below, the card above, the card two places
    /// below, the card two places above, and so on.
    pub fn get_cards_by_distance_from_selected(&self) -> (r: Result<Vec<CardId>, BoardError>)
        requires
            self.wf(),
        ensures
            match self@.selected_card {
                None => r matches Err(e) && e == BoardError::NoCardSelected,
                Some(c) => r matches Ok(list) && ids(list@) == by_distance(
                    self@.card_order,
                    index_in(self@.card_order, c),
                    1,
                ),
            },
    {
        let selected = match self.get_selected_card_id() {
            Err(e) => {
                return Err(e);
            },
            Ok(selected) => selected,
        };
        let mut list: Vec<CardId> = Vec::new();
        let n: usize = self.card_order.len();
        let ghost order = self@.card_order;
        proof {
            assert(order.to_set().contains(selected@));
        }
        let pos: usize = match position(&self.card_order, selected) {
            Some(pos) => pos,
            None => {
                return Ok(list);
            },
        };
        let mut d: usize = 1;
        assert(ids(list@) + by_distance(order, pos as int, 1) =~= by_distance(order, pos as int, 1));
        while d < n - pos || d <= pos
            invariant
                pos < n,
                n == self.card_order.len(),
                order == ids(self.card_order@),
                1 <= d <= n,
                ids(list@) + by_distance(order, pos as int, d as int) == by_distance(
                    order,
                    pos as int,
                    1,
                ),
            decreases n - d,
        {
            let ghost before = ids(list@);
            if d < n - pos {
                list.push(self.card_order[pos + d]);
            }
            if d <= pos {
                list.push(self.card_order[pos - d]);
            }
            assert(ids(list@) + by_distance(order, pos as int, d as int + 1) =~= before
                + by_distance(order, pos as int, d as int));
            d = d + 1;
        }
        assert(ids(list@) + by_distance(order, pos as int, d as int) =~= ids(list@));
        Ok(list)
    }

    /// The first card of `list` that has a tag of the category.
    pub fn first_with_category(&self, list: &Vec<CardId>, category: &str) -> (r: Option<CardId>)
        requires
            self.wf(),
        ensures
            id_of(r) == first_in_category(self@, ids(list@), category@),
            r is Some ==> ids(list@).contains(r->0@) && card_has_category(self@, r->0@, category@),
    {
        let mut i: usize = 0;
        assert(ids(list@).skip(0) =~= ids(list@));
        while i < list.len()
            invariant
                i <= list.len(),
                self.wf(),
                first_in_category(self@, ids(list@), category@) == first_in_category(
                    self@,
                    ids(list@).skip(i as int),
                    category@,
                ),
            decreases list.len() - i,
        {
            let id = list[i];
            let present = match self.get_card(id) {
                Some(card) => card.has_category(category),
                None => false,
            };
            assert(ids(list@).skip(i as int)[0] == id@);
            if present {
                assert(ids(list@)[i as int] == id@);
                return Some(id);
            }
            assert(ids(list@).skip(i as int).drop_first() =~= ids(list@).skip(i as int + 1));
            i = i + 1;
        }
        None
    }

    /// The cursor to set when the selected card is deleted. In the category
    /// view it stays in the selected tag's column if that has another card,
    /// going down before up; else it goes to a neighbour among the cards of
    /// the tag's category; else it leaves the category view for a neighbour
    /// in the board's order; a board left empty has no cursor.
    pub fn get_next_selection_card_after_delete(&self) -> (r: Result<CardSelection, BoardError>)
        requires
            self.wf(),
        ensures
            match self@.selected_card {
                None => r matches Err(e) && e == BoardError::NoCardSelected,
                Some(c) => {
                    &&& r matches Ok(next)
                    &&& (id_of(next.card_id), text_of(next.tag)) == selection_after_delete(self@)
                    &&& next.tag is Some ==> next.card_id is Some
                    &&& next.card_id matches Some(to) ==> to@ != c && self@.cards.contains_key(to@)
                },
            },
    {
        let selected = match self.get_selected_card_id() {
            Err(e) => {
                return Err(e);
            },
            Ok(selected) => selected,
        };
        proof {
            lemma_index_in(self@.card_order, selected@);
        }
        if let Some(tag) = &self.interaction_state.selection.tag {
            let with_tag = self.get_cards_with_tag(tag);
            proof {
                lemma_filter_no_duplicates(self@.card_order, |id: u64| card_has_tag(self@, id, tag@));
                lemma_neighbour_differs(ids(with_tag@), selected@, 1);
                lemma_neighbour_differs(ids(with_tag@), selected@, -1);
            }
            if let Some(to) = neighbour_in(&with_tag, selected, 1) {
                return Ok(CardSelection { card_id: Some(to), tag: Some(tag.clone()) });
            }
            if let Some(to) = neighbour_in(&with_tag, selected, -1) {
                return Ok(CardSelection { card_id: Some(to), tag: Some(tag.clone()) });
            }
            let with_category = self.get_cards_with_category(tag.category());
            proof {
                lemma_filter_no_duplicates(
                    self@.card_order,
                    |id: u64| card_has_category(self@, id, category_of(tag@)),
                );
                lemma_neighbour_differs(ids(with_category@), selected@, 1);
                lemma_neighbour_differs(ids(with_category@), selected@, -1);
            }
            if let Some(to) = neighbour_in(&with_category, selected, 1) {
                return Ok(CardSelection { card_id: Some(to), tag: Some(tag.clone()) });
            }
            if let Some(to) = neighbour_in(&with_category, selected, -1) {
                return Ok(CardSelection { card_id: Some(to), tag: Some(tag.clone()) });
            }
        }
        proof {
            lemma_neighbour_differs(self@.card_order, selected@, 1);
            lemma_neighbour_differs(self@.card_order, selected@, -1);
        }
        if let Some(to) = neighbour_in(&self.card_order, selected, 1) {
            assert(self@.card_order.to_set().contains(to@));
            return Ok(CardSelection { card_id: Some(to), tag: None });
        }
        if let Some(to) = neighbour_in(&self.card_order, selected, -1) {
            assert(self@.card_order.to_set().contains(to@));
            return Ok(CardSelection { card_id: Some(to), tag: None });
        }
        Ok(CardSelection { card_id: None, tag: None })
    }
}

} // verus!
