//! The board: its cards, their order and the cursor.

use std::collections::BTreeMap;
use vstd::prelude::*;
use vstd::string::*;
use crate::card::{ids, Card, CardId};
use crate::error::BoardError;
use crate::model::{board_inv, BoardView};
use crate::tag::Tag;

verus! {

/// Identifier of a board: a counter like `CardId`, for whoever keeps several
/// boards.
#[derive(Debug, Clone, Copy, PartialEq, Eq, Structural, PartialOrd, Ord, Hash)]
pub struct BoardId(pub u64);

impl View for BoardId {
    type V = u64;

    open spec fn view(&self) -> u64 {
        self.0
    }
}

impl BoardId {
    /// The identifier with the given number.
    pub fn new(id: u64) -> (r: BoardId)
        ensures
            r@ == id,
    {
        BoardId(id)
    }

    /// The identifier that follows this one.
    pub fn next(self) -> (r: BoardId)
        requires
            self@ < u64::MAX,
        ensures
            r@ == self@ + 1,
    {
        BoardId(self.0 + 1)
    }

    /// The number behind the identifier.
    pub fn as_integer(&self) -> (r: u64)
        ensures
            r == self@,
    {
        self.0
    }
}

/// The cursor: the selected card and, in the category view, the selected tag.
/// With neither the board is empty or untouched; a tag is never selected
/// without a card.
#[derive(Debug)]
pub struct CardSelection {
    pub card_id: Option<CardId>,
    pub tag: Option<Tag>,
}

impl Default for CardSelection {
    fn default() -> (r: Self)
        ensures
            r.card_id is None,
            r.tag is None,
    {
        CardSelection { card_id: None, tag: None }
    }
}

/// The number of a card that may not be there.
pub open spec fn id_of(id: Option<CardId>) -> Option<u64> {
    match id {
        Some(c) => Some(c@),
        None => None,
    }
}

/// The text of a tag that may not be there.
pub open spec fn text_of(tag: Option<Tag>) -> Option<Seq<char>> {
    match tag {
        Some(t) => Some(t@),
        None => None,
    }
}

/// The state of one client's session with the board.
#[derive(Debug)]
pub struct InteractionState {
    pub selection: CardSelection,
    pub filter: String,
}

impl Default for InteractionState {
    fn default() -> (r: Self)
        ensures
            r.selection.card_id is None,
            r.selection.tag is None,
            r.filter@ == Seq::<char>::empty(),
    {
        InteractionState { selection: CardSelection::default(), filter: String::new() }
    }
}

/// A task board.
#[derive(Debug)]
pub struct Board {
    pub(crate) name: String,
    pub(crate) cards: BTreeMap<u64, Card>,
    pub(crate) next_card_id: CardId,
    pub(crate) card_order: Vec<CardId>,
    pub(crate) file_path: String,
    pub(crate) interaction_state: InteractionState,
}

impl View for Board {
    type V = BoardView;

    open(crate) spec fn view(&self) -> BoardView {
        BoardView {
            name: self.name@,
            cards: Map::new(|k: u64| self.cards@.contains_key(k), |k: u64| self.cards@[k]@),
            next_card_id: self.next_card_id@,
            card_order: ids(self.card_order@),
            selected_card: id_of(self.interaction_state.selection.card_id),
            selected_tag: text_of(self.interaction_state.selection.tag),
            filter: self.interaction_state.filter@,
            file_path: self.file_path@,
        }
    }
}

impl Board {
    /// Every stored card keeps its tags in order.
    pub open(crate) spec fn cards_wf(&self) -> bool {
        forall|k: u64| self.cards@.contains_key(k) ==> (#[trigger] self.cards@[k]).wf()
    }

    /// The board is sound: its cards are, and what holds of every board
    /// holds of it.
    pub open spec fn wf(&self) -> bool {
        self.cards_wf() && board_inv(self@)
    }

    /// A new board without cards, named "New Board", to be kept in the file
    /// `file_path`.
    pub fn new(file_path: &str) -> (r: Board)
        ensures
            r.wf(),
            r@ == (BoardView {
                name: "New Board"@,
                cards: Map::empty(),
                next_card_id: 0,
                card_order: Seq::empty(),
                selected_card: None,
                selected_tag: None,
                filter: Seq::empty(),
                file_path: file_path@,
            }),
    {
        let r = Board {
            name: String::from_str("New Board"),
            cards: BTreeMap::new(),
            next_card_id: CardId::new(0),
            card_order: Vec::new(),
            file_path: String::from_str(file_path),
            interaction_state: InteractionState::default(),
        };
        assert(r@.cards =~= Map::empty());
        assert(r@.card_order =~= Seq::empty());
        assert(r@.card_order.to_set() =~= r@.cards.dom());
        r
    }

    /// The board's name.
    pub fn name(&self) -> (r: &str)
        ensures
            r@ == self@.name,
    {
        self.name.as_str()
    }

    /// The file the board is kept in.
    pub fn file_path(&self) -> (r: &str)
        ensures
            r@ == self@.file_path,
    {
        self.file_path.as_str()
    }

    /// The identifier the next new card will get.
    pub fn next_card_id(&self) -> (r: CardId)
        ensures
            r@ == self@.next_card_id,
    {
        self.next_card_id
    }

    /// The cards, by their numbers.
    pub fn cards(&self) -> (r: &BTreeMap<u64, Card>)
        ensures
            r@.dom() == self@.cards.dom(),
            forall|k: u64| #[trigger] r@.contains_key(k) ==> r@[k]@ == self@.cards[k],
            self.wf() ==> forall|k: u64| #[trigger] r@.contains_key(k) ==> r@[k].wf(),
    {
        assert(self.cards@.dom() =~= self@.cards.dom());
        &self.cards
    }

    /// The order in which the default view shows the cards.
    pub fn default_card_order(&self) -> (r: &Vec<CardId>)
        ensures
            ids(r@) == self@.card_order,
    {
        &self.card_order
    }

    /// The card with the given identifier, if the board has it.
    pub fn get_card(&self, id: CardId) -> (r: Option<&Card>)
        ensures
            match r {
                Some(card) => self@.cards.contains_key(id@) && card@ == self@.cards[id@] && (
                self.wf() ==> card.wf()),
                None => !self@.cards.contains_key(id@),
            },
    {
        self.cards.get(&id.0)
    }

    /// The state of the session.
    pub fn interaction_state(&self) -> (r: &InteractionState)
        ensures
            self@.selected_card == id_of(r.selection.card_id),
            self@.selected_tag == text_of(r.selection.tag),
            self@.filter == r.filter@,
    {
        &self.interaction_state
    }

    /// The selected card, or `NoCardSelected`.
    pub fn get_selected_card_id(&self) -> (r: Result<CardId, BoardError>)
        ensures
            match r {
                Ok(id) => self@.selected_card == Some(id@),
                Err(e) => self@.selected_card is None && e == BoardError::NoCardSelected,
            },
    {
        match self.interaction_state.selection.card_id {
            Some(id) => Ok(id),
            None => Err(BoardError::NoCardSelected),
        }
    }

    /// Gives out the next identifier and moves the counter on.
    pub fn get_next_card_id(&mut self) -> (r: CardId)
        requires
            old(self)@.next_card_id < u64::MAX,
        ensures
            r@ == old(self)@.next_card_id,
            final(self)@ == (BoardView { next_card_id: (r@ + 1) as u64, ..old(self)@ }),
            old(self).wf() ==> final(self).wf(),
    {
        let id = self.next_card_id;
        self.next_card_id = self.next_card_id.next();
        id
    }
}

} // verus!
