//! The board as a mathematical value, and what each action makes of it.

use vstd::prelude::*;
use crate::action::Action;
use crate::card::{CardId, CardView};
use crate::error::BoardError;
use crate::lists::{at_offset, by_distance, clamp, index_in, neighbour};
use crate::sorted::lists;
use crate::tag::{any_in_category, category_of, in_category, value_of};

verus! {

/// What a board is: its cards by number, their order, and the cursor.
pub struct BoardView {
    pub name: Seq<char>,
    pub cards: Map<u64, CardView>,
    pub next_card_id: u64,
    pub card_order: Seq<u64>,
    pub selected_card: Option<u64>,
    pub selected_tag: Option<Seq<char>>,
    pub filter: Seq<char>,
    pub file_path: Seq<char>,
}

/// What holds of every board: `card_order` names each card exactly once and
/// nothing else; every card is filed under its own number, which is below the
/// next number to be given, and has finitely many tags; the cursor points at
/// a card of the board, or at none and then at no tag either; and a selected
/// tag is of a category that the selected card has a tag of, though the card
/// need not have that very tag.
pub open spec fn board_inv(v: BoardView) -> bool {
    &&& v.cards.dom().finite()
    &&& v.card_order.no_duplicates()
    &&& v.card_order.to_set() == v.cards.dom()
    &&& forall|id: u64| #[trigger]
        v.cards.contains_key(id) ==> {
            &&& v.cards[id].id == id
            &&& id < v.next_card_id
            &&& v.cards[id].tags.finite()
        }
    &&& match v.selected_card {
        Some(c) => v.cards.contains_key(c),
        None => v.selected_tag is None,
    }
    &&& match (v.selected_card, v.selected_tag) {
        (Some(c), Some(t)) => any_in_category(v.cards[c].tags, category_of(t)),
        _ => true,
    }
}

/// Whether card `id` has the tag.
pub open spec fn card_has_tag(v: BoardView, id: u64, tag: Seq<char>) -> bool {
    v.cards.contains_key(id) && v.cards[id].tags.contains(tag)
}

/// Whether card `id` has a tag of the category.
pub open spec fn card_has_category(v: BoardView, id: u64, category: Seq<char>) -> bool {
    v.cards.contains_key(id) && any_in_category(v.cards[id].tags, category)
}

/// The column of a tag: the cards that have it, in the board's order.
pub open spec fn column(v: BoardView, tag: Seq<char>) -> Seq<u64> {
    v.card_order.filter(|id: u64| card_has_tag(v, id, tag))
}

/// The cards that have a tag of the category, in the board's order.
pub open spec fn cards_in_category(v: BoardView, category: Seq<char>) -> Seq<u64> {
    v.card_order.filter(|id: u64| card_has_category(v, id, category))
}

/// Every tag that some card has.
pub open spec fn all_tags(v: BoardView) -> Set<Seq<char>> {
    Set::new(|t: Seq<char>| exists|id: u64| #[trigger] card_has_tag(v, id, t))
}

/// Every category that some tag of some card has.
pub open spec fn categories(v: BoardView) -> Set<Seq<char>> {
    Set::new(
        |c: Seq<char>| exists|t: Seq<char>| #[trigger] all_tags(v).contains(t) && category_of(t) == c,
    )
}

/// The ascending list of a set of texts.
pub open spec fn listing(set: Set<Seq<char>>) -> Seq<Seq<char>> {
    choose|l: Seq<Seq<char>>| lists(l, set)
}

/// The columns of a category: its tags in ascending order.
pub open spec fn category_tags(v: BoardView, category: Seq<char>) -> Seq<Seq<char>> {
    listing(in_category(all_tags(v), category))
}

/// A column as a value: the value part of its tag, and its cards in the
/// board's order.
pub struct ColumnView {
    pub name: Seq<char>,
    pub cards: Seq<u64>,
}

/// A category as a value: its name and its columns.
pub struct CategoryView {
    pub name: Seq<char>,
    pub columns: Seq<ColumnView>,
}

/// The category view: one column for each tag of the category, the tags in
/// ascending order, and in each column the cards that have the tag, in the
/// board's order.
pub open spec fn category_view(v: BoardView, category: Seq<char>) -> CategoryView {
    let tags = category_tags(v, category);
    CategoryView {
        name: category,
        columns: Seq::new(
            tags.len(),
            |i: int| ColumnView { name: value_of(tags[i]), cards: column(v, tags[i]) },
        ),
    }
}

/// The names of a list of columns.
pub open spec fn column_names(columns: Seq<ColumnView>) -> Seq<Seq<char>> {
    Seq::new(columns.len(), |i: int| columns[i].name)
}

/// The first tag of the category on card `id`.
pub open spec fn first_tag_in_category(v: BoardView, id: u64, category: Seq<char>) -> Seq<char> {
    listing(in_category(v.cards[id].tags, category))[0]
}

/// The first item of `list` that has a tag of the category.
pub open spec fn first_in_category(v: BoardView, list: Seq<u64>, category: Seq<char>) -> Option<u64>
    decreases list.len(),
{
    if list.len() == 0 {
        None
    } else if card_has_category(v, list[0], category) {
        Some(list[0])
    } else {
        first_in_category(v, list.drop_first(), category)
    }
}

/// `first_in_category` finds an item of the list that has the category
/// whenever the list holds one.
pub proof fn lemma_first_in_category(v: BoardView, list: Seq<u64>, category: Seq<char>)
    ensures
        match first_in_category(v, list, category) {
            Some(id) => list.contains(id) && card_has_category(v, id, category),
            None => forall|i: int| 0 <= i < list.len() ==> !card_has_category(v, list[i], category),
        },
    decreases list.len(),
{
    if list.len() > 0 {
        if card_has_category(v, list[0], category) {
        } else {
            let rest = list.drop_first();
            lemma_first_in_category(v, rest, category);
            match first_in_category(v, rest, category) {
                Some(id) => {
                    let m = choose|m: int| 0 <= m < rest.len() && rest[m] == id;
                    assert(list[m + 1] == id);
                },
                None => {
                    assert forall|i: int| 0 <= i < list.len() implies !card_has_category(
                        v,
                        list[i],
                        category,
                    ) by {
                        if i > 0 {
                            assert(rest[i - 1] == list[i]);
                        }
                    }
                },
            }
        }
    }
}

/// The list the cursor moves in: the selected tag's column, or all cards.
pub open spec fn current_list(v: BoardView) -> Seq<u64> {
    match v.selected_tag {
        Some(t) => column(v, t),
        None => v.card_order,
    }
}

/// The cursor after the selected card is deleted: the next card of the
/// selected tag's column, else the one before; else the same among the cards
/// of the tag's category; else, leaving the category view, the next card of
/// the board, else the one before; else nothing.
pub open spec fn selection_after_delete(v: BoardView) -> (Option<u64>, Option<Seq<char>>) {
    let c = v.selected_card->0;
    let plain = if neighbour(v.card_order, c, 1) is Some {
        (neighbour(v.card_order, c, 1), None)
    } else if neighbour(v.card_order, c, -1) is Some {
        (neighbour(v.card_order, c, -1), None)
    } else {
        (None, None)
    };
    match v.selected_tag {
        Some(t) => {
            let col = column(v, t);
            let cat = cards_in_category(v, category_of(t));
            if neighbour(col, c, 1) is Some {
                (neighbour(col, c, 1), Some(t))
            } else if neighbour(col, c, -1) is Some {
                (neighbour(col, c, -1), Some(t))
            } else if neighbour(cat, c, 1) is Some {
                (neighbour(cat, c, 1), Some(t))
            } else if neighbour(cat, c, -1) is Some {
                (neighbour(cat, c, -1), Some(t))
            } else {
                plain
            }
        },
        None => plain,
    }
}

/// The board with the tags of card `id` replaced.
pub open spec fn with_tags(v: BoardView, id: u64, tags: Set<Seq<char>>) -> BoardView {
    BoardView { cards: v.cards.insert(id, CardView { tags, ..v.cards[id] }), ..v }
}

/// `NewCard`: an empty card with the next number goes in behind the selected
/// card, or at the end if none is selected, takes the selected tag if there
/// is one, and becomes the selected card.
pub open spec fn after_new_card(v: BoardView) -> BoardView {
    let id = v.next_card_id;
    let at = match v.selected_card {
        Some(c) => index_in(v.card_order, c) + 1,
        None => v.card_order.len() as int,
    };
    let tags = match v.selected_tag {
        Some(t) => Set::empty().insert(t),
        None => Set::empty(),
    };
    BoardView {
        cards: v.cards.insert(id, CardView { id, text: Seq::empty(), tags }),
        next_card_id: (id + 1) as u64,
        card_order: v.card_order.insert(at, id),
        selected_card: Some(id),
        ..v
    }
}

/// The board without card `id`. If the card was selected the cursor goes
/// where `selection_after_delete` says; else it stays.
pub open spec fn after_delete_card(v: BoardView, id: u64) -> Result<BoardView, BoardError> {
    if !v.cards.contains_key(id) {
        Err(BoardError::NoSuchCard(CardId(id)))
    } else {
        let next = if v.selected_card == Some(id) {
            selection_after_delete(v)
        } else {
            (v.selected_card, v.selected_tag)
        };
        Ok(
            BoardView {
                cards: v.cards.remove(id),
                card_order: v.card_order.remove(index_in(v.card_order, id)),
                selected_card: next.0,
                selected_tag: next.1,
                ..v
            },
        )
    }
}

/// `DeleteCurrentCard`.
pub open spec fn after_delete_current(v: BoardView) -> Result<BoardView, BoardError> {
    match v.selected_card {
        None => Err(BoardError::NoCardSelected),
        Some(c) => after_delete_card(v, c),
    }
}

/// The board with an empty card more, at the end of the order; the cursor
/// stays.
pub open spec fn after_new_card_at_end(v: BoardView) -> BoardView {
    let id = v.next_card_id;
    BoardView {
        cards: v.cards.insert(id, CardView { id, text: Seq::empty(), tags: Set::empty() }),
        next_card_id: (id + 1) as u64,
        card_order: v.card_order.push(id),
        ..v
    }
}

/// The board with card `id` moved to place `to` of the order.
pub open spec fn after_move_card(v: BoardView, id: u64, to: int) -> Result<BoardView, BoardError> {
    if to >= v.card_order.len() {
        Err(BoardError::PositionOutOfBounds(to as usize))
    } else if !v.cards.contains_key(id) {
        Err(BoardError::NoSuchCard(CardId(id)))
    } else {
        Ok(
            BoardView {
                card_order: v.card_order.remove(index_in(v.card_order, id)).insert(to, id),
                ..v
            },
        )
    }
}

/// The board with the text of card `id` replaced.
pub open spec fn after_set_card_text(v: BoardView, id: u64, text: Seq<char>) -> Result<
    BoardView,
    BoardError,
> {
    if !v.cards.contains_key(id) {
        Err(BoardError::NoSuchCard(CardId(id)))
    } else {
        Ok(BoardView { cards: v.cards.insert(id, CardView { text, ..v.cards[id] }), ..v })
    }
}

/// The board with a tag more on card `id`, which must not have it yet.
pub open spec fn after_add_card_tag(v: BoardView, id: u64, tag: Seq<char>) -> Result<
    BoardView,
    BoardError,
> {
    if !v.cards.contains_key(id) {
        Err(BoardError::NoSuchCard(CardId(id)))
    } else if v.cards[id].tags.contains(tag) {
        Err(BoardError::CardAlreadyHasTag)
    } else {
        Ok(with_tags(v, id, v.cards[id].tags.insert(tag)))
    }
}

/// Whether taking `tag` from card `id` leaves the selected card without a
/// tag of the selected tag's category.
pub open spec fn leaves_category(v: BoardView, id: u64, tag: Seq<char>) -> bool {
    &&& v.selected_card == Some(id)
    &&& v.selected_tag matches Some(t)
    &&& !any_in_category(v.cards[id].tags.remove(tag), category_of(t))
}

/// The board with a tag less on card `id`, which must have it. If that
/// leaves the selected card without a tag of the selected tag's category,
/// the category view is left for the default view.
pub open spec fn after_delete_card_tag(v: BoardView, id: u64, tag: Seq<char>) -> Result<
    BoardView,
    BoardError,
> {
    if !v.cards.contains_key(id) {
        Err(BoardError::NoSuchCard(CardId(id)))
    } else if !v.cards[id].tags.contains(tag) {
        Err(BoardError::CardDoesntHaveTag)
    } else {
        let w = with_tags(v, id, v.cards[id].tags.remove(tag));
        if leaves_category(v, id, tag) {
            Ok(BoardView { selected_tag: None, ..w })
        } else {
            Ok(w)
        }
    }
}

/// `SelectCardVerticalOffset`.
pub open spec fn after_select_vertical(v: BoardView, offset: int) -> Result<BoardView, BoardError> {
    match v.selected_card {
        None => Err(BoardError::NoCardSelected),
        Some(c) => if !current_list(v).contains(c) {
            Err(BoardError::CardDoesntHaveTag)
        } else {
            Ok(BoardView { selected_card: Some(at_offset(current_list(v), c, offset)), ..v })
        },
    }
}

/// The tag `offset` columns from `tag` in its category, stopping at the ends.
pub open spec fn tag_at_offset(v: BoardView, tag: Seq<char>, offset: int) -> Seq<char> {
    let tags = category_tags(v, category_of(tag));
    tags[clamp(index_in(tags, tag) + offset, tags.len() as int)]
}

/// `SelectCardHorizontalOffset`.
pub open spec fn after_select_horizontal(v: BoardView, offset: int) -> Result<
    BoardView,
    BoardError,
> {
    match (v.selected_card, v.selected_tag) {
        (None, _) => Err(BoardError::NoCardSelected),
        (Some(c), None) => Err(BoardError::NotInCategoryView),
        (Some(c), Some(t)) => if !card_has_tag(v, c, t) {
            Err(BoardError::CardDoesntHaveTag)
        } else {
            let target = tag_at_offset(v, t, offset);
            let row = index_in(column(v, t), c);
            let to = column(v, target);
            Ok(
                BoardView {
                    selected_card: Some(to[clamp(row, to.len() as int)]),
                    selected_tag: Some(target),
                    ..v
                },
            )
        },
    }
}

/// `MoveCurrentCardVerticalOffset`.
pub open spec fn after_move_vertical(v: BoardView, offset: int) -> Result<BoardView, BoardError> {
    match v.selected_card {
        None => Err(BoardError::NoCardSelected),
        Some(c) => if !current_list(v).contains(c) {
            Err(BoardError::CardDoesntHaveTag)
        } else {
            let from = index_in(v.card_order, c);
            let to = index_in(v.card_order, at_offset(current_list(v), c, offset));
            Ok(BoardView { card_order: v.card_order.remove(from).insert(to, c), ..v })
        },
    }
}

/// `MoveCurrentCardHorizontalInCategory`.
pub open spec fn after_move_horizontal(v: BoardView, offset: int) -> Result<BoardView, BoardError> {
    match (v.selected_card, v.selected_tag) {
        (None, _) => Err(BoardError::NoCardSelected),
        (Some(c), None) => Err(BoardError::NotInCategoryView),
        (Some(c), Some(t)) => if !card_has_tag(v, c, t) {
            Err(BoardError::CardDoesntHaveTag)
        } else {
            let target = tag_at_offset(v, t, offset);
            if target != t && card_has_tag(v, c, target) {
                Err(BoardError::CardAlreadyHasTag)
            } else {
                Ok(
                    BoardView {
                        selected_tag: Some(target),
                        ..with_tags(v, c, v.cards[c].tags.remove(t).insert(target))
                    },
                )
            }
        },
    }
}

/// `SetCurrentCardText`.
pub open spec fn after_set_text(v: BoardView, text: Seq<char>) -> Result<BoardView, BoardError> {
    match v.selected_card {
        None => Err(BoardError::NoCardSelected),
        Some(c) => after_set_card_text(v, c, text),
    }
}

/// `AddTagToCurrentCard`.
pub open spec fn after_add_tag(v: BoardView, tag: Seq<char>) -> Result<BoardView, BoardError> {
    match v.selected_card {
        None => Err(BoardError::NoCardSelected),
        Some(c) => after_add_card_tag(v, c, tag),
    }
}

/// `DeleteTagFromCurrentCard`.
pub open spec fn after_delete_tag(v: BoardView, tag: Seq<char>) -> Result<BoardView, BoardError> {
    match v.selected_card {
        None => Err(BoardError::NoCardSelected),
        Some(c) => after_delete_card_tag(v, c, tag),
    }
}

/// `ViewDefault`.
pub open spec fn after_view_default(v: BoardView) -> Result<BoardView, BoardError> {
    match v.selected_tag {
        None => Err(BoardError::NoTagSelected),
        Some(_) => Ok(BoardView { selected_tag: None, ..v }),
    }
}

/// `ViewCategory`: the selected card stays if it has a tag of the category,
/// else the nearest card that has one is selected; the first of that card's
/// tags in the category becomes the selected tag.
pub open spec fn after_view_category(v: BoardView, category: Seq<char>) -> Result<
    BoardView,
    BoardError,
> {
    if !categories(v).contains(category) {
        Err(BoardError::NoSuchCategory)
    } else {
        match v.selected_card {
            None => Err(BoardError::NoCardSelected),
            Some(c) => {
                let to = if card_has_category(v, c, category) {
                    c
                } else {
                    first_in_category(
                        v,
                        by_distance(v.card_order, index_in(v.card_order, c), 1),
                        category,
                    )->0
                };
                Ok(
                    BoardView {
                        selected_card: Some(to),
                        selected_tag: Some(first_tag_in_category(v, to, category)),
                        ..v
                    },
                )
            },
        }
    }
}

/// What an action makes of a board: the board that follows, or the reason
/// the action is refused.
pub open spec fn step(v: BoardView, action: Action) -> Result<BoardView, BoardError> {
    match action {
        Action::SetBoardName { name } => Ok(BoardView { name: name@, ..v }),
        Action::NewCard => Ok(after_new_card(v)),
        Action::DeleteCurrentCard => after_delete_current(v),
        Action::SelectCardVerticalOffset { offset } => after_select_vertical(v, offset as int),
        Action::SelectCardHorizontalOffset { offset } => after_select_horizontal(v, offset as int),
        Action::MoveCurrentCardVerticalOffset { offset } => after_move_vertical(v, offset as int),
        Action::MoveCurrentCardHorizontalInCategory { offset } => after_move_horizontal(
            v,
            offset as int,
        ),
        Action::SetCurrentCardText { text } => after_set_text(v, text@),
        Action::AddTagToCurrentCard { tag } => after_add_tag(v, tag@),
        Action::DeleteTagFromCurrentCard { tag } => after_delete_tag(v, tag@),
        Action::ViewDefault => after_view_default(v),
        Action::ViewCategory { category } => after_view_category(v, category@),
    }
}

} // verus!
