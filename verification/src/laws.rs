//! What holds of every board and every action, proved of the board as a
//! value.

use vstd::prelude::*;
use crate::action::Action;
use crate::board::Board;
use crate::card::Card;
use crate::error::BoardError;
use crate::lists::{
    at_offset, by_distance, clamp, index_in, lemma_at_offset_in_list, lemma_by_distance_contains,
    lemma_filter_no_duplicates, lemma_index_in, lemma_insert_fresh, lemma_neighbour_differs,
    lemma_remove_at, neighbour,
};
use crate::model::{
    after_add_card_tag, after_add_tag, after_delete_card, after_delete_card_tag, after_move_card,
    after_move_horizontal, after_move_vertical, after_new_card, after_new_card_at_end,
    after_select_horizontal, after_select_vertical, after_set_card_text, after_view_category,
    all_tags, board_inv, card_has_category, card_has_tag, category_tags, category_view, column,
    current_list, lemma_first_in_category, listing, selection_after_delete, step, tag_at_offset,
    BoardView,
};

use crate::persist::{card_map, card_numbers, restored, saved_ok};
use crate::tag::{category_of, in_category, lemma_any_in_category_insert};
use crate::views::{lemma_all_tags_finite, lemma_listing_lists, Category};

verus! {

/// Whether the action can be carried out at all: a new card needs an
/// identifier that is still free.
pub open spec fn can_step(v: BoardView, action: Action) -> bool {
    action is NewCard ==> v.next_card_id < u64::MAX
}

/// The board after a run of actions, each of which is carried out; `None` if
/// one of them is refused or cannot be carried out.
pub open spec fn after_all(v: BoardView, actions: Seq<Action>) -> Option<BoardView>
    decreases actions.len(),
{
    if actions.len() == 0 {
        Some(v)
    } else {
        match after_all(v, actions.drop_last()) {
            Some(w) => match step(w, actions.last()) {
                Ok(x) => if can_step(w, actions.last()) {
                    Some(x)
                } else {
                    None
                },
                Err(_) => None,
            },
            None => None,
        }
    }
}

/// The items of a column are cards of the board, each once.
pub proof fn lemma_column(v: BoardView, tag: Seq<char>)
    requires
        board_inv(v),
    ensures
        column(v, tag).no_duplicates(),
        forall|id: u64| column(v, tag).contains(id) <==> card_has_tag(v, id, tag),
{
    lemma_filter_no_duplicates(v.card_order, |id: u64| card_has_tag(v, id, tag));
    assert forall|id: u64| card_has_tag(v, id, tag) implies v.card_order.contains(id) by {
        assert(v.card_order.to_set().contains(id));
    }
}

/// The cursor that `selection_after_delete` gives points at another card of
/// the board, or at nothing, and at a tag only together with a card.
pub proof fn lemma_selection_after_delete(v: BoardView)
    requires
        board_inv(v),
        v.selected_card is Some,
    ensures
        selection_after_delete(v).0 matches Some(to) ==> to != v.selected_card->0
            && v.cards.contains_key(to),
        selection_after_delete(v).1 is Some ==> selection_after_delete(v).0 is Some,
{
    let c = v.selected_card->0;
    let in_order = |list: Seq<u64>, d: int|
        neighbour(list, c, d) matches Some(to) ==> to != c && v.cards.contains_key(to);
    assert forall|d: int| d != 0 implies #[trigger] in_order(v.card_order, d) by {
        lemma_neighbour_differs(v.card_order, c, d);
        if neighbour(v.card_order, c, d) is Some {
            assert(v.card_order.to_set().contains(neighbour(v.card_order, c, d)->0));
        }
    }
    assert(in_order(v.card_order, 1));
    assert(in_order(v.card_order, -1));
    if v.selected_tag is Some {
        let t = v.selected_tag->0;
        let col = column(v, t);
        let cat = v.card_order.filter(|id: u64| card_has_category(v, id, category_of(t)));
        lemma_filter_no_duplicates(v.card_order, |id: u64| card_has_tag(v, id, t));
        lemma_filter_no_duplicates(
            v.card_order,
            |id: u64| card_has_category(v, id, category_of(t)),
        );
        assert forall|d: int| d != 0 implies #[trigger] in_order(col, d) && in_order(cat, d) by {
            lemma_neighbour_differs(col, c, d);
            lemma_neighbour_differs(cat, c, d);
            if neighbour(col, c, d) is Some {
                assert(v.card_order.to_set().contains(neighbour(col, c, d)->0));
            }
            if neighbour(cat, c, d) is Some {
                assert(v.card_order.to_set().contains(neighbour(cat, c, d)->0));
            }
        }
        assert(in_order(col, 1) && in_order(cat, 1));
        assert(in_order(col, -1) && in_order(cat, -1));
    }
}

/// Deleting a card of a sound board leaves a sound board.
pub proof fn lemma_delete_keeps_inv(v: BoardView, id: u64)
    requires
        board_inv(v),
        after_delete_card(v, id) is Ok,
    ensures
        board_inv(after_delete_card(v, id)->Ok_0),
{
    let w = after_delete_card(v, id)->Ok_0;
    assert(v.card_order.to_set().contains(id));
    lemma_index_in(v.card_order, id);
    lemma_remove_at(v.card_order, index_in(v.card_order, id));
    if v.selected_card == Some(id) {
        lemma_selection_after_delete(v);
    }
    assert(w.cards.dom() =~= v.cards.dom().remove(id));
}

/// Moving a card of a sound board leaves a sound board.
pub proof fn lemma_move_keeps_inv(v: BoardView, id: u64, to: int)
    requires
        board_inv(v),
        0 <= to,
        after_move_card(v, id, to) is Ok,
    ensures
        board_inv(after_move_card(v, id, to)->Ok_0),
{
    let w = after_move_card(v, id, to)->Ok_0;
    assert(v.card_order.to_set().contains(id));
    lemma_index_in(v.card_order, id);
    let from = index_in(v.card_order, id);
    lemma_remove_at(v.card_order, from);
    lemma_insert_fresh(v.card_order.remove(from), to, id);
    assert(w.card_order.to_set() =~= v.card_order.to_set());
}

/// A tag of the board has a column with a card in it, and so has every tag
/// that `tag_at_offset` reaches from it.
pub proof fn lemma_tag_at_offset(v: BoardView, tag: Seq<char>, offset: int)
    requires
        board_inv(v),
        all_tags(v).contains(tag),
    ensures
        all_tags(v).contains(tag_at_offset(v, tag, offset)),
        category_of(tag_at_offset(v, tag, offset)) == category_of(tag),
        column(v, tag_at_offset(v, tag, offset)).len() > 0,
{
    lemma_all_tags_finite(v);
    let set = in_category(all_tags(v), category_of(tag));
    lemma_listing_lists(set);
    let tags = category_tags(v, category_of(tag));
    assert(set.contains(tag));
    assert(tags.to_set().contains(tag));
    lemma_index_in(tags, tag);
    let to = tags[clamp(index_in(tags, tag) + offset, tags.len() as int)];
    assert(tags.to_set().contains(to));
    let holder = choose|id: u64| #[trigger] card_has_tag(v, id, to);
    lemma_column(v, to);
    assert(column(v, to).contains(holder));
}

/// A new card behind the cursor leaves a sound board sound.
pub proof fn lemma_new_card_keeps_inv(v: BoardView)
    requires
        board_inv(v),
        v.next_card_id < u64::MAX,
    ensures
        board_inv(after_new_card(v)),
{
    let w = after_new_card(v);
    let id = v.next_card_id;
    if v.card_order.contains(id) {
        assert(v.card_order.to_set().contains(id));
    }
    let at = match v.selected_card {
        Some(c) => index_in(v.card_order, c) + 1,
        None => v.card_order.len() as int,
    };
    if v.selected_card is Some {
        assert(v.card_order.to_set().contains(v.selected_card->0));
        lemma_index_in(v.card_order, v.selected_card->0);
    }
    lemma_insert_fresh(v.card_order, at, id);
    assert(w.cards.dom() =~= v.cards.dom().insert(id));
    if v.selected_tag is Some {
        lemma_any_in_category_insert(
            Set::empty(),
            v.selected_tag->0,
            category_of(v.selected_tag->0),
        );
    }
}

/// Moving the cursor up or down leaves a sound board sound.
pub proof fn lemma_select_vertical_keeps_inv(v: BoardView, offset: int)
    requires
        board_inv(v),
        after_select_vertical(v, offset) is Ok,
    ensures
        board_inv(after_select_vertical(v, offset)->Ok_0),
{
    let c = v.selected_card->0;
    lemma_at_offset_in_list(current_list(v), c, offset);
    let to = at_offset(current_list(v), c, offset);
    if v.selected_tag is Some {
        lemma_column(v, v.selected_tag->0);
        assert(v.cards[to].tags.contains(v.selected_tag->0));
    } else {
        assert(v.card_order.to_set().contains(to));
    }
}

/// Moving the cursor to another column leaves a sound board sound.
pub proof fn lemma_select_horizontal_keeps_inv(v: BoardView, offset: int)
    requires
        board_inv(v),
        after_select_horizontal(v, offset) is Ok,
    ensures
        board_inv(after_select_horizontal(v, offset)->Ok_0),
{
    let c = v.selected_card->0;
    let t = v.selected_tag->0;
    lemma_tag_at_offset(v, t, offset);
    let target = tag_at_offset(v, t, offset);
    lemma_column(v, t);
    lemma_column(v, target);
    lemma_index_in(column(v, t), c);
    let to = column(v, target);
    let card = to[clamp(index_in(column(v, t), c), to.len() as int)];
    assert(to.contains(card));
    assert(v.cards[card].tags.contains(target));
}

/// Moving the selected card up or down leaves a sound board sound.
pub proof fn lemma_move_vertical_keeps_inv(v: BoardView, offset: int)
    requires
        board_inv(v),
        after_move_vertical(v, offset) is Ok,
    ensures
        board_inv(after_move_vertical(v, offset)->Ok_0),
{
    let w = after_move_vertical(v, offset)->Ok_0;
    let c = v.selected_card->0;
    lemma_at_offset_in_list(current_list(v), c, offset);
    let target = at_offset(current_list(v), c, offset);
    if v.selected_tag is Some {
        lemma_column(v, v.selected_tag->0);
    }
    assert(v.card_order.to_set().contains(target));
    assert(v.card_order.contains(target));
    lemma_index_in(v.card_order, target);
    let to = index_in(v.card_order, target);
    assert(v.card_order.to_set().contains(c));
    lemma_index_in(v.card_order, c);
    let from = index_in(v.card_order, c);
    lemma_remove_at(v.card_order, from);
    lemma_insert_fresh(v.card_order.remove(from), to, c);
    assert(w.card_order.to_set() =~= v.card_order.to_set());
}

/// Moving the selected card to another column leaves a sound board sound.
pub proof fn lemma_move_horizontal_keeps_inv(v: BoardView, offset: int)
    requires
        board_inv(v),
        after_move_horizontal(v, offset) is Ok,
    ensures
        board_inv(after_move_horizontal(v, offset)->Ok_0),
{
    let w = after_move_horizontal(v, offset)->Ok_0;
    let c = v.selected_card->0;
    let t = v.selected_tag->0;
    let target = tag_at_offset(v, t, offset);
    assert(w.cards.dom() =~= v.cards.dom());
    lemma_any_in_category_insert(v.cards[c].tags.remove(t), target, category_of(target));
}

/// Replacing the text of a card leaves a sound board sound.
pub proof fn lemma_set_card_text_keeps_inv(v: BoardView, id: u64, text: Seq<char>)
    requires
        board_inv(v),
        after_set_card_text(v, id, text) is Ok,
    ensures
        board_inv(after_set_card_text(v, id, text)->Ok_0),
{
    let w = after_set_card_text(v, id, text)->Ok_0;
    assert(w.cards.dom() =~= v.cards.dom());
}

/// Giving a card a tag leaves a sound board sound.
pub proof fn lemma_add_card_tag_keeps_inv(v: BoardView, id: u64, tag: Seq<char>)
    requires
        board_inv(v),
        after_add_card_tag(v, id, tag) is Ok,
    ensures
        board_inv(after_add_card_tag(v, id, tag)->Ok_0),
{
    let w = after_add_card_tag(v, id, tag)->Ok_0;
    assert(w.cards.dom() =~= v.cards.dom());
    if v.selected_card == Some(id) && v.selected_tag is Some {
        lemma_any_in_category_insert(v.cards[id].tags, tag, category_of(v.selected_tag->0));
    }
}

/// Taking a tag from a card leaves a sound board sound.
pub proof fn lemma_delete_card_tag_keeps_inv(v: BoardView, id: u64, tag: Seq<char>)
    requires
        board_inv(v),
        after_delete_card_tag(v, id, tag) is Ok,
    ensures
        board_inv(after_delete_card_tag(v, id, tag)->Ok_0),
{
    let w = after_delete_card_tag(v, id, tag)->Ok_0;
    assert(w.cards.dom() =~= v.cards.dom());
}

/// Entering a category view leaves a sound board sound.
pub proof fn lemma_view_category_keeps_inv(v: BoardView, category: Seq<char>)
    requires
        board_inv(v),
        after_view_category(v, category) is Ok,
    ensures
        board_inv(after_view_category(v, category)->Ok_0),
{
    let w = after_view_category(v, category)->Ok_0;
    let c = v.selected_card->0;
    if !card_has_category(v, c, category) {
        let t = choose|t: Seq<char>| #[trigger] all_tags(v).contains(t) && category_of(t) == category;
        let holder = choose|id: u64| #[trigger] card_has_tag(v, id, t);
        assert(v.cards[holder].tags.contains(t));
        assert(card_has_category(v, holder, category));
        assert(v.card_order.to_set().contains(holder));
        assert(v.card_order.to_set().contains(c));
        lemma_index_in(v.card_order, holder);
        lemma_index_in(v.card_order, c);
        let others = by_distance(v.card_order, index_in(v.card_order, c), 1);
        lemma_by_distance_contains(
            v.card_order,
            index_in(v.card_order, c),
            1,
            index_in(v.card_order, holder),
        );
        lemma_first_in_category(v, others, category);
    }
    let to = w.selected_card->0;
    assert(card_has_category(v, to, category));
    let set = in_category(v.cards[to].tags, category);
    v.cards[to].tags.lemma_len_filter(|t: Seq<char>| category_of(t) == category);
    lemma_listing_lists(set);
    let t = choose|t: Seq<char>| #[trigger] v.cards[to].tags.contains(t) && category_of(t) == category;
    assert(set.contains(t));
    assert(listing(set).to_set().contains(t));
    let first = listing(set)[0];
    assert(listing(set).to_set().contains(first));
    assert(v.cards[to].tags.contains(first));
}

/// What an action makes of a sound board is a sound board: in particular
/// its order still names each of its cards exactly once, and nothing else.
pub proof fn lemma_step_keeps_inv(v: BoardView, action: Action)
    requires
        board_inv(v),
        can_step(v, action),
        step(v, action) is Ok,
    ensures
        board_inv(step(v, action)->Ok_0),
{
    match action {
        Action::SetBoardName { name } => {},
        Action::NewCard => {
            lemma_new_card_keeps_inv(v);
        },
        Action::DeleteCurrentCard => {
            lemma_delete_keeps_inv(v, v.selected_card->0);
        },
        Action::SelectCardVerticalOffset { offset } => {
            lemma_select_vertical_keeps_inv(v, offset as int);
        },
        Action::SelectCardHorizontalOffset { offset } => {
            lemma_select_horizontal_keeps_inv(v, offset as int);
        },
        Action::MoveCurrentCardVerticalOffset { offset } => {
            lemma_move_vertical_keeps_inv(v, offset as int);
        },
        Action::MoveCurrentCardHorizontalInCategory { offset } => {
            lemma_move_horizontal_keeps_inv(v, offset as int);
        },
        Action::SetCurrentCardText { text } => {
            lemma_set_card_text_keeps_inv(v, v.selected_card->0, text@);
        },
        Action::AddTagToCurrentCard { tag } => {
            lemma_add_card_tag_keeps_inv(v, v.selected_card->0, tag@);
        },
        Action::DeleteTagFromCurrentCard { tag } => {
            lemma_delete_card_tag_keeps_inv(v, v.selected_card->0, tag@);
        },
        Action::ViewDefault => {},
        Action::ViewCategory { category } => {
            lemma_view_category_keeps_inv(v, category@);
        },
    }
}

/// After any run of actions that were carried out, a board that was sound is
/// sound: its order is a permutation of the identifiers of its cards.
pub proof fn lemma_run_keeps_inv(v: BoardView, actions: Seq<Action>)
    requires
        board_inv(v),
        after_all(v, actions) is Some,
    ensures
        board_inv(after_all(v, actions)->0),
        after_all(v, actions)->0.card_order.no_duplicates(),
        after_all(v, actions)->0.card_order.to_set() == after_all(v, actions)->0.cards.dom(),
    decreases actions.len(),
{
    if actions.len() > 0 {
        lemma_run_keeps_inv(v, actions.drop_last());
        lemma_step_keeps_inv(after_all(v, actions.drop_last())->0, actions.last());
    }
}

/// A new card at the end of a sound board leaves a sound board.
pub proof fn lemma_new_card_at_end_keeps_inv(v: BoardView)
    requires
        board_inv(v),
        v.next_card_id < u64::MAX,
    ensures
        board_inv(after_new_card_at_end(v)),
{
    let id = v.next_card_id;
    let w = after_new_card_at_end(v);
    if v.card_order.contains(id) {
        assert(v.card_order.to_set().contains(id));
    }
    lemma_insert_fresh(v.card_order, v.card_order.len() as int, id);
    assert(v.card_order.push(id) =~= v.card_order.insert(v.card_order.len() as int, id));
    assert(w.cards.dom() =~= v.cards.dom().insert(id));
}

/// No action takes the counter of identifiers back: an identifier that was
/// given once is never given again, whatever is deleted.
pub proof fn lemma_next_card_id_never_decreases(v: BoardView, action: Action)
    requires
        can_step(v, action),
        step(v, action) is Ok,
    ensures
        step(v, action)->Ok_0.next_card_id >= v.next_card_id,
        action is NewCard ==> step(v, action)->Ok_0.next_card_id == v.next_card_id + 1,
{
}

/// Every column of a category view has a card in it: a tag that no card has
/// is no column.
pub proof fn lemma_columns_not_empty(v: BoardView, category: Seq<char>, i: int)
    requires
        board_inv(v),
        0 <= i < category_view(v, category).columns.len(),
    ensures
        category_view(v, category).columns[i].cards.len() > 0,
{
    lemma_all_tags_finite(v);
    let set = in_category(all_tags(v), category);
    lemma_listing_lists(set);
    let tags = category_tags(v, category);
    assert(tags.to_set().contains(tags[i]));
    let holder = choose|id: u64| #[trigger] card_has_tag(v, id, tags[i]);
    lemma_column(v, tags[i]);
    assert(column(v, tags[i]).contains(holder));
}

/// A tag that was added to the selected card cannot be added again: the
/// second attempt is refused with `CardAlreadyHasTag`, so no card ever holds
/// a tag twice.
pub proof fn lemma_add_tag_twice_is_refused(v: BoardView, tag: Seq<char>)
    requires
        board_inv(v),
        after_add_tag(v, tag) is Ok,
    ensures
        after_add_tag(after_add_tag(v, tag)->Ok_0, tag) == Err::<BoardView, BoardError>(
            BoardError::CardAlreadyHasTag,
        ),
{
}

/// Asking twice for the category view of a board that did not change gives
/// the same columns twice.
pub proof fn lemma_category_view_repeatable(
    board: Board,
    category: Seq<char>,
    first: Category,
    second: Category,
)
    requires
        first@ == category_view(board@, category),
        second@ == category_view(board@, category),
    ensures
        first@ == second@,
{
}

/// `SelectCardVerticalOffset` with an offset that reaches the end of the
/// list the cursor moves in, or goes beyond it, is carried out and selects
/// the last card of that list, which is a card of the board.
pub proof fn lemma_select_past_end_clamps(v: BoardView, offset: int)
    requires
        board_inv(v),
        v.selected_card is Some,
        v.selected_tag matches Some(t) ==> card_has_tag(v, v.selected_card->0, t),
        offset >= current_list(v).len(),
    ensures
        current_list(v).len() > 0,
        after_select_vertical(v, offset) == Ok::<BoardView, BoardError>(
            BoardView { selected_card: Some(current_list(v).last()), ..v },
        ),
        v.cards.contains_key(current_list(v).last()),
{
    let c = v.selected_card->0;
    let list = current_list(v);
    if v.selected_tag is Some {
        lemma_column(v, v.selected_tag->0);
    } else {
        assert(v.card_order.to_set().contains(c));
    }
    lemma_index_in(list, c);
    assert(list.contains(list.last()));
    if v.selected_tag is None {
        assert(v.card_order.to_set().contains(list.last()));
    }
}

/// `SelectCardVerticalOffset` with offset 0 is carried out and changes
/// nothing.
pub proof fn lemma_select_zero_changes_nothing(v: BoardView)
    requires
        board_inv(v),
        v.selected_card is Some,
        v.selected_tag matches Some(t) ==> card_has_tag(v, v.selected_card->0, t),
    ensures
        after_select_vertical(v, 0) == Ok::<BoardView, BoardError>(v),
{
    let c = v.selected_card->0;
    if v.selected_tag is Some {
        lemma_column(v, v.selected_tag->0);
    } else {
        assert(v.card_order.to_set().contains(c));
    }
    lemma_index_in(current_list(v), c);
}

/// The first card of an empty board is its only card and is selected.
pub proof fn lemma_first_card(v: BoardView)
    requires
        board_inv(v),
        v.card_order.len() == 0,
    ensures
        after_new_card(v).card_order == seq![v.next_card_id],
        after_new_card(v).selected_card == Some(v.next_card_id),
        after_new_card(v).selected_tag is None,
{
    if v.selected_card is Some {
        assert(v.card_order.to_set().contains(v.selected_card->0));
    }
    assert(after_new_card(v).card_order =~= seq![v.next_card_id]);
}

/// Deleting the only card of a board leaves no card and no cursor.
pub proof fn lemma_delete_last_card_clears_cursor(v: BoardView)
    requires
        board_inv(v),
        v.card_order.len() == 1,
        v.selected_card is Some,
    ensures
        after_delete_card(v, v.selected_card->0) matches Ok(w) && w.card_order.len() == 0
            && w.selected_card is None && w.selected_tag is None,
{
    let c = v.selected_card->0;
    assert(v.card_order.to_set().contains(c));
    lemma_index_in(v.card_order, c);
    if v.selected_tag is Some {
        let t = v.selected_tag->0;
        lemma_filter_no_duplicates(v.card_order, |id: u64| card_has_tag(v, id, t));
        lemma_filter_no_duplicates(
            v.card_order,
            |id: u64| card_has_category(v, id, category_of(t)),
        );
        let col = column(v, t);
        let cat = v.card_order.filter(|id: u64| card_has_category(v, id, category_of(t)));
        v.card_order.lemma_filter_len(|id: u64| card_has_tag(v, id, t));
        v.card_order.lemma_filter_len(|id: u64| card_has_category(v, id, category_of(t)));
        lemma_index_in(col, c);
        lemma_index_in(cat, c);
    }
}

/// What a sound board gives to be saved, it takes back: the parts make a
/// board with the same name, cards, order and next identifier. The cursor
/// is not among them; it starts on the first card.
pub proof fn lemma_saved_parts_restore(board: Board, cards: Seq<Card>)
    requires
        board.wf(),
        cards.len() == board@.card_order.len(),
        forall|i: int| 0 <= i < cards.len() ==> (#[trigger] cards[i])@ == board@.cards[board@.card_order[i]],
    ensures
        saved_ok(card_numbers(cards), board@.next_card_id, board@.card_order),
        ({
            let again = restored(
                board@.file_path,
                board@.name,
                card_map(cards),
                board@.next_card_id,
                board@.card_order,
            );
            &&& again.name == board@.name
            &&& again.cards == board@.cards
            &&& again.card_order == board@.card_order
            &&& again.next_card_id == board@.next_card_id
            &&& again.selected_tag is None
            &&& again.selected_card == if board@.card_order.len() > 0 {
                Some(board@.card_order[0])
            } else {
                None
            }
        }),
{
    let v = board@;
    let numbers = card_numbers(cards);
    assert forall|i: int| 0 <= i < numbers.len() implies numbers[i] == v.card_order[i] by {
        assert(v.card_order.to_set().contains(v.card_order[i]));
        assert(cards[i]@ == v.cards[v.card_order[i]]);
    }
    assert(numbers =~= v.card_order);
    assert forall|i: int| 0 <= i < numbers.len() implies numbers[i] < v.next_card_id by {
        assert(v.card_order.to_set().contains(v.card_order[i]));
    }
    assert forall|k: u64| v.cards.contains_key(k) implies #[trigger] card_map(cards)[k]
        == v.cards[k] by {
        assert(v.card_order.to_set().contains(k));
        lemma_index_in(numbers, k);
    }
    assert(card_map(cards).dom() =~= v.cards.dom());
    assert(card_map(cards) =~= v.cards);
}

} // verus!
