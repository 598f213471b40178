use commboard::nav::{card_at_offset, neighbour_in, offset_index, position, CardOffsetResult};
use commboard::{Action, Board, BoardError, Card, CardId, Tag};

fn tag(text: &str) -> Tag {
    Tag::new(text.to_string()).unwrap()
}

fn numbers(ids: &[CardId]) -> Vec<u64> {
    ids.iter().map(|id| id.as_integer()).collect()
}

fn texts(tags: &[Tag]) -> Vec<String> {
    tags.iter().map(|t| t.tag().to_string()).collect()
}

fn id_list(numbers: &[u64]) -> Vec<CardId> {
    numbers.iter().map(|n| CardId::new(*n)).collect()
}

/// 0: s:a p:x   1: s:b   2: (none)   3: s:a   4: t:z
fn sample() -> Board {
    let mut board = Board::new("/tmp/board-test.json");
    for _ in 0..5 {
        board.new_card();
    }
    board.add_card_tag(CardId::new(0), &tag("s:a")).unwrap();
    board.add_card_tag(CardId::new(0), &tag("p:x")).unwrap();
    board.add_card_tag(CardId::new(1), &tag("s:b")).unwrap();
    board.add_card_tag(CardId::new(3), &tag("s:a")).unwrap();
    board.add_card_tag(CardId::new(4), &tag("t:z")).unwrap();
    board
}

#[test]
fn new_card_appends_and_leaves_the_cursor() {
    let mut board = Board::new("b.json");
    assert_eq!(board.new_card(), CardId::new(0));
    assert_eq!(board.new_card(), CardId::new(1));
    assert_eq!(numbers(board.default_card_order()), vec![0, 1]);
    assert!(board.interaction_state().selection.card_id.is_none());
    assert!(board.get_selected_card_id().is_err());
    assert_eq!(board.get_next_card_id(), CardId::new(2));
    assert_eq!(board.next_card_id(), CardId::new(3));
    // With no card selected a new card of the cursor goes to the end.
    board.perform_action(&Action::NewCard).unwrap();
    assert_eq!(numbers(board.default_card_order()), vec![0, 1, 3]);
    assert_eq!(board.get_selected_card_id().unwrap(), CardId::new(3));
}

#[test]
fn all_tags_and_categories_are_sorted_and_unique() {
    let board = sample();
    assert_eq!(texts(&board.get_all_tags()), vec!["p:x", "s:a", "s:b", "t:z"]);
    assert_eq!(board.get_categories(), vec!["p", "s", "t"]);
    assert_eq!(texts(&board.get_tags_with_category("s")), vec!["s:a", "s:b"]);
    assert!(board.get_tags_with_category("q").is_empty());
    let empty = Board::new("b.json");
    assert!(empty.get_all_tags().is_empty());
    assert!(empty.get_categories().is_empty());
}

#[test]
fn categories_sort_by_their_own_text() {
    let mut board = Board::new("b.json");
    board.new_card();
    board.add_card_tag(CardId::new(0), &tag("a:x")).unwrap();
    board.add_card_tag(CardId::new(0), &tag("a-b:y")).unwrap();
    assert_eq!(texts(&board.get_all_tags()), vec!["a-b:y", "a:x"]);
    assert_eq!(board.get_categories(), vec!["a", "a-b"]);
}

#[test]
fn columns_follow_the_board_order() {
    let mut board = sample();
    assert_eq!(numbers(&board.get_cards_with_tag(&tag("s:a"))), vec![0, 3]);
    assert_eq!(numbers(&board.get_cards_with_category("s")), vec![0, 1, 3]);
    assert!(board.get_cards_with_tag(&tag("s:none")).is_empty());
    board.move_card_within_default_card_order(CardId::new(3), 0).unwrap();
    assert_eq!(numbers(board.default_card_order()), vec![3, 0, 1, 2, 4]);
    assert_eq!(numbers(&board.get_cards_with_tag(&tag("s:a"))), vec![3, 0]);
    assert_eq!(numbers(&board.get_cards_with_category("s")), vec![3, 0, 1]);
}

#[test]
fn category_view_has_a_column_for_each_tag() {
    let board = sample();
    let view = board.get_category("s");
    assert_eq!(view.name(), "s");
    let columns: Vec<(String, Vec<u64>)> =
        view.columns().iter().map(|c| (c.name().to_string(), numbers(c.cards()))).collect();
    assert_eq!(columns, vec![("a".to_string(), vec![0, 3]), ("b".to_string(), vec![1])]);
    let none = board.get_category("nothing");
    assert_eq!(none.name(), "nothing");
    assert!(none.columns().is_empty());
}

#[test]
fn category_view_is_the_same_when_asked_twice() {
    let board = sample();
    let first = board.get_category("s");
    let second = board.get_category("s");
    assert_eq!(first.name(), second.name());
    assert_eq!(first.columns().len(), second.columns().len());
    for (a, b) in first.columns().iter().zip(second.columns().iter()) {
        assert_eq!(a.name(), b.name());
        assert_eq!(a.cards(), b.cards());
    }
}

#[test]
fn a_column_disappears_with_its_last_card() {
    let mut board = sample();
    board.delete_card_tag(CardId::new(1), &tag("s:b")).unwrap();
    let view = board.get_category("s");
    assert_eq!(view.columns().len(), 1);
    assert_eq!(view.columns()[0].name(), "a");
    board.delete_card(CardId::new(4)).unwrap();
    assert_eq!(board.get_categories(), vec!["p", "s"]);
}

#[test]
fn all_categories_with_their_columns() {
    let board = sample();
    let all = board.categories();
    let names: Vec<&str> = all.iter().map(|c| c.name()).collect();
    assert_eq!(names, vec!["p", "s", "t"]);
    assert_eq!(all[0].columns().len(), 1);
    assert_eq!(all[1].columns().len(), 2);
    assert_eq!(numbers(all[2].columns()[0].cards()), vec![4]);
}

#[test]
fn edits_by_identifier_report_missing_cards() {
    let mut board = sample();
    let ghost = CardId::new(99);
    assert!(matches!(board.delete_card(ghost), Err(BoardError::NoSuchCard(id)) if id == ghost));
    assert!(matches!(board.set_card_text(ghost, "x"), Err(BoardError::NoSuchCard(id)) if id == ghost));
    assert!(matches!(
        board.add_card_tag(ghost, &tag("a:b")),
        Err(BoardError::NoSuchCard(id)) if id == ghost
    ));
    assert!(matches!(
        board.delete_card_tag(ghost, &tag("a:b")),
        Err(BoardError::NoSuchCard(id)) if id == ghost
    ));
    assert!(matches!(
        board.move_card_within_default_card_order(ghost, 0),
        Err(BoardError::NoSuchCard(id)) if id == ghost
    ));
    assert!(board.get_card(ghost).is_none());
    assert_eq!(board.cards().len(), 5);
}

#[test]
fn edits_by_identifier_change_the_named_card() {
    let mut board = sample();
    board.set_card_text(CardId::new(2), "hello").unwrap();
    assert_eq!(board.get_card(CardId::new(2)).unwrap().text(), "hello");
    assert!(matches!(
        board.add_card_tag(CardId::new(0), &tag("s:a")),
        Err(BoardError::CardAlreadyHasTag)
    ));
    assert!(matches!(
        board.delete_card_tag(CardId::new(2), &tag("s:a")),
        Err(BoardError::CardDoesntHaveTag)
    ));
    board.delete_card_tag(CardId::new(0), &tag("s:a")).unwrap();
    assert_eq!(texts(&board.get_card(CardId::new(0)).unwrap().get_tags()), vec!["p:x"]);
}

#[test]
fn move_by_index_checks_the_position_first() {
    let mut board = sample();
    assert!(matches!(
        board.move_card_within_default_card_order(CardId::new(0), 5),
        Err(BoardError::PositionOutOfBounds(5))
    ));
    assert!(matches!(
        board.move_card_within_default_card_order(CardId::new(99), 5),
        Err(BoardError::PositionOutOfBounds(5))
    ));
    board.move_card_within_default_card_order(CardId::new(0), 4).unwrap();
    assert_eq!(numbers(board.default_card_order()), vec![1, 2, 3, 4, 0]);
    board.move_card_within_default_card_order(CardId::new(3), 2).unwrap();
    assert_eq!(numbers(board.default_card_order()), vec![1, 2, 3, 4, 0]);
    board.move_card_within_default_card_order(CardId::new(4), 1).unwrap();
    assert_eq!(numbers(board.default_card_order()), vec![1, 4, 2, 3, 0]);
}

#[test]
fn deleting_another_card_leaves_the_cursor() {
    let mut board = sample();
    board.perform_action(&Action::NewCard).unwrap();
    assert_eq!(board.get_selected_card_id().unwrap(), CardId::new(5));
    board.delete_card(CardId::new(2)).unwrap();
    assert_eq!(board.get_selected_card_id().unwrap(), CardId::new(5));
    assert_eq!(numbers(board.default_card_order()), vec![0, 1, 3, 4, 5]);
    board.delete_card(CardId::new(5)).unwrap();
    assert_eq!(board.get_selected_card_id().unwrap(), CardId::new(4));
}

#[test]
fn cards_by_distance_go_below_then_above() {
    let mut board = sample();
    assert!(matches!(
        board.get_cards_by_distance_from_selected(),
        Err(BoardError::NoCardSelected)
    ));
    board.perform_action(&Action::NewCard).unwrap();
    // order 0 1 2 3 4 5, cursor on 5: move it to place 2.
    board.move_card_within_default_card_order(CardId::new(5), 2).unwrap();
    assert_eq!(numbers(board.default_card_order()), vec![0, 1, 5, 2, 3, 4]);
    let others = board.get_cards_by_distance_from_selected().unwrap();
    assert_eq!(numbers(&others), vec![2, 1, 3, 0, 4]);
    assert_eq!(board.first_with_category(&others, "s"), Some(CardId::new(1)));
    assert_eq!(board.first_with_category(&others, "t"), Some(CardId::new(4)));
    assert_eq!(board.first_with_category(&others, "q"), None);
}

#[test]
fn cards_by_distance_at_the_ends() {
    let mut board = Board::new("b.json");
    board.perform_action(&Action::NewCard).unwrap();
    assert!(board.get_cards_by_distance_from_selected().unwrap().is_empty());
    board.perform_action(&Action::NewCard).unwrap();
    board.perform_action(&Action::NewCard).unwrap();
    assert_eq!(numbers(&board.get_cards_by_distance_from_selected().unwrap()), vec![1, 0]);
    board.perform_action(&Action::SelectCardVerticalOffset { offset: -2 }).unwrap();
    assert_eq!(numbers(&board.get_cards_by_distance_from_selected().unwrap()), vec![1, 2]);
}

#[test]
fn offsets_stop_at_the_ends() {
    assert_eq!(offset_index(2, 1, 5), (3, true));
    assert_eq!(offset_index(2, 2, 5), (4, true));
    assert_eq!(offset_index(2, 3, 5), (4, false));
    assert_eq!(offset_index(2, -2, 5), (0, true));
    assert_eq!(offset_index(2, -3, 5), (0, false));
    assert_eq!(offset_index(0, 0, 1), (0, true));
    assert_eq!(offset_index(0, isize::MAX, 1), (0, false));
    assert_eq!(offset_index(0, isize::MIN, 1), (0, false));
    assert_eq!(offset_index(usize::MAX - 1, 1, usize::MAX), (usize::MAX - 1, false));
    assert_eq!(offset_index(usize::MAX - 1, isize::MIN, usize::MAX), (usize::MAX - 1 - (1 << (usize::BITS - 1)), true));
}

#[test]
fn list_offsets() {
    let list = id_list(&[10, 20, 30]);
    assert_eq!(position(&list, CardId::new(20)), Some(1));
    assert_eq!(position(&list, CardId::new(40)), None);
    assert_eq!(card_at_offset(&list, CardId::new(20), 1), Some(CardOffsetResult::Within(CardId::new(30))));
    assert_eq!(card_at_offset(&list, CardId::new(20), 2), Some(CardOffsetResult::Clamped(CardId::new(30))));
    assert_eq!(card_at_offset(&list, CardId::new(20), -5), Some(CardOffsetResult::Clamped(CardId::new(10))));
    assert_eq!(card_at_offset(&list, CardId::new(40), 0), None);
    assert_eq!(CardOffsetResult::Clamped(CardId::new(10)).card_id(), CardId::new(10));
    assert_eq!(neighbour_in(&list, CardId::new(10), 1), Some(CardId::new(20)));
    assert_eq!(neighbour_in(&list, CardId::new(10), -1), None);
    assert_eq!(neighbour_in(&list, CardId::new(30), 1), None);
    assert_eq!(neighbour_in(&list, CardId::new(99), 1), None);
}

#[test]
fn offsets_from_the_cursor() {
    let mut board = sample();
    let list = id_list(&[4, 2, 0]);
    assert!(matches!(
        board.get_card_at_offset_from_current_in_list(&list, 1),
        Err(BoardError::NoCardSelected)
    ));
    assert!(matches!(
        board.get_card_at_offset_from_current_in_current_view(1),
        Err(BoardError::NoCardSelected)
    ));
    board.perform_action(&Action::NewCard).unwrap();
    assert!(matches!(
        board.get_card_at_offset_from_current_in_list(&list, 1),
        Err(BoardError::NoSuchCard(id)) if id == CardId::new(5)
    ));
    board.perform_action(&Action::SelectCardVerticalOffset { offset: -3 }).unwrap();
    assert_eq!(board.get_selected_card_id().unwrap(), CardId::new(2));
    assert_eq!(
        board.get_card_at_offset_from_current_in_list(&list, 1).unwrap(),
        CardOffsetResult::Within(CardId::new(0))
    );
    assert_eq!(
        board.get_card_at_offset_from_current_in_list(&list, -4).unwrap(),
        CardOffsetResult::Clamped(CardId::new(4))
    );
    assert_eq!(
        board.get_card_at_offset_from_current_in_current_view(2).unwrap(),
        CardOffsetResult::Within(CardId::new(4))
    );
}

#[test]
fn tag_at_offset_walks_the_category() {
    let mut board = sample();
    board.add_card_tag(CardId::new(2), &tag("s:c")).unwrap();
    assert_eq!(board.get_tag_at_offset(&tag("s:a"), 1).unwrap().tag(), "s:b");
    assert_eq!(board.get_tag_at_offset(&tag("s:a"), 2).unwrap().tag(), "s:c");
    assert_eq!(board.get_tag_at_offset(&tag("s:a"), 9).unwrap().tag(), "s:c");
    assert_eq!(board.get_tag_at_offset(&tag("s:b"), -9).unwrap().tag(), "s:a");
    assert_eq!(board.get_tag_at_offset(&tag("t:z"), 1).unwrap().tag(), "t:z");
    assert!(matches!(board.get_tag_at_offset(&tag("s:zz"), 0), Err(BoardError::NoSuchColumn)));
}

#[test]
fn next_selection_after_delete() {
    let mut board = sample();
    assert!(matches!(
        board.get_next_selection_card_after_delete(),
        Err(BoardError::NoCardSelected)
    ));
    board.perform_action(&Action::NewCard).unwrap();
    let next = board.get_next_selection_card_after_delete().unwrap();
    assert_eq!(next.card_id, Some(CardId::new(4)));
    assert!(next.tag.is_none());
}

#[test]
fn saved_parts_make_the_board_again() {
    let mut board = sample();
    board.perform_action(&Action::NewCard).unwrap();
    board.perform_action(&Action::SetCurrentCardText { text: "last".to_string() }).unwrap();
    board.perform_action(&Action::MoveCurrentCardVerticalOffset { offset: -2 }).unwrap();
    board.perform_action(&Action::DeleteCurrentCard).unwrap();
    board.perform_action(&Action::SetBoardName { name: "Saved".to_string() }).unwrap();
    board.perform_action(&Action::ViewCategory { category: "s".to_string() }).unwrap();

    let again = Board::from_saved(
        "/tmp/other.json",
        board.name().to_string(),
        board.get_cards_in_order(),
        board.next_card_id(),
        board.default_card_order().clone(),
    )
    .unwrap();
    assert_eq!(again.name(), "Saved");
    assert_eq!(again.file_path(), "/tmp/other.json");
    assert_eq!(again.next_card_id(), board.next_card_id());
    assert_eq!(again.next_card_id(), CardId::new(6));
    assert_eq!(again.default_card_order(), board.default_card_order());
    assert_eq!(again.cards().len(), board.cards().len());
    for (id, card) in board.cards() {
        let other = again.get_card(CardId::new(*id)).unwrap();
        assert_eq!(other.id(), card.id());
        assert_eq!(other.text(), card.text());
        assert_eq!(texts(&other.get_tags()), texts(&card.get_tags()));
    }
    // The cursor is not saved: it starts on the first card, in the default view.
    assert_eq!(again.interaction_state().selection.card_id, Some(CardId::new(0)));
    assert!(again.interaction_state().selection.tag.is_none());
    assert!(board.interaction_state().selection.tag.is_some());
}

#[test]
fn an_empty_board_is_restored_without_a_cursor() {
    let board =
        Board::from_saved("b.json", "Empty".to_string(), Vec::new(), CardId::new(4), Vec::new()).unwrap();
    assert!(board.interaction_state().selection.card_id.is_none());
    assert_eq!(board.next_card_id(), CardId::new(4));
    assert_eq!(board.cards().len(), 0);
}

fn cards(numbers: &[u64]) -> Vec<Card> {
    numbers.iter().map(|n| Card::new(CardId::new(*n))).collect()
}

#[test]
fn saved_parts_that_make_no_board_are_refused() {
    let ok = Board::from_saved("b", "n".to_string(), cards(&[0, 2]), CardId::new(3), id_list(&[2, 0]));
    assert_eq!(numbers(ok.unwrap().default_card_order()), vec![2, 0]);
    // A card twice.
    assert!(Board::from_saved("b", "n".to_string(), cards(&[0, 0]), CardId::new(3), id_list(&[0])).is_none());
    // The order names a card twice.
    assert!(Board::from_saved("b", "n".to_string(), cards(&[0, 1]), CardId::new(3), id_list(&[0, 0])).is_none());
    assert!(Board::from_saved("b", "n".to_string(), cards(&[0, 1]), CardId::new(3), id_list(&[0, 1, 0])).is_none());
    // The order names a card that is not there.
    assert!(Board::from_saved("b", "n".to_string(), cards(&[0, 1]), CardId::new(3), id_list(&[0, 2])).is_none());
    // A card is missing from the order.
    assert!(Board::from_saved("b", "n".to_string(), cards(&[0, 1]), CardId::new(3), id_list(&[0])).is_none());
    // A card's number is not below the next number.
    assert!(Board::from_saved("b", "n".to_string(), cards(&[0, 3]), CardId::new(3), id_list(&[0, 3])).is_none());
}

#[test]
fn state_in_the_default_view() {
    let mut board = sample();
    board.perform_action(&Action::NewCard).unwrap();
    board.move_card_within_default_card_order(CardId::new(5), 0).unwrap();
    board.set_card_text(CardId::new(5), "first").unwrap();
    let state = board.get_state();
    assert_eq!(state.board_name, "New Board");
    assert_eq!(numbers(&state.card_order), vec![5, 0, 1, 2, 3, 4]);
    let shown: Vec<u64> = state.cards.iter().map(|c| c.id().as_integer()).collect();
    assert_eq!(shown, vec![5, 0, 1, 2, 3, 4]);
    assert_eq!(state.cards[0].text(), "first");
    assert_eq!(texts(&state.cards[1].get_tags()), vec!["p:x", "s:a"]);
    assert_eq!(state.categories, vec!["p", "s", "t"]);
    assert_eq!(texts(&state.tags), vec!["p:x", "s:a", "s:b", "t:z"]);
    assert_eq!(state.interaction_state.selection.card_id, Some(CardId::new(5)));
    assert!(state.interaction_state.selection.tag.is_none());
    assert_eq!(state.interaction_state.filter, "");
    assert!(state.current_category_view.is_none());
}

#[test]
fn state_in_the_category_view() {
    let mut board = sample();
    board.perform_action(&Action::NewCard).unwrap();
    board.perform_action(&Action::ViewCategory { category: "s".to_string() }).unwrap();
    let state = board.get_state();
    assert_eq!(state.interaction_state.selection.card_id, Some(CardId::new(3)));
    assert_eq!(state.interaction_state.selection.tag.as_ref().unwrap().tag(), "s:a");
    let view = state.current_category_view.unwrap();
    assert_eq!(view.name(), "s");
    assert_eq!(view.columns().len(), 2);
    assert_eq!(numbers(view.columns()[0].cards()), vec![0, 3]);
    let copy = board.clone_interaction_state();
    assert_eq!(copy.selection.card_id, Some(CardId::new(3)));
    assert_eq!(copy.selection.tag.unwrap().tag(), "s:a");
}
