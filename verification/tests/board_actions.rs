use commboard::{Action, Board, BoardError, CardId, Tag};

fn new_board() -> Board {
    Board::new("/tmp/board-test.json")
}

fn tag(text: &str) -> Tag {
    Tag::new(text.to_string()).unwrap()
}

fn order(board: &Board) -> Vec<u64> {
    board.default_card_order().iter().map(|id| id.as_integer()).collect()
}

fn selected(board: &Board) -> Option<u64> {
    board.interaction_state().selection.card_id.map(|id| id.as_integer())
}

fn selected_tag(board: &Board) -> Option<String> {
    board.interaction_state().selection.tag.as_ref().map(|t| t.tag().to_string())
}

fn three_cards() -> Board {
    let mut board = new_board();
    board.perform_action(&Action::NewCard).unwrap();
    board.perform_action(&Action::NewCard).unwrap();
    board.perform_action(&Action::NewCard).unwrap();
    board
}

fn select(board: &mut Board, id: u64) {
    let here = order(board).iter().position(|x| *x == selected(board).unwrap()).unwrap() as isize;
    let there = order(board).iter().position(|x| *x == id).unwrap() as isize;
    board.perform_action(&Action::ViewDefault).ok();
    board.perform_action(&Action::SelectCardVerticalOffset { offset: there - here }).unwrap();
    assert_eq!(selected(board), Some(id));
}

#[test]
fn add_card_to_empty_board() -> Result<(), BoardError> {
    let mut board = new_board();

    board.perform_action(&Action::NewCard)?;

    assert_eq!(board.cards().len(), 1);
    assert_eq!(*board.default_card_order(), vec![CardId::new(0)]);

    Ok(())
}

#[test]
fn move_card_within_order() -> Result<(), BoardError> {
    let mut board = new_board();

    board.perform_action(&Action::NewCard)?;
    board.perform_action(&Action::NewCard)?;
    board.perform_action(&Action::NewCard)?;

    assert_eq!(
        *board.default_card_order(),
        vec![CardId::new(0), CardId::new(1), CardId::new(2)]
    );

    // Move last card up.
    board.perform_action(&Action::MoveCurrentCardVerticalOffset { offset: -1 })?;

    assert_eq!(
        *board.default_card_order(),
        vec![CardId::new(0), CardId::new(2), CardId::new(1)]
    );

    Ok(())
}

#[test]
fn new_board_is_empty() {
    let board = new_board();
    assert_eq!(board.name(), "New Board");
    assert_eq!(board.file_path(), "/tmp/board-test.json");
    assert_eq!(board.cards().len(), 0);
    assert!(board.default_card_order().is_empty());
    assert_eq!(board.next_card_id(), CardId::new(0));
    assert_eq!(selected(&board), None);
    assert_eq!(selected_tag(&board), None);
}

#[test]
fn three_new_cards_select_the_last() {
    let board = three_cards();
    assert_eq!(order(&board), vec![0, 1, 2]);
    assert_eq!(selected(&board), Some(2));
    assert_eq!(board.next_card_id(), CardId::new(3));
}

#[test]
fn new_card_goes_behind_the_selected_card() {
    let mut board = three_cards();
    select(&mut board, 0);
    board.perform_action(&Action::NewCard).unwrap();
    assert_eq!(order(&board), vec![0, 3, 1, 2]);
    assert_eq!(selected(&board), Some(3));
}

#[test]
fn ids_are_not_reused_after_delete() {
    let mut board = three_cards();
    board.perform_action(&Action::DeleteCurrentCard).unwrap();
    assert_eq!(order(&board), vec![0, 1]);
    assert_eq!(selected(&board), Some(1));
    board.perform_action(&Action::NewCard).unwrap();
    assert_eq!(order(&board), vec![0, 1, 3]);
    assert_eq!(board.cards().len(), 3);
    assert!(board.get_card(CardId::new(2)).is_none());
}

#[test]
fn set_board_name_always_succeeds() {
    let mut board = new_board();
    board.perform_action(&Action::SetBoardName { name: "Chores".to_string() }).unwrap();
    assert_eq!(board.name(), "Chores");
}

#[test]
fn actions_on_the_cursor_need_a_card() {
    let mut board = new_board();
    let needy = vec![
        Action::DeleteCurrentCard,
        Action::SelectCardVerticalOffset { offset: 1 },
        Action::SelectCardHorizontalOffset { offset: 1 },
        Action::MoveCurrentCardVerticalOffset { offset: 1 },
        Action::MoveCurrentCardHorizontalInCategory { offset: 1 },
        Action::SetCurrentCardText { text: "x".to_string() },
        Action::AddTagToCurrentCard { tag: tag("a:b") },
        Action::DeleteTagFromCurrentCard { tag: tag("a:b") },
    ];
    for action in &needy {
        assert!(matches!(board.perform_action(action), Err(BoardError::NoCardSelected)));
    }
    assert!(matches!(board.perform_action(&Action::ViewDefault), Err(BoardError::NoTagSelected)));
    assert!(matches!(
        board.perform_action(&Action::ViewCategory { category: "a".to_string() }),
        Err(BoardError::NoSuchCategory)
    ));
    assert_eq!(board.cards().len(), 0);
}

#[test]
fn delete_last_remaining_card_clears_selection() {
    let mut board = new_board();
    board.perform_action(&Action::NewCard).unwrap();
    board.perform_action(&Action::DeleteCurrentCard).unwrap();
    assert_eq!(selected(&board), None);
    assert_eq!(selected_tag(&board), None);
    assert!(order(&board).is_empty());
    assert_eq!(board.cards().len(), 0);
}

#[test]
fn delete_selects_next_then_previous() {
    let mut board = three_cards();
    select(&mut board, 1);
    board.perform_action(&Action::DeleteCurrentCard).unwrap();
    assert_eq!(order(&board), vec![0, 2]);
    assert_eq!(selected(&board), Some(2));
    board.perform_action(&Action::DeleteCurrentCard).unwrap();
    assert_eq!(selected(&board), Some(0));
}

#[test]
fn select_vertical_clamps_at_both_ends() {
    let mut board = three_cards();
    board.perform_action(&Action::SelectCardVerticalOffset { offset: -1 }).unwrap();
    assert_eq!(selected(&board), Some(1));
    board.perform_action(&Action::SelectCardVerticalOffset { offset: 0 }).unwrap();
    assert_eq!(selected(&board), Some(1));
    board.perform_action(&Action::SelectCardVerticalOffset { offset: 100 }).unwrap();
    assert_eq!(selected(&board), Some(2));
    board.perform_action(&Action::SelectCardVerticalOffset { offset: -100 }).unwrap();
    assert_eq!(selected(&board), Some(0));
    board.perform_action(&Action::SelectCardVerticalOffset { offset: isize::MAX }).unwrap();
    assert_eq!(selected(&board), Some(2));
    board.perform_action(&Action::SelectCardVerticalOffset { offset: isize::MIN }).unwrap();
    assert_eq!(selected(&board), Some(0));
    assert_eq!(order(&board), vec![0, 1, 2]);
}

#[test]
fn move_vertical_clamps_and_keeps_selection() {
    let mut board = three_cards();
    board.perform_action(&Action::MoveCurrentCardVerticalOffset { offset: -50 }).unwrap();
    assert_eq!(order(&board), vec![2, 0, 1]);
    assert_eq!(selected(&board), Some(2));
    board.perform_action(&Action::MoveCurrentCardVerticalOffset { offset: 1 }).unwrap();
    assert_eq!(order(&board), vec![0, 2, 1]);
    board.perform_action(&Action::MoveCurrentCardVerticalOffset { offset: 7 }).unwrap();
    assert_eq!(order(&board), vec![0, 1, 2]);
    board.perform_action(&Action::MoveCurrentCardVerticalOffset { offset: 0 }).unwrap();
    assert_eq!(order(&board), vec![0, 1, 2]);
    assert_eq!(selected(&board), Some(2));
}

#[test]
fn set_text_of_selected_card() {
    let mut board = three_cards();
    board.perform_action(&Action::SetCurrentCardText { text: "buy milk".to_string() }).unwrap();
    assert_eq!(board.get_card(CardId::new(2)).unwrap().text, "buy milk");
    assert_eq!(board.get_card(CardId::new(1)).unwrap().text, "");
}

#[test]
fn adding_a_tag_twice_is_an_error() {
    let mut board = three_cards();
    board.perform_action(&Action::AddTagToCurrentCard { tag: tag("status:todo") }).unwrap();
    let again = board.perform_action(&Action::AddTagToCurrentCard { tag: tag("status:todo") });
    assert!(matches!(again, Err(BoardError::CardAlreadyHasTag)));
    let tags: Vec<String> =
        board.get_card(CardId::new(2)).unwrap().get_tags().iter().map(|t| t.tag().to_string()).collect();
    assert_eq!(tags, vec!["status:todo".to_string()]);
}

#[test]
fn deleting_a_missing_tag_is_an_error() {
    let mut board = three_cards();
    let missing = board.perform_action(&Action::DeleteTagFromCurrentCard { tag: tag("status:todo") });
    assert!(matches!(missing, Err(BoardError::CardDoesntHaveTag)));
    board.perform_action(&Action::AddTagToCurrentCard { tag: tag("status:todo") }).unwrap();
    board.perform_action(&Action::DeleteTagFromCurrentCard { tag: tag("status:todo") }).unwrap();
    assert!(board.get_card(CardId::new(2)).unwrap().get_tags().is_empty());
}

#[test]
fn view_category_selects_the_tag_and_delete_reselects_in_column() {
    let mut board = three_cards();
    select(&mut board, 0);
    board.perform_action(&Action::AddTagToCurrentCard { tag: tag("status:todo") }).unwrap();
    select(&mut board, 1);
    board.perform_action(&Action::AddTagToCurrentCard { tag: tag("status:todo") }).unwrap();
    select(&mut board, 0);
    board.perform_action(&Action::ViewCategory { category: "status".to_string() }).unwrap();
    assert_eq!(selected(&board), Some(0));
    assert_eq!(selected_tag(&board), Some("status:todo".to_string()));
    board.perform_action(&Action::DeleteCurrentCard).unwrap();
    assert_eq!(selected(&board), Some(1));
    assert_eq!(selected_tag(&board), Some("status:todo".to_string()));
    assert_eq!(order(&board), vec![1, 2]);
}

#[test]
fn view_category_goes_to_the_nearest_card_below_first() {
    let mut board = new_board();
    for _ in 0..5 {
        board.perform_action(&Action::NewCard).unwrap();
    }
    select(&mut board, 1);
    board.perform_action(&Action::AddTagToCurrentCard { tag: tag("p:high") }).unwrap();
    select(&mut board, 3);
    board.perform_action(&Action::AddTagToCurrentCard { tag: tag("p:low") }).unwrap();
    select(&mut board, 2);
    board.perform_action(&Action::ViewCategory { category: "p".to_string() }).unwrap();
    assert_eq!(selected(&board), Some(3));
    assert_eq!(selected_tag(&board), Some("p:low".to_string()));
    board.perform_action(&Action::ViewDefault).unwrap();
    assert_eq!(selected(&board), Some(3));
    assert_eq!(selected_tag(&board), None);
    select(&mut board, 0);
    board.perform_action(&Action::ViewCategory { category: "p".to_string() }).unwrap();
    assert_eq!(selected(&board), Some(1));
    assert_eq!(selected_tag(&board), Some("p:high".to_string()));
}

#[test]
fn view_category_picks_the_first_tag_of_the_card() {
    let mut board = three_cards();
    board.perform_action(&Action::AddTagToCurrentCard { tag: tag("p:low") }).unwrap();
    board.perform_action(&Action::AddTagToCurrentCard { tag: tag("p:high") }).unwrap();
    board.perform_action(&Action::AddTagToCurrentCard { tag: tag("o:x") }).unwrap();
    board.perform_action(&Action::ViewCategory { category: "p".to_string() }).unwrap();
    assert_eq!(selected(&board), Some(2));
    assert_eq!(selected_tag(&board), Some("p:high".to_string()));
    let unknown = board.perform_action(&Action::ViewCategory { category: "q".to_string() });
    assert!(matches!(unknown, Err(BoardError::NoSuchCategory)));
    assert_eq!(selected_tag(&board), Some("p:high".to_string()));
}

#[test]
fn new_card_in_category_view_takes_the_tag() {
    let mut board = three_cards();
    board.perform_action(&Action::AddTagToCurrentCard { tag: tag("status:todo") }).unwrap();
    board.perform_action(&Action::ViewCategory { category: "status".to_string() }).unwrap();
    board.perform_action(&Action::NewCard).unwrap();
    assert_eq!(selected(&board), Some(3));
    assert!(board.get_card(CardId::new(3)).unwrap().has_tag(&tag("status:todo")));
    let column: Vec<u64> =
        board.get_cards_with_tag(&tag("status:todo")).iter().map(|c| c.as_integer()).collect();
    assert_eq!(column, vec![2, 3]);
}

fn columns_board() -> Board {
    // 0: s:a   1: s:b   2: s:a   3: s:c   4: s:a
    let mut board = new_board();
    for t in ["s:a", "s:b", "s:a", "s:c", "s:a"] {
        board.perform_action(&Action::NewCard).unwrap();
        board.perform_action(&Action::AddTagToCurrentCard { tag: tag(t) }).unwrap();
    }
    board
}

#[test]
fn select_horizontal_keeps_the_row_and_clamps() {
    let mut board = columns_board();
    board.perform_action(&Action::ViewCategory { category: "s".to_string() }).unwrap();
    assert_eq!(selected(&board), Some(4));
    assert_eq!(selected_tag(&board), Some("s:a".to_string()));
    board.perform_action(&Action::SelectCardHorizontalOffset { offset: 1 }).unwrap();
    assert_eq!(selected(&board), Some(1));
    assert_eq!(selected_tag(&board), Some("s:b".to_string()));
    board.perform_action(&Action::SelectCardHorizontalOffset { offset: 5 }).unwrap();
    assert_eq!(selected(&board), Some(3));
    assert_eq!(selected_tag(&board), Some("s:c".to_string()));
    board.perform_action(&Action::SelectCardHorizontalOffset { offset: -9 }).unwrap();
    assert_eq!(selected(&board), Some(0));
    assert_eq!(selected_tag(&board), Some("s:a".to_string()));
}

#[test]
fn select_vertical_in_category_view_walks_the_column() {
    let mut board = columns_board();
    board.perform_action(&Action::ViewCategory { category: "s".to_string() }).unwrap();
    board.perform_action(&Action::SelectCardVerticalOffset { offset: -1 }).unwrap();
    assert_eq!(selected(&board), Some(2));
    board.perform_action(&Action::SelectCardVerticalOffset { offset: -5 }).unwrap();
    assert_eq!(selected(&board), Some(0));
    board.perform_action(&Action::SelectCardVerticalOffset { offset: 2 }).unwrap();
    assert_eq!(selected(&board), Some(4));
}

#[test]
fn move_vertical_in_category_view_maps_to_the_board_order() {
    let mut board = columns_board();
    board.perform_action(&Action::ViewCategory { category: "s".to_string() }).unwrap();
    board.perform_action(&Action::MoveCurrentCardVerticalOffset { offset: -1 }).unwrap();
    assert_eq!(order(&board), vec![0, 1, 4, 2, 3]);
    assert_eq!(selected(&board), Some(4));
    board.perform_action(&Action::MoveCurrentCardVerticalOffset { offset: -1 }).unwrap();
    assert_eq!(order(&board), vec![4, 0, 1, 2, 3]);
}

#[test]
fn move_horizontal_swaps_the_tag() {
    let mut board = columns_board();
    board.perform_action(&Action::ViewCategory { category: "s".to_string() }).unwrap();
    board.perform_action(&Action::MoveCurrentCardHorizontalInCategory { offset: 2 }).unwrap();
    assert_eq!(selected(&board), Some(4));
    assert_eq!(selected_tag(&board), Some("s:c".to_string()));
    let card = board.get_card(CardId::new(4)).unwrap();
    assert!(card.has_tag(&tag("s:c")));
    assert!(!card.has_tag(&tag("s:a")));
    // At the edge the card stays in its column.
    board.perform_action(&Action::MoveCurrentCardHorizontalInCategory { offset: 1 }).unwrap();
    assert_eq!(selected_tag(&board), Some("s:c".to_string()));
    assert!(board.get_card(CardId::new(4)).unwrap().has_tag(&tag("s:c")));
}

#[test]
fn move_horizontal_onto_a_tag_the_card_has_changes_nothing() {
    let mut board = columns_board();
    board.perform_action(&Action::AddTagToCurrentCard { tag: tag("s:b") }).unwrap();
    board.perform_action(&Action::ViewCategory { category: "s".to_string() }).unwrap();
    assert_eq!(selected_tag(&board), Some("s:a".to_string()));
    let refused = board.perform_action(&Action::MoveCurrentCardHorizontalInCategory { offset: 1 });
    assert!(matches!(refused, Err(BoardError::CardAlreadyHasTag)));
    let card = board.get_card(CardId::new(4)).unwrap();
    assert!(card.has_tag(&tag("s:a")));
    assert!(card.has_tag(&tag("s:b")));
    assert_eq!(selected_tag(&board), Some("s:a".to_string()));
}

#[test]
fn horizontal_actions_need_the_category_view() {
    let mut board = three_cards();
    assert!(matches!(
        board.perform_action(&Action::SelectCardHorizontalOffset { offset: 1 }),
        Err(BoardError::NotInCategoryView)
    ));
    assert!(matches!(
        board.perform_action(&Action::MoveCurrentCardHorizontalInCategory { offset: 1 }),
        Err(BoardError::NotInCategoryView)
    ));
    assert!(matches!(board.perform_action(&Action::ViewDefault), Err(BoardError::NoTagSelected)));
}

#[test]
fn a_selected_card_without_the_selected_tag_is_in_no_column() {
    let mut board = columns_board();
    board.perform_action(&Action::AddTagToCurrentCard { tag: tag("s:b") }).unwrap();
    board.perform_action(&Action::ViewCategory { category: "s".to_string() }).unwrap();
    assert_eq!(selected_tag(&board), Some("s:a".to_string()));
    // The card keeps a tag of the category, so the category view stays.
    board.perform_action(&Action::DeleteTagFromCurrentCard { tag: tag("s:a") }).unwrap();
    assert_eq!(selected(&board), Some(4));
    assert_eq!(selected_tag(&board), Some("s:a".to_string()));
    for action in [
        Action::SelectCardVerticalOffset { offset: 1 },
        Action::MoveCurrentCardVerticalOffset { offset: 1 },
        Action::SelectCardHorizontalOffset { offset: 1 },
        Action::MoveCurrentCardHorizontalInCategory { offset: 1 },
    ] {
        assert!(matches!(board.perform_action(&action), Err(BoardError::CardDoesntHaveTag)));
    }
    assert_eq!(order(&board), vec![0, 1, 2, 3, 4]);
    assert_eq!(selected(&board), Some(4));
    assert_eq!(selected_tag(&board), Some("s:a".to_string()));
    // Deleting it goes to a neighbour among the cards of the category.
    board.perform_action(&Action::DeleteCurrentCard).unwrap();
    assert_eq!(selected(&board), Some(3));
    assert_eq!(selected_tag(&board), Some("s:a".to_string()));
}

#[test]
fn losing_the_last_tag_of_the_category_leaves_the_category_view() {
    let mut board = columns_board();
    board.perform_action(&Action::ViewCategory { category: "s".to_string() }).unwrap();
    assert_eq!(selected_tag(&board), Some("s:a".to_string()));
    board.perform_action(&Action::DeleteTagFromCurrentCard { tag: tag("s:a") }).unwrap();
    assert_eq!(selected(&board), Some(4));
    assert_eq!(selected_tag(&board), None);
    assert!(board.get_card(CardId::new(4)).unwrap().get_tags().is_empty());
    // In the default view the cursor moves over all cards again.
    board.perform_action(&Action::SelectCardVerticalOffset { offset: -1 }).unwrap();
    assert_eq!(selected(&board), Some(3));
}

#[test]
fn losing_a_tag_of_another_category_keeps_the_category_view() {
    let mut board = columns_board();
    board.perform_action(&Action::AddTagToCurrentCard { tag: tag("p:x") }).unwrap();
    board.perform_action(&Action::ViewCategory { category: "s".to_string() }).unwrap();
    board.perform_action(&Action::DeleteTagFromCurrentCard { tag: tag("p:x") }).unwrap();
    assert_eq!(selected_tag(&board), Some("s:a".to_string()));
    // Taking a tag from another card never moves the cursor.
    board.delete_card_tag(CardId::new(0), &tag("s:a")).unwrap();
    assert_eq!(selected(&board), Some(4));
    assert_eq!(selected_tag(&board), Some("s:a".to_string()));
}

#[test]
fn delete_in_category_view_falls_back_to_the_category() {
    let mut board = columns_board();
    select(&mut board, 1);
    board.perform_action(&Action::ViewCategory { category: "s".to_string() }).unwrap();
    assert_eq!(selected_tag(&board), Some("s:b".to_string()));
    board.perform_action(&Action::DeleteCurrentCard).unwrap();
    assert_eq!(selected(&board), Some(2));
    assert_eq!(selected_tag(&board), Some("s:b".to_string()));
}
