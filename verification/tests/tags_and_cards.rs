use commboard::sorted::{contains_text, insert_sorted, lower_bound, remove_sorted};
use commboard::tag::{clone_tags, find_colon, tags_with_category, validate_tag};
use commboard::text::{str_eq, str_lt};
use commboard::{Card, CardId, Tag};

fn tag(text: &str) -> Tag {
    Tag::new(text.to_string()).unwrap()
}

fn texts(tags: &[Tag]) -> Vec<String> {
    tags.iter().map(|t| t.tag().to_string()).collect()
}

#[test]
fn tag_splits_at_the_first_colon() {
    let t = tag("status:todo");
    assert_eq!(t.tag(), "status:todo");
    assert_eq!(t.category(), "status");
    assert_eq!(t.value(), "todo");
    assert_eq!(t.column(), "todo");
}

#[test]
fn tag_value_may_hold_colons() {
    let t = tag("due:12:30:00");
    assert_eq!(t.category(), "due");
    assert_eq!(t.value(), "12:30:00");
}

#[test]
fn tag_may_have_empty_parts() {
    let only = tag(":");
    assert_eq!(only.category(), "");
    assert_eq!(only.value(), "");
    let no_category = tag(":x");
    assert_eq!(no_category.category(), "");
    assert_eq!(no_category.value(), "x");
    let no_value = tag("x:");
    assert_eq!(no_value.category(), "x");
    assert_eq!(no_value.value(), "");
}

#[test]
fn tag_without_colon_is_handed_back() {
    assert_eq!(Tag::new("NoColon Here".to_string()).unwrap_err(), "NoColon Here");
    assert_eq!(Tag::new(String::new()).unwrap_err(), "");
    assert!(Tag::from_tag_string("nocolon").is_none());
}

#[test]
fn tag_is_kept_in_lower_case() {
    let t = tag("Status:ToDo");
    assert_eq!(t.tag(), "status:todo");
    assert_eq!(t, tag("status:todo"));
    let greek = tag("ΑΒΓ:Δ");
    assert_eq!(greek.tag(), "αβγ:δ");
    assert_eq!(greek.category(), "αβγ");
    assert_eq!(greek.value(), "δ");
    assert_eq!(Tag::from_tag_string("A:B").unwrap().tag(), "a:b");
}

#[test]
fn tags_with_the_same_text_are_equal() {
    assert!(tag("a:b").same(&tag("a:b")));
    assert!(!tag("a:b").same(&tag("a:c")));
    assert_eq!(tag("a:b"), tag("a:b"));
    assert_ne!(tag("a:b"), tag("a:c"));
    assert_eq!(tag("a:b").clone(), tag("a:b"));
}

#[test]
fn tags_sort_by_their_whole_text() {
    assert!(tag("a:b").before(&tag("a:c")));
    assert!(!tag("a:c").before(&tag("a:b")));
    assert!(!tag("a:b").before(&tag("a:b")));
    assert!(tag("a:").before(&tag("a:b")));
    // '-' sorts before ':', so the longer category comes first.
    assert!(tag("a-b:y").before(&tag("a:x")));
    assert!(tag("a:x").has_category("a"));
    assert!(!tag("a-b:y").has_category("a"));
}

#[test]
fn tags_compare_and_sort_by_their_text() {
    assert!(tag("a:b") < tag("a:c"));
    assert!(tag("a:c") > tag("a:b"));
    assert!(tag("a:b") <= tag("a:b"));
    assert_eq!(tag("a:b").partial_cmp(&tag("a:b")), Some(std::cmp::Ordering::Equal));
    assert_eq!(tag("a-b:y").partial_cmp(&tag("a:x")), Some(std::cmp::Ordering::Less));
    assert_eq!(tag("b:").partial_cmp(&tag("a:x")), Some(std::cmp::Ordering::Greater));
    let mut tags = vec![tag("s:b"), tag("a:z"), tag("s:a"), tag("a-b:y")];
    tags.sort();
    assert_eq!(texts(&tags), vec!["a-b:y", "a:z", "s:a", "s:b"]);
    let set: std::collections::HashSet<Tag> = tags.iter().cloned().chain([tag("s:a")]).collect();
    assert_eq!(set.len(), 4);
}

#[test]
fn parse_keeps_the_text_as_it_stands() {
    let t = Tag::parse("Status:ToDo".to_string()).unwrap();
    assert_eq!(t.tag(), "Status:ToDo");
    assert_eq!(t.category(), "Status");
    assert_eq!(t.value(), "ToDo");
    assert_eq!(Tag::parse("Status".to_string()).unwrap_err(), "Status");
    assert_ne!(t, tag("Status:ToDo"));
}

#[test]
fn validate_tag_says_true_or_false() {
    assert_eq!(validate_tag("status:todo".to_string()), "true");
    assert_eq!(validate_tag("status".to_string()), "false");
    assert_eq!(validate_tag(String::new()), "false");
    assert_eq!(validate_tag(":".to_string()), "true");
}

#[test]
fn find_colon_counts_characters() {
    assert_eq!(find_colon("abc:def"), Some(3));
    assert_eq!(find_colon("äöü:x"), Some(3));
    assert_eq!(find_colon(":"), Some(0));
    assert_eq!(find_colon("a:b:c"), Some(1));
    assert_eq!(find_colon("abc"), None);
    assert_eq!(find_colon(""), None);
}

#[test]
fn strings_compare_as_std_compares_them() {
    let samples = ["", "a", "ab", "abc", "abd", "b", "B", "a:b", "a-b", "é", "e", "zz", "日本", "日"];
    for a in samples {
        for b in samples {
            assert_eq!(str_lt(a, b), a < b, "{a:?} < {b:?}");
            assert_eq!(str_eq(a, b), a == b, "{a:?} == {b:?}");
        }
    }
}

#[test]
fn sorted_list_insert_remove_contains() {
    let mut list: Vec<String> = Vec::new();
    let steps = [("m", true), ("c", true), ("x", true), ("c", false), ("a", true), ("m", false)];
    for (s, added) in steps {
        assert_eq!(insert_sorted(&mut list, s.to_string()), added);
    }
    assert_eq!(list, vec!["a", "c", "m", "x"]);
    assert!(!insert_sorted(&mut list, "m".to_string()));
    assert_eq!(list, vec!["a", "c", "m", "x"]);
    assert!(contains_text(&list, "c"));
    assert!(!contains_text(&list, "d"));
    assert_eq!(lower_bound(&list, "a"), 0);
    assert_eq!(lower_bound(&list, "b"), 1);
    assert_eq!(lower_bound(&list, "m"), 2);
    assert_eq!(lower_bound(&list, "z"), 4);
    assert!(remove_sorted(&mut list, "c"));
    assert!(!remove_sorted(&mut list, "c"));
    assert_eq!(list, vec!["a", "m", "x"]);
}

#[test]
fn card_id_counts_up() {
    let id = CardId::new(7);
    assert_eq!(id.as_integer(), 7);
    assert_eq!(id.next(), CardId::new(8));
    assert_eq!(id.next().as_integer(), 8);
    assert!(CardId::new(1) < CardId::new(2));
}

#[test]
fn new_card_is_empty() {
    let card = Card::new(CardId::new(3));
    assert_eq!(card.id(), CardId::new(3));
    assert_eq!(card.text, "");
    assert_eq!(card.text(), "");
    assert!(card.get_tags().is_empty());
    assert!(!card.has_category("status"));
}

#[test]
fn card_text_can_be_set() {
    let mut card = Card::new(CardId::new(0));
    card.set_text("write tests".to_string());
    assert_eq!(card.text(), "write tests");
    assert_eq!(card.text, "write tests");
}

#[test]
fn card_tags_are_a_set_listed_in_order() {
    let mut card = Card::new(CardId::new(0));
    card.add_tag(&tag("status:todo"));
    card.add_tag(&tag("prio:high"));
    card.add_tag(&tag("status:todo"));
    card.add_tag(&tag("area:home"));
    assert_eq!(texts(&card.get_tags()), vec!["area:home", "prio:high", "status:todo"]);
    assert!(card.has_tag(&tag("prio:high")));
    assert!(!card.has_tag(&tag("prio:low")));
    card.delete_tag(&tag("prio:high"));
    card.delete_tag(&tag("prio:high"));
    assert_eq!(texts(&card.get_tags()), vec!["area:home", "status:todo"]);
}

#[test]
fn card_tags_by_category() {
    let mut card = Card::new(CardId::new(0));
    for t in ["s:b", "t:a", "s:a", "s-x:q", "s:c"] {
        card.add_tag(&tag(t));
    }
    assert!(card.has_category("s"));
    assert!(card.has_category("s-x"));
    assert!(!card.has_category("x"));
    assert_eq!(texts(&card.get_tags_with_category("s")), vec!["s:a", "s:b", "s:c"]);
    assert_eq!(texts(&card.get_tags_with_category("t")), vec!["t:a"]);
    assert!(card.get_tags_with_category("u").is_empty());
    let copy = card.clone();
    assert_eq!(texts(&copy.get_tags()), texts(&card.get_tags()));
    assert_eq!(copy.id(), card.id());
}

#[test]
fn tag_list_helpers() {
    let tags = vec![tag("a:1"), tag("b:1"), tag("b:2"), tag("c:1")];
    assert_eq!(texts(&clone_tags(&tags)), vec!["a:1", "b:1", "b:2", "c:1"]);
    assert_eq!(texts(&tags_with_category(&tags, "b")), vec!["b:1", "b:2"]);
    assert!(tags_with_category(&tags, "d").is_empty());
}
