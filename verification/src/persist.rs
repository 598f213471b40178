//! Putting a board together again from what was saved of it: its name, its
//! cards, the next identifier and the order. The cursor is not saved.

use std::collections::{BTreeMap, BTreeSet};
use vstd::prelude::*;
use vstd::string::*;
use crate::board::{Board, CardSelection, InteractionState};
use crate::card::{ids, Card, CardId, CardView};
use crate::lists::{index_in, lemma_index_in_unique};
use crate::model::BoardView;

verus! {

/// The numbers of a list of cards.
pub open spec fn card_numbers(cards: Seq<Card>) -> Seq<u64> {
    Seq::new(cards.len(), |i: int| cards[i]@.id)
}

/// The cards of a list, by their numbers.
pub open spec fn card_map(cards: Seq<Card>) -> Map<u64, CardView> {
    Map::new(
        |k: u64| card_numbers(cards).contains(k),
        |k: u64| cards[index_in(card_numbers(cards), k)]@,
    )
}

/// What was saved makes a board: no two cards share a number, the order
/// names each card once and nothing else, and every number is below the
/// next one to be given.
pub open spec fn saved_ok(numbers: Seq<u64>, next: u64, order: Seq<u64>) -> bool {
    &&& numbers.no_duplicates()
    &&& order.no_duplicates()
    &&& order.to_set() == numbers.to_set()
    &&& forall|i: int| 0 <= i < numbers.len() ==> numbers[i] < next
}

/// The board that saved parts make: the cursor is on the first card of the
/// order, if there is one, and no tag is selected.
pub open spec fn restored(
    file_path: Seq<char>,
    name: Seq<char>,
    cards: Map<u64, CardView>,
    next: u64,
    order: Seq<u64>,
) -> BoardView {
    BoardView {
        name,
        cards,
        next_card_id: next,
        card_order: order,
        selected_card: if order.len() > 0 {
            Some(order[0])
        } else {
            None
        },
        selected_tag: None,
        filter: Seq::empty(),
        file_path,
    }
}

/// Every card of the list keeps its tags in order.
pub open spec fn all_cards_wf(cards: Seq<Card>) -> bool {
    forall|i: int| 0 <= i < cards.len() ==> (#[trigger] cards[i]).wf()
}

impl Board {
    /// The board made of saved parts, if they make one. The cursor starts on
    /// the first card of the order and the default view.
    pub fn from_saved(
        file_path: &str,
        name: String,
        cards: Vec<Card>,
        next_card_id: CardId,
        card_order: Vec<CardId>,
    ) -> (r: Option<Board>)
        requires
            all_cards_wf(cards@),
        ensures
            r is Some <==> saved_ok(card_numbers(cards@), next_card_id@, ids(card_order@)),
            r matches Some(board) ==> board.wf() && board@ == restored(
                file_path@,
                name@,
                card_map(cards@),
                next_card_id@,
                ids(card_order@),
            ),
    {
        let ghost all = cards@;
        let ghost numbers = card_numbers(all);
        let ghost order = ids(card_order@);
        let mut rest = cards;
        let mut map: BTreeMap<u64, Card> = BTreeMap::new();
        let n: usize = rest.len();
        while rest.len() > 0
            invariant
                rest@.len() <= n,
                n == all.len(),
                all == cards@,
                numbers == card_numbers(all),
                all_cards_wf(all),
                rest@ == all.take(rest@.len() as int),
                forall|j: int| rest@.len() <= j < n ==> numbers[j] < next_card_id@,
                forall|j: int|
                    rest@.len() <= j < n ==> map@.contains_key(#[trigger] numbers[j]) && map@[numbers[j]]
                        == all[j],
                forall|k: u64| #[trigger]
                    map@.contains_key(k) ==> exists|j: int| rest@.len() <= j < n && numbers[j] == k,
                forall|i: int, j: int| rest@.len() <= i < j < n ==> numbers[i] != numbers[j],
            decreases rest@.len(),
        {
            let ghost j = rest@.len() - 1;
            let card = match rest.pop() {
                Some(card) => card,
                None => {
                    return None;
                },
            };
            assert(card == all[j]);
            assert(numbers[j] == card@.id);
            let id = card.id();
            if id.0 >= next_card_id.0 {
                return None;
            }
            if map.contains_key(&id.0) {
                proof {
                    let other = choose|other: int| j < other < n && numbers[other] == id@;
                    assert(numbers[j] == numbers[other] && j != other);
                }
                return None;
            }
            map.insert(id.0, card);
            assert(rest@ =~= all.take(rest@.len() as int));
        }
        assert(numbers.no_duplicates());
        assert(map@.dom() =~= numbers.to_set()) by {
            assert forall|k: u64| map@.dom().contains(k) <==> numbers.to_set().contains(k) by {
                if numbers.to_set().contains(k) {
                    let j = choose|j: int| 0 <= j < numbers.len() && numbers[j] == k;
                    assert(map@.contains_key(numbers[j]));
                }
            }
        }
        let mut seen: BTreeSet<u64> = BTreeSet::new();
        let mut i: usize = 0;
        assert(seen@ =~= order.take(0).to_set());
        while i < card_order.len()
            invariant
                i <= card_order.len(),
                order == ids(card_order@),
                all == cards@,
                numbers == card_numbers(all),
                map@.dom() == numbers.to_set(),
                seen@ == order.take(i as int).to_set(),
                order.take(i as int).no_duplicates(),
                forall|k: int| 0 <= k < i ==> map@.contains_key(#[trigger] order[k]),
            decreases card_order.len() - i,
        {
            let id = card_order[i];
            assert(order[i as int] == id@);
            if !map.contains_key(&id.0) {
                proof {
                    assert(order.to_set().contains(id@));
                }
                return None;
            }
            if !seen.insert(id.0) {
                proof {
                    let k = choose|k: int|
                        0 <= k < order.take(i as int).len() && order.take(i as int)[k] == id@;
                    assert(order[k] == order[i as int]);
                }
                return None;
            }
            proof {
                assert(order.take(i as int + 1) =~= order.take(i as int).push(id@));
                order.take(i as int).lemma_push_to_set_commute(id@);
                let next = order.take(i as int + 1);
                assert forall|a: int, b: int|
                    0 <= a < next.len() && 0 <= b < next.len() && a != b implies #[trigger] next[a]
                    != #[trigger] next[b] by {
                    if a < i && b < i {
                        assert(order.take(i as int)[a] != order.take(i as int)[b]);
                    } else if a < i {
                        assert(order.take(i as int).to_set().contains(order.take(i as int)[a]));
                    } else {
                        assert(order.take(i as int).to_set().contains(order.take(i as int)[b]));
                    }
                }
            }
            i = i + 1;
        }
        proof {
            assert(order.take(i as int) =~= order);
            numbers.unique_seq_to_set();
            order.unique_seq_to_set();
            assert(order.to_set().subset_of(numbers.to_set())) by {
                assert forall|k: u64| order.to_set().contains(k) implies numbers.to_set().contains(
                    k,
                ) by {
                    let a = choose|a: int| 0 <= a < order.len() && order[a] == k;
                    assert(map@.contains_key(order[a]));
                }
            }
        }
        if card_order.len() != n {
            return None;
        }
        proof {
            vstd::set_lib::lemma_subset_equality(order.to_set(), numbers.to_set());
        }
        let first = if card_order.len() > 0 {
            Some(card_order[0])
        } else {
            None
        };
        let board = Board {
            name,
            cards: map,
            next_card_id,
            card_order,
            file_path: String::from_str(file_path),
            interaction_state: InteractionState {
                selection: CardSelection { card_id: first, tag: None },
                filter: String::new(),
            },
        };
        proof {
            let want = restored(file_path@, name@, card_map(all), next_card_id@, order);
            assert(board@.cards.dom() =~= want.cards.dom());
            assert forall|k: u64| board@.cards.contains_key(k) implies #[trigger] board@.cards[k]
                == want.cards[k] && board.cards@[k].wf() && board@.cards[k].id == k && k
                < next_card_id@ && board@.cards[k].tags.finite() by {
                let j = choose|j: int| 0 <= j < numbers.len() && numbers[j] == k;
                lemma_index_in_unique(numbers, j);
                assert(map@[numbers[j]] == all[j]);
                assert(all[j].wf());
                all[j].lemma_tags_finite();
            }
            assert(board@.cards =~= want.cards);
            if order.len() > 0 {
                assert(order.to_set().contains(order[0]));
            }
        }
        Some(board)
    }
}

} // verus!
