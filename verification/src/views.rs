//! What a board shows: its tags, its categories and their columns. All of it
//! is worked out from the cards when asked for; none of it is stored.

use vstd::prelude::*;
use crate::board::Board;
use crate::card::{ids, CardId};
use crate::model::{
    all_tags, board_inv, card_has_category, card_has_tag, cards_in_category, categories,
    category_tags, category_view, column, column_names, listing, BoardView, CategoryView,
    ColumnView,
};
use crate::sorted::{
    insert_sorted, lemma_sorted_list_exists, lemma_sorted_unique, lists, strictly_sorted, texts,
};
use crate::tag::{
    category_of, in_category, is_tag, lemma_same_category_order, tags_with_category, value_of, Tag,
};
use crate::text::lex_lt;

verus! {

/// The ascending list of a set is the only list that lists it.
pub proof fn lemma_listing(list: Seq<Seq<char>>, set: Set<Seq<char>>)
    requires
        lists(list, set),
    ensures
        listing(set) == list,
{
    lemma_sorted_unique(list, listing(set));
}

/// The tags found on the cards of `cards`.
pub open spec fn tags_among(v: BoardView, cards: Seq<u64>) -> Set<Seq<char>> {
    Set::new(
        |t: Seq<char>| exists|k: int| 0 <= k < cards.len() && #[trigger] card_has_tag(v, cards[k], t),
    )
}

/// The ascending list of a finite set lists it.
pub proof fn lemma_listing_lists(set: Set<Seq<char>>)
    requires
        set.finite(),
    ensures
        lists(listing(set), set),
{
    lemma_sorted_list_exists(set);
}

/// The cards of a list have finitely many tags between them.
pub proof fn lemma_tags_among_finite(v: BoardView, cards: Seq<u64>)
    requires
        board_inv(v),
    ensures
        tags_among(v, cards).finite(),
    decreases cards.len(),
{
    if cards.len() == 0 {
        assert(tags_among(v, cards) =~= Set::empty());
    } else {
        let init = cards.drop_last();
        let last = cards.last();
        lemma_tags_among_finite(v, init);
        let more = if v.cards.contains_key(last) {
            v.cards[last].tags
        } else {
            Set::empty()
        };
        assert forall|t: Seq<char>| tags_among(v, cards).contains(t) <==> tags_among(
            v,
            init,
        ).union(more).contains(t) by {
            if tags_among(v, cards).contains(t) {
                let k = choose|k: int| 0 <= k < cards.len() && #[trigger] card_has_tag(v, cards[k], t);
                if k < init.len() {
                    assert(card_has_tag(v, init[k], t));
                }
            }
            if tags_among(v, init).contains(t) {
                let k = choose|k: int| 0 <= k < init.len() && #[trigger] card_has_tag(v, init[k], t);
                assert(card_has_tag(v, cards[k], t));
            }
            if more.contains(t) {
                assert(card_has_tag(v, cards[cards.len() - 1], t));
            }
        }
        assert(tags_among(v, cards) =~= tags_among(v, init).union(more));
    }
}

/// The tags of a board are those found on the cards of its order, and they
/// are finitely many.
pub proof fn lemma_all_tags_finite(v: BoardView)
    requires
        board_inv(v),
    ensures
        all_tags(v) == tags_among(v, v.card_order),
        all_tags(v).finite(),
        forall|c: Seq<char>| in_category(all_tags(v), c).finite(),
{
    let order = v.card_order;
    assert forall|t: Seq<char>| tags_among(v, order).contains(t) <==> all_tags(v).contains(t) by {
        if all_tags(v).contains(t) {
            let id = choose|id: u64| #[trigger] card_has_tag(v, id, t);
            assert(order.to_set().contains(id));
            let k = choose|k: int| 0 <= k < order.len() && order[k] == id;
            assert(card_has_tag(v, order[k], t));
        }
    }
    assert(tags_among(v, order) =~= all_tags(v));
    lemma_tags_among_finite(v, order);
    assert forall|c: Seq<char>| in_category(all_tags(v), c).finite() by {
        all_tags(v).lemma_len_filter(|t: Seq<char>| category_of(t) == c);
    }
}

/// The categories of the tags of `tags`.
pub open spec fn categories_among(tags: Seq<Seq<char>>) -> Set<Seq<char>> {
    Set::new(|c: Seq<char>| exists|k: int| 0 <= k < tags.len() && category_of(#[trigger] tags[k]) == c)
}

/// A column of the category view: the cards that share one tag.
#[derive(Debug)]
pub struct Column {
    pub(crate) name: String,
    pub(crate) cards: Vec<CardId>,
}

impl View for Column {
    type V = ColumnView;

    open(crate) spec fn view(&self) -> ColumnView {
        ColumnView { name: self.name@, cards: ids(self.cards@) }
    }
}

impl Column {
    /// The value part of the column's tag.
    pub fn name(&self) -> (r: &str)
        ensures
            r@ == self@.name,
    {
        self.name.as_str()
    }

    /// The column's cards, in the board's order.
    pub fn cards(&self) -> (r: &Vec<CardId>)
        ensures
            ids(r@) == self@.cards,
    {
        &self.cards
    }
}

/// The columns as values.
pub open spec fn column_views(columns: Seq<Column>) -> Seq<ColumnView> {
    Seq::new(columns.len(), |i: int| columns[i]@)
}

/// A category with its columns.
#[derive(Debug)]
pub struct Category {
    pub(crate) name: String,
    pub(crate) columns: Vec<Column>,
}

impl View for Category {
    type V = CategoryView;

    open(crate) spec fn view(&self) -> CategoryView {
        CategoryView { name: self.name@, columns: column_views(self.columns@) }
    }
}

impl Category {
    /// The category part of the tags of the columns.
    pub fn name(&self) -> (r: &str)
        ensures
            r@ == self@.name,
    {
        self.name.as_str()
    }

    /// The columns, by their names in ascending order.
    pub fn columns(&self) -> (r: &Vec<Column>)
        ensures
            column_views(r@) == self@.columns,
    {
        &self.columns
    }
}

/// The categories as values.
pub open spec fn category_views(list: Seq<Category>) -> Seq<CategoryView> {
    Seq::new(list.len(), |i: int| list[i]@)
}

impl Board {
    /// The category view of `category`: a column for each of its tags, in
    /// ascending order of the tags and so of the columns' names, each with
    /// the cards that have the tag, in the board's order. A category that no
    /// card has a tag of has no columns.
    pub fn get_category(&self, category: &str) -> (r: Category)
        requires
            self.wf(),
        ensures
            r@ == category_view(self@, category@),
            strictly_sorted(column_names(r@.columns)),
    {
        let tags = self.get_tags_with_category(category);
        let mut columns: Vec<Column> = Vec::new();
        let mut i: usize = 0;
        while i < tags.len()
            invariant
                i <= tags.len(),
                self.wf(),
                lists(texts(tags@), in_category(all_tags(self@), category@)),
                texts(tags@) == category_tags(self@, category@),
                columns@.len() == i,
                forall|k: int| 0 <= k < i ==> is_tag(#[trigger] texts(tags@)[k]),
                forall|k: int|
                    0 <= k < i ==> (#[trigger] columns@[k])@ == (ColumnView {
                        name: value_of(texts(tags@)[k]),
                        cards: column(self@, texts(tags@)[k]),
                    }),
                strictly_sorted(column_names(column_views(columns@))),
            decreases tags.len() - i,
        {
            let ghost before = column_names(column_views(columns@));
            let cards = self.get_cards_with_tag(&tags[i]);
            let name = tags[i].column().to_owned();
            let text = tags[i].tag();
            assert(is_tag(texts(tags@)[i as int]));
            columns.push(Column { name, cards });
            proof {
                let ts = texts(tags@);
                let names = column_names(column_views(columns@));
                assert(names =~= before.push(value_of(ts[i as int])));
                assert forall|a: int, b: int| 0 <= a < b < names.len() implies lex_lt(
                    #[trigger] names[a],
                    #[trigger] names[b],
                ) by {
                    if b < i {
                        assert(lex_lt(before[a], before[b]));
                    } else {
                        assert(lex_lt(ts[a], ts[b]));
                        assert(ts.to_set().contains(ts[a]));
                        assert(ts.to_set().contains(ts[b]));
                        lemma_same_category_order(ts[a], ts[b]);
                        assert(names[a] == columns@[a]@.name);
                    }
                }
            }
            i = i + 1;
        }
        let r = Category { name: category.to_owned(), columns };
        assert(r@.columns =~= category_view(self@, category@).columns);
        r
    }

    /// Every category of the board with its columns, the categories by
    /// their names in ascending order.
    pub fn categories(&self) -> (r: Vec<Category>)
        requires
            self.wf(),
        ensures
            r@.len() == listing(categories(self@)).len(),
            forall|i: int|
                0 <= i < r@.len() ==> (#[trigger] r@[i])@ == category_view(
                    self@,
                    listing(categories(self@))[i],
                ),
    {
        let names = self.get_categories();
        let mut r: Vec<Category> = Vec::new();
        let mut i: usize = 0;
        while i < names.len()
            invariant
                i <= names.len(),
                self.wf(),
                texts(names@) == listing(categories(self@)),
                r@.len() == i,
                forall|k: int|
                    0 <= k < i ==> (#[trigger] r@[k])@ == category_view(self@, texts(names@)[k]),
            decreases names.len() - i,
        {
            r.push(self.get_category(names[i].as_str()));
            i = i + 1;
        }
        r
    }

    /// The cards that have the tag, in the board's order: the tag's column.
    pub fn get_cards_with_tag(&self, tag: &Tag) -> (r: Vec<CardId>)
        requires
            self.wf(),
        ensures
            ids(r@) == column(self@, tag@),
    {
        let ghost pred = |id: u64| card_has_tag(self@, id, tag@);
        let mut r: Vec<CardId> = Vec::new();
        let mut i: usize = 0;
        assert(ids(r@) =~= self@.card_order.take(0).filter(pred)) by {
            reveal(Seq::filter);
        }
        while i < self.card_order.len()
            invariant
                i <= self.card_order.len(),
                self.wf(),
                pred == (|id: u64| card_has_tag(self@, id, tag@)),
                ids(r@) == self@.card_order.take(i as int).filter(pred),
            decreases self.card_order.len() - i,
        {
            let id = self.card_order[i];
            proof {
                let order = self@.card_order;
                assert(order[i as int] == id@);
                assert(order.take(i as int + 1) =~= order.take(i as int).push(id@));
                order.take(i as int).lemma_filter_push(id@, pred);
            }
            let present = match self.get_card(id) {
                Some(card) => card.has_tag(tag),
                None => false,
            };
            if present {
                let ghost before = r@;
                r.push(id);
                assert(ids(r@) =~= ids(before).push(id@));
            }
            i = i + 1;
        }
        assert(self@.card_order.take(i as int) =~= self@.card_order);
        r
    }

    /// The cards that have a tag of the category, in the board's order.
    pub fn get_cards_with_category(&self, category: &str) -> (r: Vec<CardId>)
        requires
            self.wf(),
        ensures
            ids(r@) == cards_in_category(self@, category@),
    {
        let ghost pred = |id: u64| card_has_category(self@, id, category@);
        let mut r: Vec<CardId> = Vec::new();
        let mut i: usize = 0;
        assert(ids(r@) =~= self@.card_order.take(0).filter(pred)) by {
            reveal(Seq::filter);
        }
        while i < self.card_order.len()
            invariant
                i <= self.card_order.len(),
                self.wf(),
                pred == (|id: u64| card_has_category(self@, id, category@)),
                ids(r@) == self@.card_order.take(i as int).filter(pred),
            decreases self.card_order.len() - i,
        {
            let id = self.card_order[i];
            proof {
                let order = self@.card_order;
                assert(order[i as int] == id@);
                assert(order.take(i as int + 1) =~= order.take(i as int).push(id@));
                order.take(i as int).lemma_filter_push(id@, pred);
            }
            let present = match self.get_card(id) {
                Some(card) => card.has_category(category),
                None => false,
            };
            if present {
                let ghost before = r@;
                r.push(id);
                assert(ids(r@) =~= ids(before).push(id@));
            }
            i = i + 1;
        }
        assert(self@.card_order.take(i as int) =~= self@.card_order);
        r
    }

    /// Every tag on the board, once each, in ascending order.
    pub fn get_all_tags(&self) -> (r: Vec<Tag>)
        requires
            self.wf(),
        ensures
            lists(texts(r@), all_tags(self@)),
            texts(r@) == listing(all_tags(self@)),
    {
        let mut r: Vec<Tag> = Vec::new();
        let mut i: usize = 0;
        assert(texts(r@).to_set() =~= tags_among(self@, self@.card_order.take(0)));
        while i < self.card_order.len()
            invariant
                i <= self.card_order.len(),
                self.wf(),
                lists(texts(r@), tags_among(self@, self@.card_order.take(i as int))),
            decreases self.card_order.len() - i,
        {
            let id = self.card_order[i];
            let ghost order = self@.card_order;
            let ghost done = tags_among(self@, order.take(i as int));
            assert(order[i as int] == id@);
            match self.get_card(id) {
                Some(card) => {
                    let tags = card.get_tags();
                    let mut j: usize = 0;
                    assert(texts(r@).to_set() =~= done.union(texts(tags@).take(0).to_set()));
                    while j < tags.len()
                        invariant
                            j <= tags.len(),
                            strictly_sorted(texts(r@)),
                            texts(r@).to_set() == done.union(texts(tags@).take(j as int).to_set()),
                        decreases tags.len() - j,
                    {
                        let ghost before = texts(r@).to_set();
                        insert_sorted(&mut r, tags[j].clone());
                        proof {
                            let ts = texts(tags@);
                            assert(ts.take(j as int + 1) =~= ts.take(j as int).push(ts[j as int]));
                            ts.take(j as int).lemma_push_to_set_commute(ts[j as int]);
                            assert(texts(r@).to_set() =~= done.union(
                                ts.take(j as int + 1).to_set(),
                            ));
                        }
                        j = j + 1;
                    }
                    proof {
                        assert(texts(tags@).take(j as int) =~= texts(tags@));
                        let next = tags_among(self@, order.take(i as int + 1));
                        assert forall|t: Seq<char>| next.contains(t) <==> done.union(
                            card@.tags,
                        ).contains(t) by {
                            if next.contains(t) {
                                let k = choose|k: int|
                                    0 <= k < order.take(i as int + 1).len() && #[trigger] card_has_tag(
                                        self@,
                                        order.take(i as int + 1)[k],
                                        t,
                                    );
                                if k < i {
                                    assert(card_has_tag(self@, order.take(i as int)[k], t));
                                }
                            }
                            if done.contains(t) {
                                let k = choose|k: int|
                                    0 <= k < order.take(i as int).len() && #[trigger] card_has_tag(
                                        self@,
                                        order.take(i as int)[k],
                                        t,
                                    );
                                assert(card_has_tag(self@, order.take(i as int + 1)[k], t));
                            }
                            if card@.tags.contains(t) {
                                assert(card_has_tag(self@, order.take(i as int + 1)[i as int], t));
                            }
                        }
                        assert(next =~= done.union(card@.tags));
                    }
                },
                None => {
                    proof {
                        assert(order.to_set().contains(order[i as int]));
                    }
                },
            }
            i = i + 1;
        }
        proof {
            let order = self@.card_order;
            assert(order.take(i as int) =~= order);
            assert forall|t: Seq<char>| tags_among(self@, order).contains(t) <==> all_tags(
                self@,
            ).contains(t) by {
                if all_tags(self@).contains(t) {
                    let id = choose|id: u64| #[trigger] card_has_tag(self@, id, t);
                    assert(order.to_set().contains(id));
                    let k = choose|k: int| 0 <= k < order.len() && order[k] == id;
                    assert(card_has_tag(self@, order[k], t));
                }
            }
            assert(tags_among(self@, order) =~= all_tags(self@));
            lemma_listing(texts(r@), all_tags(self@));
        }
        r
    }

    /// The tags of the category, once each, in ascending order: the
    /// category's columns.
    pub fn get_tags_with_category(&self, category: &str) -> (r: Vec<Tag>)
        requires
            self.wf(),
        ensures
            lists(texts(r@), in_category(all_tags(self@), category@)),
            texts(r@) == category_tags(self@, category@),
    {
        let all = self.get_all_tags();
        let r = tags_with_category(&all, category);
        proof {
            lemma_listing(texts(r@), in_category(all_tags(self@), category@));
        }
        r
    }

    /// Every category on the board, once each, in ascending order.
    pub fn get_categories(&self) -> (r: Vec<String>)
        requires
            self.wf(),
        ensures
            lists(texts(r@), categories(self@)),
            texts(r@) == listing(categories(self@)),
    {
        let all = self.get_all_tags();
        let mut r: Vec<String> = Vec::new();
        let mut i: usize = 0;
        assert(texts(r@).to_set() =~= categories_among(texts(all@).take(0)));
        while i < all.len()
            invariant
                i <= all.len(),
                lists(texts(r@), categories_among(texts(all@).take(i as int))),
            decreases all.len() - i,
        {
            let ghost ts = texts(all@);
            let ghost done = categories_among(ts.take(i as int));
            insert_sorted(&mut r, all[i].category().to_owned());
            proof {
                let next = categories_among(ts.take(i as int + 1));
                let c = category_of(ts[i as int]);
                assert forall|x: Seq<char>| next.contains(x) <==> done.insert(c).contains(x) by {
                    if next.contains(x) {
                        let k = choose|k: int|
                            0 <= k < ts.take(i as int + 1).len() && category_of(
                                #[trigger] ts.take(i as int + 1)[k],
                            ) == x;
                        if k < i {
                            assert(category_of(ts.take(i as int)[k]) == x);
                        }
                    }
                    if done.contains(x) {
                        let k = choose|k: int|
                            0 <= k < ts.take(i as int).len() && category_of(
                                #[trigger] ts.take(i as int)[k],
                            ) == x;
                        assert(category_of(ts.take(i as int + 1)[k]) == x);
                    }
                    if x == c {
                        assert(category_of(ts.take(i as int + 1)[i as int]) == x);
                    }
                }
                assert(next =~= done.insert(c));
            }
            i = i + 1;
        }
        proof {
            let ts = texts(all@);
            assert(ts.take(i as int) =~= ts);
            assert forall|x: Seq<char>| categories_among(ts).contains(x) <==> categories(
                self@,
            ).contains(x) by {
                if categories_among(ts).contains(x) {
                    let k = choose|k: int| 0 <= k < ts.len() && category_of(#[trigger] ts[k]) == x;
                    assert(ts.to_set().contains(ts[k]));
                    assert(all_tags(self@).contains(ts[k]));
                }
                if categories(self@).contains(x) {
                    let t = choose|t: Seq<char>| #[trigger]
                        all_tags(self@).contains(t) && category_of(t) == x;
                    assert(ts.to_set().contains(t));
                    let k = choose|k: int| 0 <= k < ts.len() && ts[k] == t;
                    assert(category_of(ts[k]) == x);
                }
            }
            assert(categories_among(ts) =~= categories(self@));
            lemma_listing(texts(r@), categories(self@));
        }
        r
    }
}

} // verus!
