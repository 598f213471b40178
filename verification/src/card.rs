//! Cards and their identifiers.

use vstd::prelude::*;
use crate::sorted::{contains_text, insert_sorted, lists, remove_sorted, strictly_sorted, texts, lemma_sorted_no_duplicates};
use crate::tag::{any_in_category, category_of, clone_tags, in_category, tags_with_category, Tag};

verus! {

/// Identifier of a card, unique within its board and never given twice.
#[derive(Debug, Clone, Copy, PartialEq, Eq, Structural, PartialOrd, Ord, Hash)]
pub struct CardId(pub u64);

impl View for CardId {
    type V = u64;

    open spec fn view(&self) -> u64 {
        self.0
    }
}

impl CardId {
    /// The identifier with the given number.
    pub fn new(id: u64) -> (r: CardId)
        ensures
            r@ == id,
    {
        CardId(id)
    }

    /// The identifier that follows this one.
    pub fn next(self) -> (r: CardId)
        requires
            self@ < u64::MAX,
        ensures
            r@ == self@ + 1,
    {
        CardId(self.0 + 1)
    }

    /// The number behind the identifier.
    pub fn as_integer(&self) -> (r: u64)
        ensures
            r == self@,
    {
        self.0
    }
}

/// The numbers of a list of identifiers.
pub open spec fn ids(list: Seq<CardId>) -> Seq<u64> {
    Seq::new(list.len(), |i: int| list[i]@)
}

/// What a card is: its number, its text and its set of tags.
pub struct CardView {
    pub id: u64,
    pub text: Seq<char>,
    pub tags: Set<Seq<char>>,
}

/// A card: free text and a set of tags, each held once.
#[derive(Debug)]
pub struct Card {
    id: CardId,
    pub text: String,
    tags: Vec<Tag>,
}

impl View for Card {
    type V = CardView;

    closed spec fn view(&self) -> CardView {
        CardView { id: self.id@, text: self.text@, tags: texts(self.tags@).to_set() }
    }
}

impl Clone for Card {
    fn clone(&self) -> (r: Self)
        ensures
            r@ == self@,
            self.wf() ==> r.wf(),
    {
        Card { id: self.id, text: self.text.clone(), tags: clone_tags(&self.tags) }
    }
}

impl Card {
    /// The tags are kept in ascending order, so none is held twice.
    pub closed spec fn wf(&self) -> bool {
        strictly_sorted(texts(self.tags@))
    }

    /// A card has finitely many tags.
    pub proof fn lemma_tags_finite(&self)
        ensures
            self@.tags.finite(),
    {
        vstd::seq_lib::seq_to_set_is_finite(texts(self.tags@));
    }

    /// A card with no text and no tags.
    pub fn new(id: CardId) -> (r: Card)
        ensures
            r.wf(),
            r@ == (CardView { id: id@, text: Seq::empty(), tags: Set::empty() }),
    {
        let r = Card { id, text: String::new(), tags: Vec::new() };
        assert(texts(r.tags@).to_set() =~= Set::<Seq<char>>::empty());
        r
    }

    /// The card's identifier.
    pub fn id(&self) -> (r: CardId)
        ensures
            r@ == self@.id,
    {
        self.id
    }

    /// The card's text.
    pub fn text(&self) -> (r: &str)
        ensures
            r@ == self@.text,
    {
        self.text.as_str()
    }

    /// Replaces the card's text.
    pub fn set_text(&mut self, text: String)
        ensures
            final(self)@ == (CardView { text: text@, ..old(self)@ }),
            old(self).wf() ==> final(self).wf(),
    {
        self.text = text;
    }

    /// Gives the card a tag; nothing changes if it has the tag already.
    pub fn add_tag(&mut self, tag: &Tag)
        requires
            old(self).wf(),
        ensures
            final(self).wf(),
            final(self)@ == (CardView { tags: old(self)@.tags.insert(tag@), ..old(self)@ }),
    {
        insert_sorted(&mut self.tags, tag.clone());
    }

    /// Takes a tag from the card; nothing changes if it does not have it.
    pub fn delete_tag(&mut self, tag: &Tag)
        requires
            old(self).wf(),
        ensures
            final(self).wf(),
            final(self)@ == (CardView { tags: old(self)@.tags.remove(tag@), ..old(self)@ }),
    {
        remove_sorted(&mut self.tags, tag.tag());
    }

    /// All tags of the card, in ascending order.
    pub fn get_tags(&self) -> (r: Vec<Tag>)
        requires
            self.wf(),
        ensures
            lists(texts(r@), self@.tags),
            texts(r@).no_duplicates(),
    {
        proof {
            lemma_sorted_no_duplicates(texts(self.tags@));
        }
        clone_tags(&self.tags)
    }

    /// Whether the card has the tag.
    pub fn has_tag(&self, tag: &Tag) -> (r: bool)
        requires
            self.wf(),
        ensures
            r == self@.tags.contains(tag@),
    {
        contains_text(&self.tags, tag.tag())
    }

    /// Whether the card has at least one tag of the given category.
    pub fn has_category(&self, category: &str) -> (r: bool)
        requires
            self.wf(),
        ensures
            r == any_in_category(self@.tags, category@),
    {
        let mut i: usize = 0;
        while i < self.tags.len()
            invariant
                i <= self.tags.len(),
                forall|k: int| 0 <= k < i ==> category_of(#[trigger] texts(self.tags@)[k]) != category@,
            decreases self.tags.len() - i,
        {
            if self.tags[i].has_category(category) {
                assert(self@.tags.contains(texts(self.tags@)[i as int]));
                return true;
            }
            i = i + 1;
        }
        false
    }

    /// The card's tags of the given category, in ascending order.
    pub fn get_tags_with_category(&self, category: &str) -> (r: Vec<Tag>)
        requires
            self.wf(),
        ensures
            lists(texts(r@), in_category(self@.tags, category@)),
    {
        tags_with_category(&self.tags, category)
    }
}

} // verus!
