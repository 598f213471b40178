//! Tags: `category:value` labels that sort cards into columns.

use std::cmp::Ordering;
use vstd::prelude::*;
use vstd::string::*;
use crate::sorted::{lemma_filter_sorted, lists, strictly_sorted, texts, Text};
use crate::text::{lemma_lex_lt_skip, lex_lt, str_eq, str_lt};

verus! {

/// The lower-case form of a string: what `str::to_lowercase` of the standard
/// library returns for it. The library knows no more of it than this name.
pub uninterp spec fn lowercase(s: Seq<char>) -> Seq<char>;

/// Position of the first colon in `s`, or the length of `s` if it has none.
pub open spec fn colon_index(s: Seq<char>) -> int
    decreases s.len(),
{
    if s.len() == 0 || s[0] == ':' {
        0
    } else {
        1 + colon_index(s.drop_first())
    }
}

/// A string is a tag if it holds a colon.
pub open spec fn is_tag(s: Seq<char>) -> bool {
    colon_index(s) < s.len()
}

/// The part of a tag before its first colon.
pub open spec fn category_of(s: Seq<char>) -> Seq<char> {
    s.take(colon_index(s))
}

/// The part of a tag after its first colon; it may hold further colons.
pub open spec fn value_of(s: Seq<char>) -> Seq<char> {
    s.skip(colon_index(s) + 1)
}

/// `colon_index` lies within the string, no colon stands before it, and one
/// stands at it unless the string has none.
pub proof fn lemma_colon_index(s: Seq<char>)
    ensures
        0 <= colon_index(s) <= s.len(),
        forall|i: int| 0 <= i < colon_index(s) ==> s[i] != ':',
        colon_index(s) < s.len() ==> s[colon_index(s)] == ':',
        is_tag(s) <==> s.contains(':'),
    decreases s.len(),
{
    if s.len() == 0 || s[0] == ':' {
    } else {
        let t = s.drop_first();
        lemma_colon_index(t);
        assert forall|i: int| 0 <= i < colon_index(s) implies s[i] != ':' by {
            if i > 0 {
                assert(s[i] == t[i - 1]);
            }
        }
        if s.contains(':') {
            let j = choose|j: int| 0 <= j < s.len() && s[j] == ':';
            assert(t[j - 1] == ':');
        }
    }
}

/// The first colon is where a colon stands with none before it.
pub proof fn lemma_colon_index_is(s: Seq<char>, i: int)
    requires
        0 <= i < s.len(),
        s[i] == ':',
        forall|k: int| 0 <= k < i ==> s[k] != ':',
    ensures
        colon_index(s) == i,
{
    lemma_colon_index(s);
}

/// A tag is its category, a colon and its value.
pub proof fn lemma_tag_parts(s: Seq<char>)
    requires
        is_tag(s),
    ensures
        s == category_of(s) + seq![':'] + value_of(s),
        !category_of(s).contains(':'),
{
    lemma_colon_index(s);
    assert(s =~= category_of(s) + seq![':'] + value_of(s));
}

/// Two tags of one category are ordered as their values are.
pub proof fn lemma_same_category_order(a: Seq<char>, b: Seq<char>)
    requires
        is_tag(a),
        is_tag(b),
        category_of(a) == category_of(b),
    ensures
        lex_lt(a, b) == lex_lt(value_of(a), value_of(b)),
{
    lemma_colon_index(a);
    lemma_colon_index(b);
    let n = colon_index(a);
    assert(category_of(a).len() == n);
    assert(colon_index(b) == n);
    assert forall|i: int| 0 <= i < n + 1 implies a[i] == b[i] by {
        if i < n {
            assert(category_of(a)[i] == a[i]);
            assert(category_of(b)[i] == b[i]);
        }
    }
    lemma_lex_lt_skip(a, b, n + 1);
}

/// Calls `str::to_lowercase` of the standard library. Trusted, not proved:
/// the string that comes back depends on the characters of `s` alone, and it
/// is this that `lowercase` names.
#[verifier::external_body]
fn to_lowercase(s: &str) -> (r: String)
    ensures
        r@ == lowercase(s@),
{
    s.to_lowercase()
}

/// Position of the first colon of `s`, counted in characters.
pub fn find_colon(s: &str) -> (r: Option<usize>)
    ensures
        match r {
            Some(i) => is_tag(s@) && i == colon_index(s@),
            None => !is_tag(s@),
        },
{
    let n: usize = s.unicode_len();
    let mut i: usize = 0;
    proof {
        lemma_colon_index(s@);
    }
    while i < n
        invariant
            n == s@.len(),
            i <= n,
            forall|k: int| 0 <= k < i ==> s@[k] != ':',
        decreases n - i,
    {
        if s.get_char(i) == ':' {
            proof {
                lemma_colon_index_is(s@, i as int);
            }
            return Some(i);
        }
        i = i + 1;
    }
    None
}

/// A `category:value` label. Its text always holds a colon; `new` makes it
/// of the lower-case form of what it is given, so that tags which differ in
/// case alone are one tag. Two tags are equal if their texts are, and tags
/// are ordered as their texts are.
#[derive(Debug, Ord, Hash)]
pub struct Tag {
    tag: String,
}

impl View for Tag {
    type V = Seq<char>;

    closed spec fn view(&self) -> Seq<char> {
        self.tag@
    }
}

impl Text for Tag {
    open spec fn text(&self) -> Seq<char> {
        self@
    }

    fn as_text(&self) -> (r: &str) {
        self.tag()
    }
}

impl PartialEq for Tag {
    fn eq(&self, other: &Self) -> (r: bool) {
        self.same(other)
    }
}

impl Eq for Tag {

}

impl vstd::std_specs::cmp::PartialEqSpecImpl for Tag {
    open spec fn obeys_eq_spec() -> bool {
        true
    }

    open spec fn eq_spec(&self, other: &Self) -> bool {
        self@ == other@
    }
}

impl PartialOrd for Tag {
    fn partial_cmp(&self, other: &Self) -> (r: Option<Ordering>) {
        if self.before(other) {
            Some(Ordering::Less)
        } else if other.before(self) {
            Some(Ordering::Greater)
        } else {
            Some(Ordering::Equal)
        }
    }
}

impl vstd::std_specs::cmp::PartialOrdSpecImpl for Tag {
    open spec fn obeys_partial_cmp_spec() -> bool {
        true
    }

    open spec fn partial_cmp_spec(&self, other: &Self) -> Option<Ordering> {
        if lex_lt(self@, other@) {
            Some(Ordering::Less)
        } else if lex_lt(other@, self@) {
            Some(Ordering::Greater)
        } else {
            Some(Ordering::Equal)
        }
    }
}

impl Clone for Tag {
    fn clone(&self) -> (r: Self)
        ensures
            r@ == self@,
    {
        proof {
            use_type_invariant(self);
        }
        Tag { tag: self.tag.clone() }
    }
}

impl Tag {
    #[verifier::type_invariant]
    spec fn holds_colon(self) -> bool {
        is_tag(self.tag@)
    }

    /// Makes a tag of a text as it stands, without folding case. A text
    /// that holds no colon is handed back.
    pub fn parse(text: String) -> (r: Result<Tag, String>)
        ensures
            match r {
                Ok(t) => is_tag(text@) && t@ == text@,
                Err(s) => !is_tag(text@) && s@ == text@,
            },
    {
        match find_colon(text.as_str()) {
            Some(_) => Ok(Tag { tag: text }),
            None => Err(text),
        }
    }

    /// Makes a tag of the lower-case form of `tag`. A string whose lower-case
    /// form holds no colon is handed back as it came.
    pub fn new(tag: String) -> (r: Result<Tag, String>)
        ensures
            match r {
                Ok(t) => is_tag(lowercase(tag@)) && t@ == lowercase(tag@),
                Err(s) => !is_tag(lowercase(tag@)) && s@ == tag@,
            },
    {
        match Tag::parse(to_lowercase(tag.as_str())) {
            Ok(t) => Ok(t),
            Err(_) => Err(tag),
        }
    }

    /// Makes a tag of a borrowed string, if its lower-case form holds a colon.
    pub fn from_tag_string(tag_string: &str) -> (r: Option<Tag>)
        ensures
            match r {
                Some(t) => is_tag(lowercase(tag_string@)) && t@ == lowercase(tag_string@),
                None => !is_tag(lowercase(tag_string@)),
            },
    {
        match Tag::parse(to_lowercase(tag_string)) {
            Ok(t) => Some(t),
            Err(_) => None,
        }
    }

    /// The whole text of the tag, which holds a colon.
    pub fn tag(&self) -> (r: &str)
        ensures
            r@ == self@,
            is_tag(self@),
    {
        proof {
            use_type_invariant(self);
        }
        self.tag.as_str()
    }

    /// The part before the first colon.
    pub fn category(&self) -> (r: &str)
        ensures
            r@ == category_of(self@),
    {
        let s = self.tag();
        match find_colon(s) {
            Some(i) => s.substring_char(0, i),
            None => s,
        }
    }

    /// The part after the first colon, which names the tag's column.
    pub fn column(&self) -> (r: &str)
        ensures
            r@ == value_of(self@),
    {
        let s = self.tag();
        let n: usize = s.unicode_len();
        match find_colon(s) {
            Some(i) => s.substring_char(i + 1, n),
            None => s,
        }
    }

    /// The part after the first colon.
    pub fn value(&self) -> (r: &str)
        ensures
            r@ == value_of(self@),
    {
        self.column()
    }

    /// Whether the tag's category is `category`.
    pub fn has_category(&self, category: &str) -> (r: bool)
        ensures
            r == (category_of(self@) == category@),
    {
        str_eq(self.category(), category)
    }

    /// Whether two tags hold the same text.
    pub fn same(&self, other: &Tag) -> (r: bool)
        ensures
            r == (self@ == other@),
    {
        str_eq(self.tag.as_str(), other.tag.as_str())
    }

    /// Whether this tag sorts before `other`: tags sort by their whole text.
    pub fn before(&self, other: &Tag) -> (r: bool)
        ensures
            r == lex_lt(self@, other@),
    {
        str_lt(self.tag.as_str(), other.tag.as_str())
    }
}

/// The tags of a set whose category is `category`.
pub open spec fn in_category(tags: Set<Seq<char>>, category: Seq<char>) -> Set<Seq<char>> {
    tags.filter(|t: Seq<char>| category_of(t) == category)
}

/// Whether a set of tags holds one whose category is `category`.
pub open spec fn any_in_category(tags: Set<Seq<char>>, category: Seq<char>) -> bool {
    exists|t: Seq<char>| #[trigger] tags.contains(t) && category_of(t) == category
}

/// A set that holds a tag of the category still holds one when a tag is
/// added, and holds one as soon as a tag of the category is added.
pub proof fn lemma_any_in_category_insert(tags: Set<Seq<char>>, tag: Seq<char>, category: Seq<char>)
    requires
        any_in_category(tags, category) || category_of(tag) == category,
    ensures
        any_in_category(tags.insert(tag), category),
{
    if category_of(tag) == category {
        assert(tags.insert(tag).contains(tag));
    } else {
        let t = choose|t: Seq<char>| #[trigger] tags.contains(t) && category_of(t) == category;
        assert(tags.insert(tag).contains(t));
    }
}

/// A copy of a list of tags.
pub fn clone_tags(tags: &Vec<Tag>) -> (r: Vec<Tag>)
    ensures
        texts(r@) == texts(tags@),
{
    let mut r: Vec<Tag> = Vec::new();
    let mut i: usize = 0;
    while i < tags.len()
        invariant
            i <= tags.len(),
            r@.len() == i,
            forall|k: int| 0 <= k < i ==> (#[trigger] r@[k])@ == tags@[k]@,
        decreases tags.len() - i,
    {
        r.push(tags[i].clone());
        i = i + 1;
    }
    assert(texts(r@) =~= texts(tags@));
    r
}

/// The tags of a sorted list whose category is `category`, in the list's
/// order.
pub fn tags_with_category(tags: &Vec<Tag>, category: &str) -> (r: Vec<Tag>)
    requires
        strictly_sorted(texts(tags@)),
    ensures
        texts(r@) == texts(tags@).filter(|t: Seq<char>| category_of(t) == category@),
        lists(texts(r@), in_category(texts(tags@).to_set(), category@)),
{
    let ghost pred = |t: Seq<char>| category_of(t) == category@;
    let mut r: Vec<Tag> = Vec::new();
    let mut i: usize = 0;
    assert(texts(tags@).take(0).filter(pred) =~= Seq::<Seq<char>>::empty()) by {
        reveal(Seq::filter);
    }
    while i < tags.len()
        invariant
            i <= tags.len(),
            pred == (|t: Seq<char>| category_of(t) == category@),
            texts(r@) == texts(tags@).take(i as int).filter(pred),
        decreases tags.len() - i,
    {
        proof {
            let ts = texts(tags@);
            assert(ts.take(i as int + 1) =~= ts.take(i as int).push(ts[i as int]));
            ts.take(i as int).lemma_filter_push(ts[i as int], pred);
        }
        if tags[i].has_category(category) {
            let ghost before = r@;
            r.push(tags[i].clone());
            assert(texts(r@) =~= texts(before).push(tags@[i as int]@));
        }
        i = i + 1;
    }
    proof {
        assert(texts(tags@).take(i as int) =~= texts(tags@));
        lemma_filter_sorted(texts(tags@), pred);
    }
    r
}

/// Whether a string given from outside may become a tag: `"true"` if it
/// may, `"false"` if not.
pub fn validate_tag(tag: String) -> (r: &'static str)
    ensures
        r@ == if is_tag(lowercase(tag@)) {
            "true"@
        } else {
            "false"@
        },
{
    match Tag::new(tag) {
        Ok(_) => "true",
        Err(_) => "false",
    }
}

} // verus!
