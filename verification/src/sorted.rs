//! Sorted lists without repeats: how the board keeps and lists sets of texts.

use vstd::prelude::*;
use crate::text::{lex_lt, lemma_lex_lt_irreflexive, lemma_lex_lt_total, lemma_lex_lt_transitive, str_eq, str_lt};

verus! {

/// Something that is ordered and told apart by a text.
pub trait Text {
    /// The text that stands for the item.
    spec fn text(&self) -> Seq<char>;

    /// The text as a string.
    fn as_text(&self) -> (r: &str)
        ensures
            r@ == self.text(),
    ;
}

impl Text for String {
    open spec fn text(&self) -> Seq<char> {
        self@
    }

    fn as_text(&self) -> (r: &str) {
        self.as_str()
    }
}

/// The texts of a list of items, in the list's order.
pub open spec fn texts<T: Text>(items: Seq<T>) -> Seq<Seq<char>> {
    Seq::new(items.len(), |i: int| items[i].text())
}

/// Each text comes before all that follow it.
pub open spec fn strictly_sorted(s: Seq<Seq<char>>) -> bool {
    forall|i: int, j: int| 0 <= i < j < s.len() ==> lex_lt(#[trigger] s[i], #[trigger] s[j])
}

/// `list` holds exactly the texts of `set`, in ascending order.
pub open spec fn lists(list: Seq<Seq<char>>, set: Set<Seq<char>>) -> bool {
    strictly_sorted(list) && list.to_set() == set
}

/// Where `x` belongs in a sorted list: all before are smaller, none from there
/// on is.
pub open spec fn is_lower_bound(s: Seq<Seq<char>>, x: Seq<char>, p: int) -> bool {
    &&& 0 <= p <= s.len()
    &&& forall|k: int| 0 <= k < p ==> lex_lt(#[trigger] s[k], x)
    &&& p < s.len() ==> !lex_lt(s[p], x)
}

/// How many items at the head of the list come before `x`.
pub open spec fn lower_bound_of(s: Seq<Seq<char>>, x: Seq<char>) -> int
    decreases s.len(),
{
    if s.len() == 0 || !lex_lt(s[0], x) {
        0
    } else {
        1 + lower_bound_of(s.drop_first(), x)
    }
}

/// Every text has a lower bound in every list.
pub proof fn lemma_lower_bound_of(s: Seq<Seq<char>>, x: Seq<char>)
    ensures
        is_lower_bound(s, x, lower_bound_of(s, x)),
    decreases s.len(),
{
    if s.len() == 0 || !lex_lt(s[0], x) {
    } else {
        let rest = s.drop_first();
        lemma_lower_bound_of(rest, x);
        let p = lower_bound_of(s, x);
        assert forall|k: int| 0 <= k < p implies lex_lt(#[trigger] s[k], x) by {
            if k > 0 {
                assert(s[k] == rest[k - 1]);
            }
        }
        if p < s.len() {
            assert(s[p] == rest[p - 1]);
        }
    }
}

/// Every finite set of texts has a sorted list.
pub proof fn lemma_sorted_list_exists(set: Set<Seq<char>>)
    requires
        set.finite(),
    ensures
        exists|list: Seq<Seq<char>>| lists(list, set),
    decreases set.len(),
{
    if set.len() == 0 {
        let list = Seq::<Seq<char>>::empty();
        assert(set =~= Set::empty());
        assert(list.to_set() =~= set);
        assert(lists(list, set));
    } else {
        let x = set.choose();
        let rest = set.remove(x);
        lemma_sorted_list_exists(rest);
        let list = choose|list: Seq<Seq<char>>| lists(list, rest);
        let p = lower_bound_of(list, x);
        lemma_lower_bound_of(list, x);
        assert(!list.contains(x)) by {
            if list.contains(x) {
                assert(list.to_set().contains(x));
            }
        }
        lemma_insert_sorted(list, x, p);
        assert(rest.insert(x) =~= set);
        assert(lists(list.insert(p, x), set));
    }
}

/// A sorted list holds nothing twice.
pub proof fn lemma_sorted_no_duplicates(s: Seq<Seq<char>>)
    requires
        strictly_sorted(s),
    ensures
        s.no_duplicates(),
{
    assert forall|i: int, j: int| 0 <= i < s.len() && 0 <= j < s.len() && i != j implies s[i]
        != s[j] by {
        lemma_lex_lt_irreflexive(s[i]);
        if i < j {
            assert(lex_lt(s[i], s[j]));
        } else {
            assert(lex_lt(s[j], s[i]));
        }
    }
}

/// In a sorted list, `x` can only stand at its lower bound.
pub proof fn lemma_lower_bound_contains(s: Seq<Seq<char>>, x: Seq<char>, p: int)
    requires
        strictly_sorted(s),
        is_lower_bound(s, x, p),
    ensures
        s.contains(x) <==> (p < s.len() && s[p] == x),
        s.to_set().contains(x) <==> (p < s.len() && s[p] == x),
        p < s.len() && s[p] != x ==> lex_lt(x, s[p]),
{
    lemma_lex_lt_irreflexive(x);
    if s.contains(x) {
        let k = choose|k: int| 0 <= k < s.len() && s[k] == x;
        if k < p {
            assert(lex_lt(s[k], x));
        } else if k > p {
            assert(lex_lt(s[p], s[k]));
        }
    }
    if p < s.len() {
        lemma_lex_lt_total(x, s[p]);
    }
}

/// Putting `x` in at its lower bound keeps the list sorted and adds `x` to
/// what it holds.
pub proof fn lemma_insert_sorted(s: Seq<Seq<char>>, x: Seq<char>, p: int)
    requires
        strictly_sorted(s),
        is_lower_bound(s, x, p),
        !s.contains(x),
    ensures
        strictly_sorted(s.insert(p, x)),
        s.insert(p, x).to_set() == s.to_set().insert(x),
{
    let t = s.insert(p, x);
    lemma_lower_bound_contains(s, x, p);
    assert forall|i: int, j: int| 0 <= i < j < t.len() implies lex_lt(
        #[trigger] t[i],
        #[trigger] t[j],
    ) by {
        if j < p {
            assert(lex_lt(s[i], s[j]));
        } else if j == p {
            assert(lex_lt(s[i], x));
        } else if i == p {
            if j - 1 > p {
                assert(lex_lt(s[p], s[j - 1]));
                lemma_lex_lt_transitive(x, s[p], s[j - 1]);
            }
        } else if i < p {
            assert(lex_lt(s[i], s[j - 1]));
        } else {
            assert(lex_lt(s[i - 1], s[j - 1]));
        }
    }
    assert forall|y: Seq<char>| t.to_set().contains(y) <==> s.to_set().insert(x).contains(
        y,
    ) by {
        if t.to_set().contains(y) {
            let k = choose|k: int| 0 <= k < t.len() && t[k] == y;
            if k < p {
                assert(s[k] == y);
            } else if k > p {
                assert(s[k - 1] == y);
            }
        }
        if s.to_set().insert(x).contains(y) {
            if y == x {
                assert(t[p] == y);
            } else {
                let k = choose|k: int| 0 <= k < s.len() && s[k] == y;
                if k < p {
                    assert(t[k] == y);
                } else {
                    assert(t[k + 1] == y);
                }
            }
        }
    }
    assert(t.to_set() =~= s.to_set().insert(x));
}

/// Taking an item out keeps the list sorted and takes the item from what it
/// holds.
pub proof fn lemma_remove_sorted(s: Seq<Seq<char>>, p: int)
    requires
        strictly_sorted(s),
        0 <= p < s.len(),
    ensures
        strictly_sorted(s.remove(p)),
        s.remove(p).to_set() == s.to_set().remove(s[p]),
{
    let t = s.remove(p);
    lemma_sorted_no_duplicates(s);
    assert forall|i: int, j: int| 0 <= i < j < t.len() implies lex_lt(
        #[trigger] t[i],
        #[trigger] t[j],
    ) by {
        let si = if i < p { i } else { i + 1 };
        let sj = if j < p { j } else { j + 1 };
        assert(lex_lt(s[si], s[sj]));
    }
    assert forall|y: Seq<char>| t.to_set().contains(y) <==> s.to_set().remove(s[p]).contains(
        y,
    ) by {
        if t.to_set().contains(y) {
            let k = choose|k: int| 0 <= k < t.len() && t[k] == y;
            let sk = if k < p { k } else { k + 1 };
            assert(s[sk] == y);
        }
        if s.to_set().remove(s[p]).contains(y) {
            let k = choose|k: int| 0 <= k < s.len() && s[k] == y;
            if k < p {
                assert(t[k] == y);
            } else {
                assert(t[k - 1] == y);
            }
        }
    }
    assert(t.to_set() =~= s.to_set().remove(s[p]));
}

/// A set has at most one sorted list.
pub proof fn lemma_sorted_unique(a: Seq<Seq<char>>, b: Seq<Seq<char>>)
    requires
        strictly_sorted(a),
        strictly_sorted(b),
        a.to_set() == b.to_set(),
    ensures
        a == b,
    decreases a.len(),
{
    if a.len() == 0 {
        if b.len() > 0 {
            assert(b.to_set().contains(b[0]));
            assert(a.contains(b[0]));
        }
        assert(a =~= b);
    } else if b.len() == 0 {
        assert(a.to_set().contains(a[0]));
        assert(b.contains(a[0]));
    } else {
        // The first items are both the least of the set.
        assert(a.to_set().contains(a[0]));
        assert(b.to_set().contains(b[0]));
        let i = choose|i: int| 0 <= i < b.len() && b[i] == a[0];
        let j = choose|j: int| 0 <= j < a.len() && a[j] == b[0];
        lemma_lex_lt_irreflexive(a[0]);
        if i > 0 && j > 0 {
            assert(lex_lt(b[0], b[i]));
            assert(lex_lt(a[0], a[j]));
            lemma_lex_lt_transitive(a[0], b[0], a[0]);
        }
        assert(a[0] == b[0]);
        lemma_remove_sorted(a, 0);
        lemma_remove_sorted(b, 0);
        lemma_sorted_unique(a.remove(0), b.remove(0));
        assert(a =~= seq![a[0]] + a.remove(0));
        assert(b =~= seq![b[0]] + b.remove(0));
    }
}

/// What is left of a sorted list when only the texts that meet `pred` stay
/// lists the texts of the set that meet `pred`.
pub proof fn lemma_filter_sorted(s: Seq<Seq<char>>, pred: spec_fn(Seq<char>) -> bool)
    requires
        strictly_sorted(s),
    ensures
        lists(s.filter(pred), s.to_set().filter(pred)),
    decreases s.len(),
{
    reveal(Seq::filter);
    let f = s.filter(pred);
    broadcast use vstd::seq_lib::group_filter_ensures;
    if s.len() > 0 {
        let init = s.drop_last();
        lemma_filter_sorted(init, pred);
        assert forall|i: int, j: int| 0 <= i < j < f.len() implies lex_lt(
            #[trigger] f[i],
            #[trigger] f[j],
        ) by {
            if j < init.filter(pred).len() {
                assert(lex_lt(init.filter(pred)[i], init.filter(pred)[j]));
            } else {
                let x = init.filter(pred)[i];
                assert(init.filter(pred).contains(x));
                init.lemma_filter_contains_rev(pred, x);
                let k = choose|k: int| 0 <= k < init.len() && init[k] == x;
                assert(lex_lt(s[k], s[s.len() - 1]));
            }
        }
    }
    assert forall|x: Seq<char>| f.to_set().contains(x) <==> s.to_set().filter(pred).contains(
        x,
    ) by {
        if f.to_set().contains(x) {
            s.lemma_filter_contains_rev(pred, x);
        }
        if s.to_set().filter(pred).contains(x) {
            let k = choose|k: int| 0 <= k < s.len() && s[k] == x;
            assert(f.contains(s[k]));
        }
    }
    assert(f.to_set() =~= s.to_set().filter(pred));
}

/// The lower bound of `x` in a sorted list of items.
pub fn lower_bound<T: Text>(v: &Vec<T>, x: &str) -> (p: usize)
    ensures
        is_lower_bound(texts(v@), x@, p as int),
{
    let mut i: usize = 0;
    while i < v.len()
        invariant
            i <= v.len(),
            forall|k: int| 0 <= k < i ==> lex_lt(#[trigger] texts(v@)[k], x@),
        decreases v.len() - i,
    {
        if !str_lt(v[i].as_text(), x) {
            return i;
        }
        i = i + 1;
    }
    i
}

/// Whether a sorted list of items holds one with text `x`.
pub fn contains_text<T: Text>(v: &Vec<T>, x: &str) -> (r: bool)
    requires
        strictly_sorted(texts(v@)),
    ensures
        r == texts(v@).to_set().contains(x@),
{
    let p: usize = lower_bound(v, x);
    proof {
        lemma_lower_bound_contains(texts(v@), x@, p as int);
    }
    p < v.len() && str_eq(v[p].as_text(), x)
}

/// Puts `item` into a sorted list unless one with its text is there already,
/// and says whether it went in.
pub fn insert_sorted<T: Text>(v: &mut Vec<T>, item: T) -> (added: bool)
    requires
        strictly_sorted(texts(old(v)@)),
    ensures
        added == !texts(old(v)@).to_set().contains(item.text()),
        lists(texts(final(v)@), texts(old(v)@).to_set().insert(item.text())),
        !added ==> final(v)@ == old(v)@,
        forall|i: int|
            0 <= i < final(v)@.len() ==> #[trigger] final(v)@[i] == item || old(v)@.contains(
                final(v)@[i],
            ),
{
    let p: usize = lower_bound(v, item.as_text());
    proof {
        lemma_lower_bound_contains(texts(v@), item.text(), p as int);
    }
    if p < v.len() && str_eq(v[p].as_text(), item.as_text()) {
        assert(texts(v@).to_set().insert(item.text()) =~= texts(v@).to_set());
        false
    } else {
        proof {
            lemma_insert_sorted(texts(v@), item.text(), p as int);
        }
        let ghost before = v@;
        v.insert(p, item);
        assert(texts(v@) =~= texts(before).insert(p as int, item.text()));
        assert forall|i: int| 0 <= i < v@.len() implies #[trigger] v@[i] == item
            || before.contains(v@[i]) by {
            if i < p {
                assert(before[i] == v@[i]);
            } else if i > p {
                assert(before[i - 1] == v@[i]);
            }
        }
        true
    }
}

/// Takes the item with text `x` out of a sorted list, if there is one, and
/// says whether there was.
pub fn remove_sorted<T: Text>(v: &mut Vec<T>, x: &str) -> (removed: bool)
    requires
        strictly_sorted(texts(old(v)@)),
    ensures
        removed == texts(old(v)@).to_set().contains(x@),
        lists(texts(final(v)@), texts(old(v)@).to_set().remove(x@)),
        !removed ==> final(v)@ == old(v)@,
        forall|i: int| 0 <= i < final(v)@.len() ==> old(v)@.contains(#[trigger] final(v)@[i]),
{
    let p: usize = lower_bound(v, x);
    proof {
        lemma_lower_bound_contains(texts(v@), x@, p as int);
    }
    if p < v.len() && str_eq(v[p].as_text(), x) {
        proof {
            lemma_remove_sorted(texts(v@), p as int);
        }
        let ghost before = v@;
        v.remove(p);
        assert(texts(v@) =~= texts(before).remove(p as int));
        assert forall|i: int| 0 <= i < v@.len() implies before.contains(#[trigger] v@[i]) by {
            if i < p {
                assert(before[i] == v@[i]);
            } else {
                assert(before[i + 1] == v@[i]);
            }
        }
        true
    } else {
        assert(texts(v@).to_set().remove(x@) =~= texts(v@).to_set());
        false
    }
}

} // verus!
