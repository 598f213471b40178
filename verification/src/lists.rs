//! Lists of cards: where an item stands, what becomes of a list when an
//! item goes in or out, and counting from one item to another.

use vstd::prelude::*;

verus! {

/// Where `x` first stands in `list`, or the length of `list` if it does not
/// occur.
pub open spec fn index_in<A>(list: Seq<A>, x: A) -> int
    decreases list.len(),
{
    if list.len() == 0 || list[0] == x {
        0
    } else {
        1 + index_in(list.drop_first(), x)
    }
}

/// `index_in` lies within the list or at its end, `x` does not stand before
/// it, and stands at it if `x` occurs at all.
pub proof fn lemma_index_in<A>(list: Seq<A>, x: A)
    ensures
        0 <= index_in(list, x) <= list.len(),
        forall|i: int| 0 <= i < index_in(list, x) ==> list[i] != x,
        index_in(list, x) < list.len() ==> list[index_in(list, x)] == x,
        list.contains(x) <==> index_in(list, x) < list.len(),
    decreases list.len(),
{
    if list.len() == 0 || list[0] == x {
    } else {
        let rest = list.drop_first();
        lemma_index_in(rest, x);
        assert forall|i: int| 0 <= i < index_in(list, x) implies list[i] != x by {
            if i > 0 {
                assert(list[i] == rest[i - 1]);
            }
        }
        if list.contains(x) {
            let j = choose|j: int| 0 <= j < list.len() && list[j] == x;
            assert(rest[j - 1] == x);
        }
    }
}

/// The first place where `x` stands is its `index_in`.
pub proof fn lemma_index_in_is<A>(list: Seq<A>, x: A, i: int)
    requires
        0 <= i < list.len(),
        list[i] == x,
        forall|k: int| 0 <= k < i ==> list[k] != x,
    ensures
        index_in(list, x) == i,
{
    lemma_index_in(list, x);
}

/// In a list without repeats every item stands at its `index_in`.
pub proof fn lemma_index_in_unique<A>(list: Seq<A>, i: int)
    requires
        list.no_duplicates(),
        0 <= i < list.len(),
    ensures
        index_in(list, list[i]) == i,
{
    lemma_index_in(list, list[i]);
}

/// Putting a new item into a list without repeats leaves it without
/// repeats, with that one item more.
pub proof fn lemma_insert_fresh<A>(list: Seq<A>, at: int, x: A)
    requires
        list.no_duplicates(),
        !list.contains(x),
        0 <= at <= list.len(),
    ensures
        list.insert(at, x).no_duplicates(),
        list.insert(at, x).to_set() == list.to_set().insert(x),
        index_in(list.insert(at, x), x) == at,
{
    let to = list.insert(at, x);
    assert forall|i: int, j: int| 0 <= i < to.len() && 0 <= j < to.len() && i != j implies to[i]
        != to[j] by {
        let si = if i < at { i } else { i - 1 };
        let sj = if j < at { j } else { j - 1 };
        if i != at && j != at {
            assert(list[si] != list[sj]);
        } else if i == at {
            assert(list.contains(list[sj]));
        } else {
            assert(list.contains(list[si]));
        }
    }
    assert forall|y: A| to.to_set().contains(y) <==> list.to_set().insert(x).contains(y) by {
        if to.to_set().contains(y) {
            let k = choose|k: int| 0 <= k < to.len() && to[k] == y;
            if k < at {
                assert(list[k] == y);
            } else if k > at {
                assert(list[k - 1] == y);
            }
        }
        if list.to_set().insert(x).contains(y) {
            if y == x {
                assert(to[at] == y);
            } else {
                let k = choose|k: int| 0 <= k < list.len() && list[k] == y;
                if k < at {
                    assert(to[k] == y);
                } else {
                    assert(to[k + 1] == y);
                }
            }
        }
    }
    assert(to.to_set() =~= list.to_set().insert(x));
    assert(to[at] == x);
    lemma_index_in_unique(to, at);
}

/// Taking an item out of a list without repeats leaves it without repeats,
/// with that one item less.
pub proof fn lemma_remove_at<A>(list: Seq<A>, at: int)
    requires
        list.no_duplicates(),
        0 <= at < list.len(),
    ensures
        list.remove(at).no_duplicates(),
        list.remove(at).to_set() == list.to_set().remove(list[at]),
        !list.remove(at).contains(list[at]),
{
    let to = list.remove(at);
    assert forall|i: int, j: int| 0 <= i < to.len() && 0 <= j < to.len() && i != j implies to[i]
        != to[j] by {
        let si = if i < at { i } else { i + 1 };
        let sj = if j < at { j } else { j + 1 };
        assert(list[si] != list[sj]);
    }
    assert forall|y: A| to.to_set().contains(y) <==> list.to_set().remove(list[at]).contains(
        y,
    ) by {
        if to.to_set().contains(y) {
            let k = choose|k: int| 0 <= k < to.len() && to[k] == y;
            let sk = if k < at { k } else { k + 1 };
            assert(list[sk] == y);
        }
        if list.to_set().remove(list[at]).contains(y) {
            let k = choose|k: int| 0 <= k < list.len() && list[k] == y;
            if k < at {
                assert(to[k] == y);
            } else {
                assert(to[k - 1] == y);
            }
        }
    }
    assert(to.to_set() =~= list.to_set().remove(list[at]));
    if to.contains(list[at]) {
        let k = choose|k: int| 0 <= k < to.len() && to[k] == list[at];
        let sk = if k < at { k } else { k + 1 };
        assert(list[sk] == list[at]);
    }
}

/// Keeping only some items of a list without repeats leaves a list without
/// repeats, whose items are items of the first.
pub proof fn lemma_filter_no_duplicates(list: Seq<u64>, pred: spec_fn(u64) -> bool)
    requires
        list.no_duplicates(),
    ensures
        list.filter(pred).no_duplicates(),
        forall|x: u64| list.filter(pred).contains(x) <==> list.contains(x) && pred(x),
    decreases list.len(),
{
    reveal(Seq::filter);
    broadcast use vstd::seq_lib::group_filter_ensures;

    let f = list.filter(pred);
    if list.len() > 0 {
        let init = list.drop_last();
        let last = list.last();
        lemma_filter_no_duplicates(init, pred);
        if pred(last) {
            assert(f =~= init.filter(pred).push(last));
            assert(!init.contains(last));
        }
        assert forall|x: u64| list.contains(x) && pred(x) implies f.contains(x) by {
            let k = choose|k: int| 0 <= k < list.len() && list[k] == x;
            if k < init.len() {
                assert(init[k] == x);
                assert(init.filter(pred).contains(x));
                let m = choose|m: int| 0 <= m < init.filter(pred).len() && init.filter(pred)[m] == x;
                assert(f[m] == x);
            } else {
                assert(f[f.len() - 1] == x);
            }
        }
        assert forall|x: u64| f.contains(x) implies list.contains(x) && pred(x) by {
            list.lemma_filter_contains_rev(pred, x);
        }
    }
}

/// `i` brought into `0..len`, to the nearer end.
pub open spec fn clamp(i: int, len: int) -> int {
    if i < 0 {
        0
    } else if i >= len {
        len - 1
    } else {
        i
    }
}

/// The item `offset` places from `from` in `list`, stopping at the ends.
pub open spec fn at_offset(list: Seq<u64>, from: u64, offset: int) -> u64 {
    list[clamp(index_in(list, from) + offset, list.len() as int)]
}

/// The card `offset` places from an item of a list is an item of the list.
pub proof fn lemma_at_offset_in_list(list: Seq<u64>, from: u64, offset: int)
    requires
        list.contains(from),
    ensures
        list.contains(at_offset(list, from, offset)),
{
    lemma_index_in(list, from);
    let to = clamp(index_in(list, from) + offset, list.len() as int);
    assert(list[to] == at_offset(list, from, offset));
}

/// The item `offset` places from `from` in `list`, if there is such a place.
pub open spec fn neighbour(list: Seq<u64>, from: u64, offset: int) -> Option<u64> {
    if 0 <= index_in(list, from) < list.len() && 0 <= index_in(list, from) + offset < list.len() {
        Some(list[index_in(list, from) + offset])
    } else {
        None
    }
}

/// In a list without repeats a neighbour of an item is another item.
pub proof fn lemma_neighbour_differs(list: Seq<u64>, from: u64, offset: int)
    requires
        list.no_duplicates(),
        offset != 0,
    ensures
        neighbour(list, from, offset) matches Some(to) ==> to != from && list.contains(to),
{
    lemma_index_in(list, from);
}

/// The other items of `list` by their distance from position `pos`, starting
/// at distance `d`: at each distance the one below comes before the one
/// above.
pub open spec fn by_distance(list: Seq<u64>, pos: int, d: int) -> Seq<u64>
    decreases list.len() + 1 - d,
{
    if d < 1 || pos < 0 || pos >= list.len() || (pos + d >= list.len() && pos - d < 0) {
        Seq::empty()
    } else {
        let below = if pos + d < list.len() {
            seq![list[pos + d]]
        } else {
            Seq::empty()
        };
        let above = if pos - d >= 0 {
            seq![list[pos - d]]
        } else {
            Seq::empty()
        };
        below + above + by_distance(list, pos, d + 1)
    }
}

/// Every other item of the list that is at least `d` places from `pos` is
/// among those listed by distance from `d` on.
pub proof fn lemma_by_distance_contains(list: Seq<u64>, pos: int, d: int, k: int)
    requires
        0 <= pos < list.len(),
        0 <= k < list.len(),
        1 <= d,
        k - pos >= d || pos - k >= d,
    ensures
        by_distance(list, pos, d).contains(list[k]),
    decreases list.len() + 1 - d,
{
    let rest = by_distance(list, pos, d + 1);
    let all = by_distance(list, pos, d);
    if k - pos == d {
        assert(all[0] == list[k]);
    } else if pos - k == d {
        if pos + d < list.len() {
            assert(all[1] == list[k]);
        } else {
            assert(all[0] == list[k]);
        }
    } else {
        lemma_by_distance_contains(list, pos, d + 1, k);
        let m = choose|m: int| 0 <= m < rest.len() && rest[m] == list[k];
        assert(all[all.len() - rest.len() + m] == list[k]);
    }
}

} // verus!
