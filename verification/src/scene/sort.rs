//! A stable merge sort.

use vstd::prelude::*;

verus! {

/// A value that is sorted by a number of its own.
pub trait Ranked: Sized {
    spec fn rank(self) -> int;

    /// Whether this value sorts at or before `other`.
    fn ranks_at_most(&self, other: &Self) -> (r: bool)
        ensures
            r == (self.rank() <= other.rank()),
    ;
}

pub open spec fn by_rank<T: Ranked>() -> spec_fn(T) -> int {
    |item: T| item.rank()
}

/// The test for having the key `k`.
pub open spec fn keyed<T>(key: spec_fn(T) -> int, k: int) -> spec_fn(T) -> bool {
    |item: T| key(item) == k
}

pub open spec fn is_sorted<T>(items: Seq<T>, key: spec_fn(T) -> int) -> bool {
    forall|i: int, j: int| 0 <= i <= j < items.len() ==> key(items[i]) <= key(items[j])
}

/// Whether `sorted` holds the items of `items` in the order of their keys, items
/// of the same key in the order they had.
pub open spec fn is_stable_sort<T>(items: Seq<T>, sorted: Seq<T>, key: spec_fn(T) -> int) -> bool {
    &&& is_sorted(sorted, key)
    &&& forall|k: int|
        #![trigger sorted.filter(keyed(key, k))]
        sorted.filter(keyed(key, k)) == items.filter(keyed(key, k))
}

/// The one stable sort of `items`.
pub open spec fn stable_sort<T>(items: Seq<T>, key: spec_fn(T) -> int) -> Seq<T> {
    choose|sorted: Seq<T>| is_stable_sort(items, sorted, key)
}

proof fn lemma_filter_last<T>(items: Seq<T>, key: spec_fn(T) -> int, k: int)
    requires
        items.len() > 0,
    ensures
        items.filter(keyed(key, k)) == if key(items.last()) == k {
            items.drop_last().filter(keyed(key, k)).push(items.last())
        } else {
            items.drop_last().filter(keyed(key, k))
        },
{
    reveal(Seq::filter);
}

/// An item whose key no other item may exceed is found among those of its key.
proof fn lemma_key_is_there<T>(items: Seq<T>, i: int, key: spec_fn(T) -> int)
    requires
        0 <= i < items.len(),
    ensures
        items.filter(keyed(key, key(items[i]))).len() > 0,
    decreases items.len(),
{
    let k = key(items[i]);
    lemma_filter_last(items, key, k);
    if i < items.len() - 1 {
        lemma_key_is_there(items.drop_last(), i, key);
    }
}

proof fn lemma_key_has_an_item<T>(items: Seq<T>, key: spec_fn(T) -> int, k: int) -> (i: int)
    requires
        items.filter(keyed(key, k)).len() > 0,
    ensures
        0 <= i < items.len(),
        key(items[i]) == k,
    decreases items.len(),
{
    reveal(Seq::filter);
    if items.len() == 0 {
        0
    } else {
        lemma_filter_last(items, key, k);
        if key(items.last()) == k {
            items.len() - 1
        } else {
            lemma_key_has_an_item(items.drop_last(), key, k)
        }
    }
}

/// No two sequences are both the stable sort of one.
pub proof fn stable_sort_is_unique<T>(
    items: Seq<T>,
    one: Seq<T>,
    other: Seq<T>,
    key: spec_fn(T) -> int,
)
    requires
        is_stable_sort(items, one, key),
        is_stable_sort(items, other, key),
    ensures
        one == other,
{
    assert forall|k: int| #[trigger]
        one.filter(keyed(key, k)) == other.filter(keyed(key, k)) by {
        assert(other.filter(keyed(key, k)) == items.filter(keyed(key, k)));
    }
    lemma_sorted_unique(one, other, key);
}

proof fn lemma_sorted_unique<T>(one: Seq<T>, other: Seq<T>, key: spec_fn(T) -> int)
    requires
        is_sorted(one, key),
        is_sorted(other, key),
        forall|k: int| #[trigger] one.filter(keyed(key, k)) == other.filter(keyed(key, k)),
    ensures
        one == other,
    decreases one.len(),
{
    if one.len() == 0 {
        if other.len() > 0 {
            lemma_key_is_there(other, 0, key);
            let k = key(other[0]);
            assert(one.filter(keyed(key, k)) == other.filter(keyed(key, k)));
            let i = lemma_key_has_an_item(one, key, k);
        }
        assert(one =~= other);
    } else {
        let k = key(one.last());
        lemma_key_is_there(one, one.len() - 1, key);
        assert(one.filter(keyed(key, k)) == other.filter(keyed(key, k)));
        let i = lemma_key_has_an_item(other, key, k);
        let m = key(other.last());
        lemma_key_is_there(other, other.len() - 1, key);
        assert(one.filter(keyed(key, m)) == other.filter(keyed(key, m)));
        let j = lemma_key_has_an_item(one, key, m);
        assert(k == m);
        lemma_filter_last(one, key, k);
        lemma_filter_last(other, key, k);
        let a = one.drop_last().filter(keyed(key, k));
        let b = other.drop_last().filter(keyed(key, k));
        assert(a.push(one.last()).last() == b.push(other.last()).last());
        assert(a.push(one.last()).drop_last() =~= a);
        assert(b.push(other.last()).drop_last() =~= b);
        assert forall|n: int| #[trigger]
            one.drop_last().filter(keyed(key, n)) == other.drop_last().filter(keyed(key, n)) by {
            assert(one.filter(keyed(key, n)) == other.filter(keyed(key, n)));
            lemma_filter_last(one, key, n);
            lemma_filter_last(other, key, n);
        }
        lemma_sorted_unique(one.drop_last(), other.drop_last(), key);
        assert(one =~= one.drop_last().push(one.last()));
        assert(other =~= other.drop_last().push(other.last()));
    }
}


/// Every sequence has a stable sort.
pub proof fn stable_sort_exists<T>(items: Seq<T>, key: spec_fn(T) -> int)
    ensures
        is_stable_sort(items, stable_sort(items, key), key),
{
    let sorted = lemma_insertion_sort(items, key);
    assert(is_stable_sort(items, sorted, key));
}

proof fn lemma_insertion_sort<T>(items: Seq<T>, key: spec_fn(T) -> int) -> (sorted: Seq<T>)
    ensures
        is_stable_sort(items, sorted, key),
    decreases items.len(),
{
    if items.len() == 0 {
        items
    } else {
        let before = lemma_insertion_sort(items.drop_last(), key);
        let sorted = lemma_insert_last(before, items.last(), key);
        assert forall|k: int| #[trigger]
            sorted.filter(keyed(key, k)) == items.filter(keyed(key, k)) by {
            lemma_filter_last(items, key, k);
            assert(before.filter(keyed(key, k)) == items.drop_last().filter(keyed(key, k)));
            lemma_filter_last(before.push(items.last()), key, k);
            assert(before.push(items.last()).drop_last() =~= before);
        }
        sorted
    }
}

/// An item can be put behind the items of its key or less.
proof fn lemma_insert_last<T>(before: Seq<T>, item: T, key: spec_fn(T) -> int) -> (sorted: Seq<T>)
    requires
        is_sorted(before, key),
    ensures
        is_sorted(sorted, key),
        forall|k: int| #[trigger]
            sorted.filter(keyed(key, k)) == before.push(item).filter(keyed(key, k)),
        forall|i: int| 0 <= i < sorted.len() ==> (sorted[i] == item || exists|j: int|
            0 <= j < before.len() && #[trigger] before[j] == sorted[i]),
    decreases before.len(),
{
    if before.len() == 0 || key(before.last()) <= key(item) {
        assert forall|i: int| 0 <= i < before.push(item).len() implies (before.push(item)[i]
            == item || exists|j: int|
            0 <= j < before.len() && #[trigger] before[j] == before.push(item)[i]) by {
            if i < before.len() {
                assert(before[i] == before.push(item)[i]);
            }
        }
        before.push(item)
    } else {
        let rest = lemma_insert_last(before.drop_last(), item, key);
        let sorted = rest.push(before.last());
        assert forall|i: int| 0 <= i < rest.len() implies key(#[trigger] rest[i]) <= key(
            before.last(),
        ) by {
            if rest[i] != item {
                let j = choose|j: int|
                    0 <= j < before.drop_last().len() && #[trigger] before.drop_last()[j]
                        == rest[i];
                assert(before[j] == rest[i]);
            }
        }
        assert forall|i: int| 0 <= i < sorted.len() implies (sorted[i] == item || exists|j: int|
            0 <= j < before.len() && #[trigger] before[j] == sorted[i]) by {
            if i < rest.len() {
                if rest[i] != item {
                    let j = choose|j: int|
                        0 <= j < before.drop_last().len() && #[trigger] before.drop_last()[j]
                            == rest[i];
                    assert(before[j] == sorted[i]);
                }
            } else {
                assert(before[before.len() - 1] == sorted[i]);
            }
        }
        assert forall|k: int| #[trigger]
            sorted.filter(keyed(key, k)) == before.push(item).filter(keyed(key, k)) by {
            lemma_filter_last(sorted, key, k);
            assert(sorted.drop_last() =~= rest);
            assert(rest.filter(keyed(key, k)) == before.drop_last().push(item).filter(
                keyed(key, k),
            ));
            lemma_filter_last(before.drop_last().push(item), key, k);
            assert(before.drop_last().push(item).drop_last() =~= before.drop_last());
            lemma_filter_last(before.push(item), key, k);
            assert(before.push(item).drop_last() =~= before);
            lemma_filter_last(before, key, k);
        }
        sorted
    }
}

/// What is known half-way through a merge: what is left of either side, and
/// what has been placed behind it, hold every key's items in order.
spec fn is_merging<T>(
    left: Seq<T>,
    right: Seq<T>,
    placed: Seq<T>,
    whole: Seq<T>,
    key: spec_fn(T) -> int,
) -> bool {
    &&& is_sorted(left, key)
    &&& is_sorted(right, key)
    &&& is_sorted(placed, key)
    &&& forall|i: int, j: int|
        0 <= i < left.len() && 0 <= j < placed.len() ==> key(left[i]) <= key(placed[j])
    &&& forall|i: int, j: int|
        0 <= i < right.len() && 0 <= j < placed.len() ==> key(right[i]) <= key(placed[j])
    &&& forall|k: int| #[trigger]
        whole.filter(keyed(key, k)) == left.filter(keyed(key, k)) + right.filter(keyed(key, k))
            + placed.filter(keyed(key, k))
}

proof fn lemma_take_left<T>(
    left: Seq<T>,
    right: Seq<T>,
    placed: Seq<T>,
    whole: Seq<T>,
    key: spec_fn(T) -> int,
)
    requires
        is_merging(left, right, placed, whole, key),
        left.len() > 0,
        right.len() > 0 ==> key(right.last()) < key(left.last()),
    ensures
        is_merging(left.drop_last(), right, seq![left.last()] + placed, whole, key),
{
    let item = left.last();
    let after = seq![item] + placed;
    assert forall|k: int| #[trigger]
        whole.filter(keyed(key, k)) == left.drop_last().filter(keyed(key, k)) + right.filter(
            keyed(key, k),
        ) + after.filter(keyed(key, k)) by {
        lemma_filter_last(left, key, k);
        placed.lemma_filter_prepend(item, keyed(key, k));
        if k == key(item) {
            assert forall|i: int| 0 <= i < right.len() implies !keyed(key, k)(
                #[trigger] right[i],
            ) by {
            }
            right.lemma_all_neg_filter_empty(keyed(key, k));
        }
        assert(whole.filter(keyed(key, k)) =~= left.drop_last().filter(keyed(key, k))
            + right.filter(keyed(key, k)) + after.filter(keyed(key, k)));
    }
}

proof fn lemma_take_right<T>(
    left: Seq<T>,
    right: Seq<T>,
    placed: Seq<T>,
    whole: Seq<T>,
    key: spec_fn(T) -> int,
)
    requires
        is_merging(left, right, placed, whole, key),
        right.len() > 0,
        left.len() > 0 ==> key(left.last()) <= key(right.last()),
    ensures
        is_merging(left, right.drop_last(), seq![right.last()] + placed, whole, key),
{
    let item = right.last();
    let after = seq![item] + placed;
    assert forall|k: int| #[trigger]
        whole.filter(keyed(key, k)) == left.filter(keyed(key, k)) + right.drop_last().filter(
            keyed(key, k),
        ) + after.filter(keyed(key, k)) by {
        lemma_filter_last(right, key, k);
        placed.lemma_filter_prepend(item, keyed(key, k));
        assert(whole.filter(keyed(key, k)) =~= left.filter(keyed(key, k))
            + right.drop_last().filter(keyed(key, k)) + after.filter(keyed(key, k)));
    }
}

/// Turn a vector end for end.
fn reversed<T>(items: Vec<T>) -> (r: Vec<T>)
    ensures
        r@ == items@.reverse(),
{
    let mut items = items;
    let ghost whole = items@;
    let mut r: Vec<T> = Vec::new();
    while items.len() > 0
        invariant
            items@.len() + r@.len() == whole.len(),
            items@ == whole.take(items@.len() as int),
            r@ == whole.skip(items@.len() as int).reverse(),
        decreases items@.len(),
    {
        let ghost n = items@.len();
        if let Some(item) = items.pop() {
            r.push(item);
            proof {
                assert(items@ =~= whole.take(n - 1));
                assert(r@ =~= whole.skip(n - 1).reverse());
            }
        }
    }
    assert(whole.skip(0) =~= whole);
    r
}

/// The items of both, where `left` stood before `right`, in order.
fn merged<T: Ranked>(left: Vec<T>, right: Vec<T>) -> (r: Vec<T>)
    requires
        is_sorted(left@, by_rank::<T>()),
        is_sorted(right@, by_rank::<T>()),
    ensures
        is_stable_sort(left@ + right@, r@, by_rank::<T>()),
{
    let ghost whole = left@ + right@;
    let ghost key = by_rank::<T>();
    let mut left = left;
    let mut right = right;
    let mut placed: Vec<T> = Vec::new();
    proof {
        assert forall|k: int| #[trigger]
            whole.filter(keyed(key, k)) == left@.filter(keyed(key, k)) + right@.filter(
                keyed(key, k),
            ) + placed@.reverse().filter(keyed(key, k)) by {
            Seq::filter_distributes_over_add(left@, right@, keyed(key, k));
            reveal(Seq::filter);
            assert(placed@.reverse() =~= Seq::<T>::empty());
            assert(whole.filter(keyed(key, k)) =~= left@.filter(keyed(key, k)) + right@.filter(
                keyed(key, k),
            ) + placed@.reverse().filter(keyed(key, k)));
        }
    }
    while left.len() > 0 || right.len() > 0
        invariant
            key == by_rank::<T>(),
            is_merging(left@, right@, placed@.reverse(), whole, key),
        decreases left@.len() + right@.len(),
    {
        let ghost l = left@;
        let ghost r = right@;
        let ghost p = placed@;
        let take_right = if right.len() == 0 {
            false
        } else if left.len() == 0 {
            true
        } else {
            left[left.len() - 1].ranks_at_most(&right[right.len() - 1])
        };
        if take_right {
            proof {
                lemma_take_right(l, r, p.reverse(), whole, key);
            }
            if let Some(item) = right.pop() {
                placed.push(item);
                proof {
                    assert(right@ =~= r.drop_last());
                    assert(placed@.reverse() =~= seq![r.last()] + p.reverse());
                }
            }
        } else {
            proof {
                lemma_take_left(l, r, p.reverse(), whole, key);
            }
            if let Some(item) = left.pop() {
                placed.push(item);
                proof {
                    assert(left@ =~= l.drop_last());
                    assert(placed@.reverse() =~= seq![l.last()] + p.reverse());
                }
            }
        }
    }
    let r = reversed(placed);
    proof {
        assert forall|k: int| #[trigger] r@.filter(keyed(key, k)) == whole.filter(keyed(key, k)) by {
            reveal(Seq::filter);
            assert(whole.filter(keyed(key, k)) =~= r@.filter(keyed(key, k)));
        }
    }
    r
}

/// `items` in the order of their ranks, items of one rank in the order they had.
pub fn merge_sorted<T: Ranked>(items: Vec<T>) -> (r: Vec<T>)
    ensures
        is_stable_sort(items@, r@, by_rank::<T>()),
        r@ == stable_sort(items@, by_rank::<T>()),
    decreases items@.len(),
{
    let ghost whole = items@;
    let ghost key = by_rank::<T>();
    let mut left = items;
    let r = if left.len() <= 1 {
        left
    } else {
        let right = left.split_off(left.len() / 2);
        let ghost l = left@;
        let ghost r = right@;
        let left = merge_sorted(left);
        let right = merge_sorted(right);
        let r = merged(left, right);
        proof {
            assert(whole =~= l + right_of(whole));
            assert forall|k: int| #[trigger]
                r@.filter(keyed(key, k)) == whole.filter(keyed(key, k)) by {
                Seq::filter_distributes_over_add(left@, right@, keyed(key, k));
                Seq::filter_distributes_over_add(l, right_of(whole), keyed(key, k));
                assert(left@.filter(keyed(key, k)) == l.filter(keyed(key, k)));
                assert(right@.filter(keyed(key, k)) == right_of(whole).filter(keyed(key, k)));
                assert((left@ + right@).filter(keyed(key, k)) == whole.filter(keyed(key, k)));
            }
        }
        r
    };
    proof {
        let named = stable_sort(whole, key);
        assert(is_stable_sort(whole, r@, key));
        stable_sort_is_unique(whole, r@, named, key);
    }
    r
}

spec fn right_of<T>(whole: Seq<T>) -> Seq<T> {
    whole.skip((whole.len() / 2) as int)
}

/// Put `items[start..end]` in order, and leave the rest where it is.
pub fn sort_range<T: Ranked>(items: &mut Vec<T>, start: usize, end: usize)
    requires
        start <= end <= old(items)@.len(),
    ensures
        final(items)@ == old(items)@.take(start as int) + stable_sort(
            old(items)@.subrange(start as int, end as int),
            by_rank::<T>(),
        ) + old(items)@.skip(end as int),
        final(items)@.len() == old(items)@.len(),
{
    let ghost whole = items@;
    let mut after = items.split_off(end);
    let run = items.split_off(start);
    assert(run@ =~= whole.subrange(start as int, end as int));
    let mut sorted = merge_sorted(run);
    proof {
        stable_sort_keeps_len(run@, sorted@, by_rank::<T>());
    }
    items.append(&mut sorted);
    items.append(&mut after);
}

/// Sorting keeps the number of items.
pub proof fn stable_sort_keeps_len<T>(items: Seq<T>, sorted: Seq<T>, key: spec_fn(T) -> int)
    requires
        is_stable_sort(items, sorted, key),
    ensures
        sorted.len() == items.len(),
        sorted.to_multiset() == items.to_multiset(),
{
    assert forall|k: int| #[trigger] items.filter(keyed(key, k)) == sorted.filter(keyed(key, k)) by {
        assert(sorted.filter(keyed(key, k)) == items.filter(keyed(key, k)));
    }
    lemma_same_keys_same_items(items, sorted, key);
    items.to_multiset_ensures();
    sorted.to_multiset_ensures();
}

proof fn lemma_same_keys_same_items<T>(items: Seq<T>, sorted: Seq<T>, key: spec_fn(T) -> int)
    requires
        forall|k: int| #[trigger] items.filter(keyed(key, k)) == sorted.filter(keyed(key, k)),
    ensures
        sorted.to_multiset() == items.to_multiset(),
{
    broadcast use vstd::multiset::group_multiset_axioms;

    assert forall|item: T| #[trigger]
        items.to_multiset().count(item) == sorted.to_multiset().count(item) by {
        lemma_count_in_key(items, item, key);
        lemma_count_in_key(sorted, item, key);
        assert(items.filter(keyed(key, key(item))) == sorted.filter(keyed(key, key(item))));
    }
    assert(sorted.to_multiset() =~= items.to_multiset());
}

proof fn lemma_count_in_key<T>(items: Seq<T>, item: T, key: spec_fn(T) -> int)
    ensures
        items.to_multiset().count(item) == items.filter(keyed(key, key(item))).to_multiset().count(
            item,
        ),
    decreases items.len(),
{
    broadcast use vstd::multiset::group_multiset_axioms;
    broadcast use vstd::seq_lib::group_to_multiset_ensures;

    reveal(Seq::filter);
    if items.len() > 0 {
        let rest = items.drop_last();
        lemma_count_in_key(rest, item, key);
        lemma_filter_last(items, key, key(item));
        assert(items =~= rest.push(items.last()));
        assert(items.to_multiset() == rest.to_multiset().insert(items.last()));
    }
}

} // verus!
