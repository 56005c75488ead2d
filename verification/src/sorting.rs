//! Stable sorting by an integer key, as a specification, and what it
//! guarantees.

use vstd::prelude::*;

verus! {

/// The sorted sequence `s` with `e` put in behind every element whose key
/// is not larger.
pub open spec fn insert_sorted<T>(s: Seq<T>, e: T, key: spec_fn(T) -> int) -> Seq<T>
    decreases s.len(),
{
    if s.len() == 0 {
        seq![e]
    } else if key(s.last()) <= key(e) {
        s.push(e)
    } else {
        insert_sorted(s.drop_last(), e, key).push(s.last())
    }
}

/// The elements of `s` in ascending order of their keys. Elements with the
/// same key stay in the order they had.
pub open spec fn stable_sort<T>(s: Seq<T>, key: spec_fn(T) -> int) -> Seq<T>
    decreases s.len(),
{
    if s.len() == 0 {
        s
    } else {
        insert_sorted(stable_sort(s.drop_last(), key), s.last(), key)
    }
}

/// The keys do not fall from left to right.
pub open spec fn is_sorted<T>(s: Seq<T>, key: spec_fn(T) -> int) -> bool {
    forall|i: int, j: int| 0 <= i <= j < s.len() ==> key(s[i]) <= key(s[j])
}

/// Where `e` goes: behind the last element whose key is not larger.
pub open spec fn is_insert_position<T>(s: Seq<T>, e: T, key: spec_fn(T) -> int, pos: int) -> bool {
    &&& 0 <= pos <= s.len()
    &&& forall|k: int| pos <= k < s.len() ==> key(#[trigger] s[k]) > key(e)
    &&& pos > 0 ==> key(s[pos - 1]) <= key(e)
}

/// Putting `e` in is inserting it at its position.
pub proof fn lemma_insert_sorted_at<T>(s: Seq<T>, e: T, key: spec_fn(T) -> int, pos: int)
    requires
        is_insert_position(s, e, key, pos),
    ensures
        insert_sorted(s, e, key) == s.insert(pos, e),
    decreases s.len(),
{
    if s.len() == 0 {
        assert(seq![e] =~= s.insert(pos, e));
    } else if key(s.last()) <= key(e) {
        assert(pos == s.len());
        assert(s.push(e) =~= s.insert(pos, e));
    } else {
        assert(pos < s.len());
        let s0 = s.drop_last();
        assert forall|k: int| pos <= k < s0.len() implies key(#[trigger] s0[k]) > key(e) by {
            assert(s0[k] == s[k]);
        }
        lemma_insert_sorted_at(s0, e, key, pos);
        assert(s0.insert(pos, e).push(s.last()) =~= s.insert(pos, e));
    }
}

/// Putting an element into a sorted sequence keeps it sorted, adds one to its
/// length, and brings in nothing but the element.
pub proof fn lemma_insert_sorted_properties<T>(s: Seq<T>, e: T, key: spec_fn(T) -> int)
    requires
        is_sorted(s, key),
    ensures
        is_sorted(insert_sorted(s, e, key), key),
        insert_sorted(s, e, key).len() == s.len() + 1,
        insert_sorted(s, e, key).to_multiset() == s.to_multiset().insert(e),
        forall|k: int|
            0 <= k < s.len() + 1 ==> {
                let r = #[trigger] insert_sorted(s, e, key)[k];
                r == e || s.contains(r)
            },
    decreases s.len(),
{
    broadcast use vstd::seq_lib::group_to_multiset_ensures;

    let r = insert_sorted(s, e, key);
    if s.len() == 0 {
        assert(s =~= Seq::<T>::empty());
        assert(r =~= Seq::<T>::empty().push(e));
    } else if key(s.last()) <= key(e) {
        assert forall|i: int, j: int| 0 <= i <= j < r.len() implies key(r[i]) <= key(r[j]) by {
            if j == s.len() {
                if i < s.len() {
                    assert(key(s[i]) <= key(s[s.len() - 1]));
                }
            }
        }
        assert forall|k: int| 0 <= k < s.len() + 1 implies ({
            let x = #[trigger] r[k];
            x == e || s.contains(x)
        }) by {
            if k < s.len() {
                assert(s[k] == r[k]);
            }
        }
    } else {
        let s0 = s.drop_last();
        assert(is_sorted(s0, key)) by {
            assert forall|i: int, j: int| 0 <= i <= j < s0.len() implies key(s0[i]) <= key(s0[j]) by {
                assert(s0[i] == s[i] && s0[j] == s[j]);
            }
        }
        lemma_insert_sorted_properties(s0, e, key);
        let r0 = insert_sorted(s0, e, key);
        assert(r == r0.push(s.last()));
        assert forall|i: int, j: int| 0 <= i <= j < r.len() implies key(r[i]) <= key(r[j]) by {
            if j == r0.len() {
                if i < r0.len() {
                    let x = r0[i];
                    if x == e {
                    } else {
                        assert(s0.contains(x));
                        let w = choose|w: int| 0 <= w < s0.len() && s0[w] == x;
                        assert(key(s[w]) <= key(s[s.len() - 1]));
                    }
                }
            }
        }
        assert forall|k: int| 0 <= k < s.len() + 1 implies ({
            let x = #[trigger] r[k];
            x == e || s.contains(x)
        }) by {
            if k < r0.len() {
                let x = r0[k];
                if x != e {
                    let w = choose|w: int| 0 <= w < s0.len() && s0[w] == x;
                    assert(s[w] == x);
                }
            } else {
                assert(s[s.len() - 1] == r[k]);
            }
        }
        assert(s =~= s0.push(s.last()));
        assert(r.to_multiset() =~= s.to_multiset().insert(e));
    }
}

/// A stable sort gives a sorted sequence with the same elements, each as
/// often as before.
pub proof fn lemma_stable_sort_properties<T>(s: Seq<T>, key: spec_fn(T) -> int)
    ensures
        is_sorted(stable_sort(s, key), key),
        stable_sort(s, key).len() == s.len(),
        stable_sort(s, key).to_multiset() == s.to_multiset(),
        forall|k: int| 0 <= k < s.len() ==> s.contains(#[trigger] stable_sort(s, key)[k]),
    decreases s.len(),
{
    broadcast use vstd::seq_lib::group_to_multiset_ensures;

    if s.len() > 0 {
        let s0 = s.drop_last();
        lemma_stable_sort_properties(s0, key);
        let r0 = stable_sort(s0, key);
        lemma_insert_sorted_properties(r0, s.last(), key);
        let r = stable_sort(s, key);
        assert(s =~= s0.push(s.last()));
        assert forall|k: int| 0 <= k < s.len() implies s.contains(#[trigger] r[k]) by {
            let x = r[k];
            if x == s.last() {
                assert(s[s.len() - 1] == x);
            } else {
                assert(r0.contains(x));
                let w = choose|w: int| 0 <= w < r0.len() && r0[w] == x;
                assert(s0.contains(r0[w]));
                let w2 = choose|w2: int| 0 <= w2 < s0.len() && s0[w2] == x;
                assert(s[w2] == x);
            }
        }
    }
}

/// A sequence that is sorted already stays as it is.
pub proof fn lemma_stable_sort_of_sorted<T>(s: Seq<T>, key: spec_fn(T) -> int)
    requires
        is_sorted(s, key),
    ensures
        stable_sort(s, key) == s,
    decreases s.len(),
{
    if s.len() > 0 {
        let s0 = s.drop_last();
        assert(is_sorted(s0, key)) by {
            assert forall|i: int, j: int| 0 <= i <= j < s0.len() implies key(s0[i]) <= key(s0[j]) by {
                assert(s0[i] == s[i] && s0[j] == s[j]);
            }
        }
        lemma_stable_sort_of_sorted(s0, key);
        if s0.len() > 0 {
            assert(key(s[s0.len() - 1]) <= key(s[s.len() - 1]));
            assert(s0.last() == s[s0.len() - 1]);
        }
        assert(s0.push(s.last()) =~= s);
        if s0.len() == 0 {
            assert(seq![s.last()] =~= s);
        }
    }
}

/// Filtering twice, the second time by a condition that implies the first,
/// is filtering by the second condition.
pub proof fn lemma_filter_filter<T>(s: Seq<T>, first: spec_fn(T) -> bool, second: spec_fn(T) -> bool)
    requires
        forall|x: T| #[trigger] second(x) ==> first(x),
    ensures
        s.filter(first).filter(second) == s.filter(second),
    decreases s.len(),
{
    reveal(Seq::filter);
    if s.len() > 0 {
        let rest = s.drop_last();
        lemma_filter_filter(rest, first, second);
        if first(s.last()) {
            rest.filter(first).lemma_filter_push(s.last(), second);
        }
    }
}

/// Filtering after every element was changed, by a condition that the change
/// does not touch, is changing every element after filtering.
pub proof fn lemma_filter_map_values<T>(s: Seq<T>, change: spec_fn(T) -> T, pred: spec_fn(T) -> bool)
    requires
        forall|x: T| #[trigger] pred(change(x)) == pred(x),
    ensures
        s.map_values(change).filter(pred) == s.filter(pred).map_values(change),
    decreases s.len(),
{
    reveal(Seq::filter);
    if s.len() > 0 {
        let rest = s.drop_last();
        lemma_filter_map_values(rest, change, pred);
        assert(s.map_values(change).drop_last() =~= rest.map_values(change));
        assert(s.map_values(change).last() == change(s.last()));
        if pred(s.last()) {
            assert(rest.filter(pred).push(s.last()).map_values(change) =~= rest.filter(pred).map_values(change).push(
                change(s.last()),
            ));
        }
    } else {
        assert(s.map_values(change) =~= Seq::<T>::empty());
        assert(s.filter(pred).map_values(change) =~= Seq::<T>::empty());
    }
}

/// Filtering a sorted sequence after an element was put in is putting the
/// element, if it passes, into the filtered sequence.
pub proof fn lemma_filter_insert_sorted<T>(s: Seq<T>, e: T, key: spec_fn(T) -> int, pred: spec_fn(T) -> bool)
    requires
        is_sorted(s, key),
    ensures
        insert_sorted(s, e, key).filter(pred) == if pred(e) {
            insert_sorted(s.filter(pred), e, key)
        } else {
            s.filter(pred)
        },
    decreases s.len(),
{
    reveal(Seq::filter);
    if s.len() == 0 {
        assert(seq![e].drop_last() =~= Seq::<T>::empty());
        assert(s.filter(pred) =~= Seq::<T>::empty());
        if pred(e) {
            assert(seq![e].filter(pred) =~= seq![e]);
        } else {
            assert(seq![e].filter(pred) =~= Seq::<T>::empty());
        }
    } else if key(s.last()) <= key(e) {
        s.lemma_filter_push(e, pred);
        if pred(e) {
            let f = s.filter(pred);
            if f.len() > 0 {
                assert(f.contains(f.last()));
                s.lemma_filter_contains_rev(pred, f.last());
                let w = choose|w: int| 0 <= w < s.len() && s[w] == f.last();
                assert(key(s[w]) <= key(s[s.len() - 1]));
            }
        }
    } else {
        let rest = s.drop_last();
        assert(is_sorted(rest, key)) by {
            assert forall|i: int, j: int| 0 <= i <= j < rest.len() implies key(rest[i]) <= key(rest[j]) by {
                assert(rest[i] == s[i] && rest[j] == s[j]);
            }
        }
        lemma_filter_insert_sorted(rest, e, key, pred);
        insert_sorted(rest, e, key).lemma_filter_push(s.last(), pred);
        if pred(s.last()) && pred(e) {
            let f = rest.filter(pred).push(s.last());
            assert(f.drop_last() =~= rest.filter(pred));
            assert(f.last() == s.last());
        }
    }
}

/// Filtering a sequence after sorting it is sorting it after filtering it.
pub proof fn lemma_filter_stable_sort<T>(s: Seq<T>, key: spec_fn(T) -> int, pred: spec_fn(T) -> bool)
    ensures
        stable_sort(s, key).filter(pred) == stable_sort(s.filter(pred), key),
    decreases s.len(),
{
    reveal(Seq::filter);
    if s.len() > 0 {
        let rest = s.drop_last();
        lemma_filter_stable_sort(rest, key, pred);
        lemma_stable_sort_properties(rest, key);
        lemma_filter_insert_sorted(stable_sort(rest, key), s.last(), key, pred);
        if pred(s.last()) {
            let f = rest.filter(pred).push(s.last());
            assert(f.drop_last() =~= rest.filter(pred));
            assert(f.last() == s.last());
        }
    } else {
        assert(s.filter(pred) =~= Seq::<T>::empty());
    }
}

/// A sequence of one element or none is sorted as it is.
pub proof fn lemma_stable_sort_short<T>(s: Seq<T>, key: spec_fn(T) -> int)
    requires
        s.len() <= 1,
    ensures
        stable_sort(s, key) == s,
{
    lemma_stable_sort_of_sorted(s, key);
}

} // verus!
