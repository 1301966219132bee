//! Keeping the first of several items with the same key.

use vstd::prelude::*;

verus! {

/// A key that can be compared for equality.
pub trait Same: View + Sized {
    fn same(&self, other: &Self) -> (r: bool)
        ensures
            r == (self@ == other@),
    ;
}

/// The places of the keys that occur at no earlier place.
pub open spec fn first_indices<V>(keys: Seq<V>) -> Seq<int>
    decreases keys.len(),
{
    if keys.len() == 0 {
        Seq::empty()
    } else {
        let before = first_indices(keys.drop_last());
        if keys.drop_last().contains(keys.last()) {
            before
        } else {
            before.push(keys.len() - 1)
        }
    }
}

/// The items whose key no earlier item has, in their order.
pub open spec fn keep_first<T, V>(items: Seq<T>, keys: Seq<V>) -> Seq<T> {
    Seq::new(first_indices(keys).len(), |i: int| items[first_indices(keys)[i]])
}

/// Whether a kept place no later than `p` has the key of `p`.
pub open spec fn has_first<V>(keys: Seq<V>, p: int) -> bool {
    exists|i: int|
        0 <= i < first_indices(keys).len() && #[trigger] first_indices(keys)[i] <= p
            && keys[first_indices(keys)[i]] == keys[p]
}

/// The kept places are in order and in range; no two of them have the same key; and every
/// key is the key of a kept place that is no later than its own.
pub proof fn law_first_indices<V>(keys: Seq<V>)
    ensures
        first_indices(keys).len() <= keys.len(),
        forall|i: int|
            0 <= i < first_indices(keys).len() ==> 0 <= #[trigger] first_indices(keys)[i]
                < keys.len(),
        forall|i: int, j: int|
            0 <= i < j < first_indices(keys).len() ==> #[trigger] first_indices(keys)[i]
                < #[trigger] first_indices(keys)[j] && keys[first_indices(keys)[i]]
                != keys[first_indices(keys)[j]],
        forall|p: int| 0 <= p < keys.len() ==> #[trigger] has_first(keys, p),
    decreases keys.len(),
{
    if keys.len() > 0 {
        let init = keys.drop_last();
        let last = keys.last();
        let before = first_indices(init);
        let all = first_indices(keys);
        law_first_indices(init);
        assert forall|p: int| 0 <= p < keys.len() implies #[trigger] has_first(keys, p) by {
            let q = if p < init.len() {
                p
            } else if init.contains(last) {
                choose|q: int| 0 <= q < init.len() && init[q] == last
            } else {
                p
            };
            if q < init.len() {
                assert(init[q] == keys[p]);
                assert(has_first(init, q));
                let i = choose|i: int|
                    0 <= i < before.len() && #[trigger] before[i] <= q && init[before[i]]
                        == init[q];
                assert(all[i] == before[i]);
            } else {
                assert(all[before.len() as int] == p);
            }
        }
        assert forall|i: int, j: int| 0 <= i < j < all.len() implies #[trigger] all[i]
            < #[trigger] all[j] && keys[all[i]] != keys[all[j]] by {
            assert(all[i] == before[i]);
            if j < before.len() {
                assert(all[j] == before[j]);
                assert(init[before[i]] != init[before[j]]);
            } else {
                assert(init.contains(init[before[i]]));
            }
        }
    }
}

/// The views of a list of keys.
pub open spec fn views<K: View>(keys: Seq<K>) -> Seq<K::V> {
    Seq::new(keys.len(), |i: int| keys[i]@)
}

/// For each key, whether it occurs at no earlier place.
pub fn first_flags<K: Same>(keys: &Vec<K>) -> (r: Vec<bool>)
    ensures
        r@.len() == keys@.len(),
        forall|i: int|
            0 <= i < r@.len() ==> #[trigger] r@[i] == !views(keys@).take(i).contains(
                views(keys@)[i],
            ),
{
    let mut flags: Vec<bool> = Vec::new();
    let mut kept: Vec<usize> = Vec::new();
    let ghost all = views(keys@);
    let mut i: usize = 0;
    while i < keys.len()
        invariant
            i <= keys@.len(),
            all == views(keys@),
            flags@.len() == i,
            forall|k: int|
                0 <= k < i ==> #[trigger] flags@[k] == !all.take(k).contains(all[k]),
            kept@.len() == first_indices(all.take(i as int)).len(),
            forall|k: int|
                0 <= k < kept@.len() ==> #[trigger] kept@[k] == first_indices(
                    all.take(i as int),
                )[k],
        decreases keys.len() - i,
    {
        let ghost part = all.take(i as int);
        let mut found: bool = false;
        let mut k: usize = 0;
        proof {
            law_first_indices(part);
        }
        while k < kept.len() && !found
            invariant
                k <= kept@.len(),
                i < keys@.len(),
                all == views(keys@),
                part == all.take(i as int),
                kept@.len() == first_indices(part).len(),
                forall|k: int|
                    0 <= k < kept@.len() ==> #[trigger] kept@[k] == first_indices(part)[k],
                forall|k: int|
                    0 <= k < first_indices(part).len() ==> 0 <= #[trigger] first_indices(part)[k]
                        < part.len(),
                found ==> part.contains(all[i as int]),
                !found ==> forall|j: int|
                    0 <= j < k ==> part[#[trigger] first_indices(part)[j]] != all[i as int],
            decreases kept.len() - k,
        {
            assert(kept@[k as int] == first_indices(part)[k as int]);
            if keys[kept[k]].same(&keys[i]) {
                found = true;
                assert(part[kept@[k as int] as int] == all[i as int]);
            }
            k += 1;
        }
        assert(found == part.contains(all[i as int])) by {
            if !found && part.contains(all[i as int]) {
                let p = choose|p: int| 0 <= p < part.len() && part[p] == all[i as int];
                assert(has_first(part, p));
                let j = choose|j: int|
                    0 <= j < first_indices(part).len() && #[trigger] first_indices(part)[j] <= p
                        && part[first_indices(part)[j]] == part[p];
                assert(part[first_indices(part)[j]] != all[i as int]);
            }
        }
        assert(all.take(i + 1).drop_last() =~= part);
        assert(all.take(i + 1).last() == all[i as int]);
        flags.push(!found);
        if !found {
            kept.push(i);
        }
        i += 1;
    }
    flags
}

/// The items whose key no earlier item has, in their order.
pub fn keep_firsts<T, K: Same>(items: Vec<T>, keys: &Vec<K>) -> (r: Vec<T>)
    requires
        items@.len() == keys@.len(),
    ensures
        r@ == keep_first(items@, views(keys@)),
{
    let flags = first_flags(keys);
    let ghost all = views(keys@);
    let mut out: Vec<T> = Vec::new();
    let mut i: usize = 0;
    let n: usize = keys.len();
    let ghost source = items@;
    assert(all.take(0) =~= Seq::empty());
    for item in iter: items
        invariant
            i == iter.index(),
            iter.seq() == source,
            source.len() == n,
            n == keys@.len(),
            flags@.len() == keys@.len(),
            all == views(keys@),
            forall|k: int|
                0 <= k < flags@.len() ==> #[trigger] flags@[k] == !all.take(k).contains(all[k]),
            out@ == keep_first(source, all.take(i as int)),
    {
        proof {
            law_first_indices(all.take(i as int));
        }
        assert(all.take(i + 1).drop_last() =~= all.take(i as int));
        assert(all.take(i + 1).last() == all[i as int]);
        let ghost before = out@;
        if flags[i] {
            out.push(item);
            assert(out@ =~= keep_first(source, all.take(i + 1)));
        } else {
            assert(out@ =~= keep_first(source, all.take(i + 1)));
        }
        i += 1;
    }
    assert(all.take(i as int) =~= all);
    out
}

/// Keeping the first of each kind keeps the order, keeps no two items with one key, and keeps
/// for each key the first item that has it. `at` tells which items are kept.
pub proof fn law_keep_first<T, V>(items: Seq<T>, keys: Seq<V>) -> (at: Seq<int>)
    requires
        items.len() == keys.len(),
    ensures
        at.len() == keep_first(items, keys).len(),
        forall|i: int|
            0 <= i < at.len() ==> 0 <= #[trigger] at[i] < items.len() && keep_first(items, keys)[i]
                == items[at[i]],
        forall|i: int, j: int|
            0 <= i < j < at.len() ==> #[trigger] at[i] < #[trigger] at[j] && keys[at[i]]
                != keys[at[j]],
        forall|p: int| 0 <= p < keys.len() ==> #[trigger] is_kept_before(keys, at, p),
{
    law_first_indices(keys);
    let at = first_indices(keys);
    assert forall|p: int| 0 <= p < keys.len() implies #[trigger] is_kept_before(keys, at, p) by {
        assert(has_first(keys, p));
    }
    at
}

/// Whether one of the places, no later than another, has the key of that.
pub open spec fn is_kept_before<V>(keys: Seq<V>, at: Seq<int>, p: int) -> bool {
    exists|i: int| 0 <= i < at.len() && #[trigger] at[i] <= p && keys[at[i]] == keys[p]
}

} // verus!
