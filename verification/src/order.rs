//! Stable ranking: the order in which a stable sort leaves a list.
//!
//! A list is ranked through keys. [`ranking`] is the one sequence of positions in which
//! the keys ascend and equal keys keep their places; [`rank`] computes it by merging.

use vstd::prelude::*;

verus! {

// ---------------------------------------------------------------------------
// Lexicographic order
// ---------------------------------------------------------------------------

/// Whether `a` comes before `b` in lexicographic order.
pub open spec fn lex_lt(a: Seq<int>, b: Seq<int>) -> bool
    decreases a.len(),
{
    if b.len() == 0 {
        false
    } else if a.len() == 0 {
        true
    } else if a[0] != b[0] {
        a[0] < b[0]
    } else {
        lex_lt(a.skip(1), b.skip(1))
    }
}

pub open spec fn char_codes(s: Seq<char>) -> Seq<int> {
    Seq::new(s.len(), |i: int| s[i] as int)
}

pub open spec fn byte_codes(s: Seq<u8>) -> Seq<int> {
    Seq::new(s.len(), |i: int| s[i] as int)
}

/// The lexicographic order is asymmetric and negatively transitive.
pub proof fn lemma_lex_laws(a: Seq<int>, b: Seq<int>, c: Seq<int>)
    ensures
        !(lex_lt(a, b) && lex_lt(b, a)),
        lex_lt(a, c) ==> lex_lt(a, b) || lex_lt(b, c),
    decreases a.len() + b.len() + c.len(),
{
    if a.len() > 0 && b.len() > 0 {
        let c1 = if c.len() > 0 {
            c.skip(1)
        } else {
            c
        };
        lemma_lex_laws(a.skip(1), b.skip(1), c1);
    }
}

/// Two sequences neither of which comes first are equal.
pub proof fn lemma_lex_total(a: Seq<int>, b: Seq<int>)
    requires
        !lex_lt(a, b),
        !lex_lt(b, a),
    ensures
        a == b,
    decreases a.len(),
{
    if a.len() > 0 && b.len() > 0 {
        lemma_lex_total(a.skip(1), b.skip(1));
        assert(a =~= seq![a[0]] + a.skip(1));
        assert(b =~= seq![b[0]] + b.skip(1));
    } else {
        assert(a =~= b);
    }
}

/// Whether one character sequence comes before another, by code points.
pub fn chars_before(a: &[char], b: &[char]) -> (r: bool)
    ensures
        r == lex_lt(char_codes(a@), char_codes(b@)),
{
    let ghost ca = char_codes(a@);
    let ghost cb = char_codes(b@);
    let mut i: usize = 0;
    assert(ca.skip(0) =~= ca);
    assert(cb.skip(0) =~= cb);
    while i < a.len() && i < b.len()
        invariant
            i <= a.len(),
            i <= b.len(),
            ca == char_codes(a@),
            cb == char_codes(b@),
            lex_lt(ca, cb) == lex_lt(ca.skip(i as int), cb.skip(i as int)),
        decreases a.len() - i,
    {
        if a[i] != b[i] {
            return a[i] < b[i];
        }
        assert(ca.skip(i as int).skip(1) =~= ca.skip(i + 1));
        assert(cb.skip(i as int).skip(1) =~= cb.skip(i + 1));
        i += 1;
    }
    a.len() < b.len()
}

/// Whether one byte string comes before another.
pub fn bytes_before(a: &[u8], b: &[u8]) -> (r: bool)
    ensures
        r == lex_lt(byte_codes(a@), byte_codes(b@)),
{
    let ghost ca = byte_codes(a@);
    let ghost cb = byte_codes(b@);
    let mut i: usize = 0;
    assert(ca.skip(0) =~= ca);
    assert(cb.skip(0) =~= cb);
    while i < a.len() && i < b.len()
        invariant
            i <= a.len(),
            i <= b.len(),
            ca == byte_codes(a@),
            cb == byte_codes(b@),
            lex_lt(ca, cb) == lex_lt(ca.skip(i as int), cb.skip(i as int)),
        decreases a.len() - i,
    {
        if a[i] != b[i] {
            return a[i] < b[i];
        }
        assert(ca.skip(i as int).skip(1) =~= ca.skip(i + 1));
        assert(cb.skip(i as int).skip(1) =~= cb.skip(i + 1));
        i += 1;
    }
    a.len() < b.len()
}

// ---------------------------------------------------------------------------
// Ranking
// ---------------------------------------------------------------------------

/// A key by which a list is ranked. `lt` orders the views of keys; keys neither of which
/// comes first count as equal.
pub trait Rank: View + Sized {
    /// Whether a key with the view `a` comes before one with the view `b`.
    spec fn lt(a: Self::V, b: Self::V) -> bool;

    /// The order is asymmetric and negatively transitive.
    proof fn order_laws(a: Self::V, b: Self::V, c: Self::V)
        ensures
            !(Self::lt(a, b) && Self::lt(b, a)),
            Self::lt(a, c) ==> Self::lt(a, b) || Self::lt(b, c),
    ;

    fn before(&self, other: &Self) -> (r: bool)
        ensures
            r == Self::lt(self@, other@),
    ;
}

/// The views of a list of keys.
pub open spec fn key_views<K: View>(keys: Seq<K>) -> Seq<K::V> {
    Seq::new(keys.len(), |i: int| keys[i]@)
}

/// Whether position `i` comes before position `j`: by key, and among equal keys by place.
pub open spec fn precedes<K: Rank>(keys: Seq<K::V>, i: int, j: int) -> bool {
    K::lt(keys[i], keys[j]) || (!K::lt(keys[j], keys[i]) && i < j)
}

/// `order` lists all the positions of `keys`, each before those that it precedes.
pub open spec fn is_ranking<K: Rank>(keys: Seq<K::V>, order: Seq<usize>) -> bool {
    &&& order.len() == keys.len()
    &&& forall|a: int| 0 <= a < order.len() ==> (#[trigger] order[a]) < keys.len()
    &&& forall|a: int, b: int|
        0 <= a < b < order.len() ==> precedes::<K>(
            keys,
            #[trigger] order[a] as int,
            #[trigger] order[b] as int,
        )
}

/// The positions of `keys` in the order of a stable sort.
pub open spec fn ranking<K: Rank>(keys: Seq<K::V>) -> Seq<usize> {
    choose|order: Seq<usize>| is_ranking::<K>(keys, order)
}

/// The items of a list in the order of their keys.
pub open spec fn arranged<T>(items: Seq<T>, order: Seq<usize>) -> Seq<T> {
    Seq::new(order.len(), |i: int| items[order[i] as int])
}

proof fn lemma_precedes_trans<K: Rank>(keys: Seq<K::V>, i: int, j: int, k: int)
    requires
        precedes::<K>(keys, i, j),
        precedes::<K>(keys, j, k),
    ensures
        precedes::<K>(keys, i, k),
{
    K::order_laws(keys[i], keys[j], keys[k]);
    K::order_laws(keys[j], keys[i], keys[k]);
    K::order_laws(keys[i], keys[k], keys[j]);
    K::order_laws(keys[k], keys[i], keys[j]);
    K::order_laws(keys[k], keys[j], keys[i]);
    K::order_laws(keys[j], keys[k], keys[i]);
}

proof fn lemma_precedes_asym<K: Rank>(keys: Seq<K::V>, i: int, j: int)
    requires
        precedes::<K>(keys, i, j),
    ensures
        !precedes::<K>(keys, j, i),
{
    K::order_laws(keys[i], keys[j], keys[i]);
}

/// Every position occurs in a ranking, once.
pub proof fn lemma_ranking_covers<K: Rank>(keys: Seq<K::V>, order: Seq<usize>)
    requires
        is_ranking::<K>(keys, order),
    ensures
        order.no_duplicates(),
        forall|p: usize| p < keys.len() ==> #[trigger] order.contains(p),
{
    assert forall|a: int, b: int| 0 <= a < order.len() && 0 <= b < order.len() && a != b implies
        order[a] != order[b] by {
        if a < b {
            lemma_precedes_asym::<K>(keys, order[a] as int, order[b] as int);
        } else {
            lemma_precedes_asym::<K>(keys, order[b] as int, order[a] as int);
        }
    }
    let ints = Seq::new(order.len(), |a: int| order[a] as int);
    assert(ints.no_duplicates());
    ints.unique_seq_to_set();
    let all = vstd::set_lib::set_int_range(0, keys.len() as int);
    vstd::set_lib::lemma_int_range(0, keys.len() as int);
    assert(ints.to_set().subset_of(all)) by {
        assert forall|p: int| ints.to_set().contains(p) implies all.contains(p) by {
            let a = choose|a: int| 0 <= a < ints.len() && ints[a] == p;
            assert(order[a] < keys.len());
        }
    }
    vstd::set_lib::lemma_subset_equality(ints.to_set(), all);
    assert forall|p: usize| p < keys.len() implies #[trigger] order.contains(p) by {
        assert(all.contains(p as int));
        assert(ints.to_set().contains(p as int));
        let a = choose|a: int| 0 <= a < ints.len() && ints[a] == p;
        assert(order[a] == p);
    }
}

proof fn lemma_ranking_unique_upto<K: Rank>(
    keys: Seq<K::V>,
    x: Seq<usize>,
    y: Seq<usize>,
    m: int,
)
    requires
        is_ranking::<K>(keys, x),
        is_ranking::<K>(keys, y),
        0 <= m <= keys.len(),
    ensures
        forall|a: int| 0 <= a < m ==> x[a] == y[a],
    decreases m,
{
    if m > 0 {
        lemma_ranking_unique_upto::<K>(keys, x, y, m - 1);
        lemma_ranking_covers::<K>(keys, x);
        lemma_ranking_covers::<K>(keys, y);
        let p = x[m - 1] as int;
        let q = y[m - 1] as int;
        if p != q {
            assert(y.contains(p as usize));
            assert(x.contains(q as usize));
            let a = choose|a: int| 0 <= a < y.len() && y[a] == p;
            let b = choose|b: int| 0 <= b < x.len() && x[b] == q;
            assert(a > m - 1);
            assert(b > m - 1);
            lemma_precedes_asym::<K>(keys, p, q);
        }
    }
}

/// There is only one ranking of a list of keys.
pub proof fn lemma_ranking_unique<K: Rank>(keys: Seq<K::V>, order: Seq<usize>)
    requires
        is_ranking::<K>(keys, order),
    ensures
        order == ranking::<K>(keys),
        is_ranking::<K>(keys, ranking::<K>(keys)),
{
    let other = ranking::<K>(keys);
    lemma_ranking_unique_upto::<K>(keys, order, other, keys.len() as int);
    assert(order =~= other);
}

/// The place at which a further position goes into a ranking.
proof fn lemma_insertion_point<K: Rank>(
    keys: Seq<K::V>,
    order: Seq<usize>,
    x: int,
    from: int,
) -> (p: int)
    requires
        0 <= from <= order.len(),
        forall|a: int| 0 <= a < from ==> precedes::<K>(keys, #[trigger] order[a] as int, x),
        forall|a: int| 0 <= a < order.len() ==> (#[trigger] order[a]) < x,
    ensures
        from <= p <= order.len(),
        forall|a: int| 0 <= a < p ==> precedes::<K>(keys, #[trigger] order[a] as int, x),
        p < order.len() ==> precedes::<K>(keys, x, order[p] as int),
    decreases order.len() - from,
{
    if from == order.len() || K::lt(keys[x], keys[order[from] as int]) {
        from
    } else {
        lemma_insertion_point::<K>(keys, order, x, from + 1)
    }
}

proof fn lemma_some_ranking<K: Rank>(keys: Seq<K::V>) -> (order: Seq<usize>)
    requires
        keys.len() <= usize::MAX,
    ensures
        is_ranking::<K>(keys, order),
    decreases keys.len(),
{
    if keys.len() == 0 {
        Seq::empty()
    } else {
        let x = keys.len() - 1;
        let short = keys.drop_last();
        let order = lemma_some_ranking::<K>(short);
        assert forall|a: int, b: int| 0 <= a < b < order.len() implies precedes::<K>(
            keys,
            #[trigger] order[a] as int,
            #[trigger] order[b] as int,
        ) by {
            assert(precedes::<K>(short, order[a] as int, order[b] as int));
        }
        let p = lemma_insertion_point::<K>(keys, order, x, 0);
        assert forall|b: int| p <= b < order.len() implies precedes::<K>(
            keys,
            x,
            #[trigger] order[b] as int,
        ) by {
            if b > p {
                lemma_precedes_trans::<K>(keys, x, order[p] as int, order[b] as int);
            }
        }
        let out = order.insert(p, x as usize);
        assert forall|a: int| 0 <= a < out.len() implies (#[trigger] out[a]) < keys.len() by {
            if a < p {
                assert(out[a] == order[a]);
            } else if a > p {
                assert(out[a] == order[a - 1]);
            }
        }
        assert forall|a: int, b: int| 0 <= a < b < out.len() implies precedes::<K>(
            keys,
            #[trigger] out[a] as int,
            #[trigger] out[b] as int,
        ) by {
            if a < p {
                assert(out[a] == order[a]);
            } else if a > p {
                assert(out[a] == order[a - 1]);
            }
            if b < p {
                assert(out[b] == order[b]);
            } else if b > p {
                assert(out[b] == order[b - 1]);
            }
        }
        out
    }
}

/// Every list of keys has a ranking.
pub proof fn lemma_ranking_exists<K: Rank>(keys: Seq<K::V>)
    requires
        keys.len() <= usize::MAX,
    ensures
        is_ranking::<K>(keys, ranking::<K>(keys)),
{
    let order = lemma_some_ranking::<K>(keys);
    lemma_ranking_unique::<K>(keys, order);
}

/// `part` lists the positions from `lo` to `hi`, each before those that it precedes.
spec fn is_part<K: Rank>(keys: Seq<K::V>, part: Seq<usize>, lo: int, hi: int) -> bool {
    &&& part.len() == hi - lo
    &&& forall|a: int| 0 <= a < part.len() ==> lo <= (#[trigger] part[a]) < hi
    &&& forall|a: int, b: int|
        0 <= a < b < part.len() ==> precedes::<K>(
            keys,
            #[trigger] part[a] as int,
            #[trigger] part[b] as int,
        )
}

/// Merges the rankings of two neighbouring ranges.
fn merge<K: Rank>(keys: &Vec<K>, left: &Vec<usize>, right: &Vec<usize>, lo: usize, mid: usize, hi: usize) -> (r:
    Vec<usize>)
    requires
        lo <= mid <= hi <= keys@.len(),
        is_part::<K>(key_views(keys@), left@, lo as int, mid as int),
        is_part::<K>(key_views(keys@), right@, mid as int, hi as int),
    ensures
        is_part::<K>(key_views(keys@), r@, lo as int, hi as int),
{
    let ghost kv = key_views(keys@);
    let mut out: Vec<usize> = Vec::with_capacity(hi - lo);
    let mut i: usize = 0;
    let mut j: usize = 0;
    while i < left.len() || j < right.len()
        invariant
            lo <= mid <= hi <= keys@.len(),
            kv == key_views(keys@),
            is_part::<K>(kv, left@, lo as int, mid as int),
            is_part::<K>(kv, right@, mid as int, hi as int),
            i <= left.len(),
            j <= right.len(),
            out.len() == i + j,
            forall|a: int| 0 <= a < out@.len() ==> lo <= (#[trigger] out@[a]) < hi,
            forall|a: int, b: int|
                0 <= a < b < out@.len() ==> precedes::<K>(
                    kv,
                    #[trigger] out@[a] as int,
                    #[trigger] out@[b] as int,
                ),
            forall|a: int, b: int|
                0 <= a < out@.len() && i <= b < left@.len() ==> precedes::<K>(
                    kv,
                    #[trigger] out@[a] as int,
                    #[trigger] left@[b] as int,
                ),
            forall|a: int, b: int|
                0 <= a < out@.len() && j <= b < right@.len() ==> precedes::<K>(
                    kv,
                    #[trigger] out@[a] as int,
                    #[trigger] right@[b] as int,
                ),
        decreases left.len() - i + right.len() - j,
    {
        let take_right = if i == left.len() {
            true
        } else if j == right.len() {
            false
        } else {
            keys[right[j]].before(&keys[left[i]])
        };
        if take_right {
            let next = right[j];
            proof {
                assert forall|b: int| i <= b < left@.len() implies precedes::<K>(
                    kv,
                    next as int,
                    #[trigger] left@[b] as int,
                ) by {
                    let first = left@[i as int];
                    assert(precedes::<K>(kv, next as int, first as int));
                    if b > i {
                        lemma_precedes_trans::<K>(kv, next as int, first as int, left@[b] as int);
                    }
                }
            }
            out.push(next);
            j += 1;
        } else {
            let next = left[i];
            proof {
                assert forall|b: int| j <= b < right@.len() implies precedes::<K>(
                    kv,
                    next as int,
                    #[trigger] right@[b] as int,
                ) by {
                    let first = right@[j as int];
                    assert(precedes::<K>(kv, next as int, first as int));
                    if b > j {
                        lemma_precedes_trans::<K>(kv, next as int, first as int, right@[b] as int);
                    }
                }
            }
            out.push(next);
            i += 1;
        }
    }
    out
}

fn rank_range<K: Rank>(keys: &Vec<K>, lo: usize, hi: usize) -> (r: Vec<usize>)
    requires
        lo <= hi <= keys@.len(),
    ensures
        is_part::<K>(key_views(keys@), r@, lo as int, hi as int),
    decreases hi - lo,
{
    if hi - lo == 0 {
        Vec::new()
    } else if hi - lo == 1 {
        let mut out: Vec<usize> = Vec::new();
        out.push(lo);
        out
    } else {
        let mid: usize = lo + (hi - lo) / 2;
        let left = rank_range(keys, lo, mid);
        let right = rank_range(keys, mid, hi);
        merge(keys, &left, &right, lo, mid, hi)
    }
}

/// Ranks a list of keys.
pub fn rank<K: Rank>(keys: &Vec<K>) -> (r: Vec<usize>)
    ensures
        r@ == ranking::<K>(key_views(keys@)),
        is_ranking::<K>(key_views(keys@), r@),
        r@.no_duplicates(),
{
    let r = rank_range(keys, 0, keys.len());
    proof {
        assert(is_ranking::<K>(key_views(keys@), r@));
        lemma_ranking_covers::<K>(key_views(keys@), r@);
        lemma_ranking_unique::<K>(key_views(keys@), r@);
    }
    r
}

/// The items in the order given by their places.
pub fn arrange<T>(items: Vec<T>, order: &Vec<usize>) -> (r: Vec<T>)
    requires
        forall|i: int| 0 <= i < order@.len() ==> #[trigger] order@[i] < items@.len(),
        order@.no_duplicates(),
    ensures
        r@ == arranged(items@, order@),
{
    let ghost source = items@;
    let mut slots: Vec<Option<T>> = Vec::new();
    for item in iter: items
        invariant
            iter.seq() == source,
            slots@.len() == iter.index(),
            forall|k: int| 0 <= k < slots@.len() ==> #[trigger] slots@[k] == Some(source[k]),
    {
        slots.push(Some(item));
    }
    let mut out: Vec<T> = Vec::new();
    let mut i: usize = 0;
    while i < order.len()
        invariant
            i <= order@.len(),
            slots@.len() == source.len(),
            forall|i: int| 0 <= i < order@.len() ==> #[trigger] order@[i] < source.len(),
            order@.no_duplicates(),
            forall|k: int|
                i <= k < order@.len() ==> slots@[#[trigger] order@[k] as int] == Some(
                    source[order@[k] as int],
                ),
            out@ =~= arranged(source, order@).take(i as int),
        decreases order.len() - i,
    {
        let mut slot: Option<T> = None;
        std::mem::swap(&mut slot, &mut slots[order[i]]);
        match slot {
            Some(item) => out.push(item),
            None => {},
        }
        i += 1;
    }
    assert(arranged(source, order@).take(i as int) =~= arranged(source, order@));
    out
}

/// Whether two lists are equal up to a place, at which the first ends or is less.
pub open spec fn is_less_at(a: Seq<int>, b: Seq<int>, n: int) -> bool {
    &&& 0 <= n <= a.len()
    &&& n < b.len()
    &&& forall|k: int| 0 <= k < n ==> a[k] == b[k]
    &&& n == a.len() || a[n] < b[n]
}

/// A list comes before another in lexicographic order if and only if it is less at the first
/// place where they differ, or is a beginning of the other.
pub proof fn law_lexicographic(a: Seq<int>, b: Seq<int>)
    ensures
        lex_lt(a, b) <==> exists|n: int| #[trigger] is_less_at(a, b, n),
    decreases a.len(),
{
    if b.len() == 0 {
    } else if a.len() == 0 {
        assert(is_less_at(a, b, 0));
    } else if a[0] != b[0] {
        if a[0] < b[0] {
            assert(is_less_at(a, b, 0));
        } else if exists|n: int| #[trigger] is_less_at(a, b, n) {
            let n = choose|n: int| #[trigger] is_less_at(a, b, n);
            if n > 0 {
                assert(a[0] == b[0]);
            }
        }
    } else {
        let s = a.skip(1);
        let t = b.skip(1);
        law_lexicographic(s, t);
        if exists|n: int| #[trigger] is_less_at(a, b, n) {
            let n = choose|n: int| #[trigger] is_less_at(a, b, n);
            assert(n > 0);
            assert forall|k: int| 0 <= k < n - 1 implies s[k] == t[k] by {
                assert(a[k + 1] == b[k + 1]);
            }
            assert(is_less_at(s, t, n - 1));
        }
        if exists|n: int| #[trigger] is_less_at(s, t, n) {
            let n = choose|n: int| #[trigger] is_less_at(s, t, n);
            assert forall|k: int| 0 <= k < n + 1 implies a[k] == b[k] by {
                if k > 0 {
                    assert(s[k - 1] == t[k - 1]);
                }
            }
            assert(is_less_at(a, b, n + 1));
        }
    }
}

} // verus!
