//! Stable sorting by a text key, as `slice::sort` and `slice::sort_by` with a
//! string comparison do it.
use vstd::prelude::*;

use vstd::multiset::Multiset;

use crate::text::{lemma_text_le_refl, lemma_text_le_total, lemma_text_le_trans, text_le};

verus! {

/// Inserts `x` into `s` after every element whose key does not exceed the key
/// of `x` (looking from the end): the step of a stable insertion sort.
pub open spec fn insert_by_key<T>(s: Seq<T>, x: T, key: spec_fn(T) -> Seq<char>) -> Seq<T>
    decreases s.len(),
{
    if s.len() == 0 {
        seq![x]
    } else if text_le(key(s.last()), key(x)) {
        s.push(x)
    } else {
        insert_by_key(s.drop_last(), x, key).push(s.last())
    }
}

/// `s` sorted by `key`, elements with equal keys keeping their order.
pub open spec fn sort_by_key<T>(s: Seq<T>, key: spec_fn(T) -> Seq<char>) -> Seq<T>
    decreases s.len(),
{
    if s.len() == 0 {
        s
    } else {
        insert_by_key(sort_by_key(s.drop_last(), key), s.last(), key)
    }
}

/// Keys never decrease along `s`.
pub open spec fn sorted_by_key<T>(s: Seq<T>, key: spec_fn(T) -> Seq<char>) -> bool {
    forall|i: int, j: int| 0 <= i < j < s.len() ==> text_le(key(#[trigger] s[i]), key(#[trigger] s[j]))
}

/// The insertion point found by scanning from the end is what
/// `insert_by_key` describes.
pub proof fn lemma_insert_at<T>(s: Seq<T>, x: T, key: spec_fn(T) -> Seq<char>, j: int)
    requires
        0 <= j <= s.len(),
        forall|k: int| j <= k < s.len() ==> !text_le(key(#[trigger] s[k]), key(x)),
        j == 0 || text_le(key(s[j - 1]), key(x)),
    ensures
        insert_by_key(s, x, key) == s.insert(j, x),
    decreases s.len(),
{
    if s.len() == 0 {
        assert(s.insert(j, x) =~= seq![x]);
    } else if j == s.len() {
        assert(s.insert(j, x) =~= s.push(x));
    } else {
        assert(!text_le(key(s[s.len() - 1]), key(x)));
        let t = s.drop_last();
        assert forall|k: int| j <= k < t.len() implies !text_le(key(#[trigger] t[k]), key(x)) by {
            assert(t[k] == s[k]);
        }
        lemma_insert_at(t, x, key, j);
        assert(t.insert(j, x).push(s.last()) =~= s.insert(j, x));
    }
}

proof fn lemma_insert_keeps_sorted<T>(s: Seq<T>, x: T, key: spec_fn(T) -> Seq<char>)
    requires
        sorted_by_key(s, key),
    ensures
        sorted_by_key(insert_by_key(s, x, key), key),
        insert_by_key(s, x, key).to_multiset() == s.to_multiset().insert(x),
        insert_by_key(s, x, key).len() == s.len() + 1,
    decreases s.len(),
{
    broadcast use vstd::seq_lib::group_to_multiset_ensures;

    let r = insert_by_key(s, x, key);
    if s.len() == 0 {
        assert(r =~= seq![x]);
        assert(s.to_multiset() =~= Multiset::empty());
        assert(seq![x].to_multiset() =~= Multiset::empty().insert(x)) by {
            assert(seq![x] =~= Seq::<T>::empty().push(x));
        }
    } else if text_le(key(s.last()), key(x)) {
        assert forall|i: int, j: int| 0 <= i < j < r.len() implies text_le(
            key(#[trigger] r[i]),
            key(#[trigger] r[j]),
        ) by {
            if j == s.len() {
                if i < s.len() - 1 {
                    lemma_text_le_trans(key(s[i]), key(s.last()), key(x));
                }
            }
        }
    } else {
        let t = s.drop_last();
        assert(sorted_by_key(t, key));
        lemma_insert_keeps_sorted(t, x, key);
        let u = insert_by_key(t, x, key);
        lemma_text_le_total(key(s.last()), key(x));
        assert(u.to_multiset().contains(x));
        assert forall|i: int| 0 <= i < u.len() implies text_le(key(#[trigger] u[i]), key(s.last())) by {
            assert(u.to_multiset().contains(u[i]));
            assert(t.to_multiset().insert(x).contains(u[i]));
            if u[i] != x {
                assert(t.to_multiset().contains(u[i]));
                assert(t.contains(u[i]));
                let k = choose|k: int| 0 <= k < t.len() && t[k] == u[i];
                assert(s[k] == t[k]);
            }
        }
        assert forall|i: int, j: int| 0 <= i < j < r.len() implies text_le(
            key(#[trigger] r[i]),
            key(#[trigger] r[j]),
        ) by {
            if j == u.len() {
                assert(r[j] == s.last());
                assert(r[i] == u[i]);
            } else {
                assert(r[i] == u[i] && r[j] == u[j]);
            }
        }
        assert(s =~= t.push(s.last()));
        assert(s.to_multiset() == t.to_multiset().insert(s.last()));
        assert(r.to_multiset() =~= s.to_multiset().insert(x));
    }
}

/// Sorting yields a sequence whose keys never decrease and which holds the
/// same elements, as many times each.
pub proof fn lemma_sort_by_key_sorted_permutation<T>(s: Seq<T>, key: spec_fn(T) -> Seq<char>)
    ensures
        sorted_by_key(sort_by_key(s, key), key),
        sort_by_key(s, key).to_multiset() == s.to_multiset(),
        sort_by_key(s, key).len() == s.len(),
    decreases s.len(),
{
    broadcast use vstd::seq_lib::group_to_multiset_ensures;

    if s.len() > 0 {
        let t = s.drop_last();
        lemma_sort_by_key_sorted_permutation(t, key);
        lemma_insert_keeps_sorted(sort_by_key(t, key), s.last(), key);
        assert(s =~= t.push(s.last()));
    }
}

/// The elements whose key is `k`.
pub open spec fn with_key<T>(key: spec_fn(T) -> Seq<char>, k: Seq<char>) -> spec_fn(T) -> bool {
    |y: T| key(y) == k
}

proof fn lemma_insert_filter<T>(s: Seq<T>, x: T, key: spec_fn(T) -> Seq<char>, k: Seq<char>)
    ensures
        insert_by_key(s, x, key).filter(with_key(key, k)) == s.push(x).filter(with_key(key, k)),
    decreases s.len(),
{
    reveal_with_fuel(Seq::<_>::filter, 1);
    let p = with_key(key, k);
    if s.len() == 0 {
        assert(insert_by_key(s, x, key) =~= s.push(x));
    } else if text_le(key(s.last()), key(x)) {
    } else {
        let t = s.drop_last();
        lemma_insert_filter(t, x, key, k);
        let u = insert_by_key(t, x, key);
        assert(insert_by_key(s, x, key) == u.push(s.last()));
        assert(u.push(s.last()).drop_last() =~= u);
        assert(s.push(x).drop_last() =~= s);
        assert(t.push(x).drop_last() =~= t);
        assert(s =~= t.push(s.last()));
        if key(s.last()) == key(x) {
            lemma_text_le_refl(key(x));
        }
        assert(p(s.last()) ==> !p(x));
        if p(s.last()) {
            assert(s.push(x).filter(p) == s.filter(p));
            assert(s.filter(p) == t.filter(p).push(s.last()));
            assert(t.push(x).filter(p) == t.filter(p));
        } else {
            assert(s.filter(p) == t.filter(p));
        }
    }
}

/// Sorting is stable: the elements of any one key come out in the order they
/// came in.
pub proof fn lemma_sort_by_key_stable<T>(s: Seq<T>, key: spec_fn(T) -> Seq<char>, k: Seq<char>)
    ensures
        sort_by_key(s, key).filter(with_key(key, k)) == s.filter(with_key(key, k)),
    decreases s.len(),
{
    reveal_with_fuel(Seq::<_>::filter, 1);
    if s.len() > 0 {
        let t = s.drop_last();
        lemma_sort_by_key_stable(t, key, k);
        lemma_insert_filter(sort_by_key(t, key), s.last(), key, k);
        let p = with_key(key, k);
        assert(sort_by_key(t, key).push(s.last()).drop_last() =~= sort_by_key(t, key));
        assert(s =~= t.push(s.last()));
    }
}

/// Mapping two sequences that hold the same elements, as many times each,
/// gives two such sequences again.
pub proof fn lemma_map_keeps_permutation<T, U>(a: Seq<T>, b: Seq<T>, f: spec_fn(T) -> U)
    requires
        a.to_multiset() == b.to_multiset(),
    ensures
        a.map_values(f).to_multiset() == b.map_values(f).to_multiset(),
    decreases a.len(),
{
    broadcast use vstd::seq_lib::group_to_multiset_ensures;

    if a.len() == 0 {
        assert(b.len() == 0) by {
            assert(a.to_multiset().len() == a.len());
            assert(b.to_multiset().len() == b.len());
        }
        assert(a.map_values(f) =~= b.map_values(f));
    } else {
        let x = a.last();
        assert(a.to_multiset().count(x) > 0) by {
            assert(a.contains(x));
        }
        assert(b.contains(x));
        let i = choose|i: int| 0 <= i < b.len() && b[i] == x;
        assert(a =~= a.drop_last().push(x));
        assert(a.drop_last().to_multiset() =~= a.to_multiset().remove(x)) by {
            assert(a.remove(a.len() - 1) =~= a.drop_last());
        }
        assert(b.remove(i).to_multiset() == b.to_multiset().remove(x));
        lemma_map_keeps_permutation(a.drop_last(), b.remove(i), f);
        assert(a.map_values(f) =~= a.drop_last().map_values(f).push(f(x)));
        let bm = b.map_values(f);
        assert(b.remove(i).map_values(f) =~= bm.remove(i));
        assert(bm.remove(i).to_multiset() == bm.to_multiset().remove(f(x)));
        assert(bm.contains(f(x))) by {
            assert(bm[i] == f(x));
        }
        assert(bm.to_multiset().count(f(x)) > 0);
        assert(bm.to_multiset() =~= bm.to_multiset().remove(f(x)).insert(f(x)));
    }
}

} // verus!
