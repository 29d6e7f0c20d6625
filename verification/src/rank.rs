//! Stable ordering by a key, as the marketplace lists agents: by creation
//! time, and discovery matches by how well they fit a query.

use vstd::prelude::*;

verus! {

/// `s` with `x` placed after every element whose key is at least `key(x)`,
/// counted from the end: the step of a stable insertion sort by descending key.
pub open spec fn insert_by_key<T>(s: Seq<T>, x: T, key: spec_fn(T) -> int) -> Seq<T>
    decreases s.len(),
{
    if s.len() == 0 {
        seq![x]
    } else if key(s.last()) >= key(x) {
        s.push(x)
    } else {
        insert_by_key(s.drop_last(), x, key).push(s.last())
    }
}

/// `s` ordered by descending key, elements with equal keys kept in the
/// order they have in `s`.
pub open spec fn rank_by_key<T>(s: Seq<T>, key: spec_fn(T) -> int) -> Seq<T>
    decreases s.len(),
{
    if s.len() == 0 {
        Seq::empty()
    } else {
        insert_by_key(rank_by_key(s.drop_last(), key), s.last(), key)
    }
}

/// Inserting at the position found by scanning from the end is the step of
/// the stable insertion sort.
pub proof fn lemma_insert_by_key_at<T>(s: Seq<T>, x: T, key: spec_fn(T) -> int, p: int)
    requires
        0 <= p <= s.len(),
        forall|i: int| p <= i < s.len() ==> key(#[trigger] s[i]) < key(x),
        p > 0 ==> key(s[p - 1]) >= key(x),
    ensures
        insert_by_key(s, x, key) == s.insert(p, x),
    decreases s.len(),
{
    if s.len() == 0 {
        assert(s.insert(p, x) =~= seq![x]);
    } else if p == s.len() {
        assert(s.insert(p, x) =~= s.push(x));
    } else {
        let t = s.drop_last();
        assert(key(s[s.len() - 1]) < key(x));
        assert forall|i: int| p <= i < t.len() implies key(#[trigger] t[i]) < key(x) by {
            assert(t[i] == s[i]);
        }
        if p > 0 {
            assert(t[p - 1] == s[p - 1]);
        }
        lemma_insert_by_key_at(t, x, key, p);
        assert(t.insert(p, x).push(s.last()) =~= s.insert(p, x));
    }
}

/// Elements ordered by descending key.
pub open spec fn sorted_by_key<T>(s: Seq<T>, key: spec_fn(T) -> int) -> bool {
    forall|i: int, j: int| 0 <= i < j < s.len() ==> key(#[trigger] s[i]) >= key(#[trigger] s[j])
}

/// The stable insertion step keeps the order and adds exactly `x`.
pub proof fn lemma_insert_by_key_props<T>(s: Seq<T>, x: T, key: spec_fn(T) -> int)
    requires
        sorted_by_key(s, key),
    ensures
        sorted_by_key(insert_by_key(s, x, key), key),
        insert_by_key(s, x, key).to_multiset() == s.to_multiset().insert(x),
    decreases s.len(),
{
    broadcast use vstd::seq_lib::group_seq_properties;
    broadcast use vstd::multiset::group_multiset_axioms;

    if s.len() == 0 {
        assert(seq![x] =~= Seq::<T>::empty().push(x));
        assert(Seq::<T>::empty().to_multiset() =~= vstd::multiset::Multiset::empty());
    } else if key(s.last()) >= key(x) {
    } else {
        let t = s.drop_last();
        assert(sorted_by_key(t, key)) by {
            assert forall|i: int, j: int| 0 <= i < j < t.len() implies key(#[trigger] t[i]) >= key(
                #[trigger] t[j],
            ) by {
                assert(t[i] == s[i] && t[j] == s[j]);
            }
        }
        lemma_insert_by_key_props(t, x, key);
        let u = insert_by_key(t, x, key);
        assert(u.to_multiset().count(x) > 0);
        assert forall|k: int| 0 <= k < u.len() implies key(#[trigger] u[k]) >= key(s.last()) by {
            assert(u.to_multiset().count(u[k]) > 0);
            assert(t.to_multiset().insert(x).count(u[k]) > 0);
            if u[k] != x {
                assert(t.to_multiset().count(u[k]) > 0);
                assert(t.contains(u[k]));
                let m = choose|m: int| 0 <= m < t.len() && t[m] == u[k];
                assert(s[m] == t[m]);
                assert(s[s.len() - 1] == s.last());
            }
        }
        assert(s =~= t.push(s.last()));
    }
}

/// A stable sort by descending key orders its elements and keeps exactly them.
pub proof fn lemma_rank_by_key_props<T>(s: Seq<T>, key: spec_fn(T) -> int)
    ensures
        sorted_by_key(rank_by_key(s, key), key),
        rank_by_key(s, key).to_multiset() == s.to_multiset(),
    decreases s.len(),
{
    broadcast use vstd::seq_lib::group_seq_properties;

    if s.len() == 0 {
    } else {
        lemma_rank_by_key_props(s.drop_last(), key);
        lemma_insert_by_key_props(rank_by_key(s.drop_last(), key), s.last(), key);
        assert(s =~= s.drop_last().push(s.last()));
    }
}

} // verus!
