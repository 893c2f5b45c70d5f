//! Association vectors: each of the store's mappings is kept as a vector of
//! `(key, value)` pairs with pairwise distinct keys, and is abstracted to a
//! `Map` from the key to the value's view.

use vstd::prelude::*;

verus! {

/// No two entries share a key.
pub open spec fn unique_keys<T>(s: Seq<(u64, T)>) -> bool {
    forall|i: int, j: int| 0 <= i < j < s.len() ==> s[i].0 != s[j].0
}

/// The mapping an association vector stands for: later entries win, which
/// is immaterial once the keys are distinct.
pub open spec fn assoc_view<T: View>(s: Seq<(u64, T)>) -> Map<u64, T::V>
    decreases s.len(),
{
    if s.len() == 0 {
        Map::empty()
    } else {
        assoc_view(s.drop_last()).insert(s.last().0, s.last().1@)
    }
}

pub proof fn lemma_assoc_contains<T: View>(s: Seq<(u64, T)>, k: u64)
    ensures
        assoc_view(s).contains_key(k) <==> exists|i: int| 0 <= i < s.len() && s[i].0 == k,
    decreases s.len(),
{
    if s.len() > 0 {
        lemma_assoc_contains(s.drop_last(), k);
        if s.last().0 == k {
            assert(s[s.len() - 1].0 == k);
        } else if assoc_view(s).contains_key(k) {
            let i = choose|i: int| 0 <= i < s.drop_last().len() && s.drop_last()[i].0 == k;
            assert(s[i].0 == k);
        } else if exists|i: int| 0 <= i < s.len() && s[i].0 == k {
            let i = choose|i: int| 0 <= i < s.len() && s[i].0 == k;
            assert(s.drop_last()[i].0 == k);
        }
    }
}

pub proof fn lemma_assoc_index<T: View>(s: Seq<(u64, T)>, i: int)
    requires
        unique_keys(s),
        0 <= i < s.len(),
    ensures
        assoc_view(s).contains_key(s[i].0),
        assoc_view(s)[s[i].0] == s[i].1@,
    decreases s.len(),
{
    if i < s.len() - 1 {
        lemma_assoc_index(s.drop_last(), i);
        assert(s.drop_last()[i] == s[i]);
        assert(s.last().0 != s[i].0);
    }
}

pub proof fn lemma_assoc_update<T: View>(s: Seq<(u64, T)>, i: int, v: T)
    requires
        unique_keys(s),
        0 <= i < s.len(),
    ensures
        unique_keys(s.update(i, (s[i].0, v))),
        assoc_view(s.update(i, (s[i].0, v))) == assoc_view(s).insert(s[i].0, v@),
    decreases s.len(),
{
    let k = s[i].0;
    let t = s.update(i, (k, v));
    assert(unique_keys(t)) by {
        assert(forall|a: int, b: int| 0 <= a < b < t.len() ==> t[a].0 == s[a].0 && t[b].0 == s[b].0);
    }
    if i == s.len() - 1 {
        assert(t.drop_last() =~= s.drop_last());
        assert(t.last() == (k, v));
        assert(assoc_view(t) == assoc_view(s.drop_last()).insert(k, v@));
        assert(assoc_view(s.drop_last()).insert(k, s[i].1@).insert(k, v@) =~= assoc_view(
            s.drop_last(),
        ).insert(k, v@));
    } else {
        lemma_assoc_update(s.drop_last(), i, v);
        assert(t.drop_last() =~= s.drop_last().update(i, (k, v)));
        assert(t.last() == s.last());
        assert(s.drop_last()[i] == s[i]);
        assert(assoc_view(t) == assoc_view(s.drop_last()).insert(k, v@).insert(
            s.last().0,
            s.last().1@,
        ));
        assert(s.last().0 != k);
        assert(assoc_view(s.drop_last()).insert(k, v@).insert(s.last().0, s.last().1@) =~= assoc_view(
            s.drop_last(),
        ).insert(s.last().0, s.last().1@).insert(k, v@));
    }
}

pub proof fn lemma_assoc_push<T: View>(s: Seq<(u64, T)>, k: u64, v: T)
    requires
        forall|i: int| 0 <= i < s.len() ==> s[i].0 != k,
    ensures
        assoc_view(s.push((k, v))) == assoc_view(s).insert(k, v@),
        unique_keys(s) ==> unique_keys(s.push((k, v))),
{
    let t = s.push((k, v));
    assert(t.drop_last() =~= s);
    assert(t.last() == (k, v));
    if unique_keys(s) {
        assert(forall|a: int, b: int|
            0 <= a < b < t.len() ==> (b < s.len() ==> t[a].0 == s[a].0 && t[b].0 == s[b].0) && (b
                == s.len() ==> t[a].0 == s[a].0 && t[b].0 == k));
        assert(unique_keys(t));
    }
}

/// Two association vectors with the same keys and view-equal values abstract
/// to the same mapping.
pub proof fn lemma_assoc_congruent<T: View, U: View<V = T::V>>(s: Seq<(u64, T)>, t: Seq<(u64, U)>)
    requires
        s.len() == t.len(),
        forall|i: int| 0 <= i < s.len() ==> s[i].0 == t[i].0 && s[i].1@ == t[i].1@,
    ensures
        assoc_view(s) == assoc_view(t),
    decreases s.len(),
{
    if s.len() > 0 {
        lemma_assoc_congruent(s.drop_last(), t.drop_last());
        assert(s.last().0 == t.last().0 && s.last().1@ == t.last().1@);
    }
}

/// Finds the entry holding a key, if any.
pub fn find_key<T>(v: &Vec<(u64, T)>, k: u64) -> (r: Option<usize>)
    ensures
        match r {
            Some(i) => i < v@.len() && v@[i as int].0 == k,
            None => forall|i: int| 0 <= i < v@.len() ==> v@[i].0 != k,
        },
{
    let mut j: usize = 0;
    while j < v.len()
        invariant
            j <= v@.len(),
            forall|i: int| 0 <= i < j ==> v@[i].0 != k,
        decreases v@.len() - j,
    {
        if v[j].0 == k {
            return Some(j);
        }
        j += 1;
    }
    None
}

/// Whether a vector of identities or ids holds a value.
pub fn ids_contain(v: &Vec<u64>, x: u64) -> (r: bool)
    ensures
        r == v@.contains(x),
{
    let mut j: usize = 0;
    while j < v.len()
        invariant
            j <= v@.len(),
            forall|i: int| 0 <= i < j ==> v@[i] != x,
        decreases v@.len() - j,
    {
        if v[j] == x {
            return true;
        }
        j += 1;
    }
    false
}

} // verus!
