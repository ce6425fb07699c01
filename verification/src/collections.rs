use std::collections::{HashMap, HashSet};
use std::hash::Hash;
use vstd::prelude::*;

verus! {

broadcast use {vstd::std_specs::hash::group_hash_axioms, vstd::seq_lib::group_seq_properties};

/// The elements of a set, each once, in the set's iteration order.
pub fn set_elements<T: Copy + Eq + Hash>(s: &HashSet<T>) -> (v: Vec<T>)
    requires
        vstd::std_specs::hash::obeys_key_model::<T>(),
    ensures
        v@.no_duplicates(),
        v@.to_set() == s@,
{
    let mut v: Vec<T> = Vec::new();
    for x in it: s.iter()
        invariant
            v@ == it.history().unref(),
            it.seq().unref().to_set() == s@,
            it.seq().unref().no_duplicates(),
            it.index() == it.seq().len() ==> v@ == it.seq().unref(),
    {
        v.push(*x);
    }
    v
}

/// The keys of a map keyed by node identifiers, each once, in the map's iteration order.
pub fn map_keys<V>(m: &HashMap<u32, V>) -> (v: Vec<u32>)
    ensures
        v@.no_duplicates(),
        v@.to_set() == m@.dom(),
{
    let mut v: Vec<u32> = Vec::new();
    for x in it: m.keys()
        invariant
            v@ == it.history().unref(),
            it.seq().unref().to_set() == m@.dom(),
            it.seq().unref().no_duplicates(),
            it.index() == it.seq().len() ==> v@ == it.seq().unref(),
    {
        v.push(*x);
    }
    v
}

/// Keys never increase along the sequence.
pub open spec fn sorted_desc(v: Seq<(u64, u32)>) -> bool {
    forall|a: int, b: int| 0 <= a < b < v.len() ==> #[trigger] v[a].0 >= #[trigger] v[b].0
}

/// The pairs of `s` whose key is `k`, in their order in `s`.
pub open spec fn with_key(s: Seq<(u64, u32)>, k: u64) -> Seq<(u64, u32)> {
    s.filter(key_is(k))
}

/// Whether a pair has key `k`.
pub open spec fn key_is(k: u64) -> spec_fn((u64, u32)) -> bool {
    |p: (u64, u32)| p.0 == k
}

proof fn lemma_with_key_push(s: Seq<(u64, u32)>, x: (u64, u32), k: u64)
    ensures
        with_key(s.push(x), k) == if x.0 == k { with_key(s, k).push(x) } else { with_key(s, k) },
{
    s.lemma_filter_push(x, key_is(k));
}

proof fn lemma_with_key_add(a: Seq<(u64, u32)>, b: Seq<(u64, u32)>, k: u64)
    ensures
        with_key(a + b, k) == with_key(a, k) + with_key(b, k),
{
    Seq::filter_distributes_over_add(a, b, key_is(k));
}

proof fn lemma_with_key_none(s: Seq<(u64, u32)>, k: u64)
    requires
        forall|i: int| 0 <= i < s.len() ==> (#[trigger] s[i]).0 != k,
    ensures
        with_key(s, k) == Seq::<(u64, u32)>::empty(),
    decreases s.len(),
{
    if s.len() == 0 {
        assert(s =~= Seq::<(u64, u32)>::empty());
        assert(Seq::<(u64, u32)>::empty().filter(key_is(k)) =~= Seq::<(u64, u32)>::empty()) by {
            reveal(Seq::filter);
        }
    } else {
        let t = s.drop_last();
        assert forall|i: int| 0 <= i < t.len() implies (#[trigger] t[i]).0 != k by {
            assert(t[i] == s[i]);
        }
        lemma_with_key_none(t, k);
        assert(t.push(s.last()) =~= s);
        assert(s[s.len() - 1].0 != k);
        lemma_with_key_push(t, s.last(), k);
    }
}

/// The pairs ordered by key, largest first, pairs with equal keys keeping
/// their relative order (insertion sort): the pairs of each key come out in
/// the order they went in.
pub fn sort_desc_by_key(v: &Vec<(u64, u32)>) -> (r: Vec<(u64, u32)>)
    ensures
        r@.len() == v@.len(),
        r@.to_multiset() == v@.to_multiset(),
        r@.to_set() == v@.to_set(),
        v@.no_duplicates() ==> r@.no_duplicates(),
        sorted_desc(r@),
        forall|k: u64| #[trigger] with_key(r@, k) == with_key(v@, k),
{
    let mut r: Vec<(u64, u32)> = Vec::new();
    let mut i: usize = 0;
    while i < v.len()
        invariant
            i <= v@.len(),
            r@.len() == i,
            r@.to_set() == v@.take(i as int).to_set(),
            r@.to_multiset() == v@.take(i as int).to_multiset(),
            forall|k: u64| #[trigger] with_key(r@, k) == with_key(v@.take(i as int), k),
            v@.no_duplicates() ==> r@.no_duplicates(),
            sorted_desc(r@),
        decreases v.len() - i,
    {
        let x = v[i];
        let mut p: usize = 0;
        while p < r.len() && r[p].0 >= x.0
            invariant
                p <= r@.len(),
                forall|a: int| 0 <= a < p ==> #[trigger] r@[a].0 >= x.0,
            decreases r.len() - p,
        {
            p += 1;
        }
        let ghost old_r = r@;
        proof {
            assert forall|a: int| p <= a < old_r.len() implies #[trigger] old_r[a].0 < x.0 by {
                assert(old_r[p as int].0 >= old_r[a].0);
            }
        }
        r.insert(p, x);
        proof {
            assert(v@.take(i + 1) == v@.take(i as int).push(x));
            let left = old_r.subrange(0, p as int);
            let right = old_r.subrange(p as int, old_r.len() as int);
            assert(old_r =~= left + right);
            assert(r@ =~= left.push(x) + right);
            assert forall|k: u64| #[trigger] with_key(r@, k) == with_key(v@.take(i + 1), k) by {
                lemma_with_key_add(left, right, k);
                lemma_with_key_add(left.push(x), right, k);
                lemma_with_key_push(left, x, k);
                lemma_with_key_push(v@.take(i as int), x, k);
                if k == x.0 {
                    assert forall|q: int| 0 <= q < right.len() implies (#[trigger] right[q]).0 != k by {
                        assert(old_r[p + q].0 < x.0);
                    }
                    lemma_with_key_none(right, k);
                    assert(with_key(left, k) + Seq::<(u64, u32)>::empty() =~= with_key(left, k));
                    assert(with_key(left, k).push(x) + Seq::<(u64, u32)>::empty() =~= with_key(left, k).push(x));
                }
            }
            v@.take(i as int).lemma_push_to_set_commute(x);
            assert(r@.to_set() =~= old_r.to_set().insert(x)) by {
                assert forall|y: (u64, u32)| r@.to_set().contains(y) <==> old_r.to_set().insert(x).contains(y) by {
                    if r@.to_set().contains(y) {
                        let q = choose|q: int| 0 <= q < r@.len() && r@[q] == y;
                        if q < p {
                            assert(old_r[q] == y);
                        } else if q > p {
                            assert(old_r[q - 1] == y);
                        }
                    }
                    if old_r.to_set().contains(y) {
                        let q = choose|q: int| 0 <= q < old_r.len() && old_r[q] == y;
                        if q < p {
                            assert(r@[q] == y);
                        } else {
                            assert(r@[q + 1] == y);
                        }
                    }
                    if y == x {
                        assert(r@[p as int] == x);
                    }
                }
            }
            if v@.no_duplicates() {
                assert(!old_r.to_set().contains(x)) by {
                    if old_r.to_set().contains(x) {
                        assert(v@.take(i as int).to_set().contains(x));
                        let q = choose|q: int| 0 <= q < i && v@.take(i as int)[q] == x;
                        assert(v@[q] == v@[i as int]);
                    }
                }
                assert forall|a: int, b: int| 0 <= a < b < r@.len() implies r@[a] != r@[b] by {
                    if a == p {
                        assert(old_r.contains(old_r[b - 1]));
                    } else if b == p {
                        assert(old_r.contains(old_r[a]));
                    } else {
                        let a0 = if a < p { a } else { a - 1 };
                        let b0 = if b < p { b } else { b - 1 };
                        assert(old_r[a0] != old_r[b0]);
                    }
                }
            }
            assert forall|a: int, b: int| 0 <= a < b < r@.len() implies #[trigger] r@[a].0 >= #[trigger] r@[b].0 by {
                if a == p {
                    assert(old_r[b - 1].0 < x.0);
                } else if b == p {
                    assert(old_r[a].0 >= x.0);
                } else {
                    let a0 = if a < p { a } else { a - 1 };
                    let b0 = if b < p { b } else { b - 1 };
                    assert(old_r[a0].0 >= old_r[b0].0);
                }
            }
        }
        i += 1;
    }
    assert(v@.take(v@.len() as int) == v@);
    r
}

/// `ranked` lists the members of `set` once each, their keys never increasing.
pub open spec fn ranked_by_key(key: spec_fn(u32) -> int, set: Set<u32>, ranked: Seq<u32>) -> bool {
    &&& ranked.no_duplicates()
    &&& ranked.to_set() == set
    &&& forall|a: int, b: int| 0 <= a < b < ranked.len() ==> key(#[trigger] ranked[a]) >= key(#[trigger] ranked[b])
}

/// Pairing each member of a set with its key, sorting the pairs by key,
/// largest first, and reading off the members ranks the set by key.
pub proof fn lemma_ranked_by_key(key: spec_fn(u32) -> int, set: Set<u32>, nodes: Seq<u32>, keyed: Seq<(u64, u32)>, sorted: Seq<(u64, u32)>)
    requires
        nodes.no_duplicates(),
        nodes.to_set() == set,
        keyed.len() == nodes.len(),
        forall|j: int| 0 <= j < nodes.len() ==> (#[trigger] keyed[j]).1 == nodes[j] && keyed[j].0 == key(nodes[j]),
        sorted.len() == keyed.len(),
        sorted.to_set() == keyed.to_set(),
        keyed.no_duplicates() ==> sorted.no_duplicates(),
        sorted_desc(sorted),
    ensures
        ranked_by_key(key, set, sorted.map_values(|p: (u64, u32)| p.1)),
{
    let ranked = sorted.map_values(|p: (u64, u32)| p.1);
    assert forall|a: int, b: int| 0 <= a < b < keyed.len() implies keyed[a] != keyed[b] by {
        assert(nodes[a] != nodes[b]);
    }
    assert forall|j: int| 0 <= j < sorted.len() implies #[trigger] sorted[j].0 == key(sorted[j].1) by {
        assert(sorted.to_set().contains(sorted[j]));
        assert(keyed.to_set().contains(sorted[j]));
        let q = choose|q: int| 0 <= q < keyed.len() && keyed[q] == sorted[j];
    }
    assert forall|a: int, b: int| 0 <= a < b < ranked.len() implies ranked[a] != ranked[b] by {
        assert(sorted[a].0 == key(sorted[a].1));
        assert(sorted[b].0 == key(sorted[b].1));
        assert(sorted[a] != sorted[b]);
    }
    assert forall|x: u32| ranked.to_set().contains(x) <==> set.contains(x) by {
        if ranked.to_set().contains(x) {
            let j = choose|j: int| 0 <= j < ranked.len() && ranked[j] == x;
            assert(sorted.to_set().contains(sorted[j]));
            assert(keyed.to_set().contains(sorted[j]));
            let q = choose|q: int| 0 <= q < keyed.len() && keyed[q] == sorted[j];
            assert(nodes.to_set().contains(nodes[q]));
        }
        if set.contains(x) {
            assert(nodes.to_set().contains(x));
            let q = choose|q: int| 0 <= q < nodes.len() && nodes[q] == x;
            assert(keyed.to_set().contains(keyed[q]));
            assert(sorted.to_set().contains(keyed[q]));
            let j = choose|j: int| 0 <= j < sorted.len() && sorted[j] == keyed[q];
            assert(ranked[j] == x);
        }
    }
    assert(ranked.to_set() =~= set);
    assert forall|a: int, b: int| 0 <= a < b < ranked.len() implies
        key(#[trigger] ranked[a]) >= key(#[trigger] ranked[b]) by {
        assert(sorted[a].0 >= sorted[b].0);
        assert(sorted[a].0 == key(sorted[a].1));
        assert(sorted[b].0 == key(sorted[b].1));
    }
}

} // verus!
