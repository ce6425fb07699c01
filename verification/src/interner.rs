use vstd::prelude::*;
use vstd::hash_map::StringHashMap;
use crate::types::StringId;

verus! {

/// Assigns each distinct string a small integer identifier, in the order of
/// first appearance, and gives the string back for an identifier.
pub struct Interner {
    map: StringHashMap<StringId>,
    vec: Vec<String>,
}

impl View for Interner {
    type V = Seq<Seq<char>>;

    /// The interned strings, indexed by identifier.
    closed spec fn view(&self) -> Seq<Seq<char>> {
        self.vec@.map_values(|s: String| s@)
    }
}

/// The largest number of strings an interner can hold: one per `u32` identifier.
pub open spec fn interner_capacity() -> nat {
    0x1_0000_0000
}

/// The interner state after interning `s`: unchanged when `s` is present,
/// else `s` appended.
pub open spec fn interned(strings: Seq<Seq<char>>, s: Seq<char>) -> Seq<Seq<char>> {
    if strings.contains(s) { strings } else { strings.push(s) }
}

/// The identifier interning `s` yields: its position, new strings taking the next one.
pub open spec fn intern_id(strings: Seq<Seq<char>>, s: Seq<char>) -> int {
    if strings.contains(s) { strings.index_of(s) } else { strings.len() as int }
}

/// What `resolve(id)` yields: the string with that identifier, if any.
pub open spec fn resolved(strings: Seq<Seq<char>>, id: StringId) -> Option<Seq<char>> {
    if (id as int) < strings.len() { Some(strings[id as int]) } else { None }
}

/// Interning gives back what resolving the new identifier yields: the
/// string itself.
pub proof fn lemma_intern_then_resolve(strings: Seq<Seq<char>>, s: Seq<char>)
    requires
        strings.no_duplicates(),
        strings.len() <= interner_capacity(),
        strings.contains(s) || strings.len() < interner_capacity(),
    ensures
        resolved(interned(strings, s), intern_id(strings, s) as StringId) == Some(s),
        intern_id(strings, s) < interned(strings, s).len(),
{
    if strings.contains(s) {
        let j = choose|j: int| 0 <= j < strings.len() && strings[j] == s;
        let k = strings.index_of(s);
        assert(0 <= k < strings.len() && strings[k] == s);
        assert(k as StringId as int == k);
    } else {
        assert(interned(strings, s)[strings.len() as int] == s);
        assert(strings.len() as StringId as int == strings.len());
    }
}

/// Interning the same string twice gives the same identifier and leaves the
/// interner as the first time left it.
pub proof fn lemma_intern_idempotent(strings: Seq<Seq<char>>, s: Seq<char>)
    requires
        strings.no_duplicates(),
    ensures
        interned(interned(strings, s), s) == interned(strings, s),
        intern_id(interned(strings, s), s) == intern_id(strings, s),
{
    let after = interned(strings, s);
    assert(after.contains(s)) by {
        if !strings.contains(s) {
            assert(after[strings.len() as int] == s);
        }
    }
    let k = after.index_of(s);
    assert(0 <= k < after.len() && after[k] == s);
    if strings.contains(s) {
        let k0 = strings.index_of(s);
        assert(0 <= k0 < strings.len() && strings[k0] == s);
    } else {
        assert forall|a: int, b: int| 0 <= a < b < after.len() implies after[a] != after[b] by {
            if b == strings.len() {
                assert(strings.contains(strings[a]));
            }
        }
        assert(after[strings.len() as int] == s);
    }
}

/// Different strings get different identifiers, whichever comes first.
pub proof fn lemma_intern_distinct(strings: Seq<Seq<char>>, s: Seq<char>, t: Seq<char>)
    requires
        strings.no_duplicates(),
        strings.len() <= interner_capacity(),
        strings.contains(s) || strings.len() < interner_capacity(),
        s != t,
    ensures
        intern_id(strings, s) != intern_id(interned(strings, s), t),
{
    let mid = interned(strings, s);
    lemma_intern_then_resolve(strings, s);
    assert(mid[intern_id(strings, s)] == s);
    if mid.contains(t) {
        let k = mid.index_of(t);
        assert(0 <= k < mid.len() && mid[k] == t);
    } else {
        assert(intern_id(mid, t) == mid.len());
    }
}

impl Interner {
    /// Well-formedness: no string twice, identifiers fit in `u32`, and the
    /// lookup table maps each string to its position.
    pub closed spec fn wf(&self) -> bool {
        &&& self@.no_duplicates()
        &&& self@.len() <= interner_capacity()
        &&& forall|s: Seq<char>| #[trigger] self.map@.contains_key(s) <==> self@.contains(s)
        &&& forall|i: int| 0 <= i < self@.len() ==> #[trigger] self.map@[self@[i]] == i
    }

    /// What every well-formed interner satisfies.
    pub proof fn lemma_wf(&self)
        requires
            self.wf(),
        ensures
            self@.no_duplicates(),
            self@.len() <= interner_capacity(),
    {
    }

    /// An interner that holds no strings.
    pub fn new() -> (i: Self)
        ensures
            i.wf(),
            i@ == Seq::<Seq<char>>::empty(),
    {
        let i = Interner { map: StringHashMap::new(), vec: Vec::new() };
        assert(i@ =~= Seq::<Seq<char>>::empty());
        i
    }

    /// The identifier of `s`, interning it first if it is new.
    pub fn intern(&mut self, s: &str) -> (id: StringId)
        requires
            old(self).wf(),
            old(self)@.contains(s@) || old(self)@.len() < interner_capacity(),
        ensures
            final(self).wf(),
            final(self)@ == interned(old(self)@, s@),
            id == intern_id(old(self)@, s@),
            final(self)@[id as int] == s@,
    {
        let ghost v0 = self@;
        match self.map.get(s) {
            Some(id) => {
                let id = *id;
                proof {
                    let j = choose|j: int| 0 <= j < v0.len() && v0[j] == s@;
                    assert(self.map@[v0[j]] == j);
                    let k = v0.index_of(s@);
                    assert(0 <= k < v0.len() && v0[k] == s@);
                    assert(k == j);
                }
                return id;
            },
            None => {},
        }
        let id = self.vec.len() as StringId;
        let owned = s.to_owned();
        self.vec.push(owned.clone());
        self.map.insert(owned, id);
        proof {
            assert(self@ =~= v0.push(s@));
            assert forall|a: int, b: int| 0 <= a < b < self@.len() implies self@[a] != self@[b] by {
                if b == v0.len() {
                    assert(v0[a] != s@);
                }
            }
            assert forall|t: Seq<char>| #[trigger] self.map@.contains_key(t) <==> self@.contains(t) by {
                if t == s@ {
                    assert(self@[v0.len() as int] == t);
                } else if v0.contains(t) {
                    let j = choose|j: int| 0 <= j < v0.len() && v0[j] == t;
                    assert(self@[j] == t);
                } else if self@.contains(t) {
                    let j = choose|j: int| 0 <= j < self@.len() && self@[j] == t;
                    assert(j < v0.len() ==> v0[j] == t);
                }
            }
            assert forall|i: int| 0 <= i < self@.len() implies #[trigger] self.map@[self@[i]] == i by {
                if i < v0.len() {
                    assert(self@[i] == v0[i]);
                    assert(v0[i] != s@);
                }
            }
        }
        id
    }

    /// How many strings are interned.
    pub fn len(&self) -> (n: usize)
        ensures
            n == self@.len(),
    {
        self.vec.len()
    }

    /// The string interned as `id`, if any.
    pub fn resolve(&self, id: StringId) -> (s: Option<&str>)
        ensures
            s matches Some(t) ==> resolved(self@, id) == Some(t@),
            s is None ==> resolved(self@, id) is None,
    {
        if (id as usize) < self.vec.len() {
            Some(self.vec[id as usize].as_str())
        } else {
            None
        }
    }
}

} // verus!
