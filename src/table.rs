//! Tables keyed by frequency: a vector of entries whose keys are unique,
//! seen as a map from frequency text to a value.
use vstd::prelude::*;
use vstd::map::*;

verus! {

/// The routing key of the buffers: compared byte for byte.
#[derive(Clone, Debug, PartialEq, Eq, Hash, PartialOrd)]
pub struct Frequency(pub String);

impl Frequency {
    /// A second frequency with the same text.
    pub fn copy(&self) -> (r: Frequency)
        ensures
            r.0@ == self.0@,
    {
        Frequency(self.0.clone())
    }
}

pub open spec fn has_key<T>(s: Seq<(Frequency, T)>, k: Seq<char>) -> bool {
    exists|i: int| 0 <= i < s.len() && (#[trigger] s[i]).0.0@ == k
}

pub open spec fn key_index<T>(s: Seq<(Frequency, T)>, k: Seq<char>) -> int {
    choose|i: int| 0 <= i < s.len() && (#[trigger] s[i]).0.0@ == k
}

pub open spec fn keys_unique<T>(s: Seq<(Frequency, T)>) -> bool {
    forall|i: int, j: int|
        0 <= i < s.len() && 0 <= j < s.len() && i != j ==> (#[trigger] s[i]).0.0@ != (
        #[trigger] s[j]).0.0@
}

/// The table as a map, each value seen through `view`.
pub open spec fn entry_map<T, V>(s: Seq<(Frequency, T)>, view: spec_fn(T) -> V) -> Map<
    Seq<char>,
    V,
> {
    Map::new(|k: Seq<char>| has_key(s, k), |k: Seq<char>| view(s[key_index(s, k)].1))
}

pub proof fn lemma_key_index<T>(s: Seq<(Frequency, T)>, i: int)
    requires
        keys_unique(s),
        0 <= i < s.len(),
    ensures
        has_key(s, s[i].0.0@),
        key_index(s, s[i].0.0@) == i,
{
    let k = s[i].0.0@;
    assert(has_key(s, k));
    let j = key_index(s, k);
    if j != i {
        assert(s[j].0.0@ != s[i].0.0@);
    }
}

/// Replacing the value at an entry keeps the keys and changes the map at one key.
pub proof fn lemma_update<T, V>(s: Seq<(Frequency, T)>, i: int, e: (Frequency, T), view: spec_fn(T) -> V)
    requires
        keys_unique(s),
        0 <= i < s.len(),
        e.0.0@ == s[i].0.0@,
    ensures
        keys_unique(s.update(i, e)),
        entry_map(s.update(i, e), view) == entry_map(s, view).insert(e.0.0@, view(e.1)),
{
    let t = s.update(i, e);
    assert(forall|j: int| 0 <= j < s.len() ==> (#[trigger] t[j]).0.0@ == s[j].0.0@);
    assert forall|k: Seq<char>| has_key(t, k) <==> has_key(s, k) by {
        if has_key(s, k) {
            let j = key_index(s, k);
            assert(t[j].0.0@ == k);
        }
        if has_key(t, k) {
            let j = key_index(t, k);
            assert(s[j].0.0@ == k);
        }
    }
    assert forall|k: Seq<char>| #[trigger] has_key(t, k) implies key_index(t, k) == key_index(s, k) by {
        let j = key_index(t, k);
        lemma_key_index(t, j);
        lemma_key_index(s, j);
    }
    lemma_key_index(t, i);
    assert_maps_equal!(entry_map(t, view), entry_map(s, view).insert(e.0.0@, view(e.1)));
}

/// Appending an entry under a new key adds that key to the map.
pub proof fn lemma_push<T, V>(s: Seq<(Frequency, T)>, e: (Frequency, T), view: spec_fn(T) -> V)
    requires
        keys_unique(s),
        !has_key(s, e.0.0@),
    ensures
        keys_unique(s.push(e)),
        entry_map(s.push(e), view) == entry_map(s, view).insert(e.0.0@, view(e.1)),
{
    let t = s.push(e);
    assert forall|i: int, j: int|
        0 <= i < t.len() && 0 <= j < t.len() && i != j implies (#[trigger] t[i]).0.0@ != (
        #[trigger] t[j]).0.0@ by {
        if i < s.len() && j < s.len() {
            assert(t[i] == s[i] && t[j] == s[j]);
        } else if i < s.len() {
            assert(t[i] == s[i]);
        } else {
            assert(t[j] == s[j]);
        }
    }
    assert forall|k: Seq<char>| has_key(t, k) <==> (has_key(s, k) || k == e.0.0@) by {
        if has_key(s, k) {
            let j = key_index(s, k);
            assert(t[j] == s[j]);
        }
        if k == e.0.0@ {
            assert(t[s.len() as int] == e);
        }
        if has_key(t, k) && k != e.0.0@ {
            let j = key_index(t, k);
            assert(j < s.len());
            assert(t[j] == s[j]);
        }
    }
    assert forall|k: Seq<char>| #[trigger] has_key(s, k) implies key_index(t, k) == key_index(s, k) by {
        let j = key_index(s, k);
        lemma_key_index(s, j);
        assert(t[j] == s[j]);
        lemma_key_index(t, j);
    }
    lemma_key_index(t, s.len() as int);
    assert_maps_equal!(entry_map(t, view), entry_map(s, view).insert(e.0.0@, view(e.1)));
}

/// Removing an entry removes its key from the map.
pub proof fn lemma_remove<T, V>(s: Seq<(Frequency, T)>, i: int, view: spec_fn(T) -> V)
    requires
        keys_unique(s),
        0 <= i < s.len(),
    ensures
        keys_unique(s.remove(i)),
        entry_map(s.remove(i), view) == entry_map(s, view).remove(s[i].0.0@),
{
    let t = s.remove(i);
    let key = s[i].0.0@;
    assert forall|a: int| 0 <= a < t.len() implies #[trigger] t[a] == s[if a < i { a } else { a + 1 }] by {
    }
    assert forall|a: int, b: int|
        0 <= a < t.len() && 0 <= b < t.len() && a != b implies (#[trigger] t[a]).0.0@ != (
        #[trigger] t[b]).0.0@ by {
        assert(t[a] == s[if a < i { a } else { a + 1 }]);
        assert(t[b] == s[if b < i { b } else { b + 1 }]);
    }
    assert forall|k: Seq<char>| has_key(t, k) <==> (has_key(s, k) && k != key) by {
        if has_key(s, k) && k != key {
            let j = key_index(s, k);
            assert(j != i);
            let a = if j < i { j } else { j - 1 };
            assert(t[a] == s[j]);
        }
        if has_key(t, k) {
            let a = key_index(t, k);
            let j = if a < i { a } else { a + 1 };
            assert(t[a] == s[j]);
            assert(j != i);
        }
    }
    assert forall|k: Seq<char>| #[trigger] has_key(t, k) implies view(t[key_index(t, k)].1) == view(s[key_index(s, k)].1) by {
        let a = key_index(t, k);
        let j = if a < i { a } else { a + 1 };
        assert(t[a] == s[j]);
        lemma_key_index(s, j);
    }
    assert_maps_equal!(entry_map(t, view), entry_map(s, view).remove(key));
}

/// Where the entry for `f` stands in `v`, if there is one.
pub fn find_key<T>(v: &Vec<(Frequency, T)>, f: &Frequency) -> (r: Option<usize>)
    requires
        keys_unique(v@),
    ensures
        r is None <==> !has_key(v@, f.0@),
        r matches Some(i) ==> i < v@.len() && i == key_index(v@, f.0@) && v@[i as int].0.0@
            == f.0@,
{
    let mut i: usize = 0;
    while i < v.len()
        invariant
            keys_unique(v@),
            i <= v@.len(),
            forall|k: int| 0 <= k < i ==> (#[trigger] v@[k]).0.0@ != f.0@,
        decreases v@.len() - i,
    {
        if v[i].0.0.eq(&f.0) {
            proof {
                lemma_key_index(v@, i as int);
            }
            return Some(i);
        }
        i = i + 1;
    }
    None
}

} // verus!
