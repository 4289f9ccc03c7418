//! Maps and sets keyed by repository paths, kept in path order.
//!
//! A path is a byte string; the order is the one `Vec<u8>` sorts by (`bytes_lt`), so
//! walking a map visits its paths exactly as a `BTreeMap<Vec<u8>, _>` would.
use vstd::prelude::*;

use crate::bytes::{
    bytes_lt, compare_bytes, lemma_bytes_lt_asymmetric, lemma_bytes_lt_irreflexive,
    lemma_bytes_lt_transitive, Comparison,
};

verus! {

/// Every path sorts strictly before every later one.
pub open spec fn strictly_sorted(keys: Seq<Seq<u8>>) -> bool {
    forall|i: int, j: int| 0 <= i < j < keys.len() ==> bytes_lt(#[trigger] keys[i], #[trigger] keys[j])
}

/// Where `k` stands in `keys`, if it stands anywhere.
pub open spec fn position_in(keys: Seq<Seq<u8>>, k: Seq<u8>) -> int {
    choose|i: int| 0 <= i < keys.len() && keys[i] == k
}

/// A map from paths to values, in path order.
#[derive(Debug, Clone, PartialEq, Eq)]
pub struct PathMap<V> {
    entries: Vec<(Vec<u8>, V)>,
}

impl<V: View> PathMap<V> {
    /// The paths, in order.
    pub closed spec fn keys(&self) -> Seq<Seq<u8>> {
        Seq::new(self.entries@.len(), |i: int| self.entries@[i].0@)
    }

    /// The values, in the order of their paths.
    pub closed spec fn values(&self) -> Seq<V::V> {
        Seq::new(self.entries@.len(), |i: int| self.entries@[i].1@)
    }

    /// The stored values themselves, in the order of their paths.
    pub closed spec fn stored(&self) -> Seq<V> {
        Seq::new(self.entries@.len(), |i: int| self.entries@[i].1)
    }

    /// The map itself.
    pub open spec fn map(&self) -> Map<Seq<u8>, V::V> {
        Map::new(
            |k: Seq<u8>| self.keys().contains(k),
            |k: Seq<u8>| self.values()[position_in(self.keys(), k)],
        )
    }

    /// The paths are in strictly ascending order.
    pub open spec fn wf(&self) -> bool {
        &&& strictly_sorted(self.keys())
        &&& self.values().len() == self.keys().len()
    }

    pub proof fn lemma_lengths(&self)
        ensures
            self.values().len() == self.keys().len(),
            self.stored().len() == self.keys().len(),
            forall|i: int| 0 <= i < self.stored().len() ==> #[trigger] self.values()[i] == self.stored()[i]@,
    {
    }

    /// The value at position `i` is the one the map holds for the path at `i`.
    pub proof fn lemma_map_at(&self, i: int)
        requires
            self.wf(),
            0 <= i < self.keys().len(),
        ensures
            self.map().contains_key(self.keys()[i]),
            self.map()[self.keys()[i]] == self.values()[i],
    {
        let k = self.keys()[i];
        assert(self.keys().contains(k));
        let j = position_in(self.keys(), k);
        if j != i {
            lemma_sorted_distinct(self.keys(), i, j);
        }
    }

    /// The map holds exactly the listed paths.
    pub proof fn lemma_domain(&self, k: Seq<u8>)
        requires
            self.wf(),
        ensures
            self.map().contains_key(k) <==> exists|i: int| 0 <= i < self.keys().len() && self.keys()[i] == k,
    {
    }

    pub fn new() -> (r: Self)
        ensures
            r.wf(),
            r.keys().len() == 0,
            r.stored().len() == 0,
            r.map() == Map::<Seq<u8>, V::V>::empty(),
    {
        let r = PathMap { entries: Vec::new() };
        assert(r.map() =~= Map::<Seq<u8>, V::V>::empty());
        r
    }

    /// How many paths the map holds.
    pub fn len(&self) -> (r: usize)
        ensures
            r == self.keys().len(),
    {
        self.entries.len()
    }

    /// The path at position `i`.
    pub fn key_at(&self, i: usize) -> (r: &[u8])
        requires
            i < self.keys().len(),
        ensures
            r@ == self.keys()[i as int],
    {
        self.entries[i].0.as_slice()
    }

    /// The value at position `i`.
    pub fn value_at(&self, i: usize) -> (r: &V)
        requires
            i < self.keys().len(),
        ensures
            r@ == self.values()[i as int],
    {
        &self.entries[i].1
    }

    /// Where `key` stands or would stand: every earlier path sorts before it, every
    /// later one after it, and `found` says whether the path at `pos` is `key` itself.
    pub fn locate(&self, key: &[u8]) -> (r: (bool, usize))
        requires
            self.wf(),
        ensures
            r.1 <= self.keys().len(),
            forall|j: int| 0 <= j < r.1 ==> bytes_lt(#[trigger] self.keys()[j], key@),
            r.0 ==> r.1 < self.keys().len() && self.keys()[r.1 as int] == key@,
            !r.0 ==> forall|j: int| r.1 <= j < self.keys().len() ==> bytes_lt(key@, #[trigger] self.keys()[j]),
            r.0 ==> forall|j: int| r.1 < j < self.keys().len() ==> bytes_lt(key@, #[trigger] self.keys()[j]),
    {
        let mut lo: usize = 0;
        let mut hi: usize = self.entries.len();
        while lo < hi
            invariant
                self.wf(),
                lo <= hi <= self.keys().len(),
                self.keys().len() == self.entries@.len(),
                forall|j: int| 0 <= j < lo ==> bytes_lt(#[trigger] self.keys()[j], key@),
                forall|j: int| hi <= j < self.keys().len() ==> bytes_lt(key@, #[trigger] self.keys()[j]),
            decreases hi - lo,
        {
            let mid = lo + (hi - lo) / 2;
            assert(self.entries@[mid as int].0@ == self.keys()[mid as int]);
            match compare_bytes(self.entries[mid].0.as_slice(), key) {
                Comparison::Less => {
                    assert forall|j: int| 0 <= j < mid + 1 implies bytes_lt(#[trigger] self.keys()[j], key@) by {
                        if j < mid {
                            lemma_bytes_lt_transitive(self.keys()[j], self.keys()[mid as int], key@);
                        }
                    }
                    lo = mid + 1;
                },
                Comparison::Equal => {
                    assert forall|j: int| mid < j < self.keys().len() implies bytes_lt(key@, #[trigger] self.keys()[j]) by {
                        assert(bytes_lt(self.keys()[mid as int], self.keys()[j]));
                    }
                    assert forall|j: int| 0 <= j < mid implies bytes_lt(#[trigger] self.keys()[j], key@) by {
                        assert(bytes_lt(self.keys()[j], self.keys()[mid as int]));
                    }
                    return (true, mid);
                },
                Comparison::Greater => {
                    assert forall|j: int| mid <= j < self.keys().len() implies bytes_lt(key@, #[trigger] self.keys()[j]) by {
                        if j > mid {
                            lemma_bytes_lt_transitive(key@, self.keys()[mid as int], self.keys()[j]);
                        }
                    }
                    hi = mid;
                },
            }
        }
        (false, lo)
    }

    /// The position of `key`, if the map holds it.
    pub fn position(&self, key: &[u8]) -> (r: Option<usize>)
        requires
            self.wf(),
        ensures
            r is Some <==> self.map().contains_key(key@),
            r matches Some(i) ==> i < self.keys().len() && self.keys()[i as int] == key@,
    {
        let (found, pos) = self.locate(key);
        if found {
            proof { self.lemma_map_at(pos as int); }
            Some(pos)
        } else {
            proof {
                if self.map().contains_key(key@) {
                    let j = choose|j: int| 0 <= j < self.keys().len() && self.keys()[j] == key@;
                    lemma_bytes_lt_irreflexive(key@);
                }
            }
            None
        }
    }

    /// Puts `value` at position `i` and hands back the value that was there.
    pub fn replace_value_at(&mut self, i: usize, value: V) -> (r: V)
        requires
            old(self).wf(),
            i < old(self).keys().len(),
        ensures
            final(self).wf(),
            final(self).keys() == old(self).keys(),
            final(self).map() == old(self).map().insert(old(self).keys()[i as int], value@),
            r == old(self).stored()[i as int],
            final(self).stored() == old(self).stored().update(i as int, value),
    {
        let ghost old_map = self.map();
        let ghost old_keys = self.keys();
        let ghost old_values = self.values();
        let ghost k = old_keys[i as int];
        let ghost v = value@;
        let mut replacement = value;
        proof { self.lemma_lengths(); }
        core::mem::swap(&mut self.entries[i].1, &mut replacement);
        let taken = replacement;
        assert(self.keys() =~= old_keys);
        assert(self.values() =~= old_values.update(i as int, v));
        assert(self.stored() =~= old(self).stored().update(i as int, self.entries@[i as int].1));
        assert forall|q: Seq<u8>| #[trigger] self.map().contains_key(q) == old_map.insert(k, v).contains_key(q) by {
            if q == k {
                assert(self.keys()[i as int] == q);
            }
        }
        assert forall|q: Seq<u8>| self.map().contains_key(q) implies #[trigger] self.map()[q] == old_map.insert(k, v)[q] by {
            let j = position_in(self.keys(), q);
            self.lemma_map_at(j);
            if j != i {
                lemma_sorted_distinct(old_keys, i as int, j);
                lemma_map_parts_at(old_keys, old_values, old_map, j);
            }
        }
        assert(self.map() =~= old_map.insert(k, v));
        taken
    }

    /// The value the map holds for `key`.
    pub fn get(&self, key: &[u8]) -> (r: Option<&V>)
        requires
            self.wf(),
        ensures
            r is Some <==> self.map().contains_key(key@),
            r matches Some(v) ==> v@ == self.map()[key@] && self.stored().contains(*v),
    {
        let (found, pos) = self.locate(key);
        if found {
            proof {
                self.lemma_map_at(pos as int);
                assert(self.stored()[pos as int] == self.entries@[pos as int].1);
            }
            Some(&self.entries[pos].1)
        } else {
            proof {
                if self.map().contains_key(key@) {
                    let j = choose|j: int| 0 <= j < self.keys().len() && self.keys()[j] == key@;
                    if j < pos {
                        lemma_bytes_lt_irreflexive(key@);
                    } else {
                        lemma_bytes_lt_irreflexive(key@);
                    }
                }
            }
            None
        }
    }

    /// Whether the map holds `key`.
    pub fn contains_key(&self, key: &[u8]) -> (r: bool)
        requires
            self.wf(),
        ensures
            r == self.map().contains_key(key@),
    {
        self.get(key).is_some()
    }

    /// Sets the value for `key`, replacing any value it had.
    pub fn insert(&mut self, key: Vec<u8>, value: V)
        requires
            old(self).wf(),
        ensures
            final(self).wf(),
            final(self).map() == old(self).map().insert(key@, value@),
            forall|x: V| #[trigger] final(self).stored().contains(x) ==> old(self).stored().contains(x) || x == value,
    {
        let ghost old_stored = self.stored();
        let ghost val = value;
        let ghost old_keys = self.keys();
        let ghost old_values = self.values();
        let ghost old_map = self.map();
        let ghost k = key@;
        let ghost v = value@;
        let (found, pos) = self.locate(key.as_slice());
        if found {
            self.entries.set(pos, (key, value));
            assert(self.keys() =~= old_keys);
            assert(self.values() =~= old_values.update(pos as int, v));
            assert forall|q: Seq<u8>| #[trigger] self.map().contains_key(q) == old_map.insert(k, v).contains_key(q) by {
                self.lemma_domain(q);
            }
            assert forall|q: Seq<u8>| self.map().contains_key(q) implies #[trigger] self.map()[q] == old_map.insert(k, v)[q] by {
                let i = choose|i: int| 0 <= i < self.keys().len() && self.keys()[i] == q;
                self.lemma_map_at(i);
                if i != pos {
                    lemma_sorted_distinct(old_keys, i, pos as int);
                    lemma_map_parts_at(old_keys, old_values, old_map, i);
                }
            }
            assert(self.map() =~= old_map.insert(k, v));
            assert(self.stored() =~= old_stored.update(pos as int, val));
            assert forall|x: V| #[trigger] self.stored().contains(x) implies old_stored.contains(x) || x == val by {
                let j = choose|j: int| 0 <= j < self.stored().len() && self.stored()[j] == x;
                if j != pos {
                    assert(old_stored[j] == x);
                }
            }
        } else {
            self.entries.insert(pos, (key, value));
            assert(self.keys() =~= old_keys.insert(pos as int, k));
            assert(self.values() =~= old_values.insert(pos as int, v));
            assert forall|i: int, j: int| 0 <= i < j < self.keys().len() implies bytes_lt(
                #[trigger] self.keys()[i],
                #[trigger] self.keys()[j],
            ) by {
                if j < pos {
                } else if i < pos && j == pos {
                } else if i < pos && j > pos {
                    assert(self.keys()[j] == old_keys[j - 1]);
                } else if i == pos {
                    assert(self.keys()[j] == old_keys[j - 1]);
                } else {
                    assert(self.keys()[i] == old_keys[i - 1]);
                    assert(self.keys()[j] == old_keys[j - 1]);
                }
            }
            assert forall|q: Seq<u8>| #[trigger] self.map().contains_key(q) == old_map.insert(k, v).contains_key(q) by {
                if q == k {
                    assert(self.keys()[pos as int] == q);
                    assert(self.keys().contains(q));
                } else if old_keys.contains(q) {
                    let i = choose|i: int| 0 <= i < old_keys.len() && old_keys[i] == q;
                    if i < pos {
                        assert(self.keys()[i] == q);
                    } else {
                        assert(self.keys()[i + 1] == q);
                    }
                    assert(self.keys().contains(q));
                } else if self.keys().contains(q) {
                    let i = choose|i: int| 0 <= i < self.keys().len() && self.keys()[i] == q;
                    if i < pos {
                        assert(old_keys[i] == q);
                    } else {
                        assert(old_keys[i - 1] == q);
                    }
                    assert(old_keys.contains(q));
                }
            }
            assert forall|q: Seq<u8>| self.map().contains_key(q) implies #[trigger] self.map()[q] == old_map.insert(k, v)[q] by {
                let i = choose|i: int| 0 <= i < self.keys().len() && self.keys()[i] == q;
                self.lemma_map_at(i);
                if i < pos {
                    lemma_map_parts_at(old_keys, old_values, old_map, i);
                    lemma_bytes_lt_irreflexive(k);
                } else if i > pos {
                    lemma_map_parts_at(old_keys, old_values, old_map, i - 1);
                    lemma_bytes_lt_irreflexive(k);
                }
            }
            assert(self.map() =~= old_map.insert(k, v));
            assert(self.stored() =~= old_stored.insert(pos as int, val));
            assert forall|x: V| #[trigger] self.stored().contains(x) implies old_stored.contains(x) || x == val by {
                let j = choose|j: int| 0 <= j < self.stored().len() && self.stored()[j] == x;
                if j < pos {
                    assert(old_stored[j] == x);
                } else if j > pos {
                    assert(old_stored[j - 1] == x);
                }
            }
        }
    }
}

/// Two distinct positions of a strictly sorted sequence hold distinct paths.
proof fn lemma_sorted_distinct(keys: Seq<Seq<u8>>, i: int, j: int)
    requires
        strictly_sorted(keys),
        0 <= i < keys.len(),
        0 <= j < keys.len(),
        i != j,
    ensures
        keys[i] != keys[j],
{
    if i < j {
        assert(bytes_lt(keys[i], keys[j]));
        if keys[i] == keys[j] {
            lemma_bytes_lt_irreflexive(keys[i]);
        }
    } else {
        assert(bytes_lt(keys[j], keys[i]));
        if keys[i] == keys[j] {
            lemma_bytes_lt_irreflexive(keys[i]);
        }
    }
}

/// `lemma_map_at`, stated over a map's parts.
proof fn lemma_map_parts_at<W>(keys: Seq<Seq<u8>>, values: Seq<W>, m: Map<Seq<u8>, W>, i: int)
    requires
        strictly_sorted(keys),
        values.len() == keys.len(),
        m == Map::new(
            |k: Seq<u8>| keys.contains(k),
            |k: Seq<u8>| values[position_in(keys, k)],
        ),
        0 <= i < keys.len(),
    ensures
        m.contains_key(keys[i]),
        m[keys[i]] == values[i],
{
    let k = keys[i];
    assert(keys.contains(k));
    let j = position_in(keys, k);
    if j != i {
        lemma_sorted_distinct(keys, i, j);
    }
}

/// A set of paths, in path order.
#[derive(Debug, Clone, PartialEq, Eq)]
pub struct PathSet {
    inner: PathMap<()>,
}

impl View for PathSet {
    type V = Set<Seq<u8>>;

    open spec fn view(&self) -> Set<Seq<u8>> {
        self.set()
    }
}

impl PathSet {
    /// The paths, in order.
    pub closed spec fn keys(&self) -> Seq<Seq<u8>> {
        self.inner.keys()
    }

    /// The set itself.
    pub closed spec fn set(&self) -> Set<Seq<u8>> {
        self.inner.map().dom()
    }

    pub closed spec fn wf(&self) -> bool {
        self.inner.wf()
    }

    /// The set holds exactly the listed paths, which are in strictly ascending order.
    pub proof fn lemma_set(&self)
        requires
            self.wf(),
        ensures
            strictly_sorted(self.keys()),
            forall|k: Seq<u8>| #[trigger] self.set().contains(k) <==> self.keys().contains(k),
    {
    }

    pub fn new() -> (r: Self)
        ensures
            r.wf(),
            r.set() == Set::<Seq<u8>>::empty(),
            r.keys().len() == 0,
    {
        let r = PathSet { inner: PathMap::new() };
        assert(r.set() =~= Set::<Seq<u8>>::empty());
        r
    }

    pub fn len(&self) -> (r: usize)
        ensures
            r == self.keys().len(),
    {
        self.inner.len()
    }

    pub fn key_at(&self, i: usize) -> (r: &[u8])
        requires
            i < self.keys().len(),
        ensures
            r@ == self.keys()[i as int],
    {
        self.inner.key_at(i)
    }

    /// The first position whose path does not sort before `key`.
    pub fn lower_bound(&self, key: &[u8]) -> (r: usize)
        requires
            self.wf(),
        ensures
            r <= self.keys().len(),
            forall|j: int| 0 <= j < r ==> bytes_lt(#[trigger] self.keys()[j], key@),
            forall|j: int| r <= j < self.keys().len() ==> !bytes_lt(#[trigger] self.keys()[j], key@),
    {
        let (found, pos) = self.inner.locate(key);
        proof {
            assert forall|j: int| pos <= j < self.keys().len() implies !bytes_lt(#[trigger] self.keys()[j], key@) by {
                if j == pos && found {
                    lemma_bytes_lt_irreflexive(key@);
                } else {
                    lemma_bytes_lt_asymmetric(key@, self.keys()[j]);
                }
            }
        }
        pos
    }

    /// Whether every path of this set is in `other`.
    pub fn is_subset_of(&self, other: &PathSet) -> (r: bool)
        requires
            self.wf(),
            other.wf(),
        ensures
            r == self.set().subset_of(other.set()),
    {
        let mut i: usize = 0;
        while i < self.inner.len()
            invariant
                self.wf(),
                other.wf(),
                i <= self.keys().len(),
                forall|j: int| 0 <= j < i ==> other.set().contains(#[trigger] self.keys()[j]),
            decreases self.keys().len() - i,
        {
            if !other.contains(self.inner.key_at(i)) {
                proof {
                    self.lemma_set();
                    assert(self.keys().contains(self.keys()[i as int]));
                }
                return false;
            }
            i = i + 1;
        }
        proof {
            self.lemma_set();
            assert forall|k: Seq<u8>| self.set().contains(k) implies other.set().contains(k) by {
                let j = choose|j: int| 0 <= j < self.keys().len() && self.keys()[j] == k;
            }
        }
        true
    }

    /// Whether the two sets hold the same paths.
    pub fn same_as(&self, other: &PathSet) -> (r: bool)
        requires
            self.wf(),
            other.wf(),
        ensures
            r == (self.set() == other.set()),
    {
        let r = self.is_subset_of(other) && other.is_subset_of(self);
        proof {
            if r {
                assert(self.set() =~= other.set());
            }
        }
        r
    }

    pub fn contains(&self, key: &[u8]) -> (r: bool)
        requires
            self.wf(),
        ensures
            r == self.set().contains(key@),
    {
        self.inner.contains_key(key)
    }

    pub fn insert(&mut self, key: Vec<u8>)
        requires
            old(self).wf(),
        ensures
            final(self).wf(),
            final(self).set() == old(self).set().insert(key@),
    {
        self.inner.insert(key, ());
        assert(self.set() =~= old(self).set().insert(key@));
    }
}

} // verus!
