//! An ordered map keyed by row key.
//!
//! Row keys are byte strings. [`RowMap`] keeps its entries sorted by key in the
//! lexicographic order of bytes, so a lookup is a binary search and a walk over
//! the entries has one fixed order.

use vstd::prelude::*;

verus! {

/// The first `n` bytes of `a` and `b` agree.
pub open spec fn agree_up_to(a: Seq<u8>, b: Seq<u8>, n: int) -> bool {
    &&& 0 <= n <= a.len()
    &&& n <= b.len()
    &&& forall|i: int| 0 <= i < n ==> a[i] == b[i]
}

/// `a` and `b` agree on their first `n` bytes, and there `a` ends or has the
/// smaller byte.
pub open spec fn comes_before_at(a: Seq<u8>, b: Seq<u8>, n: int) -> bool {
    &&& agree_up_to(a, b, n)
    &&& n < b.len()
    &&& n == a.len() || a[n] < b[n]
}

/// `a` comes strictly before `b` in the lexicographic order of bytes.
pub open spec fn comes_before(a: Seq<u8>, b: Seq<u8>) -> bool {
    exists|n: int| comes_before_at(a, b, n)
}

proof fn lemma_before_is_strict(a: Seq<u8>, b: Seq<u8>)
    requires
        comes_before(a, b),
    ensures
        a != b,
        !comes_before(b, a),
{
    let n = choose|n: int| comes_before_at(a, b, n);
    if comes_before(b, a) {
        let m = choose|m: int| comes_before_at(b, a, m);
        assert(n == m || n < m || m < n);
    }
}

proof fn lemma_before_is_transitive(a: Seq<u8>, b: Seq<u8>, c: Seq<u8>)
    requires
        comes_before(a, b),
        comes_before(b, c),
    ensures
        comes_before(a, c),
{
    let n = choose|n: int| comes_before_at(a, b, n);
    let m = choose|m: int| comes_before_at(b, c, m);
    if n <= m {
        assert(comes_before_at(a, c, n));
    } else {
        assert(comes_before_at(a, c, m));
    }
}

/// Where one byte string stands against another.
#[derive(Clone, Copy, PartialEq, Eq, Structural)]
enum Place {
    Before,
    Same,
    After,
}

/// Compare two byte strings lexicographically.
fn place_of(a: &[u8], b: &[u8]) -> (place: Place)
    ensures
        place == Place::Before <==> comes_before(a@, b@),
        place == Place::Same <==> a@ == b@,
        place == Place::After <==> comes_before(b@, a@),
{
    let mut n: usize = 0;
    while n < a.len() && n < b.len() && a[n] == b[n]
        invariant
            agree_up_to(a@, b@, n as int),
        decreases a.len() - n,
    {
        n = n + 1;
    }
    proof {
        if comes_before(a@, b@) {
            lemma_before_is_strict(a@, b@);
        }
        if comes_before(b@, a@) {
            lemma_before_is_strict(b@, a@);
        }
    }
    if n < b.len() && (n == a.len() || a[n] < b[n]) {
        assert(comes_before_at(a@, b@, n as int));
        Place::Before
    } else if n == a.len() {
        assert(a@ =~= b@);
        Place::Same
    } else {
        assert(comes_before_at(b@, a@, n as int));
        Place::After
    }
}

/// Compare two byte strings for equality.
pub fn same_bytes(a: &[u8], b: &[u8]) -> (same: bool)
    ensures
        same == (a@ == b@),
{
    match place_of(a, b) {
        Place::Same => true,
        _ => false,
    }
}

/// Copy a byte string.
pub fn copy_bytes(bytes: &[u8]) -> (copy: Vec<u8>)
    ensures
        copy@ == bytes@,
{
    let mut copy: Vec<u8> = Vec::with_capacity(bytes.len());
    copy.extend_from_slice(bytes);
    assert(copy@ =~= bytes@);
    copy
}

/// Walking one step further adds one item to those that have been met.
pub proof fn lemma_one_more<A>(items: Seq<A>, i: int)
    requires
        0 <= i < items.len(),
    ensures
        items.take(i + 1).to_set() == items.take(i).to_set().insert(items[i]),
{
    let more = items.take(i + 1);
    let met = items.take(i);
    assert forall|item: A| more.contains(item) == (met.contains(item) || item == items[i]) by {
        if met.contains(item) {
            let j = choose|j: int| 0 <= j < met.len() && met[j] == item;
            assert(more[j] == item);
        }
        if item == items[i] {
            assert(more[i] == item);
        }
        if more.contains(item) {
            let j = choose|j: int| 0 <= j < more.len() && more[j] == item;
            if j < i {
                assert(met[j] == item);
            }
        }
    }
    assert(more.to_set() =~= met.to_set().insert(items[i]));
}

proof fn lemma_contains_after_push(items: Seq<int>, item: int)
    ensures
        items.push(item).contains(item),
        forall|other: int| #[trigger] items.contains(other) ==> items.push(item).contains(other),
{
    assert(items.push(item)[items.len() as int] == item);
    assert forall|other: int| #[trigger] items.contains(other) implies items.push(item).contains(other) by {
        let j = choose|j: int| 0 <= j < items.len() && items[j] == other;
        assert(items.push(item)[j] == other);
    }
}

/// A map from row keys to values, in key order.
pub struct RowMap<V> {
    entries: Vec<(Vec<u8>, V)>,
}

impl<V> RowMap<V> {
    /// The keys, in order.
    pub closed spec fn keys(&self) -> Seq<Seq<u8>> {
        Seq::new(self.entries@.len(), |i: int| self.entries@[i].0@)
    }

    /// The values, in the order of their keys.
    pub closed spec fn values(&self) -> Seq<V> {
        Seq::new(self.entries@.len(), |i: int| self.entries@[i].1)
    }

    /// The keys ascend strictly.
    pub open spec fn wf(&self) -> bool {
        &&& self.keys().len() == self.values().len()
        &&& forall|i: int, j: int|
            0 <= i < j < self.keys().len() ==> #[trigger] comes_before(self.keys()[i], self.keys()[j])
    }

    /// The position of a key that the map holds.
    pub open spec fn position(&self, key: Seq<u8>) -> int {
        choose|i: int| 0 <= i < self.keys().len() && self.keys()[i] == key
    }
}

impl<V> View for RowMap<V> {
    type V = Map<Seq<u8>, V>;

    open spec fn view(&self) -> Map<Seq<u8>, V> {
        Map::new(|key: Seq<u8>| self.keys().contains(key), |key: Seq<u8>| self.values()[self.position(key)])
    }
}

impl<V> RowMap<V> {
    /// What a walk over the entries of a map meets: every key once, with its value.
    pub proof fn lemma_walk(&self)
        requires
            self.wf(),
        ensures
            self.keys().no_duplicates(),
            self.keys().to_set() == self@.dom(),
            self@.dom().finite(),
            self@.dom().len() == self.keys().len(),
            forall|i: int|
                0 <= i < self.keys().len() ==> self@.contains_key(#[trigger] self.keys()[i])
                    && self@[self.keys()[i]] == self.values()[i],
            forall|key: Seq<u8>| #[trigger]
                self@.contains_key(key) ==> 0 <= self.position(key) < self.keys().len()
                    && self.keys()[self.position(key)] == key,
    {
        let keys = self.keys();
        assert forall|i: int, j: int| 0 <= i < keys.len() && 0 <= j < keys.len() && i != j implies keys[i]
            != keys[j] by {
            if i < j {
                lemma_before_is_strict(keys[i], keys[j]);
            } else {
                lemma_before_is_strict(keys[j], keys[i]);
            }
        }
        assert(keys.to_set() =~= self@.dom());
        keys.unique_seq_to_set();
        assert forall|i: int| 0 <= i < keys.len() implies self@.contains_key(#[trigger] keys[i])
            && self@[keys[i]] == self.values()[i] by {
            assert(keys.contains(keys[i]));
            assert(self.position(keys[i]) == i);
        }
    }

    /// `after` holds what `self` holds, but for the value of the `i`-th entry.
    spec fn differs_only_at(&self, after: Self, i: int) -> bool {
        after.entries@ == self.entries@.update(i, (self.entries@[i].0, after.entries@[i].1))
    }

    proof fn lemma_change_at(&self, after: Self, i: int)
        requires
            self.wf(),
            0 <= i < self.keys().len(),
            self.differs_only_at(after, i),
        ensures
            after.keys() == self.keys(),
            after.wf(),
            after@ == self@.insert(self.keys()[i], after.entries@[i].1),
    {
        assert(after.keys() =~= self.keys());
        self.lemma_walk();
        after.lemma_walk();
        assert(after@ =~= self@.insert(self.keys()[i], after.entries@[i].1));
    }

    /// An empty map.
    pub fn new() -> (map: Self)
        ensures
            map.wf(),
            map@ == Map::<Seq<u8>, V>::empty(),
            map.keys().len() == 0,
    {
        let map = RowMap { entries: Vec::new() };
        assert(map@ =~= Map::<Seq<u8>, V>::empty());
        map
    }

    /// The number of entries.
    pub fn len(&self) -> (len: usize)
        requires
            self.wf(),
        ensures
            len == self.keys().len(),
            len == self@.dom().len(),
    {
        proof {
            self.lemma_walk();
        }
        self.entries.len()
    }

    /// Whether the map has no entry.
    pub fn is_empty(&self) -> (empty: bool)
        requires
            self.wf(),
        ensures
            empty == (self@ == Map::<Seq<u8>, V>::empty()),
    {
        proof {
            self.lemma_walk();
            if self.keys().len() == 0 {
                assert(self@ =~= Map::<Seq<u8>, V>::empty());
            } else {
                assert(self@.contains_key(self.keys()[0]));
            }
        }
        self.entries.len() == 0
    }

    /// Search for `key`: its position, or the position where it belongs.
    fn find(&self, key: &[u8]) -> (found: (usize, bool))
        requires
            self.wf(),
        ensures
            found.0 <= self.keys().len(),
            found.1 == self.keys().contains(key@),
            found.1 ==> found.0 < self.keys().len() && self.keys()[found.0 as int] == key@,
            forall|i: int| 0 <= i < found.0 ==> comes_before(#[trigger] self.keys()[i], key@),
            forall|i: int|
                found.0 <= i < self.keys().len() ==> (#[trigger] self.keys()[i] == key@ && i == found.0
                    && found.1) || comes_before(key@, self.keys()[i]),
    {
        let mut lo: usize = 0;
        let mut hi: usize = self.entries.len();
        while lo < hi
            invariant
                self.wf(),
                lo <= hi <= self.keys().len(),
                self.keys().len() == self.entries@.len(),
                forall|i: int| 0 <= i < lo ==> comes_before(#[trigger] self.keys()[i], key@),
                forall|i: int| hi <= i < self.keys().len() ==> comes_before(key@, #[trigger] self.keys()[i]),
            decreases hi - lo,
        {
            let mid: usize = lo + (hi - lo) / 2;
            let place = place_of(&self.entries[mid].0, key);
            let ghost at = self.keys()[mid as int];
            assert(at == self.entries@[mid as int].0@);
            match place {
                Place::Same => {
                    assert forall|i: int| 0 <= i < mid implies comes_before(#[trigger] self.keys()[i], key@) by {
                        assert(comes_before(self.keys()[i], self.keys()[mid as int]));
                    }
                    assert forall|i: int| mid < i < self.keys().len() implies comes_before(
                        key@,
                        #[trigger] self.keys()[i],
                    ) by {
                        assert(comes_before(self.keys()[mid as int], self.keys()[i]));
                    }
                    return (mid, true);
                },
                Place::Before => {
                    assert forall|i: int| 0 <= i < mid + 1 implies comes_before(#[trigger] self.keys()[i], key@) by {
                        if i < mid {
                            assert(comes_before(self.keys()[i], self.keys()[mid as int]));
                            lemma_before_is_transitive(self.keys()[i], at, key@);
                        }
                    }
                    lo = mid + 1;
                },
                Place::After => {
                    assert forall|i: int| mid <= i < self.keys().len() implies comes_before(
                        key@,
                        #[trigger] self.keys()[i],
                    ) by {
                        if mid < i {
                            assert(comes_before(self.keys()[mid as int], self.keys()[i]));
                            lemma_before_is_transitive(key@, at, self.keys()[i]);
                        }
                    }
                    hi = mid;
                },
            }
        }
        proof {
            assert forall|i: int| 0 <= i < self.keys().len() implies #[trigger] self.keys()[i] != key@ by {
                if i < lo {
                    lemma_before_is_strict(self.keys()[i], key@);
                } else {
                    lemma_before_is_strict(key@, self.keys()[i]);
                }
            }
        }
        (lo, false)
    }

    /// Whether the map holds `key`.
    pub fn contains_key(&self, key: &[u8]) -> (found: bool)
        requires
            self.wf(),
        ensures
            found == self@.contains_key(key@),
    {
        self.find(key).1
    }

    /// The value at `key`.
    pub fn get(&self, key: &[u8]) -> (value: Option<&V>)
        requires
            self.wf(),
        ensures
            value is Some <==> self@.contains_key(key@),
            value matches Some(v) ==> *v == self@[key@],
    {
        let (i, found) = self.find(key);
        if found {
            proof {
                self.lemma_walk();
            }
            Some(&self.entries[i].1)
        } else {
            None
        }
    }

    /// The value at `key`, to change in place.
    pub fn get_mut(&mut self, key: &[u8]) -> (value: Option<&mut V>)
        requires
            old(self).wf(),
        ensures
            final(self).wf(),
            final(self).keys() == old(self).keys(),
            value is Some <==> old(self)@.contains_key(key@),
            match value {
                Some(v) => {
                    &&& *v == old(self)@[key@]
                    &&& final(self)@ == old(self)@.insert(key@, *final(v))
                },
                None => *final(self) == *old(self),
            },
    {
        let (i, found) = self.find(key);
        if found {
            let ghost before = *self;
            proof {
                self.lemma_walk();
                assert forall|after: Self| before.differs_only_at(after, i as int) implies {
                    &&& #[trigger] after.keys() == before.keys()
                    &&& after.wf()
                    &&& after@ == before@.insert(key@, after.entries@[i as int].1)
                } by {
                    before.lemma_change_at(after, i as int);
                }
            }
            Some(&mut self.entries[i].1)
        } else {
            None
        }
    }

    /// Put `value` at `key`, in place of the value that stood there.
    pub fn insert(&mut self, key: Vec<u8>, value: V)
        requires
            old(self).wf(),
        ensures
            final(self).wf(),
            final(self)@ == old(self)@.insert(key@, value),
    {
        let ghost before = *self;
        let ghost k = key@;
        let (i, found) = self.find(&key);
        proof {
            before.lemma_walk();
        }
        if found {
            self.entries[i] = (key, value);
            assert(self.keys() =~= before.keys());
        } else {
            self.entries.insert(i, (key, value));
            assert(self.keys() =~= before.keys().insert(i as int, k));
            assert forall|a: int, b: int| 0 <= a < b < self.keys().len() implies #[trigger] comes_before(
                self.keys()[a],
                self.keys()[b],
            ) by {
                let a0 = if a < i { a } else { a - 1 };
                let b0 = if b < i { b } else { b - 1 };
                if a != i && b != i {
                    assert(comes_before(before.keys()[a0], before.keys()[b0]));
                }
            }
        }
        proof {
            self.lemma_walk();
            assert forall|x: Seq<u8>| self@.contains_key(x) == before@.insert(k, value).contains_key(x) by {
                if before@.contains_key(x) && !found {
                    let p = before.position(x);
                    let q = if p < i { p } else { p + 1 };
                    assert(self.keys()[q] == x);
                }
                if x == k {
                    assert(self.keys()[i as int] == x);
                }
            }
            assert forall|x: Seq<u8>| #[trigger] self@.contains_key(x) implies self@[x] == before@.insert(k, value)[x] by {
                let q = self.position(x);
                if x != k && !found {
                    let p = if q < i { q } else { q - 1 };
                    assert(before.keys()[p] == x);
                }
            }
            assert(self@ =~= before@.insert(k, value));
        }
    }

    /// Take the entry at `key` out.
    pub fn remove(&mut self, key: &[u8]) -> (value: Option<V>)
        requires
            old(self).wf(),
        ensures
            final(self).wf(),
            final(self)@ == old(self)@.remove(key@),
            value is Some <==> old(self)@.contains_key(key@),
            value matches Some(v) ==> v == old(self)@[key@],
    {
        let ghost before = *self;
        let (i, found) = self.find(key);
        proof {
            before.lemma_walk();
        }
        if !found {
            assert(self@ =~= before@.remove(key@));
            return None;
        }
        let (_, value) = self.entries.remove(i);
        proof {
            assert(self.keys() =~= before.keys().remove(i as int));
            assert forall|a: int, b: int| 0 <= a < b < self.keys().len() implies #[trigger] comes_before(
                self.keys()[a],
                self.keys()[b],
            ) by {
                let a0 = if a < i { a } else { a + 1 };
                let b0 = if b < i { b } else { b + 1 };
                assert(comes_before(before.keys()[a0], before.keys()[b0]));
            }
            self.lemma_walk();
            assert forall|x: Seq<u8>| self@.contains_key(x) == before@.remove(key@).contains_key(x) by {
                if before@.remove(key@).contains_key(x) {
                    let p = before.position(x);
                    let q = if p < i { p } else { p - 1 };
                    assert(self.keys()[q] == x);
                }
                if self@.contains_key(x) {
                    let q = self.position(x);
                    let p = if q < i { q } else { q + 1 };
                    assert(before.keys()[p] == x);
                }
            }
            assert forall|x: Seq<u8>| #[trigger] self@.contains_key(x) implies self@[x] == before@.remove(key@)[x] by {
                let q = self.position(x);
                let p = if q < i { q } else { q + 1 };
                assert(before.keys()[p] == x);
            }
            assert(self@ =~= before@.remove(key@));
        }
        Some(value)
    }

    /// `picked` holds the entries of `self` that `marks` marks, by their position; the
    /// `j`-th of them stood at `from[j]`.
    spec fn is_pick(&self, picked: Self, marks: Seq<bool>, from: Seq<int>) -> bool {
        &&& from.len() == picked.entries@.len()
        &&& forall|j: int|
            0 <= j < from.len() ==> 0 <= #[trigger] from[j] < self.entries@.len() && marks[from[j]]
                && picked.entries@[j] == self.entries@[from[j]]
        &&& forall|j: int, k: int| 0 <= j < k < from.len() ==> from[j] < from[k]
        &&& forall|p: int| 0 <= p < self.entries@.len() && #[trigger] marks[p] ==> from.contains(p)
    }

    proof fn lemma_pick(&self, picked: Self, marks: Seq<bool>, from: Seq<int>)
        requires
            self.wf(),
            self.is_pick(picked, marks, from),
            marks.len() == self.keys().len(),
        ensures
            picked.wf(),
            forall|key: Seq<u8>| #[trigger]
                picked@.contains_key(key) <==> self@.contains_key(key) && marks[self.position(key)],
            forall|key: Seq<u8>| #[trigger] picked@.contains_key(key) ==> picked@[key] == self@[key],
    {
        assert forall|j: int| 0 <= j < from.len() implies #[trigger] picked.keys()[j] == self.keys()[from[j]]
            && picked.values()[j] == self.values()[from[j]] by {
            assert(picked.entries@[j] == self.entries@[from[j]]);
        }
        assert forall|a: int, b: int| 0 <= a < b < picked.keys().len() implies #[trigger] comes_before(
            picked.keys()[a],
            picked.keys()[b],
        ) by {
            assert(comes_before(self.keys()[from[a]], self.keys()[from[b]]));
        }
        self.lemma_walk();
        picked.lemma_walk();
        assert forall|key: Seq<u8>| #[trigger] picked@.contains_key(key) implies self@.contains_key(key)
            && marks[self.position(key)] && picked@[key] == self@[key] by {
            let j = picked.position(key);
            assert(self.keys()[from[j]] == key);
            assert(self.position(key) == from[j]);
        }
        assert forall|key: Seq<u8>| self@.contains_key(key) && marks[self.position(key)] implies #[trigger] picked@.contains_key(
            key,
        ) by {
            let p = self.position(key);
            let j = choose|j: int| 0 <= j < from.len() && from[j] == p;
            assert(picked.keys()[j] == key);
        }
    }

    /// Keep the entries that `keep` marks, by their position, and take the others out.
    pub fn retain(&mut self, keep: &Vec<bool>) -> (dropped: Self)
        requires
            old(self).wf(),
            keep@.len() == old(self).keys().len(),
        ensures
            final(self).wf(),
            forall|key: Seq<u8>| #[trigger]
                final(self)@.contains_key(key) <==> old(self)@.contains_key(key)
                    && keep@[old(self).position(key)],
            forall|key: Seq<u8>| #[trigger]
                final(self)@.contains_key(key) ==> final(self)@[key] == old(self)@[key],
            dropped.wf(),
            forall|key: Seq<u8>| #[trigger]
                dropped@.contains_key(key) <==> old(self)@.contains_key(key)
                    && !keep@[old(self).position(key)],
            forall|key: Seq<u8>| #[trigger]
                dropped@.contains_key(key) ==> dropped@[key] == old(self)@[key],
    {
        let ghost before = *self;
        let mut entries: Vec<(Vec<u8>, V)> = Vec::new();
        std::mem::swap(&mut self.entries, &mut entries);
        let mut kept: Vec<(Vec<u8>, V)> = Vec::new();
        let mut out: Vec<(Vec<u8>, V)> = Vec::new();
        let mut i: usize = 0;
        let ghost unmarked = keep@.map_values(|mark: bool| !mark);
        // Where each entry stood that was kept, and each that was not.
        let ghost mut kept_from: Seq<int> = Seq::empty();
        let ghost mut out_from: Seq<int> = Seq::empty();
        for entry in walk: entries
            invariant
                i == walk.index(),
                walk.seq() == before.entries@,
                keep@.len() == before.entries@.len(),
                keep@.len() == keep.len(),
                unmarked == keep@.map_values(|mark: bool| !mark),
                kept_from.len() == kept@.len(),
                forall|j: int|
                    0 <= j < kept_from.len() ==> 0 <= #[trigger] kept_from[j] < i && keep@[kept_from[j]]
                        && kept@[j] == before.entries@[kept_from[j]],
                forall|j: int, k: int| 0 <= j < k < kept_from.len() ==> kept_from[j] < kept_from[k],
                forall|p: int| 0 <= p < i && #[trigger] keep@[p] ==> kept_from.contains(p),
                out_from.len() == out@.len(),
                forall|j: int|
                    0 <= j < out_from.len() ==> 0 <= #[trigger] out_from[j] < i && unmarked[out_from[j]]
                        && out@[j] == before.entries@[out_from[j]],
                forall|j: int, k: int| 0 <= j < k < out_from.len() ==> out_from[j] < out_from[k],
                forall|p: int| 0 <= p < i && #[trigger] unmarked[p] ==> out_from.contains(p),
        {
            if keep[i] {
                proof {
                    lemma_contains_after_push(kept_from, i as int);
                    kept_from = kept_from.push(i as int);
                }
                kept.push(entry);
            } else {
                proof {
                    lemma_contains_after_push(out_from, i as int);
                    out_from = out_from.push(i as int);
                }
                out.push(entry);
            }
            i = i + 1;
        }
        self.entries = kept;
        let dropped = RowMap { entries: out };
        proof {
            before.lemma_pick(*self, keep@, kept_from);
            before.lemma_pick(dropped, unmarked, out_from);
            before.lemma_walk();
        }
        dropped
    }

    /// Take the entries of another map over. Where both have a key, the other's value
    /// counts.
    pub fn append(&mut self, other: Self)
        requires
            old(self).wf(),
            other.wf(),
        ensures
            final(self).wf(),
            final(self)@ == old(self)@.union_prefer_right(other@),
    {
        let ghost before = self@;
        let ghost all = other@;
        let ghost keys = other.keys();
        let ghost values = other.values();
        proof {
            other.lemma_walk();
            assert(self@ =~= before.union_prefer_right(all.restrict(keys.take(0).to_set())));
        }
        for entry in walk: other.entries
            invariant
                walk.seq().len() == keys.len(),
                forall|i: int|
                    0 <= i < keys.len() ==> (#[trigger] walk.seq()[i]).0@ == keys[i] && walk.seq()[i].1 == values[i],
                forall|i: int|
                    0 <= i < keys.len() ==> all.contains_key(#[trigger] keys[i]) && all[keys[i]] == values[i],
                self.wf(),
                self@ == before.union_prefer_right(all.restrict(keys.take(walk.index() as int).to_set())),
        {
            let ghost i = walk.index() as int;
            let ghost partial = self@;
            let (key, value) = entry;
            assert(walk.seq()[i] == entry);
            self.insert(key, value);
            proof {
                lemma_one_more(keys, i);
                assert(self@ =~= before.union_prefer_right(all.restrict(keys.take(i + 1).to_set())));
            }
        }
        proof {
            assert(keys.take(keys.len() as int) =~= keys);
            assert(all.restrict(keys.to_set()) =~= all);
        }
    }

    /// The `i`-th key in order.
    pub fn key_at(&self, i: usize) -> (key: &Vec<u8>)
        requires
            self.wf(),
            i < self.keys().len(),
        ensures
            key@ == self.keys()[i as int],
    {
        &self.entries[i].0
    }

    /// The value at the `i`-th key in order.
    pub fn value_at(&self, i: usize) -> (value: &V)
        requires
            self.wf(),
            i < self.keys().len(),
        ensures
            *value == self.values()[i as int],
            *value == self@[self.keys()[i as int]],
    {
        proof {
            self.lemma_walk();
        }
        &self.entries[i].1
    }

    /// The value at the `i`-th key in order, to change in place.
    pub fn value_at_mut(&mut self, i: usize) -> (value: &mut V)
        requires
            old(self).wf(),
            i < old(self).keys().len(),
        ensures
            final(self).wf(),
            final(self).keys() == old(self).keys(),
            *value == old(self)@[old(self).keys()[i as int]],
            final(self)@ == old(self)@.insert(old(self).keys()[i as int], *final(value)),
    {
        let ghost before = *self;
        proof {
            self.lemma_walk();
            assert forall|after: Self| before.differs_only_at(after, i as int) implies {
                &&& #[trigger] after.keys() == before.keys()
                &&& after.wf()
                &&& after@ == before@.insert(before.keys()[i as int], after.entries@[i as int].1)
            } by {
                before.lemma_change_at(after, i as int);
            }
        }
        &mut self.entries[i].1
    }
}

/// Byte strings are ordered as in a dictionary: by the first byte in which they differ,
/// and one that begins another comes before it. Of two that are not the same, exactly one
/// comes before the other.
pub proof fn law_keys_are_ordered_by_their_bytes(a: Seq<u8>, b: Seq<u8>, n: int)
    requires
        0 <= n <= a.len(),
        n <= b.len(),
        forall|i: int| 0 <= i < n ==> a[i] == b[i],
    ensures
        n < a.len() && n < b.len() && a[n] < b[n] ==> comes_before(a, b) && !comes_before(b, a),
        n == a.len() && n < b.len() ==> comes_before(a, b) && !comes_before(b, a),
        n == a.len() && n == b.len() ==> a == b && !comes_before(a, b),
{
    if n == a.len() && n == b.len() {
        assert(a =~= b);
        if comes_before(a, b) {
            lemma_before_is_strict(a, b);
        }
    } else if n < b.len() && (n == a.len() || a[n] < b[n]) {
        assert(comes_before_at(a, b, n));
        lemma_before_is_strict(a, b);
    }
}

/// A map holds each of its keys once, in that order, and at each key the value that
/// stands with it.
pub proof fn law_maps_hold_their_entries<V>(map: RowMap<V>, i: int, j: int)
    requires
        map.wf(),
        0 <= i < map.keys().len(),
        0 <= j < map.keys().len(),
    ensures
        map@.contains_key(map.keys()[i]),
        map@[map.keys()[i]] == map.values()[i],
        i < j <==> comes_before(map.keys()[i], map.keys()[j]),
        map.keys()[i] == map.keys()[j] <==> i == j,
        forall|key: Seq<u8>| #[trigger] map@.contains_key(key) <==> map.keys().contains(key),
{
    map.lemma_walk();
    if i < j {
        lemma_before_is_strict(map.keys()[i], map.keys()[j]);
    } else if j < i {
        assert(comes_before(map.keys()[j], map.keys()[i]));
        lemma_before_is_strict(map.keys()[j], map.keys()[i]);
    } else if comes_before(map.keys()[i], map.keys()[j]) {
        lemma_before_is_strict(map.keys()[i], map.keys()[j]);
    }
}

} // verus!
