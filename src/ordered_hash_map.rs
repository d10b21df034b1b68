use std::cmp::Ordering;
use vstd::laws_eq::obeys_concrete_eq;
use vstd::prelude::*;
use vstd::std_specs::cmp::PartialEqSpec;

verus! {

/// No two entries of `s` share a key.
pub open spec fn keys_unique<K, V>(s: Seq<(K, V)>) -> bool {
    forall|i: int, j: int| 0 <= i < j < s.len() ==> s[i].0 != s[j].0
}

/// Some entry of `s` has key `k`.
pub open spec fn has_key<K, V>(s: Seq<(K, V)>, k: K) -> bool {
    exists|i: int| 0 <= i < s.len() && #[trigger] s[i].0 == k
}

/// The position of the entry with key `k` (meaningful when `has_key(s, k)`).
pub open spec fn key_index<K, V>(s: Seq<(K, V)>, k: K) -> int {
    choose|i: int| 0 <= i < s.len() && #[trigger] s[i].0 == k
}

/// `s` with the entry of key `k` taken out, if there is one.
pub open spec fn removed_key<K, V>(s: Seq<(K, V)>, k: K) -> Seq<(K, V)> {
    if has_key(s, k) {
        s.remove(key_index(s, k))
    } else {
        s
    }
}

/// The value stored under `k`, if any.
pub open spec fn value_of<K, V>(s: Seq<(K, V)>, k: K) -> Option<V> {
    if has_key(s, k) {
        Some(s[key_index(s, k)].1)
    } else {
        None
    }

}

proof fn lemma_key_eq<K: PartialEq>(a: K, b: K)
    requires
        obeys_concrete_eq::<K>(),
    ensures
        K::obeys_eq_spec(),
        a.eq_spec(&b) <==> (a == b),
{
    reveal(obeys_concrete_eq);
}

/// With unique keys, the entry found at `i` is the one `key_index` picks.
pub proof fn lemma_key_index_unique<K, V>(s: Seq<(K, V)>, k: K, i: int)
    requires
        keys_unique(s),
        0 <= i < s.len(),
        s[i].0 == k,
    ensures
        has_key(s, k),
        key_index(s, k) == i,
{
    assert(has_key(s, k));
    let j = key_index(s, k);
    assert(s[j].0 == k);
}

/// Removing an entry keeps the other keys unique.
proof fn lemma_remove_unique<K, V>(s: Seq<(K, V)>, i: int)
    requires
        keys_unique(s),
        0 <= i < s.len(),
    ensures
        keys_unique(s.remove(i)),
        !has_key(s.remove(i), s[i].0),
{
    let r = s.remove(i);
    assert forall|a: int, b: int| 0 <= a < b < r.len() implies r[a].0 != r[b].0 by {
        let a2 = if a < i { a } else { a + 1 };
        let b2 = if b < i { b } else { b + 1 };
        assert(r[a] == s[a2]);
        assert(r[b] == s[b2]);
    }
    if has_key(r, s[i].0) {
        let j = choose|j: int| 0 <= j < r.len() && #[trigger] r[j].0 == s[i].0;
        let j2 = if j < i { j } else { j + 1 };
        assert(r[j] == s[j2]);
    }
}

/// Taking a key out keeps the other keys unique, leaves that key absent, and
/// shortens the sequence by one exactly when the key was there.
pub proof fn lemma_removed_key<K, V>(s: Seq<(K, V)>, k: K)
    requires
        keys_unique(s),
    ensures
        keys_unique(removed_key(s, k)),
        !has_key(removed_key(s, k), k),
        removed_key(s, k).len() == if has_key(s, k) {
            s.len() - 1
        } else {
            s.len() as int
        },
        forall|k2: K| k2 != k ==> (has_key(removed_key(s, k), k2) <==> has_key(s, k2)),
{
    if has_key(s, k) {
        let i = key_index(s, k);
        lemma_remove_unique(s, i);
        let r = s.remove(i);
        assert forall|k2: K| k2 != k implies (has_key(r, k2) <==> has_key(s, k2)) by {
            if has_key(s, k2) {
                let j = choose|j: int| 0 <= j < s.len() && #[trigger] s[j].0 == k2;
                let j2 = if j < i { j } else { j - 1 };
                assert(r[j2] == s[j]);
            }
            if has_key(r, k2) {
                let j = choose|j: int| 0 <= j < r.len() && #[trigger] r[j].0 == k2;
                let j2 = if j < i { j } else { j + 1 };
                assert(r[j] == s[j2]);
            }
        }
    }
}

/// Putting an entry of an absent key in front keeps keys unique.
pub proof fn lemma_prepend_unique<K, V>(s: Seq<(K, V)>, e: (K, V))
    requires
        keys_unique(s),
        !has_key(s, e.0),
    ensures
        keys_unique(seq![e] + s),
        forall|k2: K| has_key(seq![e] + s, k2) <==> (k2 == e.0 || has_key(s, k2)),
{
    lemma_insert_unique(s, 0, e);
    assert(s.insert(0, e) =~= seq![e] + s);
    let t = seq![e] + s;
    assert forall|k2: K| has_key(t, k2) <==> (k2 == e.0 || has_key(s, k2)) by {
        if has_key(s, k2) {
            let j = choose|j: int| 0 <= j < s.len() && #[trigger] s[j].0 == k2;
            assert(t[j + 1] == s[j]);
        }
        if has_key(t, k2) && k2 != e.0 {
            let j = choose|j: int| 0 <= j < t.len() && #[trigger] t[j].0 == k2;
            assert(t[j] == s[j - 1]);
        }
        if k2 == e.0 {
            assert(t[0].0 == k2);
        }
    }
}

/// Taking a contiguous part keeps keys unique.
pub proof fn lemma_subrange_unique<K, V>(s: Seq<(K, V)>, a: int, b: int)
    requires
        keys_unique(s),
        0 <= a <= b <= s.len(),
    ensures
        keys_unique(s.subrange(a, b)),
{
    let r = s.subrange(a, b);
    assert forall|x: int, y: int| 0 <= x < y < r.len() implies r[x].0 != r[y].0 by {
        assert(r[x] == s[a + x]);
        assert(r[y] == s[a + y]);
    }
}

/// Placing an entry whose key is absent keeps keys unique.
proof fn lemma_insert_unique<K, V>(s: Seq<(K, V)>, i: int, e: (K, V))
    requires
        keys_unique(s),
        !has_key(s, e.0),
        0 <= i <= s.len(),
    ensures
        keys_unique(s.insert(i, e)),
        s.insert(i, e)[i] == e,
{
    let r = s.insert(i, e);
    assert forall|x: int, y: int| 0 <= x < y < r.len() implies r[x].0 != r[y].0 by {
        if x == i {
            assert(r[y] == s[y - 1]);
        } else if y == i {
            assert(r[x] == s[x]);
        } else {
            let x2 = if x < i { x } else { x - 1 };
            let y2 = if y < i { y } else { y - 1 };
            assert(r[x] == s[x2]);
            assert(r[y] == s[y2]);
        }
    }
}

/// References to the key and the value of entry `i`.
pub open spec fn entry_ref<'a, K: 'a, V: 'a>(s: Seq<(K, V)>, i: int) -> (&'a K, &'a V) {
    (&s[i].0, &s[i].1)
}

/// The rank of an ordering: `Less` < `Equal` < `Greater`.
pub open spec fn ord_rank(o: Ordering) -> int {
    match o {
        Ordering::Less => 0,
        Ordering::Equal => 1,
        Ordering::Greater => 2,
    }
}

/// The comparator's answers never go down along the entries.
pub open spec fn comparator_sorted<'a, K: 'a, V: 'a, F: Fn((&'a K, &'a V)) -> Ordering>(
    s: Seq<(K, V)>,
    f: F,
) -> bool {
    forall|i: int, j: int, oi: Ordering, oj: Ordering|
        0 <= i <= j < s.len() && #[trigger] f.ensures((entry_ref(s, i),), oi) && #[trigger] f.ensures(
            (entry_ref(s, j),),
            oj,
        ) ==> ord_rank(oi) <= ord_rank(oj)
}

/// An insertion-ordered map whose keys are unique: entries keep the order in
/// which they were placed, and placing a key that is already present first
/// takes its earlier entry out.
#[derive(Debug)]
pub struct OrderedHashMap<K, V> {
    entries: Vec<(K, V)>,
}

impl<K, V> View for OrderedHashMap<K, V> {
    type V = Seq<(K, V)>;

    closed spec fn view(&self) -> Seq<(K, V)> {
        self.entries@
    }
}

impl<K, V> Default for OrderedHashMap<K, V> {
    /// An empty map.
    fn default() -> (r: Self)
        ensures
            r@ == Seq::<(K, V)>::empty(),
    {
        OrderedHashMap::new()
    }
}

impl<K, V> OrderedHashMap<K, V> {
    /// Well-formed: keys are unique.
    pub open spec fn wf(&self) -> bool {
        keys_unique(self@)
    }

    /// An empty map.
    pub fn new() -> (r: Self)
        ensures
            r@ == Seq::<(K, V)>::empty(),
            r.wf(),
    {
        OrderedHashMap { entries: Vec::new() }
    }

    /// The number of entries.
    pub fn len(&self) -> (r: usize)
        ensures
            r == self@.len(),
    {
        self.entries.len()
    }

    /// Whether the map has no entry.
    pub fn is_empty(&self) -> (r: bool)
        ensures
            r == (self@.len() == 0),
    {
        self.entries.len() == 0
    }

    /// The entry at position `index`, if there is one.
    pub fn get_by_index(&self, index: usize) -> (r: Option<(&K, &V)>)
        ensures
            r.is_some() == (index < self@.len()),
            r matches Some(p) ==> *p.0 == self@[index as int].0 && *p.1 == self@[index as int].1,
    {
        if index < self.entries.len() {
            let e = &self.entries[index];
            Some((&e.0, &e.1))
        } else {
            None
        }
    }

    /// The first entry, if there is one.
    pub fn front(&self) -> (r: Option<(&K, &V)>)
        ensures
            r.is_some() == (self@.len() > 0),
            r matches Some(p) ==> *p.0 == self@[0].0 && *p.1 == self@[0].1,
    {
        self.get_by_index(0)
    }

    /// The last entry, if there is one.
    pub fn back(&self) -> (r: Option<(&K, &V)>)
        ensures
            r.is_some() == (self@.len() > 0),
            r matches Some(p) ==> *p.0 == self@.last().0 && *p.1 == self@.last().1,
    {
        if self.entries.len() == 0 {
            None
        } else {
            self.get_by_index(self.entries.len() - 1)
        }
    }

    /// Takes the first entry out.
    pub fn pop_front(&mut self) -> (r: Option<(K, V)>)
        requires
            old(self).wf(),
        ensures
            old(self)@.len() == 0 ==> r.is_none() && final(self)@ == old(self)@,
            old(self)@.len() > 0 ==> r == Some(old(self)@[0]) && final(self)@ == old(self)@.subrange(
                1,
                old(self)@.len() as int,
            ),
            keys_unique(final(self)@),
    {
        if self.entries.len() == 0 {
            return None;
        }
        proof {
            lemma_remove_unique(self.entries@, 0);
            assert(self.entries@.remove(0) =~= self.entries@.subrange(1, self.entries@.len() as int));
        }
        Some(self.entries.remove(0))
    }

    /// Takes the last entry out.
    pub fn pop_back(&mut self) -> (r: Option<(K, V)>)
        requires
            old(self).wf(),
        ensures
            old(self)@.len() == 0 ==> r.is_none() && final(self)@ == old(self)@,
            old(self)@.len() > 0 ==> r == Some(old(self)@.last()) && final(self)@
                == old(self)@.drop_last(),
            keys_unique(final(self)@),
    {
        proof {
            if self.entries@.len() > 0 {
                lemma_subrange_unique(self.entries@, 0, self.entries@.len() - 1);
            }
        }
        self.entries.pop()
    }

    /// Moves the entries from position `at` on into a new map, keeping their order.
    pub fn split_off(&mut self, at: usize) -> (r: Self)
        requires
            old(self).wf(),
            at <= old(self)@.len(),
        ensures
            final(self)@ == old(self)@.subrange(0, at as int),
            r@ == old(self)@.subrange(at as int, old(self)@.len() as int),
            keys_unique(final(self)@),
            keys_unique(r@),
    {
        proof {
            lemma_subrange_unique(self.entries@, 0, at as int);
            lemma_subrange_unique(self.entries@, at as int, self.entries@.len() as int);
        }
        let tail = self.entries.split_off(at);
        OrderedHashMap { entries: tail }
    }

    /// Walks the entries front to back, or back to front.
    pub fn iter(&self) -> (r: Iter<'_, K, V>)
        ensures
            r.wf(),
            r.remaining() == self@,
    {
        Iter { map: self, idx: 0, back_idx: 0 }
    }

    /// Consumes the map into its entries, front to back.
    pub fn into_iter(self) -> (r: IntoIter<K, V>)
        requires
            self.wf(),
        ensures
            r.wf(),
            r.remaining() == self@,
    {
        IntoIter { ordered_map: self }
    }

    /// Binary search over the entries with a comparator that tells, for each
    /// entry, whether it lies before (`Less`), at (`Equal`) or after
    /// (`Greater`) the place looked for. `Ok(i)`: entry `i` compares `Equal`.
    /// `Err(i)`: no entry does, and `i` is where such an entry would go.
    pub fn binary_search_by<'a, F>(&'a self, f: F) -> (r: Result<usize, usize>) where
        F: Fn((&'a K, &'a V)) -> Ordering,

        requires
            forall|i: int| 0 <= i < self@.len() ==> f.requires((entry_ref(self@, i),)),
            comparator_sorted(self@, f),
        ensures
            r matches Ok(i) ==> i < self@.len() && f.ensures((entry_ref(self@, i as int),), Ordering::Equal),
            r matches Err(i) ==> i <= self@.len() && (forall|j: int, o: Ordering|
                0 <= j < i && #[trigger] f.ensures((entry_ref(self@, j),), o) ==> o == Ordering::Less)
                && (forall|j: int, o: Ordering|
                i <= j < self@.len() && #[trigger] f.ensures((entry_ref(self@, j),), o) ==> o
                == Ordering::Greater),
    {
        let mut lo: usize = 0;
        let mut hi: usize = self.entries.len();
        while lo < hi
            invariant
                lo <= hi <= self@.len(),
                forall|i: int| 0 <= i < self@.len() ==> f.requires((entry_ref(self@, i),)),
                comparator_sorted(self@, f),
                forall|j: int, o: Ordering|
                    0 <= j < lo && #[trigger] f.ensures((entry_ref(self@, j),), o) ==> o
                        == Ordering::Less,
                forall|j: int, o: Ordering|
                    hi <= j < self@.len() && #[trigger] f.ensures((entry_ref(self@, j),), o) ==> o
                        == Ordering::Greater,
            decreases hi - lo,
        {
            let mid = lo + (hi - lo) / 2;
            let e = &self.entries[mid];
            proof {
                assert(entry_ref(self@, mid as int) == (&e.0, &e.1));
            }
            let o = f((&e.0, &e.1));
            match o {
                Ordering::Less => {
                    assert forall|j: int, o2: Ordering|
                        0 <= j < mid + 1 && #[trigger] f.ensures((entry_ref(self@, j),), o2) implies o2
                        == Ordering::Less by {
                        if j < mid {
                            assert(f.ensures((entry_ref(self@, j),), o2) && f.ensures(
                                (entry_ref(self@, mid as int),),
                                o,
                            ));
                        }
                    }
                    lo = mid + 1;
                },
                Ordering::Greater => {
                    assert forall|j: int, o2: Ordering|
                        mid <= j < self@.len() && #[trigger] f.ensures((entry_ref(self@, j),), o2) implies o2
                        == Ordering::Greater by {
                        if j > mid {
                            assert(f.ensures((entry_ref(self@, mid as int),), o) && f.ensures(
                                (entry_ref(self@, j),),
                                o2,
                            ));
                        }
                    }
                    hi = mid;
                },
                Ordering::Equal => {
                    return Ok(mid);
                },
            }
        }
        Err(lo)
    }

    /// Removes every entry.
    pub fn clear(&mut self)
        ensures
            final(self)@ == Seq::<(K, V)>::empty(),
    {
        self.entries.clear();
    }
}

impl<K: PartialEq, V> OrderedHashMap<K, V> {
    fn position_of(&self, key: &K) -> (r: Option<usize>)
        requires
            self.wf(),
            obeys_concrete_eq::<K>(),
        ensures
            match r {
                Some(i) => i < self@.len() && self@[i as int].0 == *key && key_index(self@, *key)
                    == i,
                None => !has_key(self@, *key),
            },
    {
        let mut i: usize = 0;
        while i < self.entries.len()
            invariant
                i <= self.entries.len(),
                obeys_concrete_eq::<K>(),
                keys_unique(self.entries@),
                forall|j: int| 0 <= j < i ==> self.entries@[j].0 != *key,
            decreases self.entries.len() - i,
        {
            proof {
                lemma_key_eq(self.entries@[i as int].0, *key);
            }
            let found = self.entries[i].0 == *key;
            if found {
                proof {
                    lemma_key_index_unique(self.entries@, *key, i as int);
                }
                return Some(i);
            }
            i += 1;
        }
        None
    }
    /// The value stored under `key`, if any.
    pub fn get(&self, key: &K) -> (r: Option<&V>)
        requires
            self.wf(),
            obeys_concrete_eq::<K>(),
        ensures
            r.is_some() == has_key(self@, *key),
            r matches Some(v) ==> Some(*v) == value_of(self@, *key),
    {
        match self.position_of(key) {
            Some(i) => Some(&self.entries[i].1),
            None => None,
        }
    }

    /// Whether some entry has key `key`.
    pub fn contains_key(&self, key: &K) -> (r: bool)
        requires
            self.wf(),
            obeys_concrete_eq::<K>(),
        ensures
            r == has_key(self@, *key),
    {
        self.position_of(key).is_some()
    }

    /// Takes the entry of `key` out and returns its value; the others keep their order.
    pub fn remove(&mut self, key: &K) -> (r: Option<V>)
        requires
            old(self).wf(),
            obeys_concrete_eq::<K>(),
        ensures
            final(self)@ == removed_key(old(self)@, *key),
            r == value_of(old(self)@, *key),
            !has_key(final(self)@, *key),
            keys_unique(final(self)@),
    {
        match self.position_of(key) {
            Some(i) => {
                proof {
                    lemma_remove_unique(self.entries@, i as int);
                }
                let (_, v) = self.entries.remove(i);
                Some(v)
            },
            None => None,
        }
    }

    /// Places an entry first, taking out an earlier entry of the same key.
    /// Returns the value that entry had.
    pub fn push_front(&mut self, key: K, value: V) -> (r: Option<V>)
        requires
            old(self).wf(),
            obeys_concrete_eq::<K>(),
        ensures
            final(self)@ == seq![(key, value)] + removed_key(old(self)@, key),
            r == value_of(old(self)@, key),
            keys_unique(final(self)@),
    {
        let prev = self.remove(&key);
        proof {
            lemma_insert_unique(self.entries@, 0, (key, value));
            assert(self.entries@.insert(0, (key, value)) =~= seq![(key, value)] + self.entries@);
        }
        self.entries.insert(0, (key, value));
        prev
    }

    /// Places an entry last, taking out an earlier entry of the same key.
    /// Returns the value that entry had.
    pub fn push_back(&mut self, key: K, value: V) -> (r: Option<V>)
        requires
            old(self).wf(),
            obeys_concrete_eq::<K>(),
        ensures
            final(self)@ == removed_key(old(self)@, key).push((key, value)),
            r == value_of(old(self)@, key),
            keys_unique(final(self)@),
    {
        let prev = self.remove(&key);
        proof {
            lemma_insert_unique(self.entries@, self.entries@.len() as int, (key, value));
            assert(self.entries@.insert(self.entries@.len() as int, (key, value))
                =~= self.entries@.push((key, value)));
        }
        self.entries.push((key, value));
        prev
    }

    /// Places an entry at position `index` of the map as it stands once an
    /// earlier entry of the same key is taken out. Returns the value that entry had.
    pub fn insert(&mut self, index: usize, key: K, value: V) -> (r: Option<V>)
        requires
            old(self).wf(),
            obeys_concrete_eq::<K>(),
            index <= removed_key(old(self)@, key).len(),
        ensures
            final(self)@ == removed_key(old(self)@, key).insert(index as int, (key, value)),
            r == value_of(old(self)@, key),
            keys_unique(final(self)@),
    {
        let prev = self.remove(&key);
        proof {
            lemma_insert_unique(self.entries@, index as int, (key, value));
        }
        self.entries.insert(index, (key, value));
        prev
    }
}

/// A walk over the entries of an `OrderedHashMap`, from either end.
pub struct Iter<'a, K, V> {
    map: &'a OrderedHashMap<K, V>,
    idx: usize,
    back_idx: usize,
}

impl<'a, K, V> Iter<'a, K, V> {
    /// The entries not handed out yet, front to back.
    pub closed spec fn remaining(&self) -> Seq<(K, V)> {
        self.map@.subrange(self.idx as int, self.map@.len() - self.back_idx)
    }

    /// Well-formed: the two ends have not crossed.
    pub closed spec fn wf(&self) -> bool {
        self.idx + self.back_idx <= self.map@.len()
    }

    /// Hands out the first entry not handed out yet.
    pub fn next(&mut self) -> (r: Option<(&'a K, &'a V)>)
        requires
            old(self).wf(),
        ensures
            final(self).wf(),
            old(self).remaining().len() == 0 ==> r.is_none() && final(self).remaining() == old(self).remaining(),
            old(self).remaining().len() > 0 ==> r.is_some() && *r->Some_0.0 == old(self).remaining()[0].0 && *r->Some_0.1 == old(self).remaining()[0].1 && final(self).remaining() == old(self).remaining().drop_first(),
    {
        let map: &'a OrderedHashMap<K, V> = self.map;
        let n = map.len();
        if self.idx >= n - self.back_idx {
            return None;
        }
        let r = map.get_by_index(self.idx);
        self.idx = self.idx + 1;
        proof {
            assert(self.remaining() =~= old(self).remaining().drop_first());
        }
        r
    }

    /// Hands out the last entry not handed out yet.
    pub fn next_back(&mut self) -> (r: Option<(&'a K, &'a V)>)
        requires
            old(self).wf(),
        ensures
            final(self).wf(),
            old(self).remaining().len() == 0 ==> r.is_none() && final(self).remaining() == old(self).remaining(),
            old(self).remaining().len() > 0 ==> r.is_some() && *r->Some_0.0 == old(self).remaining().last().0 && *r->Some_0.1 == old(self).remaining().last().1 && final(self).remaining() == old(self).remaining().drop_last(),
    {
        let map: &'a OrderedHashMap<K, V> = self.map;
        let n = map.len();
        if self.idx >= n - self.back_idx {
            return None;
        }
        let r = map.get_by_index(n - self.back_idx - 1);
        self.back_idx = self.back_idx + 1;
        proof {
            assert(self.remaining() =~= old(self).remaining().drop_last());
        }
        r
    }

    /// The number of entries not handed out yet.
    pub fn len(&self) -> (r: usize)
        requires
            self.wf(),
        ensures
            r == self.remaining().len(),
    {
        self.map.len() - self.idx - self.back_idx
    }
}

/// An `OrderedHashMap` consumed entry by entry, front to back.
pub struct IntoIter<K, V> {
    ordered_map: OrderedHashMap<K, V>,
}

impl<K, V> IntoIter<K, V> {
    /// The entries not handed out yet, front to back.
    pub closed spec fn remaining(&self) -> Seq<(K, V)> {
        self.ordered_map@
    }

    /// Well-formed: what is left has unique keys.
    pub closed spec fn wf(&self) -> bool {
        self.ordered_map.wf()
    }

    /// Hands out the first entry not handed out yet.
    pub fn next(&mut self) -> (r: Option<(K, V)>)
        requires
            old(self).wf(),
        ensures
            final(self).wf(),
            old(self).remaining().len() == 0 ==> r.is_none() && final(self).remaining() == old(self).remaining(),
            old(self).remaining().len() > 0 ==> r == Some(old(self).remaining()[0]) && final(self).remaining() == old(self).remaining().drop_first(),
    {
        let r = self.ordered_map.pop_front();
        proof {
            if old(self).remaining().len() > 0 {
                assert(self.remaining() =~= old(self).remaining().drop_first());
            }
        }
        r
    }
}

/// An entry of `removed_key(s, k)` is an entry of `s`.
pub proof fn lemma_removed_entry<K, V>(s: Seq<(K, V)>, k: K, i: int)
    requires
        0 <= i < removed_key(s, k).len(),
    ensures
        exists|j: int| 0 <= j < s.len() && s[j] == removed_key(s, k)[i],
{
    if has_key(s, k) {
        let p = crate::ordered_hash_map::key_index(s, k);
        if i < p {
            assert(s[i] == removed_key(s, k)[i]);
        } else {
            assert(s[i + 1] == removed_key(s, k)[i]);
        }
    } else {
        assert(s[i] == removed_key(s, k)[i]);
    }
}

/// Appending an entry adds just its key.
pub proof fn lemma_push_has_key<K, V>(s: Seq<(K, V)>, e: (K, V), k: K)
    ensures
        has_key(s.push(e), k) <==> (has_key(s, k) || e.0 == k),
{
    let t = s.push(e);
    if has_key(s, k) {
        let j = choose|j: int| 0 <= j < s.len() && #[trigger] s[j].0 == k;
        assert(t[j] == s[j]);
    }
    if has_key(t, k) && e.0 != k {
        let j = choose|j: int| 0 <= j < t.len() && #[trigger] t[j].0 == k;
        assert(t[j] == s[j]);
    }
    if e.0 == k {
        assert(t[s.len() as int].0 == k);
    }
}

/// Walking the entries of a sequence with unique keys in order: the key at
/// `i` is not among the earlier ones nor the later ones.
pub proof fn lemma_step_keys<K, V>(orig: Seq<(K, V)>, i: int)
    requires
        keys_unique(orig),
        0 <= i < orig.len(),
    ensures
        !has_key(orig.subrange(0, i), orig[i].0),
        forall|k: K| has_key(orig.subrange(0, i), k) ==> has_key(orig.subrange(0, i + 1), k),
        forall|k: K|
            has_key(orig.subrange(i + 1, orig.len() as int), k) ==> has_key(orig.subrange(i, orig.len() as int), k)
                && k != orig[i].0,
        has_key(orig.subrange(0, i + 1), orig[i].0),
{
    let n = orig.len() as int;
    let e = orig[i];
    if has_key(orig.subrange(0, i), e.0) {
        let j = choose|j: int| 0 <= j < i && #[trigger] orig.subrange(0, i)[j].0 == e.0;
        assert(orig[j].0 == e.0);
    }
    assert forall|k: K| has_key(orig.subrange(0, i), k) implies has_key(orig.subrange(0, i + 1), k) by {
        let j = choose|j: int| 0 <= j < i && #[trigger] orig.subrange(0, i)[j].0 == k;
        assert(orig.subrange(0, i + 1)[j].0 == k);
    }
    assert forall|k: K| has_key(orig.subrange(i + 1, n), k) implies has_key(orig.subrange(i, n), k) && k != e.0 by {
        let j = choose|j: int| 0 <= j < n - i - 1 && #[trigger] orig.subrange(i + 1, n)[j].0 == k;
        assert(orig[i + 1 + j].0 == k);
        assert(orig.subrange(i, n)[j + 1].0 == k);
    }
    assert(orig.subrange(0, i + 1)[i].0 == e.0);
}

/// The key of the last entry maps to its value.
pub proof fn lemma_value_of_last<K, V>(s: Seq<(K, V)>, k: K)
    requires
        keys_unique(s),
        s.len() > 0,
        s.last().0 == k,
    ensures
        value_of(s, k) == Some(s.last().1),
{
    crate::ordered_hash_map::lemma_key_index_unique(s, k, s.len() - 1);
}

} // verus!
