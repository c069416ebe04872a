//! Flat storage for id-keyed data.
//!
//! The goal store keeps its goals and events in id-keyed arenas and its focus
//! marks in an id set.  Both are backed by vectors so that iteration order is
//! deterministic; the arena keeps its keys strictly increasing, which the
//! store guarantees anyway because ids are allocated from a monotonic counter.

use vstd::prelude::*;

verus! {

/// An id-keyed arena: a flat map from `u32` ids to values, with entries kept
/// in strictly increasing key order.
#[derive(Debug)]
pub struct IdMap<V> {
    pub entries: Vec<(u32, V)>,
}

/// The map described by an entry sequence, later entries winning.
pub open spec fn map_of<V>(s: Seq<(u32, V)>) -> Map<u32, V>
    decreases s.len(),
{
    if s.len() == 0 {
        Map::empty()
    } else {
        map_of(s.drop_last()).insert(s.last().0, s.last().1)
    }
}

impl<V> IdMap<V> {
    /// The keys in storage order.
    pub open spec fn key_seq(self) -> Seq<u32> {
        self.entries@.map_values(|e: (u32, V)| e.0)
    }

    /// Keys are strictly increasing (hence unique).
    pub open spec fn wf(self) -> bool {
        forall|i: int, j: int|
            0 <= i < j < self.entries@.len() ==> #[trigger] self.entries@[i].0
                < #[trigger] self.entries@[j].0
    }

    pub open spec fn entry_seq(self) -> Seq<(u32, V)> {
        self.entries@
    }
}

impl<V> View for IdMap<V> {
    type V = Map<u32, V>;

    open spec fn view(&self) -> Map<u32, V> {
        map_of(self.entries@)
    }
}

proof fn lemma_map_of_dom<V>(s: Seq<(u32, V)>)
    ensures
        forall|k: u32| #[trigger] map_of(s).contains_key(k)
            <==> s.map_values(|e: (u32, V)| e.0).contains(k),
    decreases s.len(),
{
    let keys = s.map_values(|e: (u32, V)| e.0);
    if s.len() == 0 {
        assert forall|k: u32| #[trigger] map_of(s).contains_key(k) implies keys.contains(k) by {}
        assert forall|k: u32| keys.contains(k) implies #[trigger] map_of(s).contains_key(k) by {}
    } else {
        let s0 = s.drop_last();
        lemma_map_of_dom(s0);
        let keys0 = s0.map_values(|e: (u32, V)| e.0);
        assert(keys0 =~= keys.drop_last());
        assert(map_of(s) == map_of(s0).insert(s.last().0, s.last().1));
        assert forall|k: u32| #[trigger] map_of(s).contains_key(k) implies keys.contains(k) by {
            if k == s.last().0 {
                assert(keys[s.len() - 1] == k);
                assert(keys.contains(k));
            } else {
                assert(map_of(s0).contains_key(k));
                assert(keys0.contains(k));
                let i = choose|i: int| 0 <= i < keys0.len() && keys0[i] == k;
                assert(keys[i] == k);
                assert(keys.contains(k));
            }
        }
        assert forall|k: u32| keys.contains(k) implies #[trigger] map_of(s).contains_key(k) by {
            let i = choose|i: int| 0 <= i < keys.len() && keys[i] == k;
            if i < s.len() - 1 {
                assert(keys0[i] == k);
                assert(keys0.contains(k));
                assert(map_of(s0).contains_key(k));
            } else {
                assert(k == s.last().0);
            }
        }
    }
}

proof fn lemma_map_of_index<V>(s: Seq<(u32, V)>, i: int)
    requires
        s.map_values(|e: (u32, V)| e.0).no_duplicates(),
        0 <= i < s.len(),
    ensures
        map_of(s).contains_key(s[i].0),
        map_of(s)[s[i].0] == s[i].1,
    decreases s.len(),
{
    let keys = s.map_values(|e: (u32, V)| e.0);
    if i == s.len() - 1 {
        lemma_map_of_dom(s);
    } else {
        let s0 = s.drop_last();
        assert(s0.map_values(|e: (u32, V)| e.0) =~= keys.drop_last());
        lemma_map_of_index(s0, i);
        assert(keys[i] != keys[s.len() - 1]);
    }
}

proof fn lemma_map_of_len<V>(s: Seq<(u32, V)>)
    requires
        s.map_values(|e: (u32, V)| e.0).no_duplicates(),
    ensures
        map_of(s).dom().finite(),
        map_of(s).dom().len() == s.len(),
    decreases s.len(),
{
    if s.len() == 0 {
        assert(map_of(s).dom() =~= Set::<u32>::empty());
    } else {
        let s0 = s.drop_last();
        let keys = s.map_values(|e: (u32, V)| e.0);
        assert(s0.map_values(|e: (u32, V)| e.0) =~= keys.drop_last());
        lemma_map_of_len(s0);
        lemma_map_of_dom(s0);
        assert(map_of(s).dom() =~= map_of(s0).dom().insert(s.last().0));
        assert(!keys.drop_last().contains(keys.last()));
        assert(!map_of(s0).dom().contains(s.last().0));
    }
}

impl<V> IdMap<V> {
    proof fn lemma_wf_no_dup(self)
        requires
            self.wf(),
        ensures
            self.key_seq().no_duplicates(),
    {
        let keys = self.key_seq();
        assert forall|i: int, j: int| 0 <= i < keys.len() && 0 <= j < keys.len() && i != j implies
            keys[i] != keys[j] by {
            if i < j {
                assert(self.entries@[i].0 < self.entries@[j].0);
            } else {
                assert(self.entries@[j].0 < self.entries@[i].0);
            }
        }
    }

    /// Everything the callers need to know about one entry: the maps's view
    /// agrees with the stored sequence.
    pub proof fn lemma_view(self)
        requires
            self.wf(),
        ensures
            forall|k: u32| #[trigger] self@.contains_key(k) <==> self.key_seq().contains(k),
            forall|i: int|
                0 <= i < self.entry_seq().len() ==> #[trigger] self@.contains_key(
                    self.entry_seq()[i].0,
                ) && self@[self.entry_seq()[i].0] == self.entry_seq()[i].1,
            self@.dom().finite(),
            self@.dom().len() == self.entry_seq().len(),
            self.key_seq().no_duplicates(),
    {
        self.lemma_wf_no_dup();
        lemma_map_of_dom(self.entries@);
        lemma_map_of_len(self.entries@);
        assert forall|i: int| 0 <= i < self.entries@.len() implies #[trigger] self@.contains_key(
            self.entries@[i].0,
        ) && self@[self.entries@[i].0] == self.entries@[i].1 by {
            lemma_map_of_index(self.entries@, i);
        }
    }

    pub fn new() -> (r: IdMap<V>)
        ensures
            r@ == Map::<u32, V>::empty(),
            r.wf(),
            r.entry_seq().len() == 0,
    {
        IdMap { entries: Vec::new() }
    }

    pub fn len(&self) -> (r: usize)
        requires
            self.wf(),
        ensures
            r == self.entry_seq().len(),
            r == self@.dom().len(),
    {
        proof {
            self.lemma_view();
        }
        self.entries.len()
    }

    /// The index holding key `k`, if any.
    fn index_of(&self, k: u32) -> (r: Option<usize>)
        requires
            self.wf(),
        ensures
            match r {
                Some(i) => i < self.entry_seq().len() && self.entry_seq()[i as int].0 == k
                    && self@.contains_key(k) && self@[k] == self.entry_seq()[i as int].1,
                None => !self@.contains_key(k),
            },
    {
        proof {
            self.lemma_view();
        }
        let n = self.entries.len();
        let mut i: usize = 0;
        while i < n
            invariant
                n == self.entry_seq().len(),
                i <= n,
                self.wf(),
                forall|j: int| 0 <= j < i ==> #[trigger] self.entry_seq()[j].0 != k,
            decreases n - i,
        {
            if self.entries[i].0 == k {
                proof {
                    self.lemma_view();
                }
                return Some(i);
            }
            i = i + 1;
        }
        proof {
            self.lemma_view();
            if self@.contains_key(k) {
                let j = choose|j: int|
                    0 <= j < self.key_seq().len() && self.key_seq()[j] == k;
                assert(self.entry_seq()[j].0 == k);
            }
        }
        None
    }

    pub fn contains_key(&self, k: u32) -> (r: bool)
        requires
            self.wf(),
        ensures
            r == self@.contains_key(k),
    {
        self.index_of(k).is_some()
    }

    pub fn get(&self, k: u32) -> (r: Option<&V>)
        requires
            self.wf(),
        ensures
            match r {
                Some(v) => self@.contains_key(k) && *v == self@[k],
                None => !self@.contains_key(k),
            },
    {
        match self.index_of(k) {
            Some(i) => Some(&self.entries[i].1),
            None => None,
        }
    }

    pub fn get_mut(&mut self, k: u32) -> (r: Option<&mut V>)
        requires
            old(self).wf(),
        ensures
            match r {
                Some(v) => old(self)@.contains_key(k) && *v == old(self)@[k] && final(self)@
                    == old(self)@.insert(k, *final(v)) && final(self).wf()
                    && final(self).key_seq() == old(self).key_seq(),
                None => !old(self)@.contains_key(k) && *final(self) == *old(self),
            },
    {
        match self.index_of(k) {
            Some(i) => {
                proof {
                    self.lemma_view();
                }
                let ghost old_entries = self.entries@;
                let e = &mut self.entries[i];
                proof {
                    assert(old_entries[i as int].0 == k);
                }
                let r = &mut e.1;
                proof {
                    let v = *final(r);
                    let s2 = old_entries.update(i as int, (k, v));
                    assert(s2.map_values(|e: (u32, V)| e.0) =~= old_entries.map_values(
                        |e: (u32, V)| e.0,
                    ));
                    lemma_map_of_update(old_entries, i as int, v);
                    assert(forall|a: int, b: int|
                        0 <= a < b < s2.len() ==> #[trigger] s2[a].0 < #[trigger] s2[b].0);
                }
                Some(r)
            },
            None => None,
        }
    }

    /// Insert under a key larger than every present key: the entry goes at
    /// the end, so the order invariant is kept.  This is the only insertion
    /// the store needs, because ids come from a monotonic counter.
    pub fn insert_fresh(&mut self, k: u32, v: V)
        requires
            old(self).wf(),
            forall|x: u32| #[trigger] old(self)@.contains_key(x) ==> x < k,
        ensures
            final(self)@ == old(self)@.insert(k, v),
            final(self).wf(),
            final(self).key_seq() == old(self).key_seq().push(k),
    {
        proof {
            self.lemma_view();
            assert forall|i: int| 0 <= i < self.entries@.len() implies #[trigger] self.entries@[i].0
                < k by {
                assert(self.key_seq()[i] == self.entries@[i].0);
                assert(self@.contains_key(self.entries@[i].0));
            }
        }
        let ghost old_entries = self.entries@;
        self.entries.push((k, v));
        proof {
            assert(self.entries@.drop_last() =~= old_entries);
            assert(self.key_seq() =~= old(self).key_seq().push(k));
        }
    }

    pub fn remove(&mut self, k: u32) -> (r: Option<V>)
        requires
            old(self).wf(),
        ensures
            match r {
                Some(v) => old(self)@.contains_key(k) && v == old(self)@[k] && final(self)@
                    == old(self)@.remove(k),
                None => !old(self)@.contains_key(k) && *final(self) == *old(self),
            },
            final(self).wf(),
            final(self)@.dom() == old(self)@.dom().remove(k),
    {
        proof {
            self.lemma_view();
        }
        match self.index_of(k) {
            Some(i) => {
                let ghost old_entries = self.entries@;
                let (_, v) = self.entries.remove(i);
                proof {
                    let s2 = self.entries@;
                    assert(s2 =~= old_entries.remove(i as int));
                    assert forall|a: int, b: int| 0 <= a < b < s2.len() implies #[trigger] s2[a].0
                        < #[trigger] s2[b].0 by {
                        if b < i {
                            assert(old_entries[a].0 < old_entries[b].0);
                        } else if a < i {
                            assert(old_entries[a].0 < old_entries[b + 1].0);
                        } else {
                            assert(old_entries[a + 1].0 < old_entries[b + 1].0);
                        }
                    }
                    old(self).lemma_view();
                    self.lemma_view();
                    assert(self.key_seq() =~= old(self).key_seq().remove(i as int));
                    assert forall|x: u32| #[trigger] self@.contains_key(x)
                        implies old(self)@.remove(k).contains_key(x) by {
                        let j = choose|j: int|
                            0 <= j < self.key_seq().len() && self.key_seq()[j] == x;
                        if j < i {
                            assert(old(self).key_seq()[j] == x);
                        } else {
                            assert(old(self).key_seq()[j + 1] == x);
                        }
                        assert(x != k);
                    }
                    assert forall|x: u32| #[trigger] old(self)@.remove(k).contains_key(x) implies
                        self@.contains_key(x) && self@[x] == old(self)@.remove(k)[x] by {
                        let j = choose|j: int|
                            0 <= j < old(self).key_seq().len() && old(self).key_seq()[j] == x;
                        assert(old(self).entry_seq()[j].0 == x);
                        assert(j != i);
                        if j < i {
                            assert(self.entry_seq()[j] == old(self).entry_seq()[j]);
                            assert(self@.contains_key(self.entry_seq()[j].0));
                            assert(self@[x] == self.entry_seq()[j].1);
                        } else {
                            assert(self.entry_seq()[j - 1] == old(self).entry_seq()[j]);
                            assert(self@.contains_key(self.entry_seq()[j - 1].0));
                            assert(self@[x] == self.entry_seq()[j - 1].1);
                        }
                        assert(old(self)@.contains_key(old(self).entry_seq()[j].0));
                        assert(old(self)@[x] == old(self).entry_seq()[j].1);
                    }
                    assert(self@ =~= old(self)@.remove(k));
                    assert(self@.dom() =~= old(self)@.dom().remove(k));
                }
                Some(v)
            },
            None => {
                proof {
                    assert(self@.dom() =~= old(self)@.dom().remove(k));
                }
                None
            },
        }
    }

    /// The key stored at position `i` (keys are in increasing order).
    pub fn key_at(&self, i: usize) -> (r: u32)
        requires
            self.wf(),
            i < self.entry_seq().len(),
        ensures
            r == self.entry_seq()[i as int].0,
            self@.contains_key(r),
            self@[r] == self.entry_seq()[i as int].1,
    {
        proof {
            self.lemma_view();
        }
        self.entries[i].0
    }

    /// The value stored at position `i`.
    pub fn value_at(&self, i: usize) -> (r: &V)
        requires
            self.wf(),
            i < self.entry_seq().len(),
        ensures
            *r == self.entry_seq()[i as int].1,
            self@.contains_key(self.entry_seq()[i as int].0),
            self@[self.entry_seq()[i as int].0] == *r,
    {
        proof {
            self.lemma_view();
            assert(self@.contains_key(self.entry_seq()[i as int].0));
            assert(self@[self.entry_seq()[i as int].0] == self.entry_seq()[i as int].1);
        }
        &self.entries[i].1
    }

    /// Mutable access to the value stored at position `i`.
    pub fn value_at_mut(&mut self, i: usize) -> (r: &mut V)
        requires
            old(self).wf(),
            i < old(self).entry_seq().len(),
        ensures
            *r == old(self).entry_seq()[i as int].1,
            final(self)@ == old(self)@.insert(old(self).entry_seq()[i as int].0, *final(r)),
            final(self).wf(),
            final(self).key_seq() == old(self).key_seq(),
            final(self).entry_seq() == old(self).entry_seq().update(
                i as int,
                (old(self).entry_seq()[i as int].0, *final(r)),
            ),
    {
        proof {
            self.lemma_view();
        }
        let ghost old_entries = self.entries@;
        let ghost k = self.entries@[i as int].0;
        let e = &mut self.entries[i];
        let r = &mut e.1;
        proof {
            let v = *final(r);
            let s2 = old_entries.update(i as int, (k, v));
            assert(s2.map_values(|e: (u32, V)| e.0) =~= old_entries.map_values(|e: (u32, V)| e.0));
            lemma_map_of_update(old_entries, i as int, v);
            assert(forall|a: int, b: int|
                0 <= a < b < s2.len() ==> #[trigger] s2[a].0 < #[trigger] s2[b].0);
        }
        r
    }
}

/// Updating the value at one position updates the map at that key.
proof fn lemma_map_of_update<V>(s: Seq<(u32, V)>, i: int, v: V)
    requires
        s.map_values(|e: (u32, V)| e.0).no_duplicates(),
        0 <= i < s.len(),
    ensures
        map_of(s.update(i, (s[i].0, v))) == map_of(s).insert(s[i].0, v),
    decreases s.len(),
{
    let s2 = s.update(i, (s[i].0, v));
    assert(s2.map_values(|e: (u32, V)| e.0) =~= s.map_values(|e: (u32, V)| e.0));
    if i == s.len() - 1 {
        assert(s2.drop_last() =~= s.drop_last());
    } else {
        let s0 = s.drop_last();
        assert(s0.map_values(|e: (u32, V)| e.0) =~= s.map_values(|e: (u32, V)| e.0).drop_last());
        lemma_map_of_update(s0, i, v);
        assert(s2.drop_last() =~= s0.update(i, (s[i].0, v)));
        assert(s2.last() == s.last());
        let keys = s.map_values(|e: (u32, V)| e.0);
        assert(keys[i] == s[i].0);
        assert(keys[s.len() - 1] == s.last().0);
        assert(s[i].0 != s.last().0);
        assert(map_of(s2) =~= map_of(s).insert(s[i].0, v));
    }
}

/// A set of `u32` ids, backed by a duplicate-free vector in insertion order.
#[derive(Debug)]
pub struct IdSet {
    pub items: Vec<u32>,
}

impl IdSet {
    pub open spec fn item_seq(self) -> Seq<u32> {
        self.items@
    }

    pub open spec fn wf(self) -> bool {
        self.items@.no_duplicates()
    }
}

impl View for IdSet {
    type V = Set<u32>;

    open spec fn view(&self) -> Set<u32> {
        self.items@.to_set()
    }
}

impl Clone for IdSet {
    fn clone(&self) -> (r: IdSet)
        ensures
            r@ == self@,
            r.item_seq() == self.item_seq(),
    {
        let items = self.items.clone();
        proof {
            assert(items@ =~= self.items@);
        }
        IdSet { items }
    }
}

impl IdSet {
    pub fn new() -> (r: IdSet)
        ensures
            r@ == Set::<u32>::empty(),
            r.wf(),
            r.item_seq().len() == 0,
    {
        let items: Vec<u32> = Vec::new();
        proof {
            assert(items@.to_set() =~= Set::<u32>::empty());
        }
        IdSet { items }
    }

    pub fn len(&self) -> (r: usize)
        requires
            self.wf(),
        ensures
            r == self@.len(),
            r == self.item_seq().len(),
            self@.finite(),
    {
        proof {
            self.items@.unique_seq_to_set();
        }
        self.items.len()
    }

    fn index_of(&self, k: u32) -> (r: Option<usize>)
        ensures
            match r {
                Some(i) => i < self.item_seq().len() && self.item_seq()[i as int] == k,
                None => !self@.contains(k),
            },
    {
        let n = self.items.len();
        let mut i: usize = 0;
        while i < n
            invariant
                n == self.item_seq().len(),
                i <= n,
                forall|j: int| 0 <= j < i ==> self.item_seq()[j] != k,
            decreases n - i,
        {
            if self.items[i] == k {
                return Some(i);
            }
            i = i + 1;
        }
        proof {
            if self@.contains(k) {
                let j = choose|j: int| 0 <= j < self.item_seq().len() && self.item_seq()[j] == k;
            }
        }
        None
    }

    pub fn contains(&self, k: u32) -> (r: bool)
        ensures
            r == self@.contains(k),
    {
        match self.index_of(k) {
            Some(i) => {
                proof {
                    assert(self.item_seq().contains(k));
                }
                true
            },
            None => false,
        }
    }

    /// Insert an id; true if it was not already present.
    pub fn insert(&mut self, k: u32) -> (r: bool)
        requires
            old(self).wf(),
        ensures
            final(self)@ == old(self)@.insert(k),
            final(self).wf(),
            r == !old(self)@.contains(k),
            final(self).item_seq() == if old(self)@.contains(k) {
                old(self).item_seq()
            } else {
                old(self).item_seq().push(k)
            },
    {
        if self.contains(k) {
            proof {
                assert(self@ =~= old(self)@.insert(k));
            }
            false
        } else {
            let ghost old_items = self.items@;
            self.items.push(k);
            proof {
                let s2 = self.items@;
                assert(s2.drop_last() =~= old_items);
                assert forall|x: u32| #[trigger] s2.to_set().contains(x) implies old(self)@.insert(k).contains(x) by {
                    let j = choose|j: int| 0 <= j < s2.len() && s2[j] == x;
                    if j < s2.len() - 1 {
                        assert(old_items[j] == x);
                    }
                }
                assert forall|x: u32| #[trigger] old(self)@.insert(k).contains(x)
                    implies s2.to_set().contains(x) by {
                    if x == k {
                        assert(s2[s2.len() - 1] == x);
                    } else {
                        let j = choose|j: int| 0 <= j < old_items.len() && old_items[j] == x;
                        assert(s2[j] == x);
                    }
                }
                assert forall|a: int, b: int|
                    0 <= a < s2.len() && 0 <= b < s2.len() && a != b implies s2[a] != s2[b] by {
                    if a < s2.len() - 1 && b < s2.len() - 1 {
                        assert(s2[a] == old_items[a]);
                        assert(s2[b] == old_items[b]);
                    } else if a == s2.len() - 1 {
                        assert(s2[b] == old_items[b]);
                        assert(!old_items.to_set().contains(k));
                    } else {
                        assert(s2[a] == old_items[a]);
                        assert(!old_items.to_set().contains(k));
                    }
                }
                assert(self@ =~= old(self)@.insert(k));
            }
            true
        }
    }

    /// Remove an id; true if it was present.
    pub fn remove(&mut self, k: u32) -> (r: bool)
        requires
            old(self).wf(),
        ensures
            final(self)@ == old(self)@.remove(k),
            final(self).wf(),
            r == old(self)@.contains(k),
    {
        match self.index_of(k) {
            Some(i) => {
                let ghost old_items = self.items@;
                self.items.remove(i);
                proof {
                    let s2 = self.items@;
                    assert(s2 =~= old_items.remove(i as int));
                    assert(old_items.contains(k));
                    assert forall|a: int, b: int|
                        0 <= a < s2.len() && 0 <= b < s2.len() && a != b implies s2[a] != s2[b] by {
                        let a0: int = if a < i { a } else { a + 1 };
                        let b0: int = if b < i { b } else { b + 1 };
                        assert(s2[a] == old_items[a0]);
                        assert(s2[b] == old_items[b0]);
                    }
                    assert forall|x: u32| #[trigger] s2.to_set().contains(x) implies old_items.to_set().remove(k).contains(x) by {
                        let j = choose|j: int| 0 <= j < s2.len() && s2[j] == x;
                        let j0: int = if j < i { j } else { j + 1 };
                        assert(old_items[j0] == x);
                        assert(x != k);
                    }
                    assert forall|x: u32| #[trigger] old_items.to_set().remove(k).contains(x)
                        implies s2.to_set().contains(x) by {
                        let j = choose|j: int| 0 <= j < old_items.len() && old_items[j] == x;
                        assert(j != i);
                        let j2: int = if j < i { j } else { j - 1 };
                        assert(s2[j2] == x);
                    }
                    assert(self@ =~= old(self)@.remove(k));
                }
                true
            },
            None => {
                proof {
                    assert(self@ =~= old(self)@.remove(k));
                }
                false
            },
        }
    }

    /// The id stored at position `i` (insertion order).
    pub fn item_at(&self, i: usize) -> (r: u32)
        requires
            i < self.item_seq().len(),
        ensures
            r == self.item_seq()[i as int],
            self@.contains(r),
    {
        proof {
            assert(self.item_seq().contains(self.item_seq()[i as int]));
        }
        self.items[i]
    }
}

} // verus!
