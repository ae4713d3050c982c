//! The chain store's keyed tables: association vectors with distinct keys,
//! viewed as maps, and the per-height collection of known header hashes.

use vstd::prelude::*;
use vstd::map::*;
use vstd::pervasive::VecAdditionalExecFns;
use crate::hashes::{bytes_eq, FixedBytes, Hash256};

verus! {

/// A key with decidable equality of views.
pub trait TableKey: View + Sized {
    fn key_eq(&self, other: &Self) -> (r: bool)
        ensures
            r == (self@ == other@),
    ;
}

impl<const N: usize> TableKey for FixedBytes<N> {
    fn key_eq(&self, other: &Self) -> (r: bool) {
        bytes_eq(self.as_bytes(), other.as_bytes())
    }
}

/// A block height used as a table key.
pub struct Height {
    pub n: u64,
}

impl View for Height {
    type V = u64;

    open spec fn view(&self) -> u64 {
        self.n
    }
}

impl TableKey for Height {
    fn key_eq(&self, other: &Self) -> (r: bool) {
        self.n == other.n
    }
}

/// The map an association vector denotes: later entries override earlier.
pub open spec fn table_map<K: View, V: View>(s: Seq<(K, V)>) -> Map<<K as View>::V, <V as View>::V>
    decreases s.len(),
{
    if s.len() == 0 {
        Map::empty()
    } else {
        table_map(s.drop_last()).insert(s.last().0@, s.last().1@)
    }
}

/// No two entries share a key.
pub open spec fn distinct_keys<K: View, V: View>(s: Seq<(K, V)>) -> bool {
    forall|i: int, j: int| 0 <= i < j < s.len() ==> (#[trigger] s[i]).0@ != (#[trigger] s[j]).0@
}

/// A key is in the denoted map exactly when some entry carries it.
proof fn lemma_table_map_key<K: View, V: View>(s: Seq<(K, V)>, k: <K as View>::V)
    ensures
        table_map(s).contains_key(k) <==> (exists|i: int|
            0 <= i < s.len() && (#[trigger] s[i]).0@ == k),
    decreases s.len(),
{
    if s.len() > 0 {
        let sub = s.drop_last();
        lemma_table_map_key(sub, k);
        if table_map(s).contains_key(k) {
            if k == s.last().0@ {
                assert(s[s.len() - 1].0@ == k);
            } else {
                let i = choose|i: int| 0 <= i < sub.len() && (#[trigger] sub[i]).0@ == k;
                assert(s[i].0@ == k);
            }
        }
        if exists|i: int| 0 <= i < s.len() && (#[trigger] s[i]).0@ == k {
            let i = choose|i: int| 0 <= i < s.len() && (#[trigger] s[i]).0@ == k;
            if i < s.len() - 1 {
                assert(sub[i].0@ == k);
            }
        }
    }
}

/// With distinct keys, the denoted map sends each entry's key to its value.
proof fn lemma_table_map_val<K: View, V: View>(s: Seq<(K, V)>, i: int)
    requires
        distinct_keys(s),
        0 <= i < s.len(),
    ensures
        table_map(s).contains_key(s[i].0@),
        table_map(s)[s[i].0@] == s[i].1@,
    decreases s.len(),
{
    if i < s.len() - 1 {
        let sub = s.drop_last();
        assert(sub[i] == s[i]);
        lemma_table_map_val(sub, i);
        assert(s.last().0@ != s[i].0@);
    }
}

/// A keyed table: an association vector with distinct keys, viewed as a map.
pub struct Table<K, V> {
    entries: Vec<(K, V)>,
}

impl<K: TableKey, V: View> View for Table<K, V> {
    type V = Map<<K as View>::V, <V as View>::V>;

    closed spec fn view(&self) -> Map<<K as View>::V, <V as View>::V> {
        table_map(self.entries@)
    }
}

impl<K: TableKey, V: View> Table<K, V> {
    pub closed spec fn wf(&self) -> bool {
        distinct_keys(self.entries@)
    }

    /// The empty table.
    pub fn new() -> (r: Self)
        ensures
            r.wf(),
            r@ == Map::<<K as View>::V, <V as View>::V>::empty(),
    {
        Table { entries: Vec::new() }
    }

    /// The position of the entry carrying the key, if any.
    fn find(&self, k: &K) -> (r: Option<usize>)
        ensures
            match r {
                Some(i) => i < self.entries@.len() && self.entries@[i as int].0@ == k@,
                None => forall|j: int|
                    0 <= j < self.entries@.len() ==> (#[trigger] self.entries@[j]).0@ != k@,
            },
    {
        let mut i: usize = 0;
        while i < self.entries.len()
            invariant
                i <= self.entries@.len(),
                forall|j: int| 0 <= j < i ==> (#[trigger] self.entries@[j]).0@ != k@,
            decreases self.entries@.len() - i,
        {
            if self.entries[i].0.key_eq(k) {
                return Some(i);
            }
            i += 1;
        }
        None
    }

    /// The value at a key.
    pub fn get(&self, k: &K) -> (r: Option<&V>)
        requires
            self.wf(),
        ensures
            match r {
                Some(v) => self@.contains_key(k@) && v@ == self@[k@],
                None => !self@.contains_key(k@),
            },
    {
        match self.find(k) {
            Some(i) => {
                proof {
                    lemma_table_map_val(self.entries@, i as int);
                }
                Some(&self.entries[i].1)
            },
            None => {
                proof {
                    lemma_table_map_key(self.entries@, k@);
                }
                None
            },
        }
    }

    /// Maps the key to the value, overriding any previous binding.
    pub fn insert(&mut self, k: K, v: V)
        requires
            old(self).wf(),
        ensures
            final(self).wf(),
            final(self)@ == old(self)@.insert(k@, v@),
    {
        let ghost s_old = self.entries@;
        let ghost kv = k@;
        let ghost vv = v@;
        match self.find(&k) {
            Some(i) => {
                self.entries.set(i, (k, v));
                proof {
                    let s_new = self.entries@;
                    assert(forall|j: int|
                        0 <= j < s_new.len() && j != i ==> s_new[j] == s_old[j]);
                    assert(s_new[i as int].0@ == s_old[i as int].0@);
                    assert(distinct_keys::<K, V>(s_new));
                    assert_maps_equal!(table_map(s_new), table_map(s_old).insert(kv, vv), x: <K as View>::V => {
                        lemma_table_map_key(s_new, x);
                        lemma_table_map_key(s_old, x);
                        if table_map(s_new).contains_key(x) {
                            let j = choose|j: int|
                                0 <= j < s_new.len() && (#[trigger] s_new[j]).0@ == x;
                            lemma_table_map_val(s_new, j);
                            if x == kv {
                                assert(j == i);
                            } else {
                                assert(j != i);
                                lemma_table_map_val(s_old, j);
                            }
                        } else {
                            assert(x != kv) by {
                                assert(s_new[i as int].0@ == kv);
                            }
                        }
                    });
                }
            },
            None => {
                self.entries.push((k, v));
                proof {
                    let s_new = self.entries@;
                    assert(s_new.drop_last() =~= s_old);
                    assert(s_new.last().0@ == kv);
                    assert(distinct_keys::<K, V>(s_new));
                }
            },
        }
    }

    /// Removes the binding at a key, if any.
    pub fn remove(&mut self, k: &K)
        requires
            old(self).wf(),
        ensures
            final(self).wf(),
            final(self)@ == old(self)@.remove(k@),
    {
        let ghost s_old = self.entries@;
        let ghost kv = k@;
        match self.find(k) {
            Some(i) => {
                self.entries.remove(i);
                proof {
                    let s_new = self.entries@;
                    assert(forall|j: int| 0 <= j < i ==> s_new[j] == s_old[j]);
                    assert(forall|j: int|
                        i <= j < s_new.len() ==> s_new[j] == s_old[j + 1]);
                    assert(distinct_keys::<K, V>(s_new)) by {
                        assert(forall|p: int, q: int|
                            0 <= p < q < s_new.len() ==> (#[trigger] s_new[p]).0@ != (
                            #[trigger] s_new[q]).0@) by {
                            assert forall|p: int, q: int| 0 <= p < q < s_new.len() implies (
                            #[trigger] s_new[p]).0@ != (#[trigger] s_new[q]).0@ by {
                                let p0 = if p < i { p } else { p + 1 };
                                let q0 = if q < i { q } else { q + 1 };
                                assert(s_new[p] == s_old[p0]);
                                assert(s_new[q] == s_old[q0]);
                            }
                        }
                    }
                    assert_maps_equal!(table_map(s_new), table_map(s_old).remove(kv), x: <K as View>::V => {
                        lemma_table_map_key(s_new, x);
                        lemma_table_map_key(s_old, x);
                        if table_map(s_new).contains_key(x) {
                            let j = choose|j: int|
                                0 <= j < s_new.len() && (#[trigger] s_new[j]).0@ == x;
                            lemma_table_map_val(s_new, j);
                            let j0 = if j < i { j } else { j + 1 };
                            assert(s_old[j0] == s_new[j]);
                            lemma_table_map_val(s_old, j0);
                            assert(x != kv) by {
                                if j0 != i {
                                    assert(s_old[i as int].0@ == kv);
                                }
                            }
                        } else {
                            if x != kv && table_map(s_old).contains_key(x) {
                                let j = choose|j: int|
                                    0 <= j < s_old.len() && (#[trigger] s_old[j]).0@ == x;
                                assert(j != i);
                                let jn = if j < i { j } else { j - 1 };
                                assert(s_new[jn] == s_old[j]);
                                assert(table_map(s_new).contains_key(x));
                            }
                        }
                    });
                }
            },
            None => {
                proof {
                    lemma_table_map_key(s_old, kv);
                    assert(table_map(s_old).remove(kv) =~= table_map(s_old));
                }
            },
        }
    }
}

/// The set of header hashes known at one height.
pub struct HashGroup {
    items: Vec<Hash256>,
}

impl View for HashGroup {
    type V = Seq<Seq<u8>>;

    closed spec fn view(&self) -> Seq<Seq<u8>> {
        self.items.deep_view()
    }
}

/// No two elements are equal.
pub open spec fn distinct_seq(s: Seq<Seq<u8>>) -> bool {
    forall|i: int, j: int| 0 <= i < j < s.len() ==> s[i] != s[j]
}

impl HashGroup {
    pub open spec fn wf(&self) -> bool {
        distinct_seq(self@)
    }

    /// The group holding only the given hash.
    pub fn single(h: Hash256) -> (r: Self)
        ensures
            r.wf(),
            r@ =~= seq![h@],
    {
        let ghost hv = h@;
        let mut items: Vec<Hash256> = Vec::new();
        items.push(h);
        proof {
            assert(items.deep_view() =~= seq![hv]);
        }
        HashGroup { items }
    }

    /// Whether the hash is a member.
    pub fn member(&self, h: &Hash256) -> (r: bool)
        ensures
            r == self@.contains(h@),
    {
        let mut i: usize = 0;
        while i < self.items.len()
            invariant
                i <= self.items@.len(),
                self@.len() == self.items@.len(),
                forall|j: int| 0 <= j < i ==> self@[j] != h@,
                forall|j: int| 0 <= j < self@.len() ==> self@[j] == self.items@[j]@,
            decreases self.items@.len() - i,
        {
            if bytes_eq(self.items[i].as_bytes(), h.as_bytes()) {
                proof {
                    assert(self@[i as int] == h@);
                }
                return true;
            }
            i += 1;
        }
        proof {
            if self@.contains(h@) {
                let j = choose|j: int| 0 <= j < self@.len() && self@[j] == h@;
                assert(false);
            }
        }
        false
    }

    /// Adds the hash if it is not yet a member.
    pub fn add_member(&mut self, h: Hash256)
        requires
            old(self).wf(),
        ensures
            final(self).wf(),
            final(self)@ == if old(self)@.contains(h@) {
                old(self)@
            } else {
                old(self)@.push(h@)
            },
            final(self)@.contains(h@),
    {
        let ghost hv = h@;
        if !self.member(&h) {
            let ghost s_old = self@;
            self.items.push(h);
            proof {
                assert(self@ =~= s_old.push(hv));
                assert(self@[self@.len() - 1] == hv);
            }
        }
    }

    /// How many hashes the group holds.
    pub fn count(&self) -> (r: usize)
        ensures
            r == self@.len(),
    {
        self.items.len()
    }

    /// The hash at a position.
    pub fn item_at(&self, i: usize) -> (r: &Hash256)
        requires
            i < self@.len(),
        ensures
            r@ == self@[i as int],
    {
        &self.items[i]
    }

    /// A copy of the group.
    pub fn duplicate(&self) -> (r: Self)
        ensures
            r@ == self@,
    {
        let mut items: Vec<Hash256> = Vec::new();
        let mut i: usize = 0;
        while i < self.items.len()
            invariant
                i <= self.items@.len(),
                items@.len() == i,
                forall|j: int| 0 <= j < i ==> (#[trigger] items@[j])@ == self.items@[j]@,
            decreases self.items@.len() - i,
        {
            let copied = self.items[i].duplicate();
            items.push(copied);
            i += 1;
        }
        proof {
            let d = items.deep_view();
            assert forall|j: int| 0 <= j < d.len() implies d[j] == self@[j] by {
                assert(d[j] == items@[j]@);
                assert(self@[j] == self.items@[j]@);
            }
            assert(items.deep_view() =~= self@);
        }
        HashGroup { items }
    }
}

} // verus!
