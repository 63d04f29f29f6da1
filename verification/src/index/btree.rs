use vstd::prelude::*;
use crate::errors::Errors;
use crate::log_record::{LogRecordPos, copy_range};
use crate::options::IteratorOptions;
use crate::index::{lex_lt, lemma_lex_trichotomy, compare_bytes, ByteOrd};
use crate::index::btree_iterator::BTreeIterator;

verus! {

/// A list of key/position entries holds `k`.
pub open spec fn entries_contain(s: Seq<(Seq<u8>, LogRecordPos)>, k: Seq<u8>) -> bool {
    exists|i: int| 0 <= i < s.len() && #[trigger] s[i].0 == k
}

/// The entries in strictly ascending key order.
pub open spec fn entries_sorted(s: Seq<(Seq<u8>, LogRecordPos)>) -> bool {
    forall|i: int, j: int| 0 <= i < j < s.len()
        ==> lex_lt(#[trigger] s[i].0, #[trigger] s[j].0)
}

/// No two entries share a key.
pub open spec fn entries_distinct(s: Seq<(Seq<u8>, LogRecordPos)>) -> bool {
    forall|i: int, j: int| 0 <= i < j < s.len()
        ==> (#[trigger] s[i].0) != (#[trigger] s[j].0)
}

/// The map a list of entries stands for; a later entry wins a shared key.
pub open spec fn entries_map(s: Seq<(Seq<u8>, LogRecordPos)>) -> Map<Seq<u8>, LogRecordPos>
    decreases s.len(),
{
    if s.len() == 0 {
        Map::empty()
    } else {
        entries_map(s.drop_last()).insert(s.last().0, s.last().1)
    }
}

/// Sorted entries are distinct.
pub proof fn lemma_sorted_distinct(s: Seq<(Seq<u8>, LogRecordPos)>)
    requires
        entries_sorted(s),
    ensures
        entries_distinct(s),
{
    assert forall|i: int, j: int| 0 <= i < j < s.len()
        implies (#[trigger] s[i].0) != (#[trigger] s[j].0) by {
        lemma_lex_trichotomy(s[i].0, s[j].0);
    }
}

/// A key is in the entry map exactly when some entry carries it.
pub proof fn lemma_entries_map_contains(s: Seq<(Seq<u8>, LogRecordPos)>, k: Seq<u8>)
    ensures
        entries_map(s).contains_key(k) <==> entries_contain(s, k),
    decreases s.len(),
{
    if s.len() > 0 {
        lemma_entries_map_contains(s.drop_last(), k);
        if entries_contain(s.drop_last(), k) {
            let i = choose|i: int| 0 <= i < s.drop_last().len() && s.drop_last()[i].0 == k;
            assert(s[i].0 == k);
        }
        if entries_contain(s, k) && s.last().0 != k {
            let i = choose|i: int| 0 <= i < s.len() && s[i].0 == k;
            assert(s.drop_last()[i].0 == k);
        }
    }
}

/// With distinct keys, the map sends each entry's key to its position.
pub proof fn lemma_entries_map_value(s: Seq<(Seq<u8>, LogRecordPos)>, i: int)
    requires
        entries_distinct(s),
        0 <= i < s.len(),
    ensures
        entries_map(s).contains_key(s[i].0),
        entries_map(s)[s[i].0] == s[i].1,
    decreases s.len(),
{
    lemma_entries_map_contains(s, s[i].0);
    if i < s.len() - 1 {
        assert(s.drop_last()[i] == s[i]);
        lemma_entries_map_value(s.drop_last(), i);
        assert(s[s.len() - 1].0 != s[i].0);
    }
}

/// The domain of the entry map is finite and, with distinct keys, as large
/// as the list.
pub proof fn lemma_entries_map_dom(s: Seq<(Seq<u8>, LogRecordPos)>)
    requires
        entries_distinct(s),
    ensures
        entries_map(s).dom().finite(),
        entries_map(s).dom().len() == s.len(),
    decreases s.len(),
{
    if s.len() > 0 {
        lemma_entries_map_dom(s.drop_last());
        lemma_entries_map_contains(s.drop_last(), s.last().0);
        assert(!entries_contain(s.drop_last(), s.last().0)) by {
            if entries_contain(s.drop_last(), s.last().0) {
                let i = choose|i: int| 0 <= i < s.drop_last().len()
                    && s.drop_last()[i].0 == s.last().0;
                assert(s[i].0 == s[s.len() - 1].0);
            }
        }
    }
}

/// Two inserts of different keys can be done in either order.
proof fn lemma_insert_commute(
    m: Map<Seq<u8>, LogRecordPos>, k1: Seq<u8>, v1: LogRecordPos, k2: Seq<u8>, v2: LogRecordPos,
)
    requires
        k1 != k2,
    ensures
        m.insert(k1, v1).insert(k2, v2) == m.insert(k2, v2).insert(k1, v1),
{
    assert(m.insert(k1, v1).insert(k2, v2) =~= m.insert(k2, v2).insert(k1, v1));
}

/// Inserting an absent key at any place in the list inserts it in the map.
pub proof fn lemma_entries_map_insert(
    s: Seq<(Seq<u8>, LogRecordPos)>, p: int, k: Seq<u8>, v: LogRecordPos,
)
    requires
        0 <= p <= s.len(),
        !entries_contain(s, k),
    ensures
        entries_map(s.insert(p, (k, v))) == entries_map(s).insert(k, v),
    decreases s.len(),
{
    let s2 = s.insert(p, (k, v));
    if p == s.len() {
        assert(s2.drop_last() =~= s);
        assert(s2.last() == (k, v));
    } else {
        assert(s2.last() == s.last());
        assert(s2.drop_last() =~= s.drop_last().insert(p, (k, v)));
        assert(!entries_contain(s.drop_last(), k)) by {
            if entries_contain(s.drop_last(), k) {
                let i = choose|i: int| 0 <= i < s.drop_last().len() && s.drop_last()[i].0 == k;
                assert(s[i].0 == k);
            }
        }
        lemma_entries_map_insert(s.drop_last(), p, k, v);
        assert(s.last().0 != k) by {
            assert(s[s.len() - 1].0 == s.last().0);
        }
        lemma_insert_commute(entries_map(s.drop_last()), k, v, s.last().0, s.last().1);
    }
}

/// Overwriting the entry that holds a key updates the map at that key.
pub proof fn lemma_entries_map_update(
    s: Seq<(Seq<u8>, LogRecordPos)>, i: int, v: LogRecordPos,
)
    requires
        entries_distinct(s),
        0 <= i < s.len(),
    ensures
        entries_map(s.update(i, (s[i].0, v))) == entries_map(s).insert(s[i].0, v),
    decreases s.len(),
{
    let k = s[i].0;
    let s2 = s.update(i, (k, v));
    if i == s.len() - 1 {
        assert(s2.drop_last() =~= s.drop_last());
        assert(entries_map(s2) == entries_map(s.drop_last()).insert(k, v));
        assert(entries_map(s).insert(k, v)
            == entries_map(s.drop_last()).insert(k, s[i].1).insert(k, v));
        assert(entries_map(s.drop_last()).insert(k, s[i].1).insert(k, v)
            =~= entries_map(s.drop_last()).insert(k, v));
    } else {
        assert(s2.last() == s.last());
        assert(s2.drop_last() =~= s.drop_last().update(i, (k, v)));
        assert(forall|a: int, b: int| 0 <= a < b < s.drop_last().len()
            ==> (#[trigger] s.drop_last()[a].0) != (#[trigger] s.drop_last()[b].0)) by {
            assert(forall|a: int| 0 <= a < s.drop_last().len()
                ==> #[trigger] s.drop_last()[a] == s[a]);
        }
        assert(s.drop_last()[i] == s[i]);
        lemma_entries_map_update(s.drop_last(), i, v);
        assert(s.last().0 != k) by {
            assert(s[s.len() - 1].0 == s.last().0);
        }
        lemma_insert_commute(entries_map(s.drop_last()), k, v, s.last().0, s.last().1);
    }
}

/// Removing the entry that holds a key removes the key from the map.
pub proof fn lemma_entries_map_remove(s: Seq<(Seq<u8>, LogRecordPos)>, i: int)
    requires
        entries_distinct(s),
        0 <= i < s.len(),
    ensures
        entries_map(s.remove(i)) == entries_map(s).remove(s[i].0),
    decreases s.len(),
{
    let k = s[i].0;
    let s2 = s.remove(i);
    if i == s.len() - 1 {
        assert(s2 =~= s.drop_last());
        lemma_entries_map_contains(s.drop_last(), k);
        assert(!entries_contain(s.drop_last(), k)) by {
            if entries_contain(s.drop_last(), k) {
                let j = choose|j: int| 0 <= j < s.drop_last().len() && s.drop_last()[j].0 == k;
                assert(s[j].0 == s[i].0);
            }
        }
        assert(entries_map(s.drop_last()).insert(k, s.last().1).remove(k)
            =~= entries_map(s.drop_last()));
        assert(s.last() == s[i]);
    } else {
        assert(s2.last() == s.last());
        assert(s2.drop_last() =~= s.drop_last().remove(i));
        assert(forall|a: int| 0 <= a < s.drop_last().len()
            ==> #[trigger] s.drop_last()[a] == s[a]);
        lemma_entries_map_remove(s.drop_last(), i);
        assert(s.last().0 != k) by {
            assert(s[s.len() - 1].0 == s.last().0);
        }
        assert(entries_map(s.drop_last()).remove(k).insert(s.last().0, s.last().1)
            =~= entries_map(s.drop_last()).insert(s.last().0, s.last().1).remove(k));
    }
}

/// The balanced ordered in-memory index: entries kept in strictly
/// ascending key order.
pub struct BTree {
    items: Vec<(Vec<u8>, LogRecordPos)>,
}

/// The ghost view of stored entries: each key as its byte sequence.
pub open spec fn view_entries(items: Seq<(Vec<u8>, LogRecordPos)>) -> Seq<(Seq<u8>, LogRecordPos)> {
    items.map_values(|e: (Vec<u8>, LogRecordPos)| (e.0@, e.1))
}

impl BTree {
    /// The entries, keys as byte sequences, in storage order.
    pub closed spec fn spec_items(&self) -> Seq<(Seq<u8>, LogRecordPos)> {
        view_entries(self.items@)
    }

    /// The entries are strictly sorted by key.
    pub open spec fn wf(&self) -> bool {
        entries_sorted(self.spec_items())
    }

    /// The key-to-position map this index holds.
    pub open spec fn as_map(&self) -> Map<Seq<u8>, LogRecordPos> {
        entries_map(self.spec_items())
    }

    /// An empty index.
    pub fn new() -> (r: Self)
        ensures
            r.wf(),
            r.as_map() == (Map::<Seq<u8>, LogRecordPos>::empty()),
            r.spec_items() == Seq::<(Seq<u8>, LogRecordPos)>::empty(),
    {
        let t = BTree { items: Vec::new() };
        proof {
            assert(t.spec_items() =~= Seq::<(Seq<u8>, LogRecordPos)>::empty());
        }
        t
    }

    /// Where `key` is or belongs: either `(i, true)` with the key stored at
    /// `i`, or `(i, false)` with every smaller index strictly below `key`
    /// and every index from `i` on strictly above it.
    fn locate(&self, key: &Vec<u8>) -> (r: (usize, bool))
        requires
            self.wf(),
        ensures
            r.1 ==> r.0 < self.spec_items().len() && self.spec_items()[r.0 as int].0 == key@,
            !r.1 ==> {
                &&& r.0 <= self.spec_items().len()
                &&& forall|j: int| 0 <= j < r.0
                    ==> lex_lt(#[trigger] self.spec_items()[j].0, key@)
                &&& forall|j: int| r.0 <= j < self.spec_items().len()
                    ==> lex_lt(key@, #[trigger] self.spec_items()[j].0)
            },
    {
        let mut lo: usize = 0;
        let mut hi: usize = self.items.len();
        while lo < hi
            invariant
                lo <= hi <= self.items.len(),
                self.wf(),
                self.spec_items().len() == self.items@.len(),
                forall|j: int| 0 <= j < lo ==> lex_lt(#[trigger] self.spec_items()[j].0, key@),
                forall|j: int| hi <= j < self.spec_items().len()
                    ==> lex_lt(key@, #[trigger] self.spec_items()[j].0),
            decreases hi - lo,
        {
            let mid = lo + (hi - lo) / 2;
            match compare_bytes(&self.items[mid].0, key) {
                ByteOrd::Less => {
                    proof {
                        assert forall|j: int| 0 <= j < mid + 1
                            implies lex_lt(#[trigger] self.spec_items()[j].0, key@) by {
                            if j < mid {
                                crate::index::lemma_lex_transitive(
                                    self.spec_items()[j].0,
                                    self.spec_items()[mid as int].0,
                                    key@,
                                );
                            }
                        }
                    }
                    lo = mid + 1;
                },
                ByteOrd::Greater => {
                    proof {
                        assert forall|j: int| mid <= j < self.spec_items().len()
                            implies lex_lt(key@, #[trigger] self.spec_items()[j].0) by {
                            if j > mid {
                                crate::index::lemma_lex_transitive(
                                    key@,
                                    self.spec_items()[mid as int].0,
                                    self.spec_items()[j].0,
                                );
                            }
                        }
                    }
                    hi = mid;
                },
                ByteOrd::Equal => {
                    return (mid, true);
                },
            }
        }
        (lo, false)
    }

    /// Records `pos` as the latest position of `key`, returning the
    /// position it displaces, if any.
    pub fn put(&mut self, key: Vec<u8>, pos: LogRecordPos) -> (r: Option<LogRecordPos>)
        requires
            old(self).wf(),
        ensures
            final(self).wf(),
            final(self).as_map() == old(self).as_map().insert(key@, pos),
            r == if old(self).as_map().contains_key(key@) {
                Some(old(self).as_map()[key@])
            } else {
                None::<LogRecordPos>
            },
    {
        proof { lemma_sorted_distinct(self.spec_items()); }
        let (i, found) = self.locate(&key);
        if found {
            let ghost s = self.spec_items();
            let old_entry = self.items.remove(i);
            self.items.insert(i, (key, pos));
            proof {
                assert(self.spec_items() =~= s.update(i as int, (s[i as int].0, pos)));
                lemma_entries_map_update(s, i as int, pos);
                lemma_entries_map_value(s, i as int);
                assert(entries_sorted(self.spec_items())) by {
                    assert(forall|j: int| 0 <= j < s.len() && j != i
                        ==> #[trigger] self.spec_items()[j].0 == s[j].0);
                }
            }
            Some(old_entry.1)
        } else {
            let ghost s = self.spec_items();
            self.items.insert(i, (key, pos));
            proof {
                assert(self.spec_items() =~= s.insert(i as int, (key@, pos)));
                assert(!entries_contain(s, key@)) by {
                    if entries_contain(s, key@) {
                        let j = choose|j: int| 0 <= j < s.len() && s[j].0 == key@;
                        lemma_lex_trichotomy(s[j].0, key@);
                    }
                }
                lemma_entries_map_insert(s, i as int, key@, pos);
                lemma_entries_map_contains(s, key@);
                assert(entries_sorted(self.spec_items())) by {
                    let s2 = self.spec_items();
                    assert forall|a: int, b: int| 0 <= a < b < s2.len()
                        implies lex_lt(#[trigger] s2[a].0, #[trigger] s2[b].0) by {
                        if a < i && b == i {
                        } else if a == i && b > i {
                        } else if a < i && b > i {
                            assert(s2[a].0 == s[a].0);
                            assert(s2[b].0 == s[b - 1].0);
                        }
                    }
                }
            }
            None
        }
    }

    /// The position of `key`, if the index holds it.
    pub fn get(&self, key: &Vec<u8>) -> (r: Option<LogRecordPos>)
        requires
            self.wf(),
        ensures
            r == if self.as_map().contains_key(key@) {
                Some(self.as_map()[key@])
            } else {
                None::<LogRecordPos>
            },
    {
        proof { lemma_sorted_distinct(self.spec_items()); }
        let (i, found) = self.locate(key);
        proof { lemma_entries_map_contains(self.spec_items(), key@); }
        if found {
            proof { lemma_entries_map_value(self.spec_items(), i as int); }
            Some(self.items[i].1)
        } else {
            proof {
                if entries_contain(self.spec_items(), key@) {
                    let j = choose|j: int| 0 <= j < self.spec_items().len()
                        && self.spec_items()[j].0 == key@;
                    lemma_lex_trichotomy(self.spec_items()[j].0, key@);
                }
            }
            None
        }
    }

    /// Removes `key`, returning the position it held, if any.
    pub fn delete(&mut self, key: &Vec<u8>) -> (r: Option<LogRecordPos>)
        requires
            old(self).wf(),
        ensures
            final(self).wf(),
            final(self).as_map() == old(self).as_map().remove(key@),
            r == if old(self).as_map().contains_key(key@) {
                Some(old(self).as_map()[key@])
            } else {
                None::<LogRecordPos>
            },
    {
        proof { lemma_sorted_distinct(self.spec_items()); }
        let (i, found) = self.locate(key);
        proof { lemma_entries_map_contains(self.spec_items(), key@); }
        if found {
            let ghost s = self.spec_items();
            let old_entry = self.items.remove(i);
            proof {
                assert(self.spec_items() =~= s.remove(i as int));
                lemma_entries_map_remove(s, i as int);
                lemma_entries_map_value(s, i as int);
                assert(entries_sorted(self.spec_items())) by {
                    let s2 = self.spec_items();
                    assert forall|a: int, b: int| 0 <= a < b < s2.len()
                        implies lex_lt(#[trigger] s2[a].0, #[trigger] s2[b].0) by {
                        if a < i && b >= i {
                            assert(s2[a].0 == s[a].0);
                            assert(s2[b].0 == s[b + 1].0);
                        } else if a >= i {
                            assert(s2[a].0 == s[a + 1].0);
                            assert(s2[b].0 == s[b + 1].0);
                        }
                    }
                }
            }
            Some(old_entry.1)
        } else {
            proof {
                if entries_contain(self.spec_items(), key@) {
                    let j = choose|j: int| 0 <= j < self.spec_items().len()
                        && self.spec_items()[j].0 == key@;
                    lemma_lex_trichotomy(self.spec_items()[j].0, key@);
                }
                assert(self.as_map().remove(key@) =~= self.as_map());
            }
            None
        }
    }

    /// All keys of the index, in ascending order.
    pub fn list_keys(&self) -> (r: Result<Vec<Vec<u8>>, Errors>)
        requires
            self.wf(),
        ensures
            r matches Ok(keys) ==> {
                &&& keys@.len() == self.as_map().dom().len()
                &&& forall|i: int| 0 <= i < keys@.len()
                    ==> self.as_map().contains_key(#[trigger] keys@[i]@)
                &&& forall|i: int, j: int| 0 <= i < j < keys@.len()
                    ==> lex_lt(keys@[i]@, keys@[j]@)
                &&& forall|k: Seq<u8>| self.as_map().contains_key(k)
                    ==> exists|i: int| 0 <= i < keys@.len() && #[trigger] keys@[i]@ == k
            },
            r is Ok,
    {
        proof {
            lemma_sorted_distinct(self.spec_items());
            lemma_entries_map_dom(self.spec_items());
        }
        let mut keys: Vec<Vec<u8>> = Vec::new();
        let mut i: usize = 0;
        let n = self.items.len();
        while i < n
            invariant
                i <= n == self.items@.len(),
                self.wf(),
                keys@.len() == i,
                forall|j: int| 0 <= j < i
                    ==> #[trigger] keys@[j]@ == self.spec_items()[j].0,
            decreases n - i,
        {
            let k = copy_range(&self.items[i].0, 0, self.items[i].0.len());
            proof {
                assert(k@ =~= self.spec_items()[i as int].0);
            }
            keys.push(k);
            i = i + 1;
        }
        proof {
            assert forall|j: int| 0 <= j < keys@.len()
                implies self.as_map().contains_key(#[trigger] keys@[j]@) by {
                lemma_entries_map_value(self.spec_items(), j);
            }
            assert forall|k: Seq<u8>| self.as_map().contains_key(k)
                implies exists|i2: int| 0 <= i2 < keys@.len() && #[trigger] keys@[i2]@ == k by {
                lemma_entries_map_contains(self.spec_items(), k);
                let j = choose|j: int| 0 <= j < self.spec_items().len()
                    && self.spec_items()[j].0 == k;
                assert(keys@[j]@ == k);
            }
        }
        Ok(keys)
    }

    /// A snapshot cursor over the index, per the options.
    pub fn iterator(&self, options: IteratorOptions) -> (r: BTreeIterator)
        requires
            self.wf(),
        ensures
            r.wf(),
            r.spec_curr() == 0,
            r.spec_prefix() == options.prefix@,
            r.spec_reverse() == options.reverse,
            r.key_set() == self.as_map().dom(),
            r.spec_items().len() == self.as_map().dom().len(),
            forall|i: int| 0 <= i < r.spec_items().len()
                ==> self.as_map().contains_key(#[trigger] r.spec_items()[i].0)
                    && self.as_map()[r.spec_items()[i].0] == r.spec_items()[i].1,
    {
        proof { lemma_sorted_distinct(self.spec_items()); }
        let mut items: Vec<(Vec<u8>, LogRecordPos)> = Vec::new();
        let mut i: usize = 0;
        let n = self.items.len();
        while i < n
            invariant
                i <= n == self.items@.len(),
                self.wf(),
                items@.len() == i,
                forall|j: int| 0 <= j < i
                    ==> #[trigger] view_entries(items@)[j] == self.spec_items()[j],
            decreases n - i,
        {
            let k = copy_range(&self.items[i].0, 0, self.items[i].0.len());
            let p = self.items[i].1;
            proof {
                assert(k@ =~= self.spec_items()[i as int].0);
            }
            let ghost prev = items@;
            items.push((k, p));
            proof {
                assert forall|j: int| 0 <= j < items@.len()
                    implies #[trigger] view_entries(items@)[j] == self.spec_items()[j] by {
                    if j < prev.len() {
                        assert(items@[j] == prev[j]);
                        assert(view_entries(prev)[j] == self.spec_items()[j]);
                    } else {
                        assert(items@[j] == (k, p));
                        assert(view_entries(items@)[j] =~= self.spec_items()[i as int]);
                    }
                }
            }
            i = i + 1;
        }
        proof {
            assert(view_entries(items@) =~= self.spec_items());
            lemma_entries_map_dom(self.spec_items());
        }
        let ghost fwd = self.spec_items();
        let it = BTreeIterator::from_sorted_items(items, options);
        proof {
            assert forall|i2: int| 0 <= i2 < it.spec_items().len()
                implies self.as_map().contains_key(#[trigger] it.spec_items()[i2].0)
                    && self.as_map()[it.spec_items()[i2].0] == it.spec_items()[i2].1 by {
                let j = if options.reverse { fwd.len() - 1 - i2 } else { i2 };
                assert(it.spec_items()[i2] == fwd[j]);
                lemma_entries_map_value(fwd, j);
            }
            assert(it.key_set() =~= self.as_map().dom()) by {
                assert forall|k: Seq<u8>| it.key_set().contains(k)
                    implies self.as_map().contains_key(k) by {
                    let i2 = choose|i2: int| 0 <= i2 < it.spec_items().len()
                        && #[trigger] it.spec_items()[i2].0 == k;
                }
                assert forall|k: Seq<u8>| self.as_map().contains_key(k)
                    implies it.key_set().contains(k) by {
                    lemma_entries_map_contains(fwd, k);
                    let j = choose|j: int| 0 <= j < fwd.len() && #[trigger] fwd[j].0 == k;
                    let i2 = if options.reverse { fwd.len() - 1 - j } else { j };
                    assert(it.spec_items()[i2] == fwd[j]);
                    assert(it.spec_items()[i2].0 == k);
                }
            }
        }
        it
    }
}

} // verus!
