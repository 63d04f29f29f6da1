use vstd::prelude::*;
use crate::errors::Errors;
use crate::log_record::LogRecordPos;
use crate::options::IteratorOptions;
use crate::index::lex_lt;
use crate::index::btree::{entries_sorted, view_entries};
use crate::index::btree_iterator::BTreeIterator;

verus! {

#[verifier::external_type_specification]
#[verifier::external_body]
#[verifier::reject_recursive_types(K)]
#[verifier::reject_recursive_types(V)]
pub struct ExSkipMap<K, V>(crossbeam_skiplist::SkipMap<K, V>);

/// What the skip list holds: each stored key mapped to its
/// `(file id, offset, size)` triple.
pub uninterp spec fn skipmap_contents(
    m: crossbeam_skiplist::SkipMap<Vec<u8>, (u32, u64, usize)>,
) -> Map<Seq<u8>, (u32, u64, usize)>;

/// Relies on crossbeam_skiplist::SkipMap::get: the value stored under the
/// key, if the map holds the key.
#[verifier::external_body]
fn skl_get(
    m: &crossbeam_skiplist::SkipMap<Vec<u8>, (u32, u64, usize)>, key: &Vec<u8>,
) -> (r: Option<(u32, u64, usize)>)
    ensures
        r == if skipmap_contents(*m).contains_key(key@) {
            Some(skipmap_contents(*m)[key@])
        } else {
            None::<(u32, u64, usize)>
        },
{
    m.get(key).map(|e| *e.value())
}

/// Relies on crossbeam_skiplist::SkipMap::insert: stores the value under
/// the key, removing any existing entry of that key first.
#[verifier::external_body]
fn skl_insert(
    m: &mut crossbeam_skiplist::SkipMap<Vec<u8>, (u32, u64, usize)>,
    key: Vec<u8>, value: (u32, u64, usize),
)
    ensures
        skipmap_contents(*final(m)) == skipmap_contents(*old(m)).insert(key@, value),
{
    m.insert(key, value);
}

/// Relies on crossbeam_skiplist::SkipMap::remove: removes the entry with
/// this key and hands back its value, if the map held the key.
#[verifier::external_body]
fn skl_remove(
    m: &mut crossbeam_skiplist::SkipMap<Vec<u8>, (u32, u64, usize)>, key: &Vec<u8>,
) -> (r: Option<(u32, u64, usize)>)
    ensures
        skipmap_contents(*final(m)) == skipmap_contents(*old(m)).remove(key@),
        r == if skipmap_contents(*old(m)).contains_key(key@) {
            Some(skipmap_contents(*old(m))[key@])
        } else {
            None::<(u32, u64, usize)>
        },
{
    m.remove(key).map(|e| *e.value())
}

/// Relies on crossbeam_skiplist::SkipMap::iter: every entry of the map,
/// keys in ascending lexicographic order.
#[verifier::external_body]
fn skl_entries(
    m: &crossbeam_skiplist::SkipMap<Vec<u8>, (u32, u64, usize)>,
) -> (r: Vec<(Vec<u8>, (u32, u64, usize))>)
    requires
        skipmap_contents(*m).dom().finite(),
    ensures
        r@.len() == skipmap_contents(*m).dom().len(),
        forall|i: int| 0 <= i < r@.len()
            ==> skipmap_contents(*m).contains_key(#[trigger] r@[i].0@)
                && skipmap_contents(*m)[r@[i].0@] == r@[i].1,
        forall|i: int, j: int| 0 <= i < j < r@.len() ==> lex_lt(r@[i].0@, r@[j].0@),
        forall|k: Seq<u8>| skipmap_contents(*m).contains_key(k)
            ==> exists|i: int| 0 <= i < r@.len() && #[trigger] r@[i].0@ == k,
{
    m.iter().map(|e| (e.key().clone(), *e.value())).collect()
}

/// The lock-free skip-list index, backed by a concurrent ordered map from
/// an outside crate; the library reasons about it only through the
/// contracts above.
pub struct SkipList {
    skl: crossbeam_skiplist::SkipMap<Vec<u8>, (u32, u64, usize)>,
}

/// A stored triple as a record position.
pub open spec fn spec_triple_pos(t: (u32, u64, usize)) -> LogRecordPos {
    LogRecordPos { file_id: t.0, offset: t.1, size: t.2 }
}

impl SkipList {
    /// The key-to-position map this index holds.
    pub closed spec fn as_map(&self) -> Map<Seq<u8>, LogRecordPos> {
        skipmap_contents(self.skl).map_values(|t: (u32, u64, usize)| spec_triple_pos(t))
    }

    /// The skip list always knows how many entries it holds.
    pub closed spec fn dom_finite(&self) -> bool {
        skipmap_contents(self.skl).dom().finite()
    }

    /// An empty index. Relies on crossbeam_skiplist::SkipMap::new: a fresh
    /// map holds nothing.
    #[verifier::external_body]
    pub fn new() -> (r: Self)
        ensures
            r.as_map() == (Map::<Seq<u8>, LogRecordPos>::empty()),
            r.dom_finite(),
    {
        SkipList { skl: crossbeam_skiplist::SkipMap::new() }
    }

    /// Records `pos` as the latest position of `key`, returning the
    /// position it displaces, if any.
    pub fn put(&mut self, key: Vec<u8>, pos: LogRecordPos) -> (r: Option<LogRecordPos>)
        requires
            old(self).dom_finite(),
        ensures
            final(self).dom_finite(),
            final(self).as_map() == old(self).as_map().insert(key@, pos),
            r == if old(self).as_map().contains_key(key@) {
                Some(old(self).as_map()[key@])
            } else {
                None::<LogRecordPos>
            },
    {
        let old_value = skl_get(&self.skl, &key);
        let ghost k = key@;
        skl_insert(&mut self.skl, key, (pos.file_id, pos.offset, pos.size));
        proof {
            assert(final(self).as_map() =~= old(self).as_map().insert(k, pos));
        }
        match old_value {
            Some(t) => Some(LogRecordPos { file_id: t.0, offset: t.1, size: t.2 }),
            None => None,
        }
    }

    /// The position of `key`, if the index holds it.
    pub fn get(&self, key: &Vec<u8>) -> (r: Option<LogRecordPos>)
        ensures
            r == if self.as_map().contains_key(key@) {
                Some(self.as_map()[key@])
            } else {
                None::<LogRecordPos>
            },
    {
        match skl_get(&self.skl, key) {
            Some(t) => Some(LogRecordPos { file_id: t.0, offset: t.1, size: t.2 }),
            None => None,
        }
    }

    /// Removes `key`, returning the position it held, if any.
    pub fn delete(&mut self, key: &Vec<u8>) -> (r: Option<LogRecordPos>)
        requires
            old(self).dom_finite(),
        ensures
            final(self).dom_finite(),
            final(self).as_map() == old(self).as_map().remove(key@),
            r == if old(self).as_map().contains_key(key@) {
                Some(old(self).as_map()[key@])
            } else {
                None::<LogRecordPos>
            },
    {
        let ghost k = key@;
        let r = skl_remove(&mut self.skl, key);
        proof {
            assert(final(self).as_map() =~= old(self).as_map().remove(k));
        }
        match r {
            Some(t) => Some(LogRecordPos { file_id: t.0, offset: t.1, size: t.2 }),
            None => None,
        }
    }

    /// The entries of the index as position records, ascending by key.
    fn entries(&self) -> (r: Vec<(Vec<u8>, LogRecordPos)>)
        requires
            self.dom_finite(),
        ensures
            r@.len() == self.as_map().dom().len(),
            forall|i: int| 0 <= i < r@.len()
                ==> self.as_map().contains_key(#[trigger] view_entries(r@)[i].0)
                    && self.as_map()[view_entries(r@)[i].0] == view_entries(r@)[i].1,
            entries_sorted(view_entries(r@)),
            forall|k: Seq<u8>| self.as_map().contains_key(k)
                ==> exists|i: int| 0 <= i < r@.len() && #[trigger] view_entries(r@)[i].0 == k,
    {
        let raw = skl_entries(&self.skl);
        let mut out: Vec<(Vec<u8>, LogRecordPos)> = Vec::new();
        let mut i: usize = 0;
        let n = raw.len();
        while i < n
            invariant
                i <= n == raw@.len(),
                out@.len() == i,
                forall|j: int| 0 <= j < i
                    ==> #[trigger] out@[j].0@ == raw@[j].0@
                        && out@[j].1 == spec_triple_pos(raw@[j].1),
            decreases n - i,
        {
            let k = crate::log_record::copy_range(&raw[i].0, 0, raw[i].0.len());
            let t = raw[i].1;
            proof {
                assert(k@ =~= raw@[i as int].0@);
            }
            out.push((k, LogRecordPos { file_id: t.0, offset: t.1, size: t.2 }));
            i = i + 1;
        }
        proof {
            assert(self.as_map().dom() =~= skipmap_contents(self.skl).dom());
            assert forall|k: Seq<u8>| self.as_map().contains_key(k)
                implies exists|j: int| 0 <= j < out@.len()
                    && #[trigger] view_entries(out@)[j].0 == k by {
                let j = choose|j: int| 0 <= j < raw@.len() && #[trigger] raw@[j].0@ == k;
                assert(view_entries(out@)[j].0 == k);
            }
        }
        out
    }

    /// All keys of the index, in ascending order.
    pub fn list_keys(&self) -> (r: Result<Vec<Vec<u8>>, Errors>)
        requires
            self.dom_finite(),
        ensures
            r matches Ok(keys) ==> {
                &&& keys@.len() == self.as_map().dom().len()
                &&& forall|i: int| 0 <= i < keys@.len()
                    ==> self.as_map().contains_key(#[trigger] keys@[i]@)
                &&& forall|i: int, j: int| 0 <= i < j < keys@.len()
                    ==> lex_lt(keys@[i]@, keys@[j]@)
                &&& forall|k: Seq<u8>| self.as_map().contains_key(k)
                    ==> exists|i: int| 0 <= i < keys@.len() && #[trigger] keys@[i]@ == k
            },
            r is Ok,
    {
        let entries = self.entries();
        let mut keys: Vec<Vec<u8>> = Vec::new();
        let mut i: usize = 0;
        let n = entries.len();
        while i < n
            invariant
                i <= n == entries@.len(),
                keys@.len() == i,
                forall|j: int| 0 <= j < i
                    ==> #[trigger] keys@[j]@ == view_entries(entries@)[j].0,
            decreases n - i,
        {
            let k = crate::log_record::copy_range(&entries[i].0, 0, entries[i].0.len());
            proof {
                assert(k@ =~= view_entries(entries@)[i as int].0);
            }
            keys.push(k);
            i = i + 1;
        }
        proof {
            assert forall|k: Seq<u8>| self.as_map().contains_key(k)
                implies exists|i2: int| 0 <= i2 < keys@.len() && #[trigger] keys@[i2]@ == k by {
                let j = choose|j: int| 0 <= j < entries@.len()
                    && #[trigger] view_entries(entries@)[j].0 == k;
                assert(keys@[j]@ == k);
            }
        }
        Ok(keys)
    }

    /// A snapshot cursor over the index, per the options.
    pub fn iterator(&self, options: IteratorOptions) -> (r: BTreeIterator)
        requires
            self.dom_finite(),
        ensures
            r.wf(),
            r.spec_curr() == 0,
            r.spec_prefix() == options.prefix@,
            r.spec_reverse() == options.reverse,
            r.key_set() == self.as_map().dom(),
            r.spec_items().len() == self.as_map().dom().len(),
            forall|i: int| 0 <= i < r.spec_items().len()
                ==> self.as_map().contains_key(#[trigger] r.spec_items()[i].0)
                    && self.as_map()[r.spec_items()[i].0] == r.spec_items()[i].1,
    {
        let entries = self.entries();
        let ghost fwd = view_entries(entries@);
        let it = BTreeIterator::from_sorted_items(entries, options);
        proof {
            assert forall|i: int| 0 <= i < it.spec_items().len()
                implies self.as_map().contains_key(#[trigger] it.spec_items()[i].0)
                    && self.as_map()[it.spec_items()[i].0] == it.spec_items()[i].1 by {
                if options.reverse {
                    assert(it.spec_items()[i] == fwd[fwd.len() - 1 - i]);
                }
            }
            assert(it.key_set() =~= self.as_map().dom()) by {
                assert forall|k: Seq<u8>| it.key_set().contains(k)
                    implies self.as_map().contains_key(k) by {
                    let i = choose|i: int| 0 <= i < it.spec_items().len()
                        && #[trigger] it.spec_items()[i].0 == k;
                }
                assert forall|k: Seq<u8>| self.as_map().contains_key(k)
                    implies it.key_set().contains(k) by {
                    let j = choose|j: int| 0 <= j < fwd.len() && #[trigger] fwd[j].0 == k;
                    if options.reverse {
                        let i = fwd.len() - 1 - j;
                        assert(it.spec_items()[i] == fwd[fwd.len() - 1 - i]);
                        assert(it.spec_items()[i].0 == k);
                    } else {
                        assert(it.spec_items()[j].0 == k);
                    }
                }
            }
        }
        it
    }
}

} // verus!
