use vstd::prelude::*;

pub mod btree;
pub mod btree_iterator;
pub mod skiplist;

use crate::log_record::LogRecordPos;
use crate::options::{IndexType, IteratorOptions};
use crate::errors::Errors;

verus! {

/// Unsigned byte-wise lexicographic order: `a` comes strictly before `b`.
pub open spec fn lex_lt(a: Seq<u8>, b: Seq<u8>) -> bool
    decreases a.len(),
{
    if b.len() == 0 {
        false
    } else if a.len() == 0 {
        true
    } else if a[0] < b[0] {
        true
    } else if a[0] > b[0] {
        false
    } else {
        lex_lt(a.drop_first(), b.drop_first())
    }
}

/// `p` is a prefix of `k`.
pub open spec fn is_prefix(p: Seq<u8>, k: Seq<u8>) -> bool {
    p.len() <= k.len() && k.subrange(0, p.len() as int) == p
}

/// Of two byte strings, exactly one of `a < b`, `a == b`, `b < a` holds.
pub proof fn lemma_lex_trichotomy(a: Seq<u8>, b: Seq<u8>)
    ensures
        lex_lt(a, b) || lex_lt(b, a) || a == b,
        lex_lt(a, b) ==> !lex_lt(b, a) && a != b,
        lex_lt(b, a) ==> !lex_lt(a, b) && a != b,
    decreases a.len(),
{
    if a.len() == 0 && b.len() == 0 {
        assert(a =~= b);
    } else if a.len() > 0 && b.len() > 0 {
        if a[0] == b[0] {
            lemma_lex_trichotomy(a.drop_first(), b.drop_first());
            if a.drop_first() == b.drop_first() {
                assert(a =~= b) by {
                    assert forall|i: int| 0 <= i < a.len() implies a[i] == b[i] by {
                        if i > 0 {
                            assert(a[i] == a.drop_first()[i - 1]);
                            assert(b[i] == b.drop_first()[i - 1]);
                        }
                    }
                }
            }
            if a == b {
                assert(a.drop_first() =~= b.drop_first());
            }
        }
    }
}

/// The lexicographic order is transitive.
pub proof fn lemma_lex_transitive(a: Seq<u8>, b: Seq<u8>, c: Seq<u8>)
    requires
        lex_lt(a, b),
        lex_lt(b, c),
    ensures
        lex_lt(a, c),
    decreases a.len(),
{
    if a.len() > 0 && b.len() > 0 && c.len() > 0 {
        if a[0] == b[0] && b[0] == c[0] {
            lemma_lex_transitive(a.drop_first(), b.drop_first(), c.drop_first());
        }
    }
}

/// Matching prefixes with a strictly smaller byte at the first difference
/// put a byte string strictly first.
pub proof fn lemma_lex_from_diff(a: Seq<u8>, b: Seq<u8>, i: int)
    requires
        0 <= i < a.len(),
        i < b.len(),
        a.subrange(0, i) == b.subrange(0, i),
        a[i] < b[i],
    ensures
        lex_lt(a, b),
    decreases i,
{
    if i == 0 {
    } else {
        assert(a[0] == a.subrange(0, i)[0]);
        assert(b[0] == b.subrange(0, i)[0]);
        assert(a.drop_first().subrange(0, i - 1) =~= b.drop_first().subrange(0, i - 1)) by {
            assert forall|j: int| 0 <= j < i - 1 implies
                #[trigger] a.drop_first().subrange(0, i - 1)[j]
                    == b.drop_first().subrange(0, i - 1)[j] by {
                assert(a[j + 1] == a.subrange(0, i)[j + 1]);
                assert(b[j + 1] == b.subrange(0, i)[j + 1]);
            }
        }
        lemma_lex_from_diff(a.drop_first(), b.drop_first(), i - 1);
    }
}

/// A proper prefix comes strictly first.
pub proof fn lemma_lex_from_prefix(a: Seq<u8>, b: Seq<u8>)
    requires
        a.len() < b.len(),
        a == b.subrange(0, a.len() as int),
    ensures
        lex_lt(a, b),
    decreases a.len(),
{
    if a.len() > 0 {
        assert(a[0] == b.subrange(0, a.len() as int)[0]);
        assert(a.drop_first() =~= b.drop_first().subrange(0, a.len() - 1)) by {
            assert forall|j: int| 0 <= j < a.len() - 1 implies
                #[trigger] a.drop_first()[j] == b.drop_first().subrange(0, a.len() - 1)[j] by {
                assert(a[j + 1] == b.subrange(0, a.len() as int)[j + 1]);
            }
        }
        lemma_lex_from_prefix(a.drop_first(), b.drop_first());
    }
}

/// The outcome of comparing two byte strings.
#[derive(Debug, PartialEq, Eq, Structural, Clone, Copy)]
pub enum ByteOrd {
    Less,
    Equal,
    Greater,
}

/// Compares two byte strings in unsigned lexicographic order.
pub fn compare_bytes(a: &Vec<u8>, b: &Vec<u8>) -> (r: ByteOrd)
    ensures
        r == ByteOrd::Less <==> lex_lt(a@, b@),
        r == ByteOrd::Greater <==> lex_lt(b@, a@),
        r == ByteOrd::Equal <==> a@ == b@,
{
    proof { lemma_lex_trichotomy(a@, b@); }
    let mut i: usize = 0;
    let alen = a.len();
    let blen = b.len();
    while i < alen && i < blen
        invariant
            i <= alen == a.len(),
            i <= blen == b.len(),
            a@.subrange(0, i as int) =~= b@.subrange(0, i as int),
        decreases alen - i,
    {
        if a[i] < b[i] {
            proof {
                lemma_lex_from_diff(a@, b@, i as int);
                lemma_lex_trichotomy(a@, b@);
            }
            return ByteOrd::Less;
        }
        if a[i] > b[i] {
            proof {
                lemma_lex_from_diff(b@, a@, i as int);
                lemma_lex_trichotomy(a@, b@);
            }
            return ByteOrd::Greater;
        }
        assert(a@.subrange(0, i + 1) =~= b@.subrange(0, i + 1));
        i = i + 1;
    }
    if alen < blen {
        proof {
            assert(a@ =~= b@.subrange(0, a@.len() as int)) by {
                assert forall|j: int| 0 <= j < a@.len()
                    implies a@[j] == b@.subrange(0, a@.len() as int)[j] by {
                    assert(a@.subrange(0, alen as int)[j] == b@.subrange(0, alen as int)[j]);
                }
            }
            lemma_lex_from_prefix(a@, b@);
            lemma_lex_trichotomy(a@, b@);
        }
        ByteOrd::Less
    } else if alen > blen {
        proof {
            assert(b@ =~= a@.subrange(0, b@.len() as int)) by {
                assert forall|j: int| 0 <= j < b@.len()
                    implies b@[j] == a@.subrange(0, b@.len() as int)[j] by {
                    assert(a@.subrange(0, blen as int)[j] == b@.subrange(0, blen as int)[j]);
                }
            }
            lemma_lex_from_prefix(b@, a@);
            lemma_lex_trichotomy(a@, b@);
        }
        ByteOrd::Greater
    } else {
        proof {
            assert(a@ =~= b@) by {
                assert forall|j: int| 0 <= j < a@.len() implies a@[j] == b@[j] by {
                    assert(a@.subrange(0, alen as int)[j] == b@.subrange(0, alen as int)[j]);
                }
            }
        }
        ByteOrd::Equal
    }
}

/// Does `k` start with the bytes of `p`?
pub fn starts_with_bytes(k: &Vec<u8>, p: &Vec<u8>) -> (r: bool)
    ensures
        r == is_prefix(p@, k@),
{
    if p.len() > k.len() {
        proof {
            assert(!is_prefix(p@, k@));
        }
        return false;
    }
    let mut i: usize = 0;
    let plen = p.len();
    while i < plen
        invariant
            i <= plen == p.len() <= k.len(),
            k@.subrange(0, i as int) =~= p@.subrange(0, i as int),
        decreases plen - i,
    {
        if k[i] != p[i] {
            proof {
                assert(k@.subrange(0, p@.len() as int)[i as int] == k@[i as int]);
                assert(p@[i as int] != k@[i as int]);
            }
            return false;
        }
        assert(k@.subrange(0, i + 1) =~= p@.subrange(0, i + 1));
        i = i + 1;
    }
    proof {
        assert(k@.subrange(0, p@.len() as int) =~= p@);
    }
    true
}

/// The in-memory index: an ordered map from key bytes to the position of the
/// key's latest record. The two implementations are interchangeable.
pub enum Index {
    /// The balanced ordered map.
    BTree(btree::BTree),
    /// The lock-free skip list.
    SkipList(skiplist::SkipList),
}

/// Builds the index the options ask for.
pub fn new_indexer(index_type: IndexType) -> (r: Index)
    ensures
        r.as_map() == (Map::<Seq<u8>, LogRecordPos>::empty()),
        r.wf(),
{
    match index_type {
        IndexType::BTree => Index::BTree(btree::BTree::new()),
        IndexType::SkipList => Index::SkipList(skiplist::SkipList::new()),
    }
}

impl Index {
    /// The key-to-position map the index holds.
    pub open spec fn as_map(&self) -> Map<Seq<u8>, LogRecordPos> {
        match self {
            Index::BTree(t) => t.as_map(),
            Index::SkipList(s) => s.as_map(),
        }
    }

    /// The index's internal invariant.
    pub open spec fn wf(&self) -> bool {
        match self {
            Index::BTree(t) => t.wf(),
            Index::SkipList(s) => s.dom_finite(),
        }
    }

    /// Records `pos` as the latest position of `key`, returning the position
    /// it displaces, if any.
    pub fn put(&mut self, key: Vec<u8>, pos: LogRecordPos) -> (r: Option<LogRecordPos>)
        requires
            old(self).wf(),
        ensures
            final(self).wf(),
            final(self).as_map() == old(self).as_map().insert(key@, pos),
            r == if old(self).as_map().contains_key(key@) {
                Some(old(self).as_map()[key@])
            } else {
                None::<LogRecordPos>
            },
    {
        match self {
            Index::BTree(t) => t.put(key, pos),
            Index::SkipList(s) => s.put(key, pos),
        }
    }

    /// The position of `key`, if the index holds it.
    pub fn get(&self, key: &Vec<u8>) -> (r: Option<LogRecordPos>)
        requires
            self.wf(),
        ensures
            r == if self.as_map().contains_key(key@) {
                Some(self.as_map()[key@])
            } else {
                None::<LogRecordPos>
            },
    {
        match self {
            Index::BTree(t) => t.get(key),
            Index::SkipList(s) => s.get(key),
        }
    }

    /// Removes `key`, returning the position it held, if any.
    pub fn delete(&mut self, key: &Vec<u8>) -> (r: Option<LogRecordPos>)
        requires
            old(self).wf(),
        ensures
            final(self).wf(),
            final(self).as_map() == old(self).as_map().remove(key@),
            r == if old(self).as_map().contains_key(key@) {
                Some(old(self).as_map()[key@])
            } else {
                None::<LogRecordPos>
            },
    {
        match self {
            Index::BTree(t) => t.delete(key),
            Index::SkipList(s) => s.delete(key),
        }
    }

    /// All keys of the index, in ascending order.
    pub fn list_keys(&self) -> (r: Result<Vec<Vec<u8>>, Errors>)
        requires
            self.wf(),
        ensures
            r matches Ok(keys) ==> {
                &&& keys@.len() == self.as_map().dom().len()
                &&& forall|i: int| 0 <= i < keys@.len()
                    ==> self.as_map().contains_key(#[trigger] keys@[i]@)
                &&& forall|i: int, j: int| 0 <= i < j < keys@.len()
                    ==> lex_lt(keys@[i]@, keys@[j]@)
                &&& forall|k: Seq<u8>| self.as_map().contains_key(k)
                    ==> exists|i: int| 0 <= i < keys@.len() && #[trigger] keys@[i]@ == k
            },
            r is Ok,
    {
        match self {
            Index::BTree(t) => t.list_keys(),
            Index::SkipList(s) => s.list_keys(),
        }
    }

    /// A snapshot cursor over the index, per the options.
    pub fn iterator(&self, options: IteratorOptions) -> (r: btree_iterator::BTreeIterator)
        requires
            self.wf(),
        ensures
            r.wf(),
            r.spec_curr() == 0,
            r.spec_prefix() == options.prefix@,
            r.spec_reverse() == options.reverse,
            r.key_set() == self.as_map().dom(),
            r.spec_items().len() == self.as_map().dom().len(),
            forall|i: int| 0 <= i < r.spec_items().len()
                ==> self.as_map().contains_key(#[trigger] r.spec_items()[i].0)
                    && self.as_map()[r.spec_items()[i].0] == r.spec_items()[i].1,
    {
        match self {
            Index::BTree(t) => t.iterator(options),
            Index::SkipList(s) => s.iterator(options),
        }
    }
}

} // verus!
