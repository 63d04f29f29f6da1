use vstd::prelude::*;
use crate::log_record::{LogRecordPos, copy_range};
use crate::options::IteratorOptions;
use crate::index::{lex_lt, is_prefix, lemma_lex_trichotomy, lemma_lex_transitive, compare_bytes, ByteOrd, starts_with_bytes};
use crate::index::btree::{entries_contain, entries_sorted, view_entries};

verus! {

/// Entries in strictly descending key order.
pub open spec fn entries_sorted_desc(s: Seq<(Seq<u8>, LogRecordPos)>) -> bool {
    forall|i: int, j: int| 0 <= i < j < s.len()
        ==> lex_lt(#[trigger] s[j].0, #[trigger] s[i].0)
}

/// A snapshot cursor over the index: the entries that were visible when it
/// was built, a position, and the prefix and direction options. Both index
/// implementations hand out this cursor.
pub struct BTreeIterator {
    items: Vec<(Vec<u8>, LogRecordPos)>,
    curr_index: usize,
    options: IteratorOptions,
}

impl BTreeIterator {
    /// The entries of the snapshot, in walk order.
    pub closed spec fn spec_items(&self) -> Seq<(Seq<u8>, LogRecordPos)> {
        view_entries(self.items@)
    }

    /// The cursor position.
    pub closed spec fn spec_curr(&self) -> int {
        self.curr_index as int
    }

    /// The prefix filter.
    pub closed spec fn spec_prefix(&self) -> Seq<u8> {
        self.options.prefix@
    }

    /// The walk direction.
    pub closed spec fn spec_reverse(&self) -> bool {
        self.options.reverse
    }

    /// The set of keys the snapshot holds.
    pub open spec fn key_set(&self) -> Set<Seq<u8>> {
        Set::new(|k: Seq<u8>| entries_contain(self.spec_items(), k))
    }

    /// The entries are in walk order and the cursor is inside them.
    pub open spec fn wf(&self) -> bool {
        &&& 0 <= self.spec_curr() <= self.spec_items().len()
        &&& if self.spec_reverse() {
            entries_sorted_desc(self.spec_items())
        } else {
            entries_sorted(self.spec_items())
        }
    }

    /// Builds a cursor from entries in ascending key order, reversing them
    /// when the options ask for a descending walk.
    pub fn from_sorted_items(items: Vec<(Vec<u8>, LogRecordPos)>, options: IteratorOptions)
        -> (r: BTreeIterator)
        requires
            entries_sorted(view_entries(items@)),
        ensures
            r.wf(),
            r.spec_curr() == 0,
            r.spec_prefix() == options.prefix@,
            r.spec_reverse() == options.reverse,
            r.spec_items().len() == items@.len(),
            forall|i: int| 0 <= i < items@.len()
                ==> #[trigger] r.spec_items()[i] == view_entries(items@)[
                    if options.reverse { items@.len() - 1 - i } else { i }],
    {
        let ghost orig = view_entries(items@);
        if options.reverse {
            let mut rev: Vec<(Vec<u8>, LogRecordPos)> = Vec::new();
            let mut i: usize = items.len();
            while i > 0
                invariant
                    i <= items@.len(),
                    rev@.len() == items@.len() - i,
                    forall|j: int| 0 <= j < rev@.len()
                        ==> #[trigger] view_entries(rev@)[j] == orig[items@.len() - 1 - j],
                    view_entries(items@) == orig,
                decreases i,
            {
                i = i - 1;
                let k = copy_range(&items[i].0, 0, items[i].0.len());
                let p = items[i].1;
                proof {
                    assert(k@ =~= orig[i as int].0);
                }
                let ghost prev = rev@;
                rev.push((k, p));
                proof {
                    assert forall|j: int| 0 <= j < rev@.len()
                        implies #[trigger] view_entries(rev@)[j]
                            == orig[items@.len() - 1 - j] by {
                        if j < prev.len() {
                            assert(rev@[j] == prev[j]);
                            assert(view_entries(prev)[j] == orig[items@.len() - 1 - j]);
                        } else {
                            assert(rev@[j] == (k, p));
                            assert(view_entries(rev@)[j] =~= orig[i as int]);
                        }
                    }
                }
            }
            let r = BTreeIterator { items: rev, curr_index: 0, options };
            proof {
                assert(entries_sorted_desc(r.spec_items())) by {
                    assert forall|a: int, b: int| 0 <= a < b < r.spec_items().len()
                        implies lex_lt(#[trigger] r.spec_items()[b].0, #[trigger] r.spec_items()[a].0) by {
                        assert(r.spec_items()[a] == orig[orig.len() - 1 - a]);
                        assert(r.spec_items()[b] == orig[orig.len() - 1 - b]);
                    }
                }
            }
            r
        } else {
            BTreeIterator { items, curr_index: 0, options }
        }
    }

    /// Moves the cursor back to the first entry.
    pub fn rewind(&mut self)
        ensures
            final(self).spec_items() == old(self).spec_items(),
            final(self).spec_prefix() == old(self).spec_prefix(),
            final(self).spec_reverse() == old(self).spec_reverse(),
            final(self).spec_curr() == 0,
            old(self).wf() ==> final(self).wf(),
    {
        self.curr_index = 0;
    }

    /// Positions the cursor at the first entry at or past `key` in walk
    /// order: ascending walks stop at the first key not below `key`,
    /// descending walks at the first key not above it.
    pub fn seek(&mut self, key: Vec<u8>)
        requires
            old(self).wf(),
        ensures
            final(self).wf(),
            final(self).spec_items() == old(self).spec_items(),
            final(self).spec_prefix() == old(self).spec_prefix(),
            final(self).spec_reverse() == old(self).spec_reverse(),
            forall|j: int| 0 <= j < final(self).spec_curr()
                ==> if old(self).spec_reverse() {
                    lex_lt(key@, #[trigger] final(self).spec_items()[j].0)
                } else {
                    lex_lt(#[trigger] final(self).spec_items()[j].0, key@)
                },
            forall|j: int| final(self).spec_curr() <= j < final(self).spec_items().len()
                ==> if old(self).spec_reverse() {
                    !lex_lt(key@, #[trigger] final(self).spec_items()[j].0)
                } else {
                    !lex_lt(#[trigger] final(self).spec_items()[j].0, key@)
                },
    {
        let reverse = self.options.reverse;
        let mut lo: usize = 0;
        let mut hi: usize = self.items.len();
        while lo < hi
            invariant
                lo <= hi <= self.items@.len(),
                self.spec_items().len() == self.items@.len(),
                self.wf(),
                self.spec_reverse() == reverse,
                forall|j: int| 0 <= j < lo
                    ==> if reverse {
                        lex_lt(key@, #[trigger] self.spec_items()[j].0)
                    } else {
                        lex_lt(#[trigger] self.spec_items()[j].0, key@)
                    },
                forall|j: int| hi <= j < self.spec_items().len()
                    ==> if reverse {
                        !lex_lt(key@, #[trigger] self.spec_items()[j].0)
                    } else {
                        !lex_lt(#[trigger] self.spec_items()[j].0, key@)
                    },
            decreases hi - lo,
        {
            let mid = lo + (hi - lo) / 2;
            let cmp = compare_bytes(&self.items[mid].0, &key);
            let before = if reverse { cmp == ByteOrd::Greater } else { cmp == ByteOrd::Less };
            if before {
                proof {
                    assert forall|j: int| 0 <= j < mid + 1
                        implies if reverse {
                            lex_lt(key@, #[trigger] self.spec_items()[j].0)
                        } else {
                            lex_lt(#[trigger] self.spec_items()[j].0, key@)
                        } by {
                        if j < mid {
                            if reverse {
                                lemma_lex_transitive(
                                    key@,
                                    self.spec_items()[mid as int].0,
                                    self.spec_items()[j].0,
                                );
                            } else {
                                lemma_lex_transitive(
                                    self.spec_items()[j].0,
                                    self.spec_items()[mid as int].0,
                                    key@,
                                );
                            }
                        }
                    }
                }
                lo = mid + 1;
            } else {
                proof {
                    assert forall|j: int| mid <= j < self.spec_items().len()
                        implies if reverse {
                            !lex_lt(key@, #[trigger] self.spec_items()[j].0)
                        } else {
                            !lex_lt(#[trigger] self.spec_items()[j].0, key@)
                        } by {
                        lemma_lex_trichotomy(self.spec_items()[mid as int].0, key@);
                        if j > mid {
                            lemma_lex_trichotomy(self.spec_items()[j].0, key@);
                            if reverse {
                                if lex_lt(key@, self.spec_items()[j].0) {
                                    lemma_lex_transitive(
                                        key@,
                                        self.spec_items()[j].0,
                                        self.spec_items()[mid as int].0,
                                    );
                                }
                            } else {
                                if lex_lt(self.spec_items()[j].0, key@) {
                                    lemma_lex_transitive(
                                        self.spec_items()[mid as int].0,
                                        self.spec_items()[j].0,
                                        key@,
                                    );
                                }
                            }
                        }
                    }
                }
                hi = mid;
            }
        }
        self.curr_index = lo;
    }

    /// Yields the next entry whose key starts with the prefix, or nothing
    /// once the entries are exhausted. With an empty prefix every entry is
    /// yielded exactly once, in walk order.
    pub fn next(&mut self) -> (r: Option<(Vec<u8>, LogRecordPos)>)
        requires
            old(self).wf(),
        ensures
            final(self).wf(),
            final(self).spec_items() == old(self).spec_items(),
            final(self).spec_prefix() == old(self).spec_prefix(),
            final(self).spec_reverse() == old(self).spec_reverse(),
            match r {
                Some((k, p)) => {
                    let j = final(self).spec_curr() - 1;
                    &&& old(self).spec_curr() <= j < old(self).spec_items().len()
                    &&& (k@, p) == old(self).spec_items()[j]
                    &&& is_prefix(old(self).spec_prefix(), k@)
                    &&& forall|m: int| old(self).spec_curr() <= m < j
                        ==> !is_prefix(old(self).spec_prefix(),
                            #[trigger] old(self).spec_items()[m].0)
                },
                None => {
                    &&& final(self).spec_curr() == old(self).spec_items().len()
                    &&& forall|m: int| old(self).spec_curr() <= m < old(self).spec_items().len()
                        ==> !is_prefix(old(self).spec_prefix(),
                            #[trigger] old(self).spec_items()[m].0)
                },
            },
    {
        let ghost start = self.curr_index as int;
        let n = self.items.len();
        while self.curr_index < n
            invariant
                start == old(self).spec_curr(),
                start <= self.curr_index as int <= n == self.items@.len(),
                self.wf(),
                self.spec_items() == old(self).spec_items(),
                self.spec_prefix() == old(self).spec_prefix(),
                self.spec_reverse() == old(self).spec_reverse(),
                forall|m: int| start <= m < self.curr_index as int
                    ==> !is_prefix(old(self).spec_prefix(), #[trigger] self.spec_items()[m].0),
            decreases n - self.curr_index,
        {
            let i = self.curr_index;
            self.curr_index = i + 1;
            let matches_prefix = if self.options.prefix.len() == 0 {
                proof {
                    assert(self.spec_items()[i as int].0.subrange(0, 0)
                        =~= Seq::<u8>::empty());
                    assert(self.spec_prefix() =~= Seq::<u8>::empty());
                }
                true
            } else {
                starts_with_bytes(&self.items[i].0, &self.options.prefix)
            };
            if matches_prefix {
                let k = copy_range(&self.items[i].0, 0, self.items[i].0.len());
                let p = self.items[i].1;
                proof {
                    assert(k@ =~= self.spec_items()[i as int].0);
                    assert((k@, p) == old(self).spec_items()[i as int]);
                }
                return Some((k, p));
            }
        }
        None
    }
}

} // verus!
