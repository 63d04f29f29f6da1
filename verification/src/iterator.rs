use vstd::prelude::*;
use crate::errors::Errors;
use crate::fio::IOManager;
use crate::db::Engine;
use crate::index::btree_iterator::BTreeIterator;
use crate::index::is_prefix;
use crate::options::IteratorOptions;
use crate::log_record::LogRecordPos;

verus! {

/// A snapshot cursor over the store's live keys: it walks the keys that
/// were live when it was built and reads each value from the log as it is
/// yielded.
pub struct DbIterator<'a, IO: IOManager> {
    index_iter: BTreeIterator,
    engine: &'a Engine<IO>,
}

impl<'a, IO: IOManager> DbIterator<'a, IO> {
    /// The entries of the snapshot, in walk order.
    pub closed spec fn spec_items(&self) -> Seq<(Seq<u8>, LogRecordPos)> {
        self.index_iter.spec_items()
    }

    /// The cursor position.
    pub closed spec fn spec_curr(&self) -> int {
        self.index_iter.spec_curr()
    }

    /// The prefix filter.
    pub closed spec fn spec_prefix(&self) -> Seq<u8> {
        self.index_iter.spec_prefix()
    }

    /// The engine this cursor reads from.
    pub closed spec fn spec_engine(&self) -> Engine<IO> {
        *self.engine
    }

    /// The cursor is over a well-formed engine and every snapshot entry is
    /// a live key with its current position.
    pub closed spec fn wf(&self) -> bool {
        &&& self.index_iter.wf()
        &&& self.engine.wf()
        &&& forall|i: int| 0 <= i < self.index_iter.spec_items().len() ==> {
            &&& self.engine.view().contains_key(
                (#[trigger] self.index_iter.spec_items()[i]).0)
            &&& self.engine.index.as_map().contains_key(self.index_iter.spec_items()[i].0)
            &&& self.engine.index.as_map()[self.index_iter.spec_items()[i].0]
                == self.index_iter.spec_items()[i].1
        }
    }

    /// Moves the cursor back to the first key.
    pub fn rewind(&mut self)
        requires
            old(self).wf(),
        ensures
            final(self).wf(),
            final(self).spec_items() == old(self).spec_items(),
            final(self).spec_curr() == 0,
            final(self).spec_engine() == old(self).spec_engine(),
    {
        self.index_iter.rewind();
    }

    /// Positions the cursor at the first key at or past `key` in walk order.
    pub fn seek(&mut self, key: Vec<u8>)
        requires
            old(self).wf(),
        ensures
            final(self).wf(),
            final(self).spec_items() == old(self).spec_items(),
            final(self).spec_engine() == old(self).spec_engine(),
    {
        self.index_iter.seek(key);
    }

    /// Yields the next live key whose bytes start with the prefix, with the
    /// value the store holds for it; nothing once the keys are exhausted.
    pub fn next(&mut self) -> (r: Option<(Vec<u8>, Vec<u8>)>)
        requires
            old(self).wf(),
        ensures
            final(self).wf(),
            final(self).spec_items() == old(self).spec_items(),
            final(self).spec_engine() == old(self).spec_engine(),
            r matches Some((k, v)) ==> {
                &&& old(self).spec_curr() < final(self).spec_curr()
                    <= old(self).spec_items().len()
                &&& old(self).spec_items()[final(self).spec_curr() - 1].0 == k@
                &&& is_prefix(old(self).spec_prefix(), k@)
                &&& old(self).spec_engine().view().contains_key(k@)
                &&& v@ == old(self).spec_engine().view()[k@]
            },
            r is None ==> {
                ||| {
                    &&& final(self).spec_curr() == old(self).spec_items().len()
                    &&& forall|m: int| old(self).spec_curr() <= m
                        < old(self).spec_items().len()
                        ==> !is_prefix(old(self).spec_prefix(),
                            (#[trigger] old(self).spec_items()[m]).0)
                }
                ||| {
                    // The entry's value could not be read from storage; the
                    // cursor stands just past the entry it failed on.
                    &&& old(self).spec_curr() < final(self).spec_curr()
                        <= old(self).spec_items().len()
                    &&& is_prefix(old(self).spec_prefix(),
                        old(self).spec_items()[final(self).spec_curr() - 1].0)
                }
            },
    {
        let item = self.index_iter.next();
        match item {
            None => None,
            Some((k, pos)) => {
                let ghost kk = k@;
                proof {
                    let j = self.index_iter.spec_curr() - 1;
                    assert((kk, pos) == old(self).index_iter.spec_items()[j]);
                    assert(0 <= j < old(self).index_iter.spec_items().len());
                    assert(old(self).engine.view().contains_key(
                        (old(self).index_iter.spec_items()[j]).0));
                    assert(old(self).engine.index.as_map().contains_key(
                        (old(self).index_iter.spec_items()[j]).0));
                    assert(old(self).index_iter.spec_items()[j].0 == kk);
                    assert(self.engine == old(self).engine);
                }
                let value = match self.engine.get_value_by_position(&pos, Ghost(kk)) {
                    Ok(v) => v,
                    Err(_) => { return None; },
                };
                Some((k, value))
            },
        }
    }
}

impl<IO: IOManager> Engine<IO> {
    /// A snapshot cursor over the live keys, per the options.
    pub fn iter(&self, options: IteratorOptions) -> (r: DbIterator<'_, IO>)
        requires
            self.wf(),
        ensures
            r.wf(),
            r.spec_curr() == 0,
            r.spec_prefix() == options.prefix@,
            r.spec_engine() == *self,
            r.spec_items().len() == self.view().dom().len(),
    {
        let it = self.index_iterator(options);
        DbIterator { index_iter: it, engine: self }
    }

    /// All live keys, in ascending order.
    pub fn list_keys(&self) -> (r: Result<Vec<Vec<u8>>, Errors>)
        requires
            self.wf(),
        ensures
            r matches Ok(keys) ==> {
                &&& keys@.len() == self.view().dom().len()
                &&& forall|i: int| 0 <= i < keys@.len()
                    ==> self.view().contains_key(#[trigger] keys@[i]@)
                &&& forall|i: int, j: int| 0 <= i < j < keys@.len()
                    ==> crate::index::lex_lt(keys@[i]@, keys@[j]@)
                &&& forall|k: Seq<u8>| self.view().contains_key(k)
                    ==> exists|i: int| 0 <= i < keys@.len() && #[trigger] keys@[i]@ == k
            },
            r is Ok,
    {
        self.index_list_keys()
    }

    /// Walks every live key in ascending order, handing each pair to `f`,
    /// and stops early when `f` returns false.
    pub fn fold<F: Fn(Vec<u8>, Vec<u8>) -> bool>(&self, f: F) -> (r: Result<(), Errors>)
        requires
            self.wf(),
            forall|k: Vec<u8>, v: Vec<u8>| #[trigger] f.requires((k, v)),
        ensures
            r is Ok,
    {
        let mut it = self.iter(IteratorOptions { prefix: Vec::new(), reverse: false });
        loop
            invariant
                it.wf(),
                forall|k: Vec<u8>, v: Vec<u8>| #[trigger] f.requires((k, v)),
            decreases it.spec_items().len() - it.spec_curr(),
        {
            match it.next() {
                None => { return Ok(()); },
                Some((k, v)) => {
                    if !f(k, v) {
                        return Ok(());
                    }
                },
            }
        }
    }
}

} // verus!
