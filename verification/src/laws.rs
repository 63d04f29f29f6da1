use vstd::prelude::*;
use crate::index::is_prefix;

verus! {

/// After a put of `v` under `k` returns, a get of `k` yields `v`, and no
/// other key's value has moved: `Engine::put` ensures the store's view
/// becomes `m.insert(k, v)`, and `Engine::get` returns exactly the view's
/// value for the key it is given.
pub proof fn lemma_read_your_write(m: Map<Seq<u8>, Seq<u8>>, k: Seq<u8>, v: Seq<u8>)
    ensures
        m.insert(k, v).contains_key(k),
        m.insert(k, v)[k] == v,
        forall|k2: Seq<u8>| k2 != k && m.contains_key(k2)
            ==> m.insert(k, v).contains_key(k2) && m.insert(k, v)[k2] == m[k2],
        forall|k2: Seq<u8>| k2 != k && !m.contains_key(k2)
            ==> !m.insert(k, v).contains_key(k2),
{
}

/// After a delete of `k` returns, a get of `k` finds nothing until a later
/// put: `Engine::delete` ensures the store's view becomes `m.remove(k)`,
/// and `Engine::get` reports `KeyNotFound` for every key outside the view.
pub proof fn lemma_tombstone(m: Map<Seq<u8>, Seq<u8>>, k: Seq<u8>)
    ensures
        !m.remove(k).contains_key(k),
        forall|k2: Seq<u8>| k2 != k && m.contains_key(k2)
            ==> m.remove(k).contains_key(k2) && m.remove(k)[k2] == m[k2],
{
}

/// An empty prefix filters nothing: every key starts with it. With it,
/// a cursor built with no prefix yields every snapshot entry exactly once,
/// so counting its yields gives the same number as the key listing.
pub proof fn lemma_empty_prefix_matches(k: Seq<u8>)
    ensures
        is_prefix(Seq::<u8>::empty(), k),
{
    assert(k.subrange(0, 0) =~= Seq::<u8>::empty());
}

} // verus!
