//! Laws of the store model that the tree's contracts refer to.
use vstd::prelude::*;
use crate::codec::Pair;
use crate::tree::{lookup_in, put_model, replay};

verus! {

/// The store `m` after appending each of `vs` under `k`, in order.
pub open spec fn put_all(m: Map<Seq<u8>, Seq<Seq<u8>>>, k: Seq<u8>, vs: Seq<Seq<u8>>) -> Map<
    Seq<u8>,
    Seq<Seq<u8>>,
>
    decreases vs.len(),
{
    if vs.len() == 0 {
        m
    } else {
        put_model(put_all(m, k, vs.drop_last()), k, vs.last())
    }
}

/// Values appended one after another under a key come back after the values
/// it held before, in the order they were appended; under a key that held
/// none, exactly those values come back.
pub proof fn lemma_round_trip(m: Map<Seq<u8>, Seq<Seq<u8>>>, k: Seq<u8>, vs: Seq<Seq<u8>>)
    ensures
        lookup_in(put_all(m, k, vs), k) == lookup_in(m, k) + vs,
        !m.contains_key(k) ==> lookup_in(put_all(m, k, vs), k) == vs,
    decreases vs.len(),
{
    if vs.len() == 0 {
        assert(lookup_in(m, k) + vs =~= lookup_in(m, k));
    } else {
        lemma_round_trip(m, k, vs.drop_last());
        assert(lookup_in(m, k) + vs =~= (lookup_in(m, k) + vs.drop_last()).push(vs.last()));
    }
    if !m.contains_key(k) {
        assert(lookup_in(m, k) + vs =~= vs);
    }
}

/// Appending under one key leaves the values of every other key as they were.
pub proof fn lemma_isolation(
    m: Map<Seq<u8>, Seq<Seq<u8>>>,
    k1: Seq<u8>,
    k2: Seq<u8>,
    v: Seq<u8>,
)
    requires
        k1 != k2,
    ensures
        lookup_in(put_model(m, k2, v), k1) == lookup_in(m, k1),
{
}

/// A key that was never stored has no values: looking it up yields the empty
/// sequence.
pub proof fn lemma_absent(m: Map<Seq<u8>, Seq<Seq<u8>>>, k: Seq<u8>)
    requires
        !m.contains_key(k),
    ensures
        lookup_in(m, k) == Seq::<Seq<u8>>::empty(),
{
}

/// The values that the records of `ps` carry under `k`, in order.
pub open spec fn values_under(ps: Seq<Pair>, k: Seq<u8>) -> Seq<Seq<u8>>
    decreases ps.len(),
{
    if ps.len() == 0 {
        Seq::empty()
    } else if ps.last().0 == k {
        values_under(ps.drop_last(), k).push(ps.last().1)
    } else {
        values_under(ps.drop_last(), k)
    }
}

/// Appending the records of `ps` one after another, under any keys and in
/// any interleaving, leaves under each key the values it held before followed
/// by the values that `ps` carries under that key, in the order appended. As
/// the store is the same however the tree is split, this holds for any
/// number of keys: every key keeps its whole list of values.
pub proof fn lemma_replay_lookup(m: Map<Seq<u8>, Seq<Seq<u8>>>, ps: Seq<Pair>, k: Seq<u8>)
    ensures
        lookup_in(replay(m, ps), k) == lookup_in(m, k) + values_under(ps, k),
    decreases ps.len(),
{
    if ps.len() == 0 {
        assert(lookup_in(m, k) + values_under(ps, k) =~= lookup_in(m, k));
    } else {
        lemma_replay_lookup(m, ps.drop_last(), k);
        let before = replay(m, ps.drop_last());
        if ps.last().0 == k {
            assert(lookup_in(m, k) + values_under(ps, k) =~= (lookup_in(m, k) + values_under(
                ps.drop_last(),
                k,
            )).push(ps.last().1));
        } else {
            lemma_isolation(before, k, ps.last().0, ps.last().1);
        }
    }
}

} // verus!
