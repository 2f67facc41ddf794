//! The B+-tree index, of height two: a root of separators over a sequence
//! of leaves, ordered by key, each holding at most `lmemb` records. Every
//! record is a key with all the values stored under it, oldest first. The
//! first key of each leaf is its separator: a descent binary-searches the
//! separators for the last one not after the key, and a leaf that overflows
//! splits at its median, adding the new leaf's first key as a separator.
//!
//! The root is the only internal node and has no member cap (`nmemb`): with
//! leaves at least half full after a split, it holds at most one separator
//! per `lmemb / 2` keys, and a descent costs one binary search over it and
//! one scan of a leaf. Internal nodes that split in turn, and a root that
//! grows a level, are not built.
use vstd::prelude::*;
use vstd::slice::slice_to_vec;
use crate::codec::{pairs_view, Pair};
use crate::laws::put_all;
use crate::order::{compare_keys, lemma_lex_irreflexive, lemma_lex_total, lemma_lex_transitive, lex_lt, KeyOrder};

verus! {

/// What a key maps to: its values, oldest first.
pub type Entry = (Seq<u8>, Seq<Seq<u8>>);

/// Leaf capacity used when none is configured.
pub const DEFAULT_LMEMB: usize = 128;

/// Smallest leaf capacity: a leaf that overflows must split into two
/// non-empty halves.
pub const MIN_LMEMB: usize = 2;

/// The leaf capacity that a requested `lmemb` yields: zero or less selects
/// the default, and small values are raised to the minimum.
pub open spec fn effective_lmemb(lmemb: i32) -> nat {
    if lmemb <= 0 {
        DEFAULT_LMEMB as nat
    } else if lmemb < MIN_LMEMB {
        MIN_LMEMB as nat
    } else {
        lmemb as nat
    }
}

/// The values stored under `k` in the store `m`; empty when `k` is absent.
pub open spec fn lookup_in(m: Map<Seq<u8>, Seq<Seq<u8>>>, k: Seq<u8>) -> Seq<Seq<u8>> {
    if m.contains_key(k) {
        m[k]
    } else {
        Seq::empty()
    }
}

/// The store `m` after appending `v` under `k`.
pub open spec fn put_model(m: Map<Seq<u8>, Seq<Seq<u8>>>, k: Seq<u8>, v: Seq<u8>) -> Map<
    Seq<u8>,
    Seq<Seq<u8>>,
> {
    m.insert(k, lookup_in(m, k).push(v))
}

/// A byte-string list as a sequence of sequences.
pub open spec fn bytes_list_view(v: Seq<Vec<u8>>) -> Seq<Seq<u8>> {
    v.map_values(|x: Vec<u8>| x@)
}

/// A key together with every value stored under it, oldest first.
pub struct Rec {
    pub key: Vec<u8>,
    pub vals: Vec<Vec<u8>>,
}

impl Rec {
    pub open spec fn entry(&self) -> Entry {
        (self.key@, bytes_list_view(self.vals@))
    }
}

pub open spec fn leaf_view(l: Seq<Rec>) -> Seq<Entry> {
    l.map_values(|r: Rec| r.entry())
}

/// Keys strictly increase along `es`.
pub open spec fn keys_sorted(es: Seq<Entry>) -> bool {
    forall|a: int, b: int| 0 <= a < b < es.len() ==> lex_lt(#[trigger] es[a].0, #[trigger] es[b].0)
}

/// Every key in `es` holds at least one value.
pub open spec fn vals_nonempty(es: Seq<Entry>) -> bool {
    forall|a: int| 0 <= a < es.len() ==> (#[trigger] es[a]).1.len() > 0
}

pub open spec fn has_key(es: Seq<Entry>, k: Seq<u8>) -> bool {
    exists|i: int| 0 <= i < es.len() && #[trigger] es[i].0 == k
}

/// A position of `es` that holds `k`, where there is one.
pub open spec fn key_index(es: Seq<Entry>, k: Seq<u8>) -> int {
    choose|i: int| 0 <= i < es.len() && #[trigger] es[i].0 == k
}

pub open spec fn values_of(es: Seq<Entry>, k: Seq<u8>) -> Seq<Seq<u8>> {
    if has_key(es, k) {
        es[key_index(es, k)].1
    } else {
        Seq::empty()
    }
}

/// The store that a sequence of entries describes.
pub open spec fn entries_map(es: Seq<Entry>) -> Map<Seq<u8>, Seq<Seq<u8>>> {
    Map::new(|k: Seq<u8>| has_key(es, k), |k: Seq<u8>| values_of(es, k))
}

/// Number of entries held by the first `i` leaves.
pub open spec fn prefix_len(ls: Seq<Seq<Entry>>, i: int) -> nat {
    ls.take(i).flatten().len()
}

proof fn lemma_flatten_split(ls: Seq<Seq<Entry>>, i: int)
    requires
        0 <= i < ls.len(),
    ensures
        ls.flatten() =~= ls.take(i).flatten() + ls[i] + ls.skip(i + 1).flatten(),
{
    assert(ls =~= ls.take(i) + ls.skip(i));
    vstd::seq_lib::lemma_flatten_concat(ls.take(i), ls.skip(i));
    assert(ls.skip(i).drop_first() =~= ls.skip(i + 1));
    assert(ls.skip(i).flatten() == ls[i] + ls.skip(i + 1).flatten());
}

proof fn lemma_flatten_pair(a: Seq<Entry>, b: Seq<Entry>)
    ensures
        seq![a, b].flatten() =~= a + b,
{
    let s = seq![a, b];
    assert(s.drop_first() =~= seq![b]);
    assert(s.drop_first().drop_first() =~= Seq::<Seq<Entry>>::empty());
    assert(seq![b].flatten() =~= b + Seq::<Seq<Entry>>::empty().flatten());
}

/// Where the entry at `i` holds `k`, the values of `k` are those of that entry.
proof fn lemma_values_at(es: Seq<Entry>, i: int)
    requires
        keys_sorted(es),
        0 <= i < es.len(),
    ensures
        has_key(es, es[i].0),
        values_of(es, es[i].0) == es[i].1,
{
    let k = es[i].0;
    assert(has_key(es, k));
    let c = key_index(es, k);
    if c != i {
        lemma_lex_irreflexive(k);
        if c < i {
            assert(lex_lt(es[c].0, es[i].0));
        } else {
            assert(lex_lt(es[i].0, es[c].0));
        }
    }
}

proof fn lemma_sorted_insert(es: Seq<Entry>, p: int, e: Entry)
    requires
        keys_sorted(es),
        0 <= p <= es.len(),
        forall|a: int| 0 <= a < p ==> lex_lt(#[trigger] es[a].0, e.0),
        forall|a: int| p <= a < es.len() ==> lex_lt(e.0, #[trigger] es[a].0),
    ensures
        keys_sorted(es.insert(p, e)),
{
    let es2 = es.insert(p, e);
    assert forall|a: int, b: int| 0 <= a < b < es2.len() implies lex_lt(
        #[trigger] es2[a].0,
        #[trigger] es2[b].0,
    ) by {
        if b < p {
            assert(es2[a] == es[a] && es2[b] == es[b]);
        } else if b == p {
            assert(es2[a] == es[a]);
        } else if a < p {
            assert(es2[a] == es[a] && es2[b] == es[b - 1]);
        } else if a == p {
            assert(es2[b] == es[b - 1]);
        } else {
            assert(es2[a] == es[a - 1] && es2[b] == es[b - 1]);
        }
    }
}

/// The store described by `es` after the entry at `p`, which holds `k`, gets
/// `v` appended.
proof fn lemma_map_append(es: Seq<Entry>, p: int, v: Seq<u8>)
    requires
        keys_sorted(es),
        0 <= p < es.len(),
    ensures
        keys_sorted(es.update(p, (es[p].0, es[p].1.push(v)))),
        vals_nonempty(es) ==> vals_nonempty(es.update(p, (es[p].0, es[p].1.push(v)))),
        entries_map(es.update(p, (es[p].0, es[p].1.push(v)))) =~= put_model(
            entries_map(es),
            es[p].0,
            v,
        ),
{
    let k = es[p].0;
    let es2 = es.update(p, (k, es[p].1.push(v)));
    assert forall|a: int, b: int| 0 <= a < b < es2.len() implies lex_lt(
        #[trigger] es2[a].0,
        #[trigger] es2[b].0,
    ) by {
        assert(es2[a].0 == es[a].0 && es2[b].0 == es[b].0);
    }
    lemma_values_at(es, p);
    lemma_values_at(es2, p);
    assert forall|q: Seq<u8>| has_key(es2, q) == (has_key(es, q)) by {
        if has_key(es, q) {
            let i = choose|i: int| 0 <= i < es.len() && #[trigger] es[i].0 == q;
            assert(es2[i].0 == q);
        }
        if has_key(es2, q) {
            let i = choose|i: int| 0 <= i < es2.len() && #[trigger] es2[i].0 == q;
            assert(es[i].0 == q);
        }
    }
    assert forall|q: Seq<u8>| q != k && has_key(es, q) implies values_of(es2, q) == values_of(
        es,
        q,
    ) by {
        let i = choose|i: int| 0 <= i < es.len() && #[trigger] es[i].0 == q;
        lemma_values_at(es, i);
        assert(es2[i].0 == q);
        lemma_values_at(es2, i);
    }
}

/// The store described by `es` after a new entry for an absent key is put at
/// its place `p`.
proof fn lemma_map_new_key(es: Seq<Entry>, p: int, k: Seq<u8>, v: Seq<u8>)
    requires
        keys_sorted(es),
        0 <= p <= es.len(),
        forall|a: int| 0 <= a < p ==> lex_lt(#[trigger] es[a].0, k),
        forall|a: int| p <= a < es.len() ==> lex_lt(k, #[trigger] es[a].0),
    ensures
        !has_key(es, k),
        keys_sorted(es.insert(p, (k, seq![v]))),
        vals_nonempty(es) ==> vals_nonempty(es.insert(p, (k, seq![v]))),
        entries_map(es.insert(p, (k, seq![v]))) =~= put_model(entries_map(es), k, v),
{
    let es2 = es.insert(p, (k, seq![v]));
    lemma_sorted_insert(es, p, (k, seq![v]));
    if vals_nonempty(es) {
        assert forall|a: int| 0 <= a < es2.len() implies (#[trigger] es2[a]).1.len() > 0 by {
            if a > p {
                assert(es2[a] == es[a - 1]);
            }
        }
    }
    if has_key(es, k) {
        let i = choose|i: int| 0 <= i < es.len() && #[trigger] es[i].0 == k;
        lemma_lex_irreflexive(k);
    }
    assert(es2[p].0 == k);
    lemma_values_at(es2, p);
    assert(seq![v] =~= Seq::<Seq<u8>>::empty().push(v));
    assert forall|q: Seq<u8>| q != k implies has_key(es2, q) == has_key(es, q) by {
        if has_key(es, q) {
            let i = choose|i: int| 0 <= i < es.len() && #[trigger] es[i].0 == q;
            if i < p {
                assert(es2[i].0 == q);
            } else {
                assert(es2[i + 1].0 == q);
            }
        }
        if has_key(es2, q) {
            let i = choose|i: int| 0 <= i < es2.len() && #[trigger] es2[i].0 == q;
            if i < p {
                assert(es[i].0 == q);
            } else {
                assert(es[i - 1].0 == q);
            }
        }
    }
    assert forall|q: Seq<u8>| q != k && has_key(es, q) implies values_of(es2, q) == values_of(
        es,
        q,
    ) by {
        let i = choose|i: int| 0 <= i < es.len() && #[trigger] es[i].0 == q;
        lemma_values_at(es, i);
        if i < p {
            assert(es2[i] == es[i]);
            lemma_values_at(es2, i);
        } else {
            assert(es2[i + 1] == es[i]);
            lemma_values_at(es2, i + 1);
        }
    }
}


/// Copies a list of byte strings.
pub fn copy_values(v: &Vec<Vec<u8>>) -> (r: Vec<Vec<u8>>)
    ensures
        bytes_list_view(r@) == bytes_list_view(v@),
{
    let mut r: Vec<Vec<u8>> = Vec::new();
    let mut i: usize = 0;
    while i < v.len()
        invariant
            i <= v@.len(),
            bytes_list_view(r@) =~= bytes_list_view(v@.take(i as int)),
        decreases v@.len() - i,
    {
        let ghost before = r@;
        r.push(slice_to_vec(v[i].as_slice()));
        assert(v@.take(i + 1) =~= v@.take(i as int).push(v@[i as int]));
        assert(bytes_list_view(r@) =~= bytes_list_view(before).push(v@[i as int]@));
        assert(bytes_list_view(v@.take(i + 1)) =~= bytes_list_view(v@.take(i as int)).push(
            v@[i as int]@,
        ));
        i = i + 1;
    }
    assert(v@.take(i as int) =~= v@);
    r
}

/// A record holding `val` alone under `key`.
fn new_rec(key: &[u8], val: &[u8]) -> (r: Rec)
    ensures
        r.entry() == (key@, seq![val@]),
{
    let mut vals: Vec<Vec<u8>> = Vec::new();
    vals.push(slice_to_vec(val));
    assert(bytes_list_view(vals@) =~= seq![val@]);
    Rec { key: slice_to_vec(key), vals }
}

/// Appends `val` to the record at `j` where `found`, else puts a new record
/// for `key` there.
fn add_to_leaf(leaf: &mut Vec<Rec>, j: usize, found: bool, key: &[u8], val: &[u8])
    requires
        j <= old(leaf)@.len(),
        found ==> j < old(leaf)@.len() && old(leaf)@[j as int].key@ == key@,
    ensures
        leaf_view(final(leaf)@) == if found {
            leaf_view(old(leaf)@).update(
                j as int,
                (key@, leaf_view(old(leaf)@)[j as int].1.push(val@)),
            )
        } else {
            leaf_view(old(leaf)@).insert(j as int, (key@, seq![val@]))
        },
{
    let ghost l0 = leaf_view(leaf@);
    if found {
        let mut rec = leaf.remove(j);
        let ghost vals0 = rec.vals@;
        rec.vals.push(slice_to_vec(val));
        assert(bytes_list_view(rec.vals@) =~= bytes_list_view(vals0).push(val@));
        leaf.insert(j, rec);
        assert(leaf_view(leaf@) =~= l0.update(j as int, (key@, l0[j as int].1.push(val@))));
    } else {
        leaf.insert(j, new_rec(key, val));
        assert(leaf_view(leaf@) =~= l0.insert(j as int, (key@, seq![val@])));
    }
}

/// Position of the first record of `leaf` whose key does not sort before
/// `key`.
fn find_pos(leaf: &Vec<Rec>, key: &[u8]) -> (j: usize)
    ensures
        j <= leaf@.len(),
        forall|t: int| 0 <= t < j ==> lex_lt((#[trigger] leaf@[t]).key@, key@),
        j < leaf@.len() ==> !lex_lt(leaf@[j as int].key@, key@),
{
    let mut j: usize = 0;
    while j < leaf.len()
        invariant
            j <= leaf@.len(),
            forall|t: int| 0 <= t < j ==> lex_lt((#[trigger] leaf@[t]).key@, key@),
        decreases leaf@.len() - j,
    {
        if compare_keys(leaf[j].key.as_slice(), key) != KeyOrder::Less {
            return j;
        }
        j = j + 1;
    }
    j
}

/// One record per value of `e`, oldest first.
pub open spec fn entry_pairs(e: Entry) -> Seq<Pair> {
    e.1.map_values(|v: Seq<u8>| (e.0, v))
}

/// One record per stored value: keys in order, and the values of each key
/// oldest first.
pub open spec fn pairs_of(es: Seq<Entry>) -> Seq<Pair>
    decreases es.len(),
{
    if es.len() == 0 {
        Seq::empty()
    } else {
        pairs_of(es.drop_last()) + entry_pairs(es.last())
    }
}

/// The store `m` after appending each record of `ps`, in order.
pub open spec fn replay(m: Map<Seq<u8>, Seq<Seq<u8>>>, ps: Seq<Pair>) -> Map<
    Seq<u8>,
    Seq<Seq<u8>>,
>
    decreases ps.len(),
{
    if ps.len() == 0 {
        m
    } else {
        put_model(replay(m, ps.drop_last()), ps.last().0, ps.last().1)
    }
}

proof fn lemma_replay_concat(m: Map<Seq<u8>, Seq<Seq<u8>>>, front: Seq<Pair>, back: Seq<Pair>)
    ensures
        replay(m, front + back) == replay(replay(m, front), back),
    decreases back.len(),
{
    if back.len() == 0 {
        assert(front + back =~= front);
    } else {
        assert((front + back).drop_last() =~= front + back.drop_last());
        lemma_replay_concat(m, front, back.drop_last());
    }
}

proof fn lemma_replay_entry(m: Map<Seq<u8>, Seq<Seq<u8>>>, k: Seq<u8>, vs: Seq<Seq<u8>>)
    ensures
        replay(m, entry_pairs((k, vs))) == put_all(m, k, vs),
    decreases vs.len(),
{
    if vs.len() > 0 {
        assert(entry_pairs((k, vs)).drop_last() =~= entry_pairs((k, vs.drop_last())));
        lemma_replay_entry(m, k, vs.drop_last());
    } else {
        assert(entry_pairs((k, vs)) =~= Seq::<Pair>::empty());
    }
}

proof fn lemma_put_all_insert(m: Map<Seq<u8>, Seq<Seq<u8>>>, k: Seq<u8>, vs: Seq<Seq<u8>>)
    requires
        vs.len() > 0,
    ensures
        put_all(m, k, vs) == m.insert(k, lookup_in(m, k) + vs),
    decreases vs.len(),
{
    if vs.len() == 1 {
        assert(vs.drop_last() =~= Seq::<Seq<u8>>::empty());
        assert(put_all(m, k, vs.drop_last()) == m);
        assert(lookup_in(m, k) + vs =~= lookup_in(m, k).push(vs[0]));
        assert(put_all(m, k, vs) == put_model(m, k, vs[0]));
    } else {
        lemma_put_all_insert(m, k, vs.drop_last());
        let mid = m.insert(k, lookup_in(m, k) + vs.drop_last());
        assert(put_all(m, k, vs) == put_model(mid, k, vs.last()));
        assert(lookup_in(mid, k) == lookup_in(m, k) + vs.drop_last());
        assert(lookup_in(m, k) + vs =~= (lookup_in(m, k) + vs.drop_last()).push(vs.last()));
        assert(m.insert(k, lookup_in(m, k) + vs.drop_last()).insert(k, lookup_in(m, k) + vs)
            =~= m.insert(k, lookup_in(m, k) + vs));
    }
}

proof fn lemma_entries_map_push(es: Seq<Entry>, e: Entry)
    requires
        keys_sorted(es.push(e)),
    ensures
        !has_key(es, e.0),
        entries_map(es.push(e)) =~= entries_map(es).insert(e.0, e.1),
{
    let es2 = es.push(e);
    assert forall|a: int, b: int| 0 <= a < b < es.len() implies lex_lt(
        #[trigger] es[a].0,
        #[trigger] es[b].0,
    ) by {
        assert(es2[a] == es[a] && es2[b] == es[b]);
    }
    if has_key(es, e.0) {
        let i = key_index(es, e.0);
        assert(es2[i] == es[i]);
        assert(lex_lt(es2[i].0, es2[es.len() as int].0));
        lemma_lex_irreflexive(e.0);
    }
    assert(es2[es.len() as int] == e);
    lemma_values_at(es2, es.len() as int);
    assert forall|q: Seq<u8>| q != e.0 implies has_key(es2, q) == has_key(es, q) by {
        if has_key(es, q) {
            let i = key_index(es, q);
            assert(es2[i].0 == q);
        }
        if has_key(es2, q) {
            let i = key_index(es2, q);
            assert(es[i].0 == q);
        }
    }
    assert forall|q: Seq<u8>| q != e.0 && has_key(es, q) implies values_of(es2, q) == values_of(
        es,
        q,
    ) by {
        let i = key_index(es, q);
        lemma_values_at(es, i);
        assert(es2[i] == es[i]);
        lemma_values_at(es2, i);
    }
}

proof fn lemma_entries_map_size(es: Seq<Entry>)
    requires
        keys_sorted(es),
    ensures
        entries_map(es).dom().finite(),
        entries_map(es).dom().len() == es.len(),
    decreases es.len(),
{
    if es.len() == 0 {
        assert(entries_map(es).dom() =~= Set::<Seq<u8>>::empty());
    } else {
        let init = es.drop_last();
        let e = es.last();
        assert(init.push(e) =~= es);
        assert(keys_sorted(init));
        lemma_entries_map_size(init);
        lemma_entries_map_push(init, e);
        assert(!entries_map(init).dom().contains(e.0));
        assert(entries_map(es).dom() =~= entries_map(init).dom().insert(e.0));
    }
}

/// Replaying the records of a sorted sequence of entries, each with at least
/// one value, into an empty store rebuilds the store those entries describe.
proof fn lemma_replay_pairs(es: Seq<Entry>)
    requires
        keys_sorted(es),
        vals_nonempty(es),
    ensures
        replay(Map::empty(), pairs_of(es)) == entries_map(es),
    decreases es.len(),
{
    if es.len() == 0 {
        assert(entries_map(es) =~= Map::<Seq<u8>, Seq<Seq<u8>>>::empty());
    } else {
        let init = es.drop_last();
        let e = es.last();
        assert(init.push(e) =~= es);
        assert(keys_sorted(init));
        assert(vals_nonempty(init));
        lemma_replay_pairs(init);
        lemma_replay_concat(Map::empty(), pairs_of(init), entry_pairs(e));
        lemma_replay_entry(entries_map(init), e.0, e.1);
        assert(e.1.len() > 0);
        lemma_put_all_insert(entries_map(init), e.0, e.1);
        lemma_entries_map_push(init, e);
        assert(lookup_in(entries_map(init), e.0) + e.1 =~= e.1);
    }
}

/// The database engine: a B+-tree of records whose leaves hold at most
/// `lmemb` records each.
pub struct TCBDB {
    leaves: Vec<Vec<Rec>>,
    lmemb: usize,
}

impl View for TCBDB {
    type V = Map<Seq<u8>, Seq<Seq<u8>>>;

    /// Each stored key with its values, oldest first.
    closed spec fn view(&self) -> Map<Seq<u8>, Seq<Seq<u8>>> {
        entries_map(self.entries())
    }
}

impl TCBDB {
    pub closed spec fn leaves_view(&self) -> Seq<Seq<Entry>> {
        self.leaves@.map_values(|l: Vec<Rec>| leaf_view(l@))
    }

    /// All records in key order, leaf after leaf.
    pub closed spec fn entries(&self) -> Seq<Entry> {
        self.leaves_view().flatten()
    }

    /// The most records that a leaf holds.
    pub closed spec fn leaf_cap(&self) -> nat {
        self.lmemb as nat
    }

    pub closed spec fn leaf_count(&self) -> nat {
        self.leaves@.len()
    }

    /// Number of records in leaf `i`.
    pub closed spec fn leaf_size(&self, i: int) -> nat {
        self.leaves@[i]@.len()
    }

    /// No leaf holds more than `leaf_cap()` records, and none is empty.
    pub proof fn lemma_leaves_fit(&self)
        requires
            self.wf(),
        ensures
            forall|i: int| 0 <= i < self.leaf_count() ==> 0 < #[trigger] self.leaf_size(i) <= self.leaf_cap(),
    {
        assert forall|i: int| 0 <= i < self.leaf_count() implies 0 < #[trigger] self.leaf_size(i)
            <= self.leaf_cap() by {
            assert(0 < self.leaves@[i]@.len() <= self.lmemb);
        }
    }

    /// The number of distinct keys is the size of the store's domain.
    pub proof fn lemma_key_count(&self)
        requires
            self.wf(),
        ensures
            self@.dom().finite(),
            self@.dom().len() == self.key_count(),
    {
        lemma_entries_map_size(self.entries());
    }

    /// Number of distinct keys stored.
    pub closed spec fn key_count(&self) -> nat {
        self.entries().len()
    }

    pub closed spec fn wf(&self) -> bool {
        &&& MIN_LMEMB <= self.lmemb
        &&& forall|i: int|
            0 <= i < self.leaves@.len() ==> 0 < (#[trigger] self.leaves@[i])@.len() <= self.lmemb
        &&& keys_sorted(self.entries())
        &&& vals_nonempty(self.entries())
    }

    /// An empty tree whose leaves hold at most `effective_lmemb(lmemb)`
    /// records.
    pub fn new(lmemb: i32) -> (r: Self)
        ensures
            r.wf(),
            r@ == Map::<Seq<u8>, Seq<Seq<u8>>>::empty(),
            r.leaf_cap() == effective_lmemb(lmemb),
            r.leaf_count() == 0,
            r.key_count() == 0,
    {
        let cap: usize = if lmemb <= 0 {
            DEFAULT_LMEMB
        } else if (lmemb as usize) < MIN_LMEMB {
            MIN_LMEMB
        } else {
            lmemb as usize
        };
        let r = TCBDB { leaves: Vec::new(), lmemb: cap };
        proof {
            assert(r.leaves_view() =~= Seq::empty());
            assert(r@ =~= Map::empty());
        }
        r
    }

    /// The last leaf whose first key does not sort after `key`, or the
    /// first leaf: a binary search over the separators.
    fn find_leaf(&self, key: &[u8]) -> (li: usize)
        requires
            self.wf(),
            self.leaves@.len() > 0,
        ensures
            li < self.leaves@.len(),
            li > 0 ==> !lex_lt(key@, self.leaves@[li as int]@[0].key@),
            li + 1 < self.leaves@.len() ==> lex_lt(key@, self.leaves@[li + 1]@[0].key@),
    {
        let mut lo: usize = 0;
        let mut hi: usize = self.leaves.len();
        while hi - lo > 1
            invariant
                self.wf(),
                lo < hi <= self.leaves@.len(),
                lo > 0 ==> !lex_lt(key@, self.leaves@[lo as int]@[0].key@),
                hi < self.leaves@.len() ==> lex_lt(key@, self.leaves@[hi as int]@[0].key@),
            decreases hi - lo,
        {
            let mid = lo + (hi - lo) / 2;
            assert(self.leaves@[mid as int]@.len() > 0);
            if compare_keys(key, self.leaves[mid][0].key.as_slice()) == KeyOrder::Less {
                hi = mid;
            } else {
                lo = mid;
            }
        }
        lo
    }

    /// Where a search for `k` lands: every entry before the landing point
    /// sorts before `k`, and, unless the landing point holds `k`, every entry
    /// from it on sorts after `k`.
    proof fn lemma_position(&self, k: Seq<u8>, li: int, j: int)
        requires
            self.wf(),
            0 <= li < self.leaves@.len(),
            li > 0 ==> !lex_lt(k, self.leaves@[li]@[0].key@),
            li + 1 < self.leaves@.len() ==> lex_lt(k, self.leaves@[li + 1]@[0].key@),
            0 <= j <= self.leaves@[li]@.len(),
            forall|t: int| 0 <= t < j ==> lex_lt((#[trigger] self.leaves@[li]@[t]).key@, k),
            j < self.leaves@[li]@.len() ==> !lex_lt(self.leaves@[li]@[j].key@, k),
        ensures
            self.entries() =~= self.leaves_view().take(li).flatten() + self.leaves_view()[li]
                + self.leaves_view().skip(li + 1).flatten(),
            self.leaves_view()[li] == leaf_view(self.leaves@[li]@),
            ({
                let p = prefix_len(self.leaves_view(), li) + j;
                let es = self.entries();
                let found = j < self.leaves@[li]@.len() && self.leaves@[li]@[j].key@ == k;
                &&& p <= es.len()
                &&& forall|a: int| 0 <= a < p ==> lex_lt(#[trigger] es[a].0, k)
                &&& !found ==> forall|a: int| p <= a < es.len() ==> lex_lt(k, #[trigger] es[a].0)
                &&& j < self.leaves@[li]@.len() ==> es[p] == self.leaves@[li]@[j].entry()
            }),
    {
        let ls = self.leaves_view();
        let es = self.entries();
        let lp = prefix_len(ls, li) as int;
        let p = lp + j;
        let leaf = self.leaves@[li]@;
        let l = ls[li];
        lemma_flatten_split(ls, li);
        assert(l == leaf_view(leaf));
        assert(l.len() == leaf.len());
        assert forall|t: int| 0 <= t < l.len() implies es[lp + t] == #[trigger] l[t] by {}
        let found = j < leaf.len() && leaf[j].key@ == k;
        assert forall|a: int| 0 <= a < p implies lex_lt(#[trigger] es[a].0, k) by {
            if a >= lp {
                assert(es[a] == l[a - lp]);
                assert(lex_lt(leaf[a - lp].key@, k));
            } else {
                assert(li > 0) by {
                    if li == 0 {
                        assert(ls.take(0) =~= Seq::<Seq<Entry>>::empty());
                    }
                }
                assert(es[lp] == l[0]);
                assert(lex_lt(es[a].0, es[lp].0));
                lemma_lex_total(k, es[lp].0);
                if es[lp].0 != k {
                    lemma_lex_transitive(es[a].0, es[lp].0, k);
                }
            }
        }
        if !found && p < es.len() {
            if j < leaf.len() {
                assert(es[p] == l[j]);
                lemma_lex_total(k, leaf[j].key@);
            } else {
                let rest = ls.skip(li + 1);
                if li + 1 >= ls.len() {
                    assert(rest =~= Seq::<Seq<Entry>>::empty());
                }
                assert(rest.first() == ls[li + 1]);
                assert(self.leaves@[li + 1]@.len() > 0);
                assert(ls[li + 1] == leaf_view(self.leaves@[li + 1]@));
                assert(rest.flatten() == rest.first() + rest.drop_first().flatten());
                assert(es[p] == rest.flatten()[0]);
            }
            assert(lex_lt(k, es[p].0));
            assert forall|a: int| p <= a < es.len() implies lex_lt(k, #[trigger] es[a].0) by {
                if a > p {
                    assert(lex_lt(es[p].0, es[a].0));
                    lemma_lex_transitive(k, es[p].0, es[a].0);
                }
            }
        }
    }

    /// Every value stored under `key`, oldest first; empty when the key was
    /// never stored.
    pub fn get(&self, key: &[u8]) -> (r: Vec<Vec<u8>>)
        requires
            self.wf(),
        ensures
            bytes_list_view(r@) == lookup_in(self@, key@),
    {
        if self.leaves.len() == 0 {
            proof {
                assert(self.leaves_view() =~= Seq::<Seq<Entry>>::empty());
                assert(!has_key(self.entries(), key@));
                assert(bytes_list_view(Seq::<Vec<u8>>::empty()) =~= Seq::empty());
            }
            return Vec::new();
        }
        let li = self.find_leaf(key);
        let j = find_pos(&self.leaves[li], key);
        proof {
            self.lemma_position(key@, li as int, j as int);
        }
        let ghost es = self.entries();
        let ghost p = prefix_len(self.leaves_view(), li as int) + j;
        if j < self.leaves[li].len() && compare_keys(self.leaves[li][j].key.as_slice(), key)
            == KeyOrder::Equal {
            proof {
                lemma_values_at(es, p);
            }
            copy_values(&self.leaves[li][j].vals)
        } else {
            proof {
                if has_key(es, key@) {
                    let a = key_index(es, key@);
                    lemma_lex_irreflexive(key@);
                    if a < p {
                        assert(lex_lt(es[a].0, key@));
                    } else {
                        assert(lex_lt(key@, es[a].0));
                    }
                }
                assert(bytes_list_view(Seq::<Vec<u8>>::empty()) =~= Seq::empty());
            }
            Vec::new()
        }
    }

    /// Puts the first record into an empty tree.
    fn put_first(&mut self, key: &[u8], val: &[u8])
        requires
            old(self).wf(),
            old(self).leaves@.len() == 0,
        ensures
            final(self).wf(),
            final(self)@ == put_model(old(self)@, key@, val@),
            final(self).leaf_cap() == old(self).leaf_cap(),
            final(self).leaf_count() >= old(self).leaf_count(),
            final(self).key_count() == old(self).key_count() + if old(self)@.contains_key(key@) {
                0nat
            } else {
                1nat
            },
    {
        let ghost ls0 = self.leaves_view();
        let ghost es0 = self.entries();
        let mut leaf: Vec<Rec> = Vec::new();
        leaf.push(new_rec(key, val));
        let ghost lv = leaf@;
        self.leaves.push(leaf);
        proof {
            let e: Entry = (key@, seq![val@]);
            assert(lv[0].entry() == e);
            assert(leaf_view(lv) =~= seq![e]);
            assert(ls0 =~= Seq::<Seq<Entry>>::empty());
            assert(es0 =~= Seq::<Entry>::empty());
            assert(self.leaves_view() =~= seq![seq![e]]);
            seq![seq![e]].lemma_flatten_one_element();
            assert(self.entries() =~= es0.insert(0, e));
            lemma_map_new_key(es0, 0, key@, val@);
        }
    }

    /// Appends `val` to the values stored under `key`. The leaf that takes
    /// the record splits at its median when it overflows.
    #[verifier::rlimit(40)]
    pub fn put_dup(&mut self, key: &[u8], val: &[u8])
        requires
            old(self).wf(),
        ensures
            final(self).wf(),
            final(self)@ == put_model(old(self)@, key@, val@),
            final(self).leaf_cap() == old(self).leaf_cap(),
            final(self).leaf_count() >= old(self).leaf_count(),
            final(self).key_count() == old(self).key_count() + if old(self)@.contains_key(key@) {
                0nat
            } else {
                1nat
            },
    {
        let ghost ls0 = self.leaves_view();
        let ghost es0 = self.entries();
        if self.leaves.len() == 0 {
            self.put_first(key, val);
            return;
        }
        let li = self.find_leaf(key);
        let j = find_pos(&self.leaves[li], key);
        proof {
            self.lemma_position(key@, li as int, j as int);
        }
        let ghost p = prefix_len(ls0, li as int) + j;
        let ghost head = ls0.take(li as int).flatten();
        let ghost tail = ls0.skip(li + 1).flatten();
        let mut leaf = self.take_leaf(li);
        let ghost l0 = leaf_view(leaf@);
        let found = j < leaf.len() && compare_keys(leaf[j].key.as_slice(), key) == KeyOrder::Equal;
        let ghost es1 = if found {
            es0.update(p, (key@, es0[p].1.push(val@)))
        } else {
            es0.insert(p, (key@, seq![val@]))
        };
        add_to_leaf(&mut leaf, j, found, key, val);
        proof {
            if found {
                lemma_map_append(es0, p, val@);
            } else {
                lemma_map_new_key(es0, p, key@, val@);
            }
            assert(head + leaf_view(leaf@) + tail =~= es1);
        }
        self.place_leaf(li, leaf);
        proof {
            assert(self.entries() =~= es1);
        }
    }

    /// Takes leaf `li` out of the tree.
    fn take_leaf(&mut self, li: usize) -> (leaf: Vec<Rec>)
        requires
            li < old(self).leaves@.len(),
            MIN_LMEMB <= old(self).lmemb,
            forall|i: int|
                0 <= i < old(self).leaves@.len() ==> 0 < (#[trigger] old(self).leaves@[i])@.len()
                    <= old(self).lmemb,
        ensures
            final(self).lmemb == old(self).lmemb,
            final(self).leaves@.len() == old(self).leaves@.len() - 1,
            leaf == old(self).leaves@[li as int],
            final(self).leaves_view().take(li as int) == old(self).leaves_view().take(li as int),
            final(self).leaves_view().skip(li as int) == old(self).leaves_view().skip(li + 1),
            forall|i: int|
                0 <= i < final(self).leaves@.len() ==> 0 < (
                #[trigger] final(self).leaves@[i])@.len() <= final(self).lmemb,
    {
        let ghost ls0 = self.leaves_view();
        let ghost leaves0 = self.leaves@;
        let leaf = self.leaves.remove(li);
        proof {
            let lr = self.leaves_view();
            assert(lr.take(li as int) =~= ls0.take(li as int));
            assert(lr.skip(li as int) =~= ls0.skip(li + 1));
            assert forall|i: int| 0 <= i < self.leaves@.len() implies 0 < (
            #[trigger] self.leaves@[i])@.len() <= self.lmemb by {
                if i < li {
                    assert(self.leaves@[i] == leaves0[i]);
                } else {
                    assert(self.leaves@[i] == leaves0[i + 1]);
                }
            }
        }
        leaf
    }

    /// Puts `leaf` in at `li`, split at its median where it holds more than
    /// `lmemb` records.
    fn place_leaf(&mut self, li: usize, leaf: Vec<Rec>)
        requires
            li <= old(self).leaves@.len(),
            MIN_LMEMB <= old(self).lmemb,
            forall|i: int|
                0 <= i < old(self).leaves@.len() ==> 0 < (#[trigger] old(self).leaves@[i])@.len()
                    <= old(self).lmemb,
            0 < leaf@.len() <= old(self).lmemb + 1,
        ensures
            final(self).lmemb == old(self).lmemb,
            final(self).leaves@.len() > old(self).leaves@.len(),
            forall|i: int|
                0 <= i < final(self).leaves@.len() ==> 0 < (
                #[trigger] final(self).leaves@[i])@.len() <= final(self).lmemb,
            final(self).entries() == old(self).leaves_view().take(li as int).flatten() + leaf_view(
                leaf@,
            ) + old(self).leaves_view().skip(li as int).flatten(),
    {
        let ghost ls0 = self.leaves_view();
        let ghost leaves0 = self.leaves@;
        let ghost l1 = leaf_view(leaf@);
        let ghost pre = ls0.take(li as int);
        let ghost post = ls0.skip(li as int);
        let mut leaf = leaf;
        if leaf.len() > self.lmemb {
            let m = leaf.len() / 2;
            let right = leaf.split_off(m);
            let ghost a = leaf_view(leaf@);
            let ghost b = leaf_view(right@);
            self.leaves.insert(li, leaf);
            let n = self.leaves.len();
            assert(li < n);
            self.leaves.insert(li + 1, right);
            proof {
                assert(a + b =~= l1);
                let mid = seq![a, b];
                assert(self.leaves_view() =~= pre + mid + post);
                vstd::seq_lib::lemma_flatten_concat(pre + mid, post);
                vstd::seq_lib::lemma_flatten_concat(pre, mid);
                lemma_flatten_pair(a, b);
                assert forall|i: int| 0 <= i < self.leaves@.len() implies 0 < (
                #[trigger] self.leaves@[i])@.len() <= self.lmemb by {
                    if i < li {
                        assert(self.leaves@[i] == leaves0[i]);
                    } else if i > li + 1 {
                        assert(self.leaves@[i] == leaves0[i - 2]);
                    }
                }
            }
        } else {
            self.leaves.insert(li, leaf);
            proof {
                let mid = seq![l1];
                assert(self.leaves_view() =~= pre + mid + post);
                vstd::seq_lib::lemma_flatten_concat(pre + mid, post);
                vstd::seq_lib::lemma_flatten_concat(pre, mid);
                mid.lemma_flatten_one_element();
                assert forall|i: int| 0 <= i < self.leaves@.len() implies 0 < (
                #[trigger] self.leaves@[i])@.len() <= self.lmemb by {
                    if i < li {
                        assert(self.leaves@[i] == leaves0[i]);
                    } else if i > li {
                        assert(self.leaves@[i] == leaves0[i - 1]);
                    }
                }
            }
        }
    }
    /// A tree that holds more distinct keys than one leaf can take has been
    /// split: it has at least two leaves.
    pub proof fn lemma_overflow_splits(&self)
        requires
            self.wf(),
            self.key_count() > self.leaf_cap(),
        ensures
            self.leaf_count() >= 2,
    {
        let ls = self.leaves_view();
        if ls.len() == 0 {
            assert(ls =~= Seq::<Seq<Entry>>::empty());
        } else if ls.len() == 1 {
            ls.lemma_flatten_one_element();
            assert(ls[0] == leaf_view(self.leaves@[0]@));
        }
    }

    /// Every stored value as a record with its key: keys in order, and the
    /// values of each key oldest first.
    pub fn dump(&self) -> (r: Vec<(Vec<u8>, Vec<u8>)>)
        requires
            self.wf(),
        ensures
            pairs_view(r@) == pairs_of(self.entries()),
    {
        let ghost ls = self.leaves_view();
        let mut out: Vec<(Vec<u8>, Vec<u8>)> = Vec::new();
        let mut i: usize = 0;
        assert(ls.take(0) =~= Seq::<Seq<Entry>>::empty());
        assert(pairs_view(out@) =~= Seq::<Pair>::empty());
        while i < self.leaves.len()
            invariant
                i <= self.leaves@.len(),
                ls == self.leaves_view(),
                pairs_view(out@) == pairs_of(ls.take(i as int).flatten()),
            decreases self.leaves@.len() - i,
        {
            let leaf = &self.leaves[i];
            let ghost lv = leaf_view(leaf@);
            let ghost done = ls.take(i as int).flatten();
            assert(lv == ls[i as int]);
            let mut j: usize = 0;
            assert(done + lv.take(0) =~= done);
            while j < leaf.len()
                invariant
                    j <= leaf@.len(),
                    lv == leaf_view(leaf@),
                    pairs_view(out@) == pairs_of(done + lv.take(j as int)),
                decreases leaf@.len() - j,
            {
                let rec = &leaf[j];
                let ghost before = pairs_view(out@);
                let ghost vv = bytes_list_view(rec.vals@);
                let mut t: usize = 0;
                assert(entry_pairs((rec.key@, vv.take(0))) =~= Seq::<Pair>::empty());
                assert(before =~= before + entry_pairs((rec.key@, vv.take(0))));
                while t < rec.vals.len()
                    invariant
                        t <= rec.vals@.len(),
                        vv == bytes_list_view(rec.vals@),
                        pairs_view(out@) == before + entry_pairs((rec.key@, vv.take(t as int))),
                    decreases rec.vals@.len() - t,
                {
                    let ghost prev = pairs_view(out@);
                    out.push((slice_to_vec(rec.key.as_slice()), slice_to_vec(rec.vals[t].as_slice())));
                    assert(pairs_view(out@) =~= prev.push((rec.key@, vv[t as int])));
                    assert(entry_pairs((rec.key@, vv.take(t + 1))) =~= entry_pairs(
                        (rec.key@, vv.take(t as int)),
                    ).push((rec.key@, vv[t as int])));
                    assert(before + entry_pairs((rec.key@, vv.take(t + 1))) =~= (before
                        + entry_pairs((rec.key@, vv.take(t as int)))).push((rec.key@, vv[t as int])));
                    t = t + 1;
                }
                assert(vv.take(t as int) =~= vv);
                assert(lv[j as int] == rec.entry());
                assert((done + lv.take(j + 1)).drop_last() =~= done + lv.take(j as int));
                assert((done + lv.take(j + 1)).last() == lv[j as int]);
                j = j + 1;
            }
            assert(lv.take(j as int) =~= lv);
            assert(ls.take(i + 1) =~= ls.take(i as int) + seq![lv]);
            proof {
                vstd::seq_lib::lemma_flatten_concat(ls.take(i as int), seq![lv]);
                seq![lv].lemma_flatten_one_element();
            }
            i = i + 1;
        }
        assert(ls.take(i as int) =~= ls);
        out
    }

    /// A tree with leaf capacity `effective_lmemb(lmemb)` that holds the
    /// records of `ps`, appended in order.
    pub fn load(lmemb: i32, ps: &Vec<(Vec<u8>, Vec<u8>)>) -> (r: Self)
        ensures
            r.wf(),
            r@ == replay(Map::empty(), pairs_view(ps@)),
            r.leaf_cap() == effective_lmemb(lmemb),
    {
        let mut db = TCBDB::new(lmemb);
        let ghost all = pairs_view(ps@);
        let mut i: usize = 0;
        assert(all.take(0) =~= Seq::<Pair>::empty());
        while i < ps.len()
            invariant
                i <= ps@.len(),
                all == pairs_view(ps@),
                db.wf(),
                db@ == replay(Map::empty(), all.take(i as int)),
                db.leaf_cap() == effective_lmemb(lmemb),
            decreases ps@.len() - i,
        {
            db.put_dup(ps[i].0.as_slice(), ps[i].1.as_slice());
            assert(all.take(i + 1).drop_last() =~= all.take(i as int));
            i = i + 1;
        }
        assert(all.take(i as int) =~= all);
        db
    }

    /// Replaying what `dump` returns into an empty tree rebuilds this tree's
    /// store.
    pub proof fn lemma_dump_reload(&self)
        requires
            self.wf(),
        ensures
            replay(Map::empty(), pairs_of(self.entries())) == self@,
    {
        lemma_replay_pairs(self.entries());
    }
}

} // verus!
