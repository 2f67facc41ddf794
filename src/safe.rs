//! The database handle and the lists that lookups hand out.
use vstd::prelude::*;
use crate::codec::{decode_image, encode_image, pairs_fit, pairs_view, parse_image, Pair};
use crate::tree::{bytes_list_view, effective_lmemb, lookup_in, put_model, replay, TCBDB};
use crate::{TCLIST, BDBOCREAT, BDBOREADER, BDBOTRUNC, BDBOWRITER};

verus! {

/// Why an operation on a handle failed.
#[derive(PartialEq, Eq, Structural, Clone, Copy, Debug)]
pub enum BdbError {
    /// Opening without creation where no image exists.
    NotFound,
    /// Writing through a handle opened for reading, or reconfiguring an open
    /// handle.
    Access,
    /// The handle is not open: never opened, or closed.
    ClosedHandle,
    /// The stored image is malformed.
    Corruption,
}

/// Where a handle stands in its lifecycle.
#[derive(PartialEq, Eq, Structural, Clone, Copy, Debug)]
pub enum Phase {
    Unopened,
    Open,
    Closed,
}

/// One value handed out by a lookup.
pub struct Elem {
    data: Vec<u8>,
}

impl View for Elem {
    type V = Seq<u8>;

    closed spec fn view(&self) -> Seq<u8> {
        self.data@
    }
}

impl Elem {
    pub fn as_slice(&self) -> (r: &[u8])
        ensures
            r@ == self@,
    {
        self.data.as_slice()
    }
}

/// The values stored under one key, oldest first, owned by the caller.
pub struct List {
    raw: TCLIST,
}

impl View for List {
    type V = Seq<Seq<u8>>;

    closed spec fn view(&self) -> Seq<Seq<u8>> {
        self.raw@
    }
}

impl List {
    pub fn len(&self) -> (r: usize)
        ensures
            r == self@.len(),
    {
        self.raw.len()
    }

    /// Hands the values out one at a time, oldest first.
    pub fn into_iter(self) -> (r: IntoIter)
        ensures
            r@ == self@,
    {
        IntoIter { raw: self.raw }
    }
}

/// The values of a list that have not been handed out yet.
pub struct IntoIter {
    raw: TCLIST,
}

impl View for IntoIter {
    type V = Seq<Seq<u8>>;

    closed spec fn view(&self) -> Seq<Seq<u8>> {
        self.raw@
    }
}

impl IntoIter {
    /// The next value, or `None` once all have been handed out.
    pub fn next(&mut self) -> (r: Option<Elem>)
        ensures
            old(self)@.len() == 0 ==> r.is_none() && final(self)@ == old(self)@,
            old(self)@.len() > 0 ==> r.is_some() && r.unwrap()@ == old(self)@[0] && final(self)@
                == old(self)@.drop_first(),
    {
        match self.raw.shift() {
            Some(data) => Some(Elem { data }),
            None => None,
        }
    }
}

pub open spec fn is_writer(flags: i32) -> bool {
    flags & BDBOWRITER != 0
}

/// What opening with `flags` yields, given the stored image where one
/// exists: the store to start from, or the error. Creation and truncation
/// take effect only when opening for writing.
pub open spec fn open_result(flags: i32, stored: Option<Seq<u8>>) -> Result<
    Map<Seq<u8>, Seq<Seq<u8>>>,
    BdbError,
> {
    let create = is_writer(flags) && flags & BDBOCREAT != 0;
    let trunc = is_writer(flags) && flags & BDBOTRUNC != 0;
    match stored {
        None => if create {
            Ok(Map::empty())
        } else {
            Err(BdbError::NotFound)
        },
        Some(b) => if trunc {
            Ok(Map::empty())
        } else {
            match parse_image(b) {
                Some(ps) => Ok(replay(Map::empty(), ps)),
                None => Err(BdbError::Corruption),
            }
        },
    }
}

/// `img` is an image that reads back as the store `m`.
pub open spec fn image_holds(img: Seq<u8>, m: Map<Seq<u8>, Seq<Seq<u8>>>) -> bool {
    match parse_image(img) {
        Some(ps) => replay(Map::empty(), ps) == m,
        None => false,
    }
}

/// An image that `sync` or `close` returned, opened again for reading,
/// yields the store it was taken from.
pub proof fn lemma_reopen(img: Seq<u8>, m: Map<Seq<u8>, Seq<Seq<u8>>>)
    requires
        image_holds(img, m),
    ensures
        open_result(BDBOREADER, Some(img)) == Ok::<Map<Seq<u8>, Seq<Seq<u8>>>, BdbError>(m),
{
    assert(1i32 & 2i32 == 0i32) by (bit_vector);
}

/// A database handle. It is created unopened, opened once, and closed once;
/// while open it owns the store.
pub struct Bdb {
    phase: Phase,
    writable: bool,
    opts: u8,
    db: TCBDB,
}

impl Bdb {
    /// The tree is well formed.
    pub closed spec fn wf(&self) -> bool {
        self.db.wf()
    }

    pub closed spec fn phase(&self) -> Phase {
        self.phase
    }

    /// The handle was opened for writing.
    pub closed spec fn writable(&self) -> bool {
        self.writable
    }

    /// The tuning options recorded before opening.
    pub closed spec fn opts(&self) -> u8 {
        self.opts
    }

    /// Each stored key with its values, oldest first.
    pub closed spec fn store(&self) -> Map<Seq<u8>, Seq<Seq<u8>>> {
        self.db@
    }

    /// The most records that a leaf of the tree holds.
    pub closed spec fn leaf_cap(&self) -> nat {
        self.db.leaf_cap()
    }

    /// Number of leaves of the tree.
    pub closed spec fn leaf_count(&self) -> nat {
        self.db.leaf_count()
    }

    /// Number of records in leaf `i` of the tree.
    pub closed spec fn leaf_size(&self, i: int) -> nat {
        self.db.leaf_size(i)
    }

    /// No leaf of the tree holds more than `leaf_cap()` records, and none is
    /// empty.
    pub proof fn lemma_leaves_fit(&self)
        requires
            self.wf(),
        ensures
            forall|i: int| 0 <= i < self.leaf_count() ==> 0 < #[trigger] self.leaf_size(i) <= self.leaf_cap(),
    {
        self.db.lemma_leaves_fit();
    }

    /// A store with more distinct keys than one leaf holds has had its
    /// tree split: it has at least two leaves.
    pub proof fn lemma_overflow_splits(&self)
        requires
            self.wf(),
            self.store().dom().len() > self.leaf_cap(),
        ensures
            self.leaf_count() >= 2,
    {
        self.db.lemma_key_count();
        self.db.lemma_overflow_splits();
    }

    pub fn new() -> (r: Bdb)
        ensures
            r.wf(),
            r.phase() == Phase::Unopened,
            r.store() == Map::<Seq<u8>, Seq<Seq<u8>>>::empty(),
            r.opts() == 0,
            r.leaf_cap() == effective_lmemb(0),
    {
        Bdb { phase: Phase::Unopened, writable: false, opts: 0, db: TCBDB::new(0) }
    }

    /// An image of the store.
    fn image(&self) -> (r: Vec<u8>)
        requires
            self.wf(),
        ensures
            image_holds(r@, self.store()),
    {
        let ps = self.db.dump();
        let img = encode_image(&ps);
        proof {
            let pv = pairs_view(ps@);
            assert forall|i: int| 0 <= i < pv.len() implies (#[trigger] pv[i]).0.len()
                <= u64::MAX && pv[i].1.len() <= u64::MAX by {
                let p = ps@[i];
                assert(p.0.len() == p.0@.len());
                assert(p.1.len() == p.1@.len());
            }
            assert(pairs_fit(pv));
            crate::codec::lemma_image_round_trip(pv);
            self.db.lemma_dump_reload();
        }
        img
    }

    /// Opens the handle. `stored` is the image at the chosen place, where one
    /// exists; `flags` combines `BDBOREADER`, `BDBOWRITER`, `BDBOCREAT` and
    /// `BDBOTRUNC`.
    pub fn open(&mut self, flags: i32, stored: Option<&[u8]>) -> (r: Result<(), BdbError>)
        requires
            old(self).wf(),
        ensures
            final(self).wf(),
            old(self).phase() == Phase::Open ==> r == Err::<(), BdbError>(BdbError::Access),
            old(self).phase() == Phase::Closed ==> r == Err::<(), BdbError>(
                BdbError::ClosedHandle,
            ),
            old(self).phase() == Phase::Unopened ==> match open_result(
                flags,
                match stored {
                    Some(b) => Some(b@),
                    None => None,
                },
            ) {
                Ok(m) => r is Ok && final(self).phase() == Phase::Open && final(self).store() == m
                    && final(self).writable() == is_writer(flags),
                Err(e) => r == Err::<(), BdbError>(e),
            },
            r is Err ==> final(self).phase() == old(self).phase() && final(self).store() == old(
                self,
            ).store(),
            final(self).opts() == old(self).opts(),
            r is Ok ==> final(self).leaf_cap() == effective_lmemb(0),
            r is Err ==> final(self).leaf_cap() == old(self).leaf_cap(),
    {
        match self.phase {
            Phase::Open => return Err(BdbError::Access),
            Phase::Closed => return Err(BdbError::ClosedHandle),
            Phase::Unopened => {},
        }
        let writer = flags & BDBOWRITER != 0;
        let create = writer && flags & BDBOCREAT != 0;
        let trunc = writer && flags & BDBOTRUNC != 0;
        let db = match stored {
            None => {
                if !create {
                    return Err(BdbError::NotFound);
                }
                TCBDB::new(0)
            },
            Some(b) => {
                if trunc {
                    TCBDB::new(0)
                } else {
                    match decode_image(b) {
                        Some(ps) => TCBDB::load(0, &ps),
                        None => return Err(BdbError::Corruption),
                    }
                }
            },
        };
        self.db = db;
        self.writable = writer;
        self.phase = Phase::Open;
        Ok(())
    }

    /// Records tuning options; allowed only before opening.
    pub fn tune(&mut self, opts: u8) -> (r: Result<(), BdbError>)
        requires
            old(self).wf(),
        ensures
            final(self).wf(),
            old(self).phase() == Phase::Unopened ==> r is Ok && final(self).opts() == opts,
            old(self).phase() == Phase::Open ==> r == Err::<(), BdbError>(BdbError::Access),
            old(self).phase() == Phase::Closed ==> r == Err::<(), BdbError>(
                BdbError::ClosedHandle,
            ),
            r is Err ==> final(self).opts() == old(self).opts(),
            final(self).leaf_cap() == old(self).leaf_cap(),
            final(self).phase() == old(self).phase(),
            final(self).store() == old(self).store(),
    {
        match self.phase {
            Phase::Unopened => {
                self.opts = opts;
                Ok(())
            },
            Phase::Open => Err(BdbError::Access),
            Phase::Closed => Err(BdbError::ClosedHandle),
        }
    }

    /// Appends `val` to the values stored under `key`.
    pub fn put_dup(&mut self, key: &[u8], val: &[u8]) -> (r: Result<(), BdbError>)
        requires
            old(self).wf(),
        ensures
            final(self).wf(),
            old(self).phase() != Phase::Open ==> r == Err::<(), BdbError>(BdbError::ClosedHandle),
            old(self).phase() == Phase::Open && !old(self).writable() ==> r == Err::<(), BdbError>(
                BdbError::Access,
            ),
            old(self).phase() == Phase::Open && old(self).writable() ==> r is Ok,
            r is Ok ==> final(self).store() == put_model(old(self).store(), key@, val@),
            r is Err ==> final(self).store() == old(self).store(),
            final(self).phase() == old(self).phase(),
            final(self).writable() == old(self).writable(),
            final(self).opts() == old(self).opts(),
            final(self).leaf_cap() == old(self).leaf_cap(),
            final(self).leaf_count() >= old(self).leaf_count(),
    {
        if self.phase != Phase::Open {
            return Err(BdbError::ClosedHandle);
        }
        if !self.writable {
            return Err(BdbError::Access);
        }
        self.db.put_dup(key, val);
        Ok(())
    }

    /// Every value stored under `key`, oldest first; empty for a key that
    /// was never stored.
    pub fn get_list(&self, key: &[u8]) -> (r: Result<List, BdbError>)
        requires
            self.wf(),
        ensures
            self.phase() != Phase::Open ==> r is Err && r == Err::<List, BdbError>(
                BdbError::ClosedHandle,
            ),
            self.phase() == Phase::Open ==> r is Ok && r.unwrap()@ == lookup_in(
                self.store(),
                key@,
            ),
    {
        if self.phase != Phase::Open {
            return Err(BdbError::ClosedHandle);
        }
        let vals = self.db.get(key);
        Ok(List { raw: TCLIST::from_vec(vals) })
    }

    /// Checkpoints the store: returns its image, to be made durable.
    pub fn sync(&mut self) -> (r: Result<Vec<u8>, BdbError>)
        requires
            old(self).wf(),
        ensures
            final(self).wf(),
            old(self).phase() != Phase::Open ==> r is Err && r == Err::<Vec<u8>, BdbError>(
                BdbError::ClosedHandle,
            ),
            old(self).phase() == Phase::Open && !old(self).writable() ==> r is Err && r == Err::<
                Vec<u8>,
                BdbError,
            >(BdbError::Access),
            old(self).phase() == Phase::Open && old(self).writable() ==> r is Ok && image_holds(
                r.unwrap()@,
                old(self).store(),
            ),
            final(self).phase() == old(self).phase(),
            final(self).writable() == old(self).writable(),
            final(self).store() == old(self).store(),
            final(self).opts() == old(self).opts(),
            final(self).leaf_cap() == old(self).leaf_cap(),
    {
        if self.phase != Phase::Open {
            return Err(BdbError::ClosedHandle);
        }
        if !self.writable {
            return Err(BdbError::Access);
        }
        Ok(self.image())
    }

    /// Rebuilds the tree from its records; the store is unchanged.
    pub fn optimize(&mut self) -> (r: Result<(), BdbError>)
        requires
            old(self).wf(),
        ensures
            final(self).wf(),
            old(self).phase() != Phase::Open ==> r == Err::<(), BdbError>(BdbError::ClosedHandle),
            old(self).phase() == Phase::Open && !old(self).writable() ==> r == Err::<(), BdbError>(
                BdbError::Access,
            ),
            old(self).phase() == Phase::Open && old(self).writable() ==> r is Ok,
            final(self).phase() == old(self).phase(),
            final(self).writable() == old(self).writable(),
            final(self).store() == old(self).store(),
            final(self).opts() == old(self).opts(),
            old(self).phase() == Phase::Open && old(self).writable() ==> final(self).leaf_cap()
                == effective_lmemb(0),
            !(old(self).phase() == Phase::Open && old(self).writable()) ==> final(self).leaf_cap()
                == old(self).leaf_cap(),
    {
        if self.phase != Phase::Open {
            return Err(BdbError::ClosedHandle);
        }
        if !self.writable {
            return Err(BdbError::Access);
        }
        let ps = self.db.dump();
        let db = TCBDB::load(0, &ps);
        proof {
            self.db.lemma_dump_reload();
        }
        self.db = db;
        Ok(())
    }

    /// Closes the handle. Closing an open writable handle returns the image
    /// to be made durable; closing again does nothing.
    pub fn close(&mut self) -> (r: Option<Vec<u8>>)
        requires
            old(self).wf(),
        ensures
            final(self).wf(),
            final(self).phase() == Phase::Closed,
            final(self).store() == old(self).store(),
            final(self).opts() == old(self).opts(),
            final(self).leaf_cap() == old(self).leaf_cap(),
            old(self).phase() == Phase::Open && old(self).writable() ==> r is Some && image_holds(
                r.unwrap()@,
                old(self).store(),
            ),
            !(old(self).phase() == Phase::Open && old(self).writable()) ==> r is None,
    {
        let img = if self.phase == Phase::Open && self.writable {
            Some(self.image())
        } else {
            None
        };
        self.phase = Phase::Closed;
        img
    }
}

} // verus!
