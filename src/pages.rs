//! A page store: numbered pages of bytes. Freed pages are threaded on a
//! free list and handed out again before the store grows. Reading or writing
//! a page that is freed or out of range is an error, never a page of zeros.
//!
//! The tree keeps its records in memory and the handle writes them out as
//! one image (see `codec`); the page store is the allocator for a layout in
//! numbered pages, and holds no tree nodes itself.
use vstd::prelude::*;
use vstd::slice::slice_to_vec;

verus! {

/// Why a page operation failed.
#[derive(PartialEq, Eq, Structural, Clone, Copy, Debug)]
pub enum PageError {
    /// The page number is out of range or the page was freed.
    Corruption,
}

/// A store of numbered pages.
pub struct PageStore {
    slots: Vec<Option<Vec<u8>>>,
    free_list: Vec<u64>,
}

impl PageStore {
    /// The pages in use, by number, with their contents.
    pub closed spec fn live(&self) -> Map<u64, Seq<u8>> {
        Map::new(
            |id: u64| id < self.slots@.len() && self.slots@[id as int] is Some,
            |id: u64| self.slots@[id as int].unwrap()@,
        )
    }

    /// Number of pages the store spans, in use or freed.
    pub closed spec fn extent(&self) -> nat {
        self.slots@.len()
    }

    /// Some page below the extent is free.
    pub open spec fn has_freed(&self) -> bool {
        exists|id: u64| id < self.extent() && !self.live().contains_key(id)
    }

    pub closed spec fn wf(&self) -> bool {
        &&& self.slots@.len() <= u64::MAX
        &&& self.free_list@.no_duplicates()
        &&& forall|i: int|
            0 <= i < self.free_list@.len() ==> (#[trigger] self.free_list@[i]) < self.slots@.len()
                && self.slots@[self.free_list@[i] as int] is None
        &&& forall|id: int|
            0 <= id < self.slots@.len() && (#[trigger] self.slots@[id]) is None
                ==> self.free_list@.contains(id as u64)
    }

    pub fn new() -> (r: Self)
        ensures
            r.wf(),
            r.live() == Map::<u64, Seq<u8>>::empty(),
            r.extent() == 0,
    {
        let r = PageStore { slots: Vec::new(), free_list: Vec::new() };
        assert(r.live() =~= Map::<u64, Seq<u8>>::empty());
        r
    }

    /// A page not in use, now in use and empty: a freed one where there is
    /// one, else a new one at the end.
    pub fn allocate(&mut self) -> (r: u64)
        requires
            old(self).wf(),
            old(self).extent() < u64::MAX,
        ensures
            final(self).wf(),
            !old(self).live().contains_key(r),
            final(self).live() == old(self).live().insert(r, Seq::empty()),
            old(self).has_freed() ==> r < old(self).extent() && final(self).extent() == old(
                self,
            ).extent(),
            !old(self).has_freed() ==> r == old(self).extent() && final(self).extent() == old(
                self,
            ).extent() + 1,
    {
        let ghost before = *self;
        let ghost slots0 = self.slots@;
        let ghost free0 = self.free_list@;
        match self.free_list.pop() {
            Some(id) => {
                assert(free0[free0.len() - 1] == id);
                proof {
                    assert(free0 =~= self.free_list@.push(id));
                    assert forall|i: int| 0 <= i < self.free_list@.len() implies (
                    #[trigger] self.free_list@[i]) != id by {
                        assert(free0[i] == self.free_list@[i]);
                    }
                }
                let n: usize = self.slots.len();
                assert((id as int) < (n as int));
                let idx: usize = id as usize;
                let page: Vec<u8> = Vec::new();
                assert(page@ =~= Seq::<u8>::empty());
                self.slots.set(idx, Some(page));
                proof {
                    assert(id < before.extent() && !before.live().contains_key(id));
                    assert forall|i: int| 0 <= i < self.free_list@.len() implies (
                    #[trigger] self.free_list@[i]) < self.slots@.len() && self.slots@[
                        self.free_list@[i] as int] is None by {
                        assert(free0[i] == self.free_list@[i]);
                        assert(self.free_list@[i] != id);
                    }
                    assert forall|j: int|
                        0 <= j < self.slots@.len() && (#[trigger] self.slots@[j]) is None implies self.free_list@.contains(
                        j as u64) by {
                        assert(slots0[j] is None);
                        assert(free0.contains(j as u64));
                        assert(j != id as int);
                        let k = choose|k: int| 0 <= k < free0.len() && free0[k] == j as u64;
                        assert(k < self.free_list@.len());
                        assert(self.free_list@[k] == j as u64);
                    }
                }
                assert(self.live() =~= before.live().insert(id, Seq::empty()));
                id
            },
            None => {
                let id = self.slots.len() as u64;
                let page: Vec<u8> = Vec::new();
                assert(page@ =~= Seq::<u8>::empty());
                self.slots.push(Some(page));
                proof {
                    if before.has_freed() {
                        let f = choose|f: u64| f < before.extent() && !before.live().contains_key(f);
                        assert(slots0[f as int] is None);
                        assert(free0.contains(f));
                    }
                    assert forall|j: int|
                        0 <= j < self.slots@.len() && (#[trigger] self.slots@[j]) is None implies self.free_list@.contains(
                        j as u64) by {
                        assert(slots0[j] is None);
                    }
                }
                assert(self.live() =~= before.live().insert(id, Seq::empty()));
                id
            },
        }
    }

    /// Returns page `id` to the free list.
    pub fn free(&mut self, id: u64) -> (r: Result<(), PageError>)
        requires
            old(self).wf(),
        ensures
            final(self).wf(),
            final(self).extent() == old(self).extent(),
            old(self).live().contains_key(id) ==> r is Ok && final(self).live() == old(
                self,
            ).live().remove(id),
            !old(self).live().contains_key(id) ==> r == Err::<(), PageError>(PageError::Corruption)
                && final(self).live() == old(self).live(),
    {
        let ghost before = *self;
        let ghost slots0 = self.slots@;
        let ghost free0 = self.free_list@;
        let n: usize = self.slots.len();
        if id >= n as u64 {
            return Err(PageError::Corruption);
        }
        let idx: usize = id as usize;
        if self.slots[idx].is_none() {
            return Err(PageError::Corruption);
        }
        self.slots.set(idx, None);
        self.free_list.push(id);
        proof {
            assert(!free0.contains(id)) by {
                if free0.contains(id) {
                    let k = choose|k: int| 0 <= k < free0.len() && free0[k] == id;
                    assert(slots0[free0[k] as int] is None);
                }
            }
            assert forall|a: int, b: int|
                0 <= a < self.free_list@.len() && 0 <= b < self.free_list@.len() && a != b
                    implies self.free_list@[a] != self.free_list@[b] by {
                if a < free0.len() && b < free0.len() {
                    assert(free0[a] != free0[b]);
                } else if a < free0.len() {
                    assert(free0.contains(free0[a]));
                } else {
                    assert(free0.contains(free0[b]));
                }
            }
            assert forall|i: int| 0 <= i < self.free_list@.len() implies (
            #[trigger] self.free_list@[i]) < self.slots@.len() && self.slots@[
                self.free_list@[i] as int] is None by {
                if i < free0.len() {
                    assert(free0[i] == self.free_list@[i]);
                    assert(slots0[free0[i] as int] is None);
                }
            }
            assert forall|j: int|
                0 <= j < self.slots@.len() && (#[trigger] self.slots@[j]) is None implies self.free_list@.contains(
                j as u64) by {
                if j == id as int {
                    assert(self.free_list@[free0.len() as int] == id);
                } else {
                    assert(slots0[j] is None);
                    let k = choose|k: int| 0 <= k < free0.len() && free0[k] == j as u64;
                    assert(self.free_list@[k] == j as u64);
                }
            }
        }
        assert(self.live() =~= before.live().remove(id));
        Ok(())
    }

    /// The contents of page `id`.
    pub fn read(&self, id: u64) -> (r: Result<Vec<u8>, PageError>)
        requires
            self.wf(),
        ensures
            self.live().contains_key(id) ==> r is Ok && r.unwrap()@ == self.live()[id],
            !self.live().contains_key(id) ==> r == Err::<Vec<u8>, PageError>(
                PageError::Corruption,
            ),
    {
        let n: usize = self.slots.len();
        if id >= n as u64 {
            return Err(PageError::Corruption);
        }
        let idx: usize = id as usize;
        match &self.slots[idx] {
            Some(page) => Ok(slice_to_vec(page.as_slice())),
            None => Err(PageError::Corruption),
        }
    }

    /// Replaces the contents of page `id`.
    pub fn write(&mut self, id: u64, bytes: &[u8]) -> (r: Result<(), PageError>)
        requires
            old(self).wf(),
        ensures
            final(self).wf(),
            final(self).extent() == old(self).extent(),
            old(self).live().contains_key(id) ==> r is Ok && final(self).live() == old(
                self,
            ).live().insert(id, bytes@),
            !old(self).live().contains_key(id) ==> r == Err::<(), PageError>(PageError::Corruption)
                && final(self).live() == old(self).live(),
    {
        let ghost before = *self;
        let ghost slots0 = self.slots@;
        let n: usize = self.slots.len();
        if id >= n as u64 {
            return Err(PageError::Corruption);
        }
        let idx: usize = id as usize;
        if self.slots[idx].is_none() {
            return Err(PageError::Corruption);
        }
        self.slots.set(idx, Some(slice_to_vec(bytes)));
        proof {
            assert forall|i: int| 0 <= i < self.free_list@.len() implies (
            #[trigger] self.free_list@[i]) < self.slots@.len() && self.slots@[
                self.free_list@[i] as int] is None by {
                assert(slots0[self.free_list@[i] as int] is None);
            }
            assert forall|j: int|
                0 <= j < self.slots@.len() && (#[trigger] self.slots@[j]) is None implies self.free_list@.contains(
                j as u64) by {
                assert(slots0[j] is None);
            }
        }
        assert(self.live() =~= before.live().insert(id, bytes@));
        Ok(())
    }
}

} // verus!
