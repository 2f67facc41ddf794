//! An embedded key/value store built on a B+-tree whose keys may carry
//! several values each, with a handle that governs its lifecycle and a byte
//! image in which the store is written out and read back.
use vstd::prelude::*;

pub mod order;
pub mod tree;
pub mod laws;
pub mod codec;
pub mod safe;
pub mod pages;

pub use tree::TCBDB;

verus! {

/// Open for reading.
pub const BDBOREADER: i32 = 1;

/// Open for writing.
pub const BDBOWRITER: i32 = 2;

/// With writing: start from an empty store where no image exists yet.
pub const BDBOCREAT: i32 = 4;

/// With writing: discard what an existing image holds.
pub const BDBOTRUNC: i32 = 8;

/// Tuning flag for a store larger than two gigabytes. Flags are recorded by
/// `tune`; the image does not depend on them.
pub const BDBTLARGE: u8 = 1;

/// Tuning flag for Deflate compression of pages.
pub const BDBTDEFLATE: u8 = 2;

/// Tuning flag for BZIP2 compression of pages.
pub const BDBTBZIP: u8 = 4;

/// Tuning flag for TCBS compression of pages.
pub const BDBTTCBS: u8 = 8;

/// A list of byte strings, first to last.
pub struct TCLIST {
    items: Vec<Vec<u8>>,
}

impl View for TCLIST {
    type V = Seq<Seq<u8>>;

    closed spec fn view(&self) -> Seq<Seq<u8>> {
        tree::bytes_list_view(self.items@)
    }
}

impl TCLIST {
    /// A list holding `items`, in order.
    pub fn from_vec(items: Vec<Vec<u8>>) -> (r: Self)
        ensures
            r@ == tree::bytes_list_view(items@),
    {
        TCLIST { items }
    }

    pub fn len(&self) -> (r: usize)
        ensures
            r == self@.len(),
    {
        self.items.len()
    }

    /// Removes and returns the first item, if any.
    pub fn shift(&mut self) -> (r: Option<Vec<u8>>)
        ensures
            old(self)@.len() == 0 ==> r.is_none() && final(self)@ == old(self)@,
            old(self)@.len() > 0 ==> r.is_some() && r.unwrap()@ == old(self)@[0] && final(self)@
                == old(self)@.drop_first(),
    {
        if self.items.len() == 0 {
            None
        } else {
            let ghost before = self.items@;
            let first = self.items.remove(0);
            assert(tree::bytes_list_view(self.items@) =~= tree::bytes_list_view(before).drop_first());
            Some(first)
        }
    }
}

} // verus!
