//! Logical addresses: a machine address whose low half is replaced by a
//! short local root, so that the real root can be kept aside and patched
//! back in on translation.

use vstd::prelude::*;

verus! {

/// An address whose low sixteen bits hold a logical (local) root.
#[derive(Clone, Copy, Debug, PartialEq, Eq, Structural)]
pub struct LogicalAddress(pub usize);

impl LogicalAddress {
    /// Splits a page's machine address into its real root (the low
    /// sixteen bits) and the logical address carrying a freshly drawn
    /// local root in their place.
    pub fn create(page_address: usize) -> (r: (u16, LogicalAddress))
        ensures
            r.0 == (page_address & 0xffff) as u16,
            r.1.0 & !0xffffusize == page_address & !0xffffusize,
    {
        let local_root: u16 = rand::random();
        let clear_mask: usize = (!0usize) << 16usize;
        proof {
            assert((!0usize) << 16usize == !0xffffusize) by (bit_vector);
            assert(page_address & !((!0usize) << 16usize) == page_address & 0xffffusize)
                by (bit_vector);
            assert(page_address & 0xffffusize <= 0xffffusize) by (bit_vector);
        }
        let real_root: u16 = (page_address & !clear_mask) as u16;
        let logical = (page_address & clear_mask) | (local_root as usize);
        proof {
            let lr = local_root;
            let pa = page_address;
            assert((pa & ((!0usize) << 16usize) | (lr as usize)) & !0xffffusize == pa
                & !0xffffusize) by (bit_vector);
        }
        (real_root, LogicalAddress(logical))
    }

    /// The logical root: the low sixteen bits.
    pub fn logical_root(&self) -> (r: u16)
        ensures
            r == (self.0 & 0xffff) as u16,
    {
        let clear_mask: usize = (!0usize) << 16usize;
        let v = self.0;
        proof {
            assert(v & !((!0usize) << 16usize) == v & 0xffffusize) by (bit_vector);
            assert(v & 0xffffusize <= 0xffffusize) by (bit_vector);
        }
        (v & !clear_mask) as u16
    }

    /// Rebuilds the machine address by putting the real root back into
    /// the low sixteen bits.
    pub fn translate(&self, real_root: u16) -> (r: usize)
        ensures
            r == (self.0 & !0xffffusize) | real_root as usize,
    {
        let clear_mask: usize = (!0usize) << 16usize;
        let v = self.0;
        proof {
            assert((!0usize) << 16usize == !0xffffusize) by (bit_vector);
        }
        (v & clear_mask) | (real_root as usize)
    }
}

} // verus!
