//! The driver-side handle for a registered host variable: a fabricated
//! simulator virtual address plus the host pointer, carried as a plain
//! integer for diagnostics and never dereferenced by the core.

use vstd::prelude::*;

verus! {

#[derive(Copy, Clone, Debug)]
pub struct Pointer {
    pub(crate) vaddr: u32,
    pub(crate) ptr: usize,
}

impl Pointer {
    pub open(crate) spec fn spec_vaddr(self) -> u32 {
        self.vaddr
    }

    pub open(crate) spec fn spec_ptr(self) -> usize {
        self.ptr
    }

    /// Wrap a fabricated virtual address and the host pointer's value.
    pub fn new(vaddr: u32, ptr: usize) -> (r: Self)
        ensures
            r.spec_vaddr() == vaddr,
            r.spec_ptr() == ptr,
    {
        Self { vaddr, ptr }
    }

    pub fn vaddr(&self) -> (r: u32)
        ensures
            r == self.spec_vaddr(),
    {
        self.vaddr
    }

    /// The host pointer, as a plain integer.
    pub fn as_ptr(&self) -> (r: usize)
        ensures
            r == self.spec_ptr(),
    {
        self.ptr
    }
}

} // verus!
