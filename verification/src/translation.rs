//! Translation helpers for the diagnostic dump: a full page walk over a
//! raw directory frame and a slice of table frames.

use vstd::prelude::*;
use crate::frames::Page;
use crate::process::raw_to_u32;
use crate::ptable::{entry_ppn, spec_dir_index, spec_offset, spec_table_index};
use crate::words::{align_down, word_at};

verus! {

pub enum Address {
    Virtual(u32),
    Physical(u32),
}

/// The directory entry a virtual address selects in a raw directory frame.
pub open spec fn spec_dir_entry(dir: Page, vaddr: u32) -> u32 {
    word_at(dir.bytes(), spec_dir_index(vaddr) as int)
}

/// The physical address a walk of the tables yields for a virtual address.
pub open spec fn spec_walk_paddr(dir: Page, tables: Seq<Page>, vaddr: u32) -> u32 {
    let table = tables[entry_ppn(spec_dir_entry(dir, vaddr)) as int];
    let entry = word_at(table.bytes(), spec_table_index(vaddr) as int);
    (entry_ppn(entry) << 12u32) | spec_offset(vaddr)
}

impl Address {
    /// Resolve a virtual address through the given directory and tables;
    /// a physical address maps straight back to a virtual one.
    pub fn translate(&self, dir: &Page, tables: &Vec<Page>) -> (r: Self)
        requires
            *self matches Address::Virtual(vaddr) ==> ({
                &&& dir.wf()
                &&& entry_ppn(spec_dir_entry(*dir, vaddr)) < tables@.len()
                &&& tables@[entry_ppn(spec_dir_entry(*dir, vaddr)) as int].wf()
                &&& dir.spec_ppn() != 0
                &&& tables@[entry_ppn(spec_dir_entry(*dir, vaddr)) as int].spec_ppn() != 0
            }),
        ensures
            ({
                match *self {
                    Address::Virtual(vaddr) => r
                        == Address::Physical(spec_walk_paddr(*dir, tables@, vaddr)),
                    Address::Physical(paddr) => r == Address::Virtual(paddr),
                }
            }),
    {
        match *self {
            Self::Virtual(vaddr) => {
                proof {
                    crate::ptable::lemma_split_bounds(vaddr);
                }
                let dir_index = ((vaddr >> 22u32) & 0x3FF) as usize;
                let table_index = ((vaddr >> 12u32) & 0x3FF) as usize;
                let offset = vaddr & 0xFFF;
                proof {
                    assert((4 * (dir_index as int)) % 4 == 0) by (nonlinear_arith);
                    assert(align_down(4 * (dir_index as int), 4) == 4 * (dir_index as int));
                }
                let dword = raw_to_u32(dir.read(dir_index * 4, 4).as_slice());
                let dir_ppn = (dword >> 12u32) & 0xFFFFF;
                proof {
                    assert((dword >> 12u32) & 0xFFFFF == dword >> 12u32) by (bit_vector);
                    assert(dir_ppn == entry_ppn(spec_dir_entry(*dir, vaddr)));
                    assert((4 * (table_index as int)) % 4 == 0) by (nonlinear_arith);
                    assert(align_down(4 * (table_index as int), 4)
                        == 4 * (table_index as int));
                }
                let table = &tables[dir_ppn as usize];
                let entry = raw_to_u32(table.read(table_index * 4, 4).as_slice());
                let table_ppn = (entry >> 12u32) & 0xFFFFF;
                proof {
                    assert((entry >> 12u32) & 0xFFFFF == entry >> 12u32) by (bit_vector);
                }
                let paddr = (table_ppn << 12u32) | offset;
                Self::Physical(paddr)
            },
            Self::Physical(paddr) => Address::Virtual(paddr),
        }
    }

    pub fn get_address(&self) -> (r: u32)
        ensures
            ({
                match *self {
                    Address::Virtual(vaddr) => r == vaddr,
                    Address::Physical(paddr) => r == paddr,
                }
            }),
    {
        match *self {
            Self::Virtual(vaddr) => vaddr,
            Self::Physical(paddr) => paddr,
        }
    }
}

} // verus!
