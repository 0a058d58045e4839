//! Page-table entries and address decomposition.
//!
//! A page-table entry (PTE) is a packed 32-bit word: bits 12..31 hold a
//! 20-bit physical page number, bits 0..8 hold flag bits.  A 32-bit virtual
//! address decomposes into a 10-bit directory index, a 10-bit table index
//! and a 12-bit page offset.

use vstd::prelude::*;

verus! {

pub type PTE = PageTableEntry;

pub const KERNBASE: u32 = 0x80000000;
pub const PDXSHIFT: u32 = 22;
pub const PTXSHIFT: u32 = 12;
pub const PAGESIZE: usize = 4096;

#[derive(Copy, Clone, PartialEq, Eq, Structural, Debug)]
pub enum Flag {
    Present,
    Writable,
    User,
    WriteThrough,
    CacheDisable,
    Accessed,
    Dirty,
    Protected,
    Zero,
}

/// Bit position of a flag within the low 12 bits of an entry word.
pub open spec fn flag_shift(f: Flag) -> u32 {
    match f {
        Flag::Present => 0,
        Flag::Writable => 1,
        Flag::User => 2,
        Flag::WriteThrough => 3,
        Flag::CacheDisable => 4,
        Flag::Accessed => 5,
        Flag::Dirty => 6,
        Flag::Protected => 7,
        Flag::Zero => 8,
    }
}

/// Whether a flag bit is set in a raw entry word.
pub open spec fn entry_has_flag(w: u32, f: Flag) -> bool {
    (w >> flag_shift(f)) & 1 == 1
}

/// The frame-address part of an entry word: the low 12 flag bits masked off.
pub open spec fn entry_address(w: u32) -> u32 {
    w & !0xFFFu32
}

/// The physical page number held in bits 12..31 of an entry word.
pub open spec fn entry_ppn(w: u32) -> u32 {
    w >> 12u32
}

/// The directory index of a virtual address: bits 22..31.
pub open spec fn spec_dir_index(v: u32) -> u32 {
    (v >> 22u32) & 0x3FF
}

/// The table index of a virtual address: bits 12..21.
pub open spec fn spec_table_index(v: u32) -> u32 {
    (v >> 12u32) & 0x3FF
}

/// The page offset of a virtual address: bits 0..11.
pub open spec fn spec_offset(v: u32) -> u32 {
    v & 0xFFF
}

/// The base address of the page containing a virtual address.
pub open spec fn spec_page_base(v: u32) -> u32 {
    v & !0xFFFu32
}

/// The page base made of a directory index and a table index.
pub open spec fn base_from_indices(d: u32, t: u32) -> u32 {
    (d << 22u32) | (t << 12u32)
}

/// A page base splits back into the indices it was made of.
pub proof fn lemma_base_indices(d: u32, t: u32)
    by (bit_vector)
    requires
        d < 1024,
        t < 1024,
    ensures
        spec_dir_index(base_from_indices(d, t)) == d,
        spec_table_index(base_from_indices(d, t)) == t,
        spec_page_base(base_from_indices(d, t)) == base_from_indices(d, t),
        spec_offset(base_from_indices(d, t)) == 0,
{
}

/// The page base of an address is made of the address's own indices.
pub proof fn lemma_base_decompose(va: u32)
    by (bit_vector)
    ensures
        base_from_indices(spec_dir_index(va), spec_table_index(va)) == spec_page_base(va),
        spec_dir_index(spec_page_base(va)) == spec_dir_index(va),
        spec_table_index(spec_page_base(va)) == spec_table_index(va),
{
}

/// The all-zero entry word has no flag set and page number zero.
pub proof fn lemma_zero_entry()
    ensures
        forall|g: Flag| !(#[trigger] entry_has_flag(0u32, g)),
        entry_ppn(0u32) == 0,
{
    assert forall|g: Flag| !(#[trigger] entry_has_flag(0u32, g)) by {
        lemma_flag_shift_low(g);
        let j = flag_shift(g);
        assert(j < 12 ==> (0u32 >> j) & 1 == 0) by (bit_vector);
    }
    assert(0u32 >> 12u32 == 0) by (bit_vector);
}

proof fn lemma_or_bit(a: u32, i: u32, j: u32)
    by (bit_vector)
    requires
        i < 12,
        j < 12,
    ensures
        ((a | (1u32 << i)) >> i) & 1 == 1,
        i != j ==> ((a | (1u32 << i)) >> j) & 1 == (a >> j) & 1,
        (a | (1u32 << i)) & !0xFFFu32 == a & !0xFFFu32,
        (a | (1u32 << i)) >> 12u32 == a >> 12u32,
{
}

proof fn lemma_and_not_bit(a: u32, i: u32, j: u32)
    by (bit_vector)
    requires
        i < 12,
        j < 12,
    ensures
        ((a & !(1u32 << i)) >> i) & 1 == 0,
        i != j ==> ((a & !(1u32 << i)) >> j) & 1 == (a >> j) & 1,
        (a & !(1u32 << i)) & !0xFFFu32 == a & !0xFFFu32,
        (a & !(1u32 << i)) >> 12u32 == a >> 12u32,
{
}

proof fn lemma_mask_address(a: u32, j: u32)
    by (bit_vector)
    requires
        j < 12,
    ensures
        ((a & !0xFFFu32) >> j) & 1 == 0,
        (a & !0xFFFu32) & !0xFFFu32 == a & !0xFFFu32,
        (a & !0xFFFu32) >> 12u32 == a >> 12u32,
{
}

proof fn lemma_ppn_shift(p: u32, j: u32)
    by (bit_vector)
    requires
        p < 0x100000,
        j < 12,
    ensures
        ((p << 12u32) & !0xFFFu32) == p << 12u32,
        (p << 12u32) >> 12u32 == p,
        ((p << 12u32) >> j) & 1 == 0,
{
}

/// The three fields of a split virtual address are in range.
pub proof fn lemma_split_bounds(v: u32)
    ensures
        spec_dir_index(v) < 1024,
        spec_table_index(v) < 1024,
        spec_offset(v) < 4096,
{
    assert((v >> 22u32) & 0x3FF < 1024 && (v >> 12u32) & 0x3FF < 1024 && v & 0xFFF < 4096)
        by (bit_vector);
}

/// Every flag lives strictly below bit 12, the first address bit.
proof fn lemma_flag_shift_low(f: Flag)
    ensures
        flag_shift(f) < 12,
{
}

/// Distinct flags occupy distinct bit positions.
proof fn lemma_flag_shift_injective(f: Flag, g: Flag)
    ensures
        f != g ==> flag_shift(f) != flag_shift(g),
{
}

/// Setting one flag bit sets exactly that flag and keeps the address part.
proof fn lemma_set_flag_effect(a: u32, f: Flag)
    ensures
        forall|g: Flag|
            #[trigger] entry_has_flag(a | (1u32 << flag_shift(f)), g)
                == (g == f || entry_has_flag(a, g)),
        entry_address(a | (1u32 << flag_shift(f))) == entry_address(a),
        entry_ppn(a | (1u32 << flag_shift(f))) == entry_ppn(a),
{
    lemma_flag_shift_low(f);
    assert forall|g: Flag|
        #[trigger] entry_has_flag(a | (1u32 << flag_shift(f)), g)
            == (g == f || entry_has_flag(a, g)) by {
        lemma_flag_shift_low(g);
        lemma_flag_shift_injective(f, g);
        lemma_or_bit(a, flag_shift(f), flag_shift(g));
    }
    lemma_or_bit(a, flag_shift(f), flag_shift(f));
}

/// Clearing one flag bit clears exactly that flag and keeps the address part.
proof fn lemma_clear_flag_effect(a: u32, f: Flag)
    ensures
        forall|g: Flag|
            #[trigger] entry_has_flag(a & !(1u32 << flag_shift(f)), g)
                == (g != f && entry_has_flag(a, g)),
        entry_address(a & !(1u32 << flag_shift(f))) == entry_address(a),
        entry_ppn(a & !(1u32 << flag_shift(f))) == entry_ppn(a),
{
    lemma_flag_shift_low(f);
    assert forall|g: Flag|
        #[trigger] entry_has_flag(a & !(1u32 << flag_shift(f)), g)
            == (g != f && entry_has_flag(a, g)) by {
        lemma_flag_shift_low(g);
        lemma_flag_shift_injective(f, g);
        lemma_and_not_bit(a, flag_shift(f), flag_shift(g));
    }
    lemma_and_not_bit(a, flag_shift(f), flag_shift(f));
}

/// A masked address word has no flag set and keeps its upper 20 bits.
proof fn lemma_masked_word_flags(a: u32)
    ensures
        forall|g: Flag| !(#[trigger] entry_has_flag(a & !0xFFFu32, g)),
        entry_address(a & !0xFFFu32) == entry_address(a),
        entry_ppn(a & !0xFFFu32) == entry_ppn(a),
{
    assert forall|g: Flag| !(#[trigger] entry_has_flag(a & !0xFFFu32, g)) by {
        lemma_flag_shift_low(g);
        lemma_mask_address(a, flag_shift(g));
    }
    lemma_mask_address(a, 0);
}

#[derive(Clone, Copy, Debug)]
pub struct PageTableEntry(pub(crate) u32);

impl PageTableEntry {
    /// The raw 32-bit word of the entry.
    pub open(crate) spec fn raw(self) -> u32 {
        self.0
    }

    /// A fresh entry holding the given physical page number and no flags.
    pub fn new(ppn: u32) -> (r: Self)
        requires
            ppn < 0x100000,
        ensures
            r.raw() == ppn << 12u32,
            entry_ppn(r.raw()) == ppn,
            entry_address(r.raw()) == r.raw(),
            forall|g: Flag| !(#[trigger] entry_has_flag(r.raw(), g)),
    {
        proof {
            lemma_ppn_shift(ppn, 0);
            assert forall|g: Flag| !(#[trigger] entry_has_flag(ppn << 12u32, g)) by {
                lemma_flag_shift_low(g);
                lemma_ppn_shift(ppn, flag_shift(g));
            }
            lemma_masked_word_flags(ppn << 12u32);
        }
        Self((ppn << PTXSHIFT) & !0xFFFu32)
    }

    pub fn get_flag(&self, flag: Flag) -> (r: bool)
        ensures
            r == entry_has_flag(self.raw(), flag),
    {
        match flag {
            Flag::Present => (self.0 >> 0u32) & 1 == 1,
            Flag::Writable => (self.0 >> 1u32) & 1 == 1,
            Flag::User => (self.0 >> 2u32) & 1 == 1,
            Flag::WriteThrough => (self.0 >> 3u32) & 1 == 1,
            Flag::CacheDisable => (self.0 >> 4u32) & 1 == 1,
            Flag::Accessed => (self.0 >> 5u32) & 1 == 1,
            Flag::Dirty => (self.0 >> 6u32) & 1 == 1,
            Flag::Protected => (self.0 >> 7u32) & 1 == 1,
            Flag::Zero => (self.0 >> 8u32) & 1 == 1,
        }
    }

    pub fn set_flag(&mut self, flag: Flag)
        ensures
            forall|g: Flag|
                #[trigger] entry_has_flag(final(self).raw(), g)
                    == (g == flag || entry_has_flag(old(self).raw(), g)),
            entry_address(final(self).raw()) == entry_address(old(self).raw()),
            entry_ppn(final(self).raw()) == entry_ppn(old(self).raw()),
    {
        proof {
            lemma_set_flag_effect(self.0, flag);
        }
        match flag {
            Flag::Present => self.0 = self.0 | (1u32 << 0u32),
            Flag::Writable => self.0 = self.0 | (1u32 << 1u32),
            Flag::User => self.0 = self.0 | (1u32 << 2u32),
            Flag::WriteThrough => self.0 = self.0 | (1u32 << 3u32),
            Flag::CacheDisable => self.0 = self.0 | (1u32 << 4u32),
            Flag::Accessed => self.0 = self.0 | (1u32 << 5u32),
            Flag::Dirty => self.0 = self.0 | (1u32 << 6u32),
            Flag::Protected => self.0 = self.0 | (1u32 << 7u32),
            Flag::Zero => self.0 = self.0 | (1u32 << 8u32),
        }
    }

    pub fn clear_flag(&mut self, flag: Flag)
        ensures
            forall|g: Flag|
                #[trigger] entry_has_flag(final(self).raw(), g)
                    == (g != flag && entry_has_flag(old(self).raw(), g)),
            entry_address(final(self).raw()) == entry_address(old(self).raw()),
            entry_ppn(final(self).raw()) == entry_ppn(old(self).raw()),
    {
        proof {
            lemma_clear_flag_effect(self.0, flag);
        }
        match flag {
            Flag::Present => self.0 = self.0 & !(1u32 << 0u32),
            Flag::Writable => self.0 = self.0 & !(1u32 << 1u32),
            Flag::User => self.0 = self.0 & !(1u32 << 2u32),
            Flag::WriteThrough => self.0 = self.0 & !(1u32 << 3u32),
            Flag::CacheDisable => self.0 = self.0 & !(1u32 << 4u32),
            Flag::Accessed => self.0 = self.0 & !(1u32 << 5u32),
            Flag::Dirty => self.0 = self.0 & !(1u32 << 6u32),
            Flag::Protected => self.0 = self.0 & !(1u32 << 7u32),
            Flag::Zero => self.0 = self.0 & !(1u32 << 8u32),
        }
    }

    pub fn get_ppn(&self) -> (r: usize)
        ensures
            r == entry_ppn(self.raw()) as usize,
            r < 0x100000,
    {
        let w = self.0;
        proof {
            assert(w >> 12u32 < 0x100000) by (bit_vector);
        }
        (w >> PTXSHIFT) as usize
    }

    /// Replace the whole entry: the address part of `pa` plus exactly the
    /// given flags.
    pub fn set(&mut self, pa: u32, flags: &[Flag])
        ensures
            entry_address(final(self).raw()) == entry_address(pa),
            entry_ppn(final(self).raw()) == entry_ppn(pa),
            forall|g: Flag|
                #[trigger] entry_has_flag(final(self).raw(), g) == flags@.contains(g),
    {
        proof {
            lemma_masked_word_flags(pa);
        }
        self.0 = pa & !0xFFFu32;
        let mut k: usize = 0;
        while k < flags.len()
            invariant
                k <= flags.len(),
                entry_address(self.0) == entry_address(pa),
                entry_ppn(self.0) == entry_ppn(pa),
                forall|g: Flag|
                    #[trigger] entry_has_flag(self.0, g)
                        == flags@.subrange(0, k as int).contains(g),
            decreases flags.len() - k,
        {
            let f = flags[k];
            self.set_flag(f);
            proof {
                assert(flags@.subrange(0, k + 1 as int)
                    =~= flags@.subrange(0, k as int).push(flags@[k as int]));
                assert forall|g: Flag|
                    #[trigger] flags@.subrange(0, k + 1 as int).contains(g)
                        == (g == f || flags@.subrange(0, k as int).contains(g)) by {
                    let sub = flags@.subrange(0, k as int);
                    if g == f || sub.contains(g) {
                        if g == f {
                            assert(sub.push(f)[k as int] == g);
                        } else {
                            let i = choose|i: int| 0 <= i < sub.len() && sub[i] == g;
                            assert(sub.push(f)[i] == g);
                        }
                    } else {
                        if sub.push(f).contains(g) {
                            let i = choose|i: int|
                                0 <= i < sub.push(f).len() && sub.push(f)[i] == g;
                            assert(i < sub.len() ==> sub[i] == g);
                        }
                    }
                }
            }
            k = k + 1;
        }
        proof {
            assert(flags@.subrange(0, flags@.len() as int) =~= flags@);
        }
    }

    pub fn get_address(&self) -> (r: u32)
        ensures
            r == entry_address(self.raw()),
    {
        self.0 & !0xFFFu32
    }

    pub fn get(&self) -> (r: u32)
        ensures
            r == self.raw(),
    {
        self.0
    }

    /// Wrap a raw 32-bit word read back from a page frame.
    pub fn from(num: u32) -> (r: Self)
        ensures
            r.raw() == num,
    {
        Self(num)
    }
}

#[derive(Clone, Copy, Eq, PartialEq, Structural, Debug)]
pub enum Address {
    Virtual(u32, usize),
    Physical(u32, usize),
}

/// The 32-bit address held in either variant.
pub open spec fn spec_address(a: Address) -> u32 {
    match a {
        Address::Virtual(v, _) => v,
        Address::Physical(p, _) => p,
    }
}

/// The host pointer payload carried alongside the address.
pub open spec fn spec_address_ptr(a: Address) -> usize {
    match a {
        Address::Virtual(_, p) => p,
        Address::Physical(_, p) => p,
    }
}

/// Translation between the simulator's virtual and physical address spaces
/// is a pure bias by `KERNBASE`.
pub open spec fn spec_translate(a: Address) -> Address {
    match a {
        Address::Virtual(v, p) => Address::Physical((v - KERNBASE) as u32, p),
        Address::Physical(q, p) => Address::Virtual((q + KERNBASE) as u32, p),
    }
}

/// The inputs on which `translate` neither underflows nor overflows.
pub open spec fn translatable(a: Address) -> bool {
    match a {
        Address::Virtual(v, _) => v >= KERNBASE,
        Address::Physical(q, _) => q < KERNBASE,
    }
}

/// Translating twice returns to the original address, for every address
/// in range on both legs.
pub proof fn lemma_translate_round_trip(a: Address)
    requires
        translatable(a),
    ensures
        translatable(spec_translate(a)),
        spec_translate(spec_translate(a)) == a,
{
}

impl Address {
    pub fn translate(&self) -> (r: Self)
        requires
            translatable(*self),
        ensures
            r == spec_translate(*self),
    {
        match *self {
            Self::Virtual(vaddr, ptr) => Self::Physical(vaddr - KERNBASE, ptr),
            Self::Physical(paddr, ptr) => Self::Virtual(paddr + KERNBASE, ptr),
        }
    }

    pub fn get_address(&self) -> (r: u32)
        ensures
            r == spec_address(*self),
    {
        match *self {
            Self::Virtual(vaddr, _) => vaddr,
            Self::Physical(paddr, _) => paddr,
        }
    }

    pub fn get_dir_index(&self) -> (r: usize)
        ensures
            self is Virtual ==> r == spec_dir_index(spec_address(*self)) as usize,
            self is Physical ==> r == 0,
            r < 1024,
    {
        proof {
            lemma_split_bounds(spec_address(*self));
        }
        match *self {
            Self::Virtual(vaddr, _) => ((vaddr >> PDXSHIFT) & 0x3FF) as usize,
            Self::Physical(_, _) => 0,
        }
    }

    pub fn get_table_index(&self) -> (r: usize)
        ensures
            self is Virtual ==> r == spec_table_index(spec_address(*self)) as usize,
            self is Physical ==> r == 0,
            r < 1024,
    {
        proof {
            lemma_split_bounds(spec_address(*self));
        }
        match *self {
            Self::Virtual(vaddr, _) => ((vaddr >> PTXSHIFT) & 0x3FF) as usize,
            Self::Physical(_, _) => 0,
        }
    }

    /// The host pointer payload, as a plain integer.
    pub fn get_ptr(&self) -> (r: usize)
        ensures
            r == spec_address_ptr(*self),
    {
        match *self {
            Self::Virtual(_, ptr) => ptr,
            Self::Physical(_, ptr) => ptr,
        }
    }

    pub fn get_offset(&self) -> (r: u32)
        ensures
            r == spec_offset(spec_address(*self)),
            r < 4096,
    {
        proof {
            lemma_split_bounds(spec_address(*self));
        }
        match *self {
            Self::Virtual(vaddr, _) => vaddr & 0xFFF,
            Self::Physical(paddr, _) => paddr & 0xFFF,
        }
    }
}

#[derive(Copy, Clone, Debug)]
pub struct Virtual(pub(crate) Address);

impl Virtual {
    /// The wrapped address value.
    pub open(crate) spec fn addr(self) -> Address {
        self.0
    }

    pub fn new(vaddr: u32, ptr: usize) -> (r: Self)
        ensures
            r.addr() == Address::Virtual(vaddr, ptr),
    {
        Self(Address::Virtual(vaddr, ptr))
    }

    pub fn get(&self) -> (r: Address)
        ensures
            r == self.addr(),
    {
        self.0
    }

    pub fn as_phys(&self) -> (r: Physical)
        requires
            self.addr() is Virtual,
            translatable(self.addr()),
        ensures
            r.addr() == Address::Physical(
                spec_address(spec_translate(self.addr())),
                spec_address_ptr(self.addr()),
            ),
    {
        Physical::new(self.0.translate().get_address(), self.0.get_ptr())
    }
}

#[derive(Copy, Clone, Debug)]
pub struct Physical(pub(crate) Address);

impl Physical {
    /// The wrapped address value.
    pub open(crate) spec fn addr(self) -> Address {
        self.0
    }

    pub fn new(paddr: u32, ptr: usize) -> (r: Self)
        ensures
            r.addr() == Address::Physical(paddr, ptr),
    {
        Self(Address::Physical(paddr, ptr))
    }

    pub fn get(&self) -> (r: Address)
        ensures
            r == self.addr(),
    {
        self.0
    }

    /// Combine a page-aligned frame address with an offset.
    pub fn from(ppn: u32, offset: u32, ptr: usize) -> (r: Self)
        ensures
            r.addr() == Address::Physical(ppn | offset, ptr),
    {
        let paddr = ppn | offset;
        Self(Address::Physical(paddr, ptr))
    }
}

} // verus!
