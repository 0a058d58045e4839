//! Physical page frames and the process-wide frame pool.
//!
//! The pool owns a fixed arena of 32 frames, indexed by physical page
//! number.  Frame 0 is the shared ZERO frame: always zeroed, never written,
//! never allocated.  Frames 1..31 move between a LIFO free list and a used
//! list as they are allocated and released.

use vstd::prelude::*;
use crate::words::{all_zero, align_down, lemma_align_down};

verus! {

/// No page number occurs twice in the sequence.
pub open spec fn distinct_seq(s: Seq<u32>) -> bool {
    forall|i: int, j: int| #![trigger s[i], s[j]] 0 <= i < j < s.len() ==> s[i] != s[j]
}

proof fn lemma_drop_last_distinct(s: Seq<u32>)
    requires
        distinct_seq(s),
        s.len() > 0,
    ensures
        distinct_seq(s.drop_last()),
        !s.drop_last().contains(s.last()),
{
    assert forall|i: int, j: int| #![trigger s.drop_last()[i], s.drop_last()[j]]
        0 <= i < j < s.drop_last().len() implies s.drop_last()[i] != s.drop_last()[j] by {
        assert(s.drop_last()[i] == s[i]);
        assert(s.drop_last()[j] == s[j]);
    }
    if s.drop_last().contains(s.last()) {
        let i = choose|i: int| 0 <= i < s.drop_last().len() && s.drop_last()[i] == s.last();
        assert(s[i] == s[s.len() - 1]);
    }
}

pub(crate) proof fn lemma_push_distinct(s: Seq<u32>, v: u32)
    requires
        distinct_seq(s),
        !s.contains(v),
    ensures
        distinct_seq(s.push(v)),
{
    assert forall|i: int, j: int| #![trigger s.push(v)[i], s.push(v)[j]]
        0 <= i < j < s.push(v).len() implies s.push(v)[i] != s.push(v)[j] by {
        if j < s.len() {
            assert(s.push(v)[i] == s[i] && s.push(v)[j] == s[j]);
        } else {
            assert(s.push(v)[j] == v);
            assert(s.push(v)[i] == s[i]);
            assert(s.contains(s[i]) || s[i] != v);
        }
    }
}

/// Pushing extends membership by exactly the pushed value.
pub(crate) proof fn lemma_push_contains(s: Seq<u32>, v: u32)
    ensures
        forall|y: u32| #[trigger] s.push(v).contains(y) == (s.contains(y) || y == v),
{
    assert forall|y: u32| #[trigger] s.push(v).contains(y) == (s.contains(y) || y == v) by {
        if s.contains(y) {
            let i = choose|i: int| 0 <= i < s.len() && s[i] == y;
            assert(s.push(v)[i] == y);
        }
        if y == v {
            assert(s.push(v)[s.len() as int] == y);
        }
        if s.push(v).contains(y) {
            let i = choose|i: int| 0 <= i < s.push(v).len() && s.push(v)[i] == y;
            if i < s.len() {
                assert(s[i] == y);
            }
        }
    }
}

proof fn lemma_remove_distinct(s: Seq<u32>, i: int)
    requires
        distinct_seq(s),
        0 <= i < s.len(),
    ensures
        distinct_seq(s.remove(i)),
        !s.remove(i).contains(s[i]),
        forall|q: u32| q != s[i] ==> s.remove(i).contains(q) == s.contains(q),
{
    let t = s.remove(i);
    assert forall|a: int, b: int| #![trigger t[a], t[b]]
        0 <= a < b < t.len() implies t[a] != t[b] by {
        assert(t[a] == if a < i { s[a] } else { s[a + 1] });
        assert(t[b] == if b < i { s[b] } else { s[b + 1] });
    }
    if t.contains(s[i]) {
        let k = choose|k: int| 0 <= k < t.len() && t[k] == s[i];
        assert(t[k] == if k < i { s[k] } else { s[k + 1] });
    }
    assert forall|q: u32| q != s[i] implies t.contains(q) == s.contains(q) by {
        if t.contains(q) {
            let k = choose|k: int| 0 <= k < t.len() && t[k] == q;
            assert(t[k] == if k < i { s[k] } else { s[k + 1] });
            assert(s.contains(q));
        }
        if s.contains(q) {
            let k = choose|k: int| 0 <= k < s.len() && s[k] == q;
            if k < i {
                assert(t[k] == s[k]);
            } else {
                assert(k > i);
                assert(t[k - 1] == s[k]);
            }
            assert(t.contains(q));
        }
    }
}

/// A sequence without duplicates is no longer than one that holds all its
/// members.
pub(crate) proof fn lemma_distinct_members_le(s: Seq<u32>, t: Seq<u32>)
    requires
        distinct_seq(s),
        forall|i: int| 0 <= i < s.len() ==> t.contains(#[trigger] s[i]),
    ensures
        s.len() <= t.len(),
{
    broadcast use vstd::seq_lib::group_seq_properties;
    assert(s.no_duplicates());
    s.unique_seq_to_set();
    assert forall|x: u32| s.to_set().contains(x) implies t.to_set().contains(x) by {
        assert(s.contains(x));
        let i = choose|i: int| 0 <= i < s.len() && s[i] == x;
        assert(t.contains(s[i]));
    }
    assert(s.to_set().subset_of(t.to_set()));
    t.lemma_cardinality_of_set();
    vstd::set_lib::lemma_len_subset(s.to_set(), t.to_set());
}

/// A duplicate-free sequence of page numbers drawn from 1..31 holds at
/// most 31 entries.
pub(crate) proof fn lemma_range_distinct_len(s: Seq<u32>)
    requires
        distinct_seq(s),
        forall|i: int| 0 <= i < s.len() ==> 1 <= #[trigger] s[i] < 32,
    ensures
        s.len() <= 31,
{
    let t = Seq::new(31, |i: int| (i + 1) as u32);
    assert forall|i: int| 0 <= i < s.len() implies t.contains(#[trigger] s[i]) by {
        assert(t[s[i] as int - 1] == s[i]);
    }
    lemma_distinct_members_le(s, t);
}

/// A physical page frame: a 4096-byte payload tagged with its physical
/// page number, and the number of address-space entries referencing it.
pub struct Page {
    pub(crate) data: Vec<u8>,
    pub(crate) ref_count: usize,
    pub(crate) ppn: u32,
}

impl Page {
    /// The payload bytes.
    pub open(crate) spec fn bytes(self) -> Seq<u8> {
        self.data@
    }

    pub open(crate) spec fn spec_ppn(self) -> u32 {
        self.ppn
    }

    pub open(crate) spec fn spec_refs(self) -> usize {
        self.ref_count
    }

    /// The payload is page-sized, the page number fits the 20-bit PPN
    /// field, and the ZERO frame stays all zeros and unreferenced.
    pub open(crate) spec fn wf(self) -> bool {
        &&& self.data@.len() == 4096
        &&& self.ppn < 0x100000
        &&& (self.ppn == 0 ==> all_zero(self.data@) && self.ref_count == 0)
    }

    /// A detached zero-filled frame with the given page number.
    pub fn new(ppn: u32) -> (r: Self)
        requires
            ppn < 0x100000,
        ensures
            r.wf(),
            r.spec_ppn() == ppn,
            r.spec_refs() == 0,
            all_zero(r.bytes()),
    {
        let mut data: Vec<u8> = Vec::new();
        let mut i: usize = 0;
        while i < 4096
            invariant
                i <= 4096,
                data@.len() == i,
                all_zero(data@),
            decreases 4096 - i,
        {
            data.push(0);
            i = i + 1;
        }
        Self { data, ref_count: 0, ppn }
    }

    /// The `size` bytes of the naturally aligned slot of width `size`
    /// containing `index`.  The ZERO frame reads as zeros at any index.
    pub fn read(&self, index: usize, size: usize) -> (r: Vec<u8>)
        requires
            self.wf(),
            1 <= size,
            index < 4096,
            4096 as int % size as int == 0,
        ensures
            r@.len() == size,
            self.spec_ppn() == 0 ==> all_zero(r@),
            self.spec_ppn() != 0 ==> forall|i: int|
                0 <= i < size
                    ==> r@[i] == self.bytes()[align_down(index as int, size as int) + i],
    {
        proof {
            lemma_align_down(index as int, size as int, 4096);
        }
        if self.ppn == 0 {
            let mut r: Vec<u8> = Vec::new();
            let mut i: usize = 0;
            while i < size
                invariant
                    i <= size,
                    r@.len() == i,
                    all_zero(r@),
                decreases size - i,
            {
                r.push(0);
                i = i + 1;
            }
            return r;
        }
        let s = index - index % size;
        let mut r: Vec<u8> = Vec::new();
        let mut i: usize = 0;
        while i < size
            invariant
                i <= size,
                r@.len() == i,
                self.wf(),
                s == align_down(index as int, size as int),
                s + size <= 4096,
                forall|k: int| 0 <= k < i ==> r@[k] == self.bytes()[s + k],
            decreases size - i,
        {
            r.push(self.data[s + i]);
            i = i + 1;
        }
        r
    }

    /// Write up to `size` bytes at the aligned slot containing `index`:
    /// extra source bytes are dropped, missing source bytes leave the
    /// tail of the slot unchanged.  The ZERO frame is never written.
    pub fn write(&mut self, index: usize, size: usize, data: &[u8])
        requires
            old(self).wf(),
            old(self).spec_ppn() != 0,
            1 <= size,
            index < 4096,
            4096 as int % size as int == 0,
        ensures
            final(self).wf(),
            final(self).spec_ppn() == old(self).spec_ppn(),
            final(self).spec_refs() == old(self).spec_refs(),
            final(self).bytes().len() == 4096,
            forall|k: int| 0 <= k < 4096 ==> final(self).bytes()[k] == ({
                let s = align_down(index as int, size as int);
                let n = if size <= data@.len() { size as int } else { data@.len() as int };
                if s <= k < s + n { data@[k - s] } else { old(self).bytes()[k] }
            }),
    {
        proof {
            lemma_align_down(index as int, size as int, 4096);
        }
        let s = index - index % size;
        let mut i: usize = 0;
        while i < size
            invariant
                i <= size,
                s == align_down(index as int, size as int),
                s + size <= 4096,
                self.data@.len() == 4096,
                self.ppn == old(self).ppn,
                self.ppn != 0,
                self.ref_count == old(self).ref_count,
                forall|k: int| 0 <= k < 4096 ==> self.data@[k] == ({
                    let n = if i <= data@.len() { i as int } else { data@.len() as int };
                    if s <= k < s + n { data@[k - s] } else { old(self).bytes()[k] }
                }),
            decreases size - i,
        {
            if i < data.len() {
                self.data.set(s + i, data[i]);
            }
            i = i + 1;
        }
    }

    pub fn ppn(&self) -> (r: u32)
        ensures
            r == self.spec_ppn(),
    {
        self.ppn
    }

    /// Zero the payload in place.
    pub(crate) fn zero(&mut self)
        requires
            old(self).wf(),
            old(self).spec_ppn() != 0,
        ensures
            final(self).wf(),
            final(self).spec_ppn() == old(self).spec_ppn(),
            final(self).spec_refs() == old(self).spec_refs(),
            all_zero(final(self).bytes()),
            final(self).bytes().len() == 4096,
    {
        let mut z: Vec<u8> = Vec::new();
        let mut i: usize = 0;
        while i < 4096
            invariant
                i <= 4096,
                z@.len() == i,
                all_zero(z@),
            decreases 4096 - i,
        {
            z.push(0);
            i = i + 1;
        }
        self.write(0, 4096, z.as_slice());
    }

    pub fn ref_count(&self) -> (r: usize)
        ensures
            r == self.spec_refs(),
    {
        self.ref_count
    }

    pub fn increment_refs(&mut self)
        requires
            old(self).spec_refs() < usize::MAX,
        ensures
            final(self).spec_refs() == old(self).spec_refs() + 1,
            final(self).spec_ppn() == old(self).spec_ppn(),
            final(self).bytes() == old(self).bytes(),
    {
        self.ref_count = self.ref_count + 1;
    }

    pub fn decrement_refs(&mut self)
        requires
            old(self).spec_refs() > 0,
        ensures
            final(self).spec_refs() == old(self).spec_refs() - 1,
            final(self).spec_ppn() == old(self).spec_ppn(),
            final(self).bytes() == old(self).bytes(),
    {
        self.ref_count = self.ref_count - 1;
    }

    /// Copy the other frame's whole payload into this frame.
    pub fn copy(&mut self, other: &Page)
        requires
            old(self).wf(),
            other.wf(),
            old(self).spec_ppn() != 0,
        ensures
            final(self).wf(),
            final(self).spec_ppn() == old(self).spec_ppn(),
            final(self).spec_refs() == old(self).spec_refs(),
            final(self).bytes() == other.bytes(),
    {
        let src = other.read(0, 4096);
        self.write(0, 4096, src.as_slice());
        proof {
            assert(self.bytes() =~= other.bytes());
        }
    }
}

fn page_mut(pages: &mut Vec<Page>, i: usize) -> (r: &mut Page)
    requires
        i < old(pages).len(),
    ensures
        *r == old(pages)@[i as int],
        final(pages)@ == old(pages)@.update(i as int, *final(r)),
{
    &mut pages[i]
}

/// The process-wide pool: an arena of 32 frames indexed by page number,
/// a LIFO free list and a used list of page numbers.
pub struct Memory {
    pub(crate) pages: Vec<Page>,
    pub(crate) free_list: Vec<u32>,
    pub(crate) used_list: Vec<u32>,
}

impl Memory {
    /// The frame with the given page number.
    pub open(crate) spec fn frame(self, ppn: u32) -> Page {
        self.pages@[ppn as int]
    }

    /// The page numbers on the free list, bottom first.
    pub open(crate) spec fn free_seq(self) -> Seq<u32> {
        self.free_list@
    }

    /// The page numbers on the used list, oldest first.
    pub open(crate) spec fn used_seq(self) -> Seq<u32> {
        self.used_list@
    }

    /// Both pools hold the same frames and the same two lists.
    pub open(crate) spec fn same_state(self, other: Memory) -> bool {
        &&& self.free_seq() == other.free_seq()
        &&& self.used_seq() == other.used_seq()
        &&& self.pages@ == other.pages@
    }

    pub open(crate) spec fn is_used(self, ppn: u32) -> bool {
        self.used_list@.contains(ppn)
    }

    pub open(crate) spec fn is_free(self, ppn: u32) -> bool {
        self.free_list@.contains(ppn)
    }

    /// The arena holds the 32 frames in page-number order; the free and
    /// used lists hold page numbers 1..31, without duplicates and without
    /// overlap.
    pub open(crate) spec fn wf(self) -> bool {
        &&& self.pages@.len() == 32
        &&& (forall|i: int| 0 <= i < 32
            ==> (#[trigger] self.pages@[i]).wf() && self.pages@[i].spec_ppn() == i as u32)
        &&& (forall|i: int| 0 <= i < self.free_list@.len()
            ==> 1 <= #[trigger] self.free_list@[i] < 32)
        &&& (forall|i: int| 0 <= i < self.used_list@.len()
            ==> 1 <= #[trigger] self.used_list@[i] < 32)
        &&& distinct_seq(self.free_list@)
        &&& distinct_seq(self.used_list@)
        &&& (forall|i: int, j: int| #![trigger self.free_list@[i], self.used_list@[j]]
            0 <= i < self.free_list@.len() && 0 <= j < self.used_list@.len()
                ==> self.free_list@[i] != self.used_list@[j])
    }

    pub(crate) fn pop_free(&mut self) -> (r: Option<u32>)
        requires
            old(self).wf(),
        ensures
            final(self).wf(),
            old(self).free_list@.len() == 0 ==> r is None && final(self).same_state(*old(self)),
            old(self).free_list@.len() > 0 ==> ({
                let f = old(self).free_list@.last();
                &&& r == Some(f)
                &&& 1 <= f < 32
                &&& final(self).free_list@ == old(self).free_list@.drop_last()
                &&& final(self).used_list@ == old(self).used_list@
                &&& final(self).pages@.len() == 32
                &&& (forall|q: int| 0 <= q < 32 && q != f
                    ==> final(self).pages@[q] == old(self).pages@[q])
                &&& final(self).frame(f).wf()
                &&& final(self).frame(f).spec_ppn() == f
                &&& final(self).frame(f).spec_refs() == 0
                &&& all_zero(final(self).frame(f).bytes())
            }),
    {
        proof {
            if self.free_list@.len() > 0 {
                lemma_drop_last_distinct(self.free_list@);
            }
        }
        match self.free_list.pop() {
            None => None,
            Some(f) => {
                let pg = page_mut(&mut self.pages, f as usize);
                pg.zero();
                pg.ref_count = 0;
                Some(f)
            },
        }
    }

    pub(crate) fn push_free(&mut self, ppn: u32)
        requires
            old(self).wf(),
            1 <= ppn < 32,
            !old(self).is_free(ppn),
            !old(self).is_used(ppn),
        ensures
            final(self).wf(),
            final(self).free_list@ == old(self).free_list@.push(ppn),
            final(self).used_list@ == old(self).used_list@,
            final(self).pages@ == old(self).pages@,
    {
        proof {
            lemma_push_distinct(self.free_list@, ppn);
        }
        self.free_list.push(ppn);
    }

    pub(crate) fn push_used(&mut self, ppn: u32)
        requires
            old(self).wf(),
            1 <= ppn < 32,
            !old(self).is_free(ppn),
            !old(self).is_used(ppn),
        ensures
            final(self).wf(),
            final(self).used_list@ == old(self).used_list@.push(ppn),
            final(self).free_list@ == old(self).free_list@,
            final(self).pages@ == old(self).pages@,
    {
        proof {
            lemma_push_distinct(self.used_list@, ppn);
        }
        self.used_list.push(ppn);
    }

    pub(crate) fn remove_used(&mut self, ppn: u32) -> (r: Option<u32>)
        requires
            old(self).wf(),
        ensures
            final(self).wf(),
            final(self).pages@ == old(self).pages@,
            final(self).free_list@ == old(self).free_list@,
            old(self).is_used(ppn) ==> ({
                &&& r == Some(ppn)
                &&& final(self).used_list@.len() == old(self).used_list@.len() - 1
                &&& !final(self).is_used(ppn)
                &&& (forall|q: u32| q != ppn
                    ==> final(self).is_used(q) == old(self).is_used(q))
            }),
            !old(self).is_used(ppn) ==> r is None && final(self).same_state(*old(self)),
    {
        let n = self.used_list.len();
        let mut idx = n;
        let mut i: usize = 0;
        while i < n
            invariant
                n == self.used_list@.len(),
                i <= n,
                idx == n || (idx < n && self.used_list@[idx as int] == ppn),
                idx == n ==> forall|k: int| 0 <= k < i ==> self.used_list@[k] != ppn,
            decreases n - i,
        {
            if self.used_list[i] == ppn {
                idx = i;
            }
            i = i + 1;
        }
        if idx != n {
            proof {
                lemma_remove_distinct(self.used_list@, idx as int);
            }
            let v = self.used_list.remove(idx);
            Some(v)
        } else {
            proof {
                if self.used_list@.contains(ppn) {
                    let k = choose|k: int|
                        0 <= k < self.used_list@.len() && self.used_list@[k] == ppn;
                    assert(self.used_list@[k] != ppn);
                }
            }
            None
        }
    }

    pub(crate) fn used_peek(&self) -> (r: Option<u32>)
        ensures
            self.used_list@.len() == 0 ==> r is None,
            self.used_list@.len() > 0 ==> r == Some(self.used_list@.last()),
    {
        let n = self.used_list.len();
        if n > 0 {
            Some(self.used_list[n - 1])
        } else {
            None
        }
    }

    /// Pop the top of the free list, zero it, set its reference count to
    /// one and move it to the used list.  Fails exactly when the free
    /// list is empty.
    pub fn kalloc(&mut self) -> (r: Option<u32>)
        requires
            old(self).wf(),
        ensures
            final(self).wf(),
            old(self).free_seq().len() == 0 ==> r is None && final(self).same_state(*old(self)),
            old(self).free_seq().len() > 0 ==> ({
                let f = old(self).free_seq().last();
                &&& r == Some(f)
                &&& 1 <= f < 32
                &&& !old(self).is_used(f)
                &&& final(self).free_seq() == old(self).free_seq().drop_last()
                &&& final(self).used_seq() == old(self).used_seq().push(f)
                &&& (forall|q: u32| q < 32 && q != f
                    ==> final(self).frame(q) == old(self).frame(q))
                &&& final(self).frame(f).wf()
                &&& final(self).frame(f).spec_ppn() == f
                &&& final(self).frame(f).spec_refs() == 1
                &&& all_zero(final(self).frame(f).bytes())
            }),
    {
        proof {
            if self.free_list@.len() > 0 {
                lemma_drop_last_distinct(self.free_list@);
                let f = self.free_list@.last();
                if self.used_list@.contains(f) {
                    let k = choose|k: int|
                        0 <= k < self.used_list@.len() && self.used_list@[k] == f;
                    assert(self.free_list@[self.free_list@.len() - 1]
                        != self.used_list@[k]);
                }
            }
        }
        match self.pop_free() {
            Some(f) => {
                let pg = page_mut(&mut self.pages, f as usize);
                pg.increment_refs();
                self.push_used(f);
                self.used_peek();
                Some(f)
            },
            None => None,
        }
    }

    /// Return a frame to the free list; freeing the ZERO frame is a no-op.
    pub fn kfree(&mut self, ppn: u32)
        requires
            old(self).wf(),
            ppn == 0 || old(self).is_used(ppn),
        ensures
            final(self).wf(),
            ppn == 0 ==> final(self).same_state(*old(self)),
            ppn != 0 ==> ({
                &&& (forall|q: u32| q < 32 ==> final(self).frame(q) == old(self).frame(q))
                &&& final(self).free_seq() == old(self).free_seq().push(ppn)
                &&& final(self).used_seq().len() == old(self).used_seq().len() - 1
                &&& !final(self).is_used(ppn)
                &&& (forall|q: u32| q != ppn
                    ==> final(self).is_used(q) == old(self).is_used(q))
            }),
    {
        if ppn == 0 {
            return;
        }
        proof {
            let k = choose|k: int|
                0 <= k < self.used_list@.len() && self.used_list@[k] == ppn;
            assert(1 <= self.used_list@[k] < 32);
            if self.free_list@.contains(ppn) {
                let j = choose|j: int|
                    0 <= j < self.free_list@.len() && self.free_list@[j] == ppn;
                assert(self.free_list@[j] != self.used_list@[k]);
            }
        }
        self.remove_used(ppn);
        self.push_free(ppn);
    }

    /// Borrow a frame mutably; the rest of the pool is untouched.
    pub(crate) fn frame_mut(&mut self, ppn: u32) -> (r: &mut Page)
        requires
            old(self).pages@.len() == 32,
            ppn < 32,
        ensures
            *r == old(self).frame(ppn),
            final(self).pages@ == old(self).pages@.update(ppn as int, *final(r)),
            final(self).free_seq() == old(self).free_seq(),
            final(self).used_seq() == old(self).used_seq(),
    {
        &mut self.pages[ppn as usize]
    }

    /// The shared ZERO frame.
    pub fn zero_page(&self) -> (r: &Page)
        requires
            self.wf(),
        ensures
            *r == self.frame(0),
            r.spec_ppn() == 0,
            r.wf(),
            all_zero(r.bytes()),
    {
        &self.pages[0]
    }

    /// Borrow the frame with the given page number.
    pub fn page(&self, ppn: u32) -> (r: &Page)
        requires
            self.wf(),
            ppn < 32,
        ensures
            *r == self.frame(ppn),
    {
        &self.pages[ppn as usize]
    }

    pub fn free_count(&self) -> (r: usize)
        ensures
            r == self.free_seq().len(),
    {
        self.free_list.len()
    }

    pub fn used_count(&self) -> (r: usize)
        ensures
            r == self.used_seq().len(),
    {
        self.used_list.len()
    }
}

/// Build a fresh pool: 31 distinct free frames with page numbers 1..31,
/// pushed in increasing order so that PPN 31 is on top, an empty used
/// list, and the ZERO frame at index 0.
pub fn kinit() -> (m: Memory)
    ensures
        m.wf(),
        m.free_seq().len() == 31,
        forall|i: int| 0 <= i < 31 ==> #[trigger] m.free_seq()[i] == (i + 1) as u32,
        forall|i: int, j: int| #![trigger m.free_seq()[i], m.free_seq()[j]]
            0 <= i < j < 31 ==> m.free_seq()[i] != m.free_seq()[j],
        m.used_seq().len() == 0,
        forall|p: u32| p < 32 ==> (#[trigger] m.frame(p)).spec_ppn() == p
            && m.frame(p).spec_refs() == 0 && all_zero(m.frame(p).bytes()),
{
    let mut pages: Vec<Page> = Vec::new();
    let mut i: u32 = 0;
    while i < 32
        invariant
            i <= 32,
            pages@.len() == i,
            forall|j: int| 0 <= j < i ==> (#[trigger] pages@[j]).wf()
                && pages@[j].spec_ppn() == j as u32 && pages@[j].spec_refs() == 0
                && all_zero(pages@[j].bytes()),
        decreases 32 - i,
    {
        pages.push(Page::new(i));
        i = i + 1;
    }
    let mut free_list: Vec<u32> = Vec::new();
    let mut p: u32 = 1;
    while p < 32
        invariant
            1 <= p <= 32,
            free_list@.len() == p - 1,
            forall|j: int| 0 <= j < p - 1 ==> #[trigger] free_list@[j] == (j + 1) as u32,
        decreases 32 - p,
    {
        free_list.push(p);
        p = p + 1;
    }
    Memory { pages, free_list, used_list: Vec::new() }
}

} // verus!
