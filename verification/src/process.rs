//! Per-process address spaces.
//!
//! A process owns one directory frame and a vector of page-table frames;
//! the PPN field of a present directory entry is an index into that
//! vector.  Data frames are recorded in `phys_pages`, a table from virtual
//! page base to the owned frame's page number; data frames may be shared
//! with other processes after a fork and are then reference counted.

use vstd::prelude::*;
use crate::frames::{
    distinct_seq, lemma_push_contains, lemma_push_distinct, lemma_range_distinct_len, Memory,
};
use crate::sim::{typed_value, zero_value, DataType, TraceEvent, ValueType};
use crate::ptable::{
    base_from_indices, entry_address, entry_has_flag, entry_ppn, lemma_base_decompose,
    lemma_base_indices, lemma_zero_entry, spec_address, spec_dir_index, spec_offset,
    spec_page_base, spec_table_index, Flag, PageTableEntry, Physical, Virtual, PTE,
};
use crate::words::{
    align_down, all_zero, le_bytes_of_u32, le_bytes_to_u32, lemma_store_qword,
    lemma_store_word, lemma_word_at_zero, lemma_zero_word, qword_at, store_qword, store_word,
    word_at,
};

verus! {

#[derive(PartialEq, Eq, Structural, Clone, Copy, Debug)]
pub enum ProcessState {
    Running,
    Terminated,
    Sleeping,
}

/// Whether some entry of the page table maps the given virtual page base.
pub open spec fn pp_has(s: Seq<(u32, u32)>, base: u32) -> bool {
    exists|i: int| 0 <= i < s.len() && (#[trigger] s[i]).0 == base
}

/// The index of the entry mapping the given base.
pub open spec fn pp_index(s: Seq<(u32, u32)>, base: u32) -> int {
    choose|i: int| 0 <= i < s.len() && (#[trigger] s[i]).0 == base
}

/// The frame mapped at the given base.
pub open spec fn pp_frame_of(s: Seq<(u32, u32)>, base: u32) -> u32 {
    s[pp_index(s, base)].1
}

/// No virtual page base occurs twice.
pub open spec fn pp_keys_distinct(s: Seq<(u32, u32)>) -> bool {
    forall|i: int, j: int| #![trigger s[i], s[j]] 0 <= i < j < s.len() ==> s[i].0 != s[j].0
}

/// No frame occurs twice: each owned frame backs one virtual page.
pub open spec fn pp_frames_distinct(s: Seq<(u32, u32)>) -> bool {
    forall|i: int, j: int| #![trigger s[i], s[j]] 0 <= i < j < s.len() ==> s[i].1 != s[j].1
}

pub proof fn lemma_pp_at(s: Seq<(u32, u32)>, base: u32, i: int)
    requires
        pp_keys_distinct(s),
        0 <= i < s.len(),
        s[i].0 == base,
    ensures
        pp_has(s, base),
        pp_index(s, base) == i,
        pp_frame_of(s, base) == s[i].1,
{
    assert(pp_has(s, base));
    let j = pp_index(s, base);
    assert(0 <= j < s.len() && s[j].0 == base);
    if i != j {
        assert(s[i].0 != s[j].0);
    }
}

/// Appending a fresh base extends the lookup table pointwise.
pub proof fn lemma_pp_push(s: Seq<(u32, u32)>, base: u32, f: u32)
    requires
        pp_keys_distinct(s),
        !pp_has(s, base),
    ensures
        pp_keys_distinct(s.push((base, f))),
        pp_has(s.push((base, f)), base),
        pp_frame_of(s.push((base, f)), base) == f,
        forall|b: u32| b != base ==> pp_has(s.push((base, f)), b) == pp_has(s, b),
        forall|b: u32| b != base && pp_has(s, b)
            ==> pp_frame_of(s.push((base, f)), b) == pp_frame_of(s, b),
{
    let t = s.push((base, f));
    assert forall|i: int, j: int| #![trigger t[i], t[j]]
        0 <= i < j < t.len() implies t[i].0 != t[j].0 by {
        if j < s.len() {
            assert(t[i] == s[i] && t[j] == s[j]);
        } else {
            assert(t[i] == s[i]);
            assert(pp_has(s, s[i].0));
        }
    }
    assert(t[s.len() as int].0 == base);
    lemma_pp_at(t, base, s.len() as int);
    assert forall|b: u32| b != base
        implies pp_has(t, b) == pp_has(s, b)
            && (pp_has(s, b) ==> pp_frame_of(t, b) == pp_frame_of(s, b)) by {
        if pp_has(s, b) {
            let i = choose|i: int| 0 <= i < s.len() && s[i].0 == b;
            assert(t[i] == s[i]);
            lemma_pp_at(t, b, i);
            lemma_pp_at(s, b, i);
        }
        if pp_has(t, b) {
            let i = choose|i: int| 0 <= i < t.len() && t[i].0 == b;
            assert(i < s.len());
            assert(s[i].0 == b);
        }
    }
}

/// Re-pointing one base at a new frame changes exactly that base.
pub proof fn lemma_pp_update(s: Seq<(u32, u32)>, i: int, base: u32, g: u32)
    requires
        pp_keys_distinct(s),
        0 <= i < s.len(),
        s[i].0 == base,
    ensures
        pp_keys_distinct(s.update(i, (base, g))),
        pp_has(s.update(i, (base, g)), base),
        pp_frame_of(s.update(i, (base, g)), base) == g,
        forall|b: u32| b != base ==> pp_has(s.update(i, (base, g)), b) == pp_has(s, b),
        forall|b: u32| b != base && pp_has(s, b)
            ==> pp_frame_of(s.update(i, (base, g)), b) == pp_frame_of(s, b),
{
    let t = s.update(i, (base, g));
    assert forall|a: int, b: int| #![trigger t[a], t[b]]
        0 <= a < b < t.len() implies t[a].0 != t[b].0 by {
        assert(t[a] == if a == i { (base, g) } else { s[a] });
        assert(t[b] == if b == i { (base, g) } else { s[b] });
    }
    assert(t[i].0 == base);
    lemma_pp_at(t, base, i);
    assert forall|b: u32| b != base
        implies pp_has(t, b) == pp_has(s, b)
            && (pp_has(s, b) ==> pp_frame_of(t, b) == pp_frame_of(s, b)) by {
        if pp_has(s, b) {
            let k = choose|k: int| 0 <= k < s.len() && s[k].0 == b;
            assert(k != i);
            assert(t[k] == s[k]);
            lemma_pp_at(t, b, k);
            lemma_pp_at(s, b, k);
        }
        if pp_has(t, b) {
            let k = choose|k: int| 0 <= k < t.len() && t[k].0 == b;
            assert(k != i);
            assert(s[k].0 == b);
        }
    }
}

/// The entry word equals the old one with up to two more flags set.
pub open spec fn entry_with(w: u32, old_w: u32, a: Flag, b: Flag) -> bool {
    &&& entry_address(w) == entry_address(old_w)
    &&& entry_ppn(w) == entry_ppn(old_w)
    &&& (forall|g: Flag| #[trigger] entry_has_flag(w, g)
        == (entry_has_flag(old_w, g) || g == a || g == b))
}

/// The entry word equals the old one with the Writable flag cleared.
pub open spec fn entry_without_w(w: u32, old_w: u32) -> bool {
    &&& entry_address(w) == entry_address(old_w)
    &&& entry_ppn(w) == entry_ppn(old_w)
    &&& (forall|g: Flag| #[trigger] entry_has_flag(w, g)
        == (entry_has_flag(old_w, g) && g != Flag::Writable))
}

/// The entry word carries exactly Present, Writable, User and Dirty.
pub open spec fn entry_pwud(w: u32) -> bool {
    forall|g: Flag| #[trigger] entry_has_flag(w, g)
        == (g == Flag::Present || g == Flag::Writable || g == Flag::User || g == Flag::Dirty)
}

/// Among the first `upto` owned pages there is one backed by frame `q`
/// whose frame was referenced exactly once.
pub open spec fn sole_owned_upto(s: Seq<(u32, u32)>, m: Memory, upto: int, q: u32) -> bool {
    exists|k: int| 0 <= k < upto && (#[trigger] s[k]).1 == q && m.frame(q).spec_refs() == 1
}

pub struct Process {
    pub(crate) pid: u32,
    pub(crate) state: ProcessState,
    pub(crate) pgdir: u32,
    pub(crate) tables: Vec<u32>,
    pub(crate) phys_pages: Vec<(u32, u32)>,
    pub(crate) debug: bool,
}

impl Process {
    pub open(crate) spec fn spec_pid(self) -> u32 {
        self.pid
    }

    pub open(crate) spec fn spec_state(self) -> ProcessState {
        self.state
    }

    pub open(crate) spec fn spec_debug(self) -> bool {
        self.debug
    }

    pub open(crate) spec fn spec_pgdir(self) -> u32 {
        self.pgdir
    }

    /// The page numbers of the process's table frames.
    pub open(crate) spec fn tables_seq(self) -> Seq<u32> {
        self.tables@
    }

    /// The virtual-page-base to frame table.
    pub open(crate) spec fn pages_seq(self) -> Seq<(u32, u32)> {
        self.phys_pages@
    }

    /// Everything but the scheduling state agrees with the other process.
    pub open(crate) spec fn same_space(self, other: Process) -> bool {
        &&& self.pid == other.pid
        &&& self.pgdir == other.pgdir
        &&& self.tables@ == other.tables@
        &&& self.phys_pages@ == other.phys_pages@
        &&& self.debug == other.debug
    }

    /// The directory entry at a directory index.
    pub open(crate) spec fn pde_at(self, m: Memory, pdx: int) -> u32 {
        word_at(m.frame(self.pgdir).bytes(), pdx)
    }

    /// The page number of the table frame a directory index refers to.
    pub open(crate) spec fn table_frame(self, m: Memory, pdx: int) -> u32 {
        self.tables@[entry_ppn(self.pde_at(m, pdx)) as int]
    }

    /// The table entry reached from a directory index and a table index.
    pub open(crate) spec fn pte_at(self, m: Memory, pdx: int, ptx: int) -> u32 {
        word_at(m.frame(self.table_frame(m, pdx)).bytes(), ptx)
    }

    /// The page walk: the present table entry for a virtual address, if
    /// both the directory entry and the table entry are present.
    pub open(crate) spec fn spec_walk(self, m: Memory, va: u32) -> Option<u32> {
        let pdx = spec_dir_index(va) as int;
        let ptx = spec_table_index(va) as int;
        if !entry_has_flag(self.pde_at(m, pdx), Flag::Present) {
            None
        } else if entry_has_flag(self.pte_at(m, pdx, ptx), Flag::Present) {
            Some(self.pte_at(m, pdx, ptx))
        } else {
            None
        }
    }

    /// The directory, table and data frames are distinct live frames of
    /// the pool, and no page base or data frame is recorded twice.
    pub open(crate) spec fn frames_wf(self, m: Memory) -> bool {
        &&& 1 <= self.pgdir < 32
        &&& m.is_used(self.pgdir)
        &&& (forall|t: int| 0 <= t < self.tables@.len()
            ==> 1 <= #[trigger] self.tables@[t] < 32 && m.is_used(self.tables@[t])
                && self.tables@[t] != self.pgdir)
        &&& distinct_seq(self.tables@)
        &&& (forall|i: int| 0 <= i < self.phys_pages@.len()
            ==> 1 <= (#[trigger] self.phys_pages@[i]).1 < 32
                && m.is_used(self.phys_pages@[i].1)
                && self.phys_pages@[i].1 != self.pgdir)
        &&& (forall|i: int, t: int|
            #![trigger self.phys_pages@[i].1, self.tables@[t]]
            0 <= i < self.phys_pages@.len() && 0 <= t < self.tables@.len()
                ==> self.phys_pages@[i].1 != self.tables@[t])
        &&& pp_keys_distinct(self.phys_pages@)
        &&& pp_frames_distinct(self.phys_pages@)
    }

    /// Every present directory entry indexes into the table vector.
    pub open(crate) spec fn dir_wf(self, m: Memory) -> bool {
        forall|pdx: int| 0 <= pdx < 1024
            && entry_has_flag(#[trigger] self.pde_at(m, pdx), Flag::Present)
            ==> entry_ppn(self.pde_at(m, pdx)) < self.tables@.len()
    }

    /// Distinct present directory entries refer to distinct tables.
    pub open(crate) spec fn dir_injective(self, m: Memory) -> bool {
        forall|p1: int, p2: int|
            #![trigger self.pde_at(m, p1), self.pde_at(m, p2)]
            0 <= p1 < 1024 && 0 <= p2 < 1024 && p1 != p2
                && entry_has_flag(self.pde_at(m, p1), Flag::Present)
                && entry_has_flag(self.pde_at(m, p2), Flag::Present)
                ==> entry_ppn(self.pde_at(m, p1)) != entry_ppn(self.pde_at(m, p2))
    }

    /// Present, non-zero table entries and the page table agree: each such
    /// entry's page is recorded at exactly its own base with exactly the
    /// entry's frame, and each recorded page has such an entry.
    pub open(crate) spec fn ptes_wf(self, m: Memory) -> bool {
        &&& (forall|pdx: int, ptx: int|
            #![trigger self.pte_at(m, pdx, ptx)]
            0 <= pdx < 1024 && 0 <= ptx < 1024
                && entry_has_flag(self.pde_at(m, pdx), Flag::Present)
                && entry_has_flag(self.pte_at(m, pdx, ptx), Flag::Present)
                && !entry_has_flag(self.pte_at(m, pdx, ptx), Flag::Zero)
                ==> pp_has(self.phys_pages@, base_from_indices(pdx as u32, ptx as u32))
                    && pp_frame_of(self.phys_pages@, base_from_indices(pdx as u32, ptx as u32))
                        == entry_ppn(self.pte_at(m, pdx, ptx)))
        &&& (forall|i: int| 0 <= i < self.phys_pages@.len() ==> ({
            let base = (#[trigger] self.phys_pages@[i]).0;
            let pdx = spec_dir_index(base) as int;
            let ptx = spec_table_index(base) as int;
            &&& spec_page_base(base) == base
            &&& entry_has_flag(self.pde_at(m, pdx), Flag::Present)
            &&& entry_has_flag(self.pte_at(m, pdx, ptx), Flag::Present)
            &&& !entry_has_flag(self.pte_at(m, pdx, ptx), Flag::Zero)
            &&& entry_ppn(self.pte_at(m, pdx, ptx)) == self.phys_pages@[i].1
        }))
    }

    /// The process's whole well-formedness relative to the pool.
    pub open(crate) spec fn wf(self, m: Memory) -> bool {
        &&& m.wf()
        &&& self.frames_wf(m)
        &&& self.dir_wf(m)
        &&& self.dir_injective(m)
        &&& self.ptes_wf(m)
    }

    /// Allocate the directory frame of a fresh, sleeping process.
    pub fn new(pid: u32, debug: bool, mem: &mut Memory) -> (p: Process)
        requires
            old(mem).wf(),
            old(mem).free_seq().len() > 0,
        ensures
            final(mem).wf(),
            p.wf(*final(mem)),
            p.spec_pid() == pid,
            p.spec_state() == ProcessState::Sleeping,
            p.spec_debug() == debug,
            p.tables_seq().len() == 0,
            p.pages_seq().len() == 0,
            p.spec_pgdir() == old(mem).free_seq().last(),
            final(mem).free_seq() == old(mem).free_seq().drop_last(),
            final(mem).used_seq() == old(mem).used_seq().push(p.spec_pgdir()),
            forall|q: u32| q < 32 && q != p.spec_pgdir()
                ==> final(mem).frame(q) == old(mem).frame(q),
            forall|pdx: int| 0 <= pdx < 1024
                ==> !entry_has_flag(#[trigger] p.pde_at(*final(mem), pdx), Flag::Present),
            forall|va: u32| (p.spec_walk(*final(mem), va) is None),
    {
        let pgdir = match mem.kalloc() {
            Some(dir) => dir,
            None => vstd::pervasive::unreached(),
        };
        let p = Self {
            pid,
            state: ProcessState::Sleeping,
            pgdir,
            tables: Vec::new(),
            phys_pages: Vec::new(),
            debug,
        };
        proof {
            assert(mem.used_seq()[mem.used_seq().len() - 1] == pgdir);
            assert(mem.is_used(pgdir));
            lemma_zero_entry();
            lemma_zero_word();
            assert forall|pdx: int| 0 <= pdx < 1024
                implies !entry_has_flag(#[trigger] p.pde_at(*mem, pdx), Flag::Present) by {
                assert(p.pde_at(*mem, pdx) == 0);
            }
            assert forall|va: u32| p.spec_walk(*mem, va) is None by {
                assert(spec_dir_index(va) < 1024) by (bit_vector);
            }
        }
        p
    }

    pub fn pid(&self) -> (r: u32)
        ensures
            r == self.spec_pid(),
    {
        self.pid
    }

    pub fn wake_up(&mut self)
        ensures
            final(self).same_space(*old(self)),
            final(self).spec_state() == ProcessState::Running,
    {
        self.state = ProcessState::Running;
    }

    pub fn yieldk(&mut self)
        ensures
            final(self).same_space(*old(self)),
            final(self).spec_state() == ProcessState::Sleeping,
    {
        self.state = ProcessState::Sleeping;
    }

    /// Look up the page-table entry index for a virtual page base.
    fn find_page(&self, base: u32) -> (r: Option<usize>)
        ensures
            match r {
                Some(i) => i < self.pages_seq().len() && self.pages_seq()[i as int].0 == base,
                None => !pp_has(self.pages_seq(), base),
            },
    {
        let n = self.phys_pages.len();
        let mut i: usize = 0;
        while i < n
            invariant
                n == self.phys_pages@.len(),
                i <= n,
                forall|k: int| 0 <= k < i ==> (#[trigger] self.phys_pages@[k]).0 != base,
            decreases n - i,
        {
            if self.phys_pages[i].0 == base {
                return Some(i);
            }
            i = i + 1;
        }
        proof {
            if pp_has(self.phys_pages@, base) {
                let k = choose|k: int|
                    0 <= k < self.phys_pages@.len() && self.phys_pages@[k].0 == base;
                assert(self.phys_pages@[k].0 != base);
            }
        }
        None
    }

    /// Walk the directory and tables for a virtual address.
    fn walk(&self, mem: &Memory, vaddr: Virtual) -> (r: Option<PTE>)
        requires
            self.wf(*mem),
            vaddr.addr() is Virtual,
        ensures
            match r {
                Some(pte) => self.spec_walk(*mem, spec_address(vaddr.addr()))
                    == Some(pte.raw()),
                None => self.spec_walk(*mem, spec_address(vaddr.addr())) is None,
            },
    {
        let va = vaddr.get();
        let pdx = va.get_dir_index();
        let ptx = va.get_table_index();
        let raw_pd_data = read_word(mem, self.pgdir, pdx);
        let pde = PTE::from(raw_pd_data);
        if !pde.get_flag(Flag::Present) {
            return None;
        }
        let t = pde.get_ppn();
        let pgtab = self.tables[t];
        let raw_data = read_word(mem, pgtab, ptx);
        let pte = PTE::from(raw_data);
        if pte.get_flag(Flag::Present) {
            Some(pte)
        } else {
            None
        }
    }

    /// Install a mapping from the address's page to the given frame
    /// address, creating the page table for its directory slot on demand.
    /// The caller-supplied flags are installed with Present and Accessed
    /// forced on.
    pub fn map(&mut self, mem: &mut Memory, vaddr: Virtual, paddr: Physical, flags: &[Flag])
        requires
            old(self).wf(*old(mem)),
            vaddr.addr() is Virtual,
            paddr.addr() is Physical,
            !entry_has_flag(
                old(self).pde_at(*old(mem), spec_dir_index(spec_address(vaddr.addr())) as int),
                Flag::Present,
            ) ==> old(mem).free_seq().len() > 0,
        ensures
            final(mem).wf(),
            final(self).frames_wf(*final(mem)),
            final(self).dir_wf(*final(mem)),
            final(self).dir_injective(*final(mem)),
            final(self).spec_pid() == old(self).spec_pid(),
            final(self).spec_state() == old(self).spec_state(),
            final(self).spec_debug() == old(self).spec_debug(),
            final(self).spec_pgdir() == old(self).spec_pgdir(),
            final(self).pages_seq() == old(self).pages_seq(),
            ({
                let va = spec_address(vaddr.addr());
                let pdx = spec_dir_index(va) as int;
                let ptx = spec_table_index(va) as int;
                let w = final(self).pte_at(*final(mem), pdx, ptx);
                &&& entry_has_flag(final(self).pde_at(*final(mem), pdx), Flag::Present)
                &&& final(self).spec_walk(*final(mem), va) == Some(w)
                &&& entry_address(w) == entry_address(spec_address(paddr.addr()))
                &&& entry_ppn(w) == entry_ppn(spec_address(paddr.addr()))
                &&& (forall|g: Flag| #[trigger] entry_has_flag(w, g)
                    == (flags@.contains(g) || g == Flag::Present || g == Flag::Accessed))
            }),
            ({
                let va = spec_address(vaddr.addr());
                let pdx = spec_dir_index(va) as int;
                let ptx = spec_table_index(va) as int;
                if entry_has_flag(old(self).pde_at(*old(mem), pdx), Flag::Present) {
                    let tf = old(self).table_frame(*old(mem), pdx);
                    &&& final(self).tables_seq() == old(self).tables_seq()
                    &&& final(mem).free_seq() == old(mem).free_seq()
                    &&& final(mem).used_seq() == old(mem).used_seq()
                    &&& (forall|q: u32| q < 32 && q != tf
                        ==> final(mem).frame(q) == old(mem).frame(q))
                    &&& final(mem).frame(tf).spec_refs() == old(mem).frame(tf).spec_refs()
                    &&& (forall|d: int| 0 <= d < 1024
                        ==> #[trigger] final(self).pde_at(*final(mem), d)
                            == old(self).pde_at(*old(mem), d))
                } else {
                    let f = old(mem).free_seq().last();
                    &&& final(self).tables_seq() == old(self).tables_seq().push(f)
                    &&& final(mem).free_seq() == old(mem).free_seq().drop_last()
                    &&& final(mem).used_seq() == old(mem).used_seq().push(f)
                    &&& (forall|q: u32| q < 32 && q != f && q != old(self).spec_pgdir()
                        ==> final(mem).frame(q) == old(mem).frame(q))
                    &&& entry_ppn(final(self).pde_at(*final(mem), pdx))
                        == old(self).tables_seq().len()
                    &&& (forall|d: int| 0 <= d < 1024 && d != pdx
                        ==> #[trigger] final(self).pde_at(*final(mem), d)
                            == old(self).pde_at(*old(mem), d))
                    &&& final(mem).frame(f).spec_refs() == 1
                }
            }),
            (flags@.contains(Flag::Zero)
                && !pp_has(old(self).pages_seq(), spec_page_base(spec_address(vaddr.addr())))
                ==> final(self).ptes_wf(*final(mem))),
    {
        let ghost p0 = *self;
        let ghost m0 = *mem;
        let va = vaddr.get();
        let pa = paddr.get();
        let pdx = va.get_dir_index();
        let ptx = va.get_table_index();
        proof {
            lemma_base_decompose(spec_address(vaddr.addr()));
        }
        let raw_pd_data = read_word(mem, self.pgdir, pdx);
        let mut pde = PTE::from(raw_pd_data);
        if !pde.get_flag(Flag::Present) {
            // allocate a fresh table frame and point a new directory
            // entry at the next table-vector slot
            let f = match mem.kalloc() {
                Some(pg) => pg,
                None => vstd::pervasive::unreached(),
            };
            proof {
                crate::frames::lemma_push_contains(m0.used_seq(), f);
                lemma_range_distinct_len(self.tables@);
            }
            let tlen = self.tables.len();
            let mut dflags: Vec<Flag> = Vec::new();
            dflags.push(Flag::Present);
            dflags.push(Flag::Protected);
            dflags.push(Flag::Writable);
            dflags.push(Flag::Accessed);
            pde.set(PTE::new(tlen as u32).get_address(), dflags.as_slice());
            proof {
                let fl = dflags@;
                assert forall|g: Flag| fl.contains(g)
                    == (g == Flag::Present || g == Flag::Protected || g == Flag::Writable
                        || g == Flag::Accessed) by {
                    if fl.contains(g) {
                        let i = choose|i: int| 0 <= i < fl.len() && fl[i] == g;
                        assert(i == 0 || i == 1 || i == 2 || i == 3);
                    }
                    if g == Flag::Present { assert(fl[0] == g); }
                    if g == Flag::Protected { assert(fl[1] == g); }
                    if g == Flag::Writable { assert(fl[2] == g); }
                    if g == Flag::Accessed { assert(fl[3] == g); }
                }
                assert(entry_has_flag(pde.raw(), Flag::Present));
            }
            write_word(mem, self.pgdir, pdx, pde.get());
            self.tables.push(f);
            let ghost m1 = *mem;
            proof {
                assert(self.tables@[tlen as int] == f);
                assert(f != p0.pgdir);
                assert(all_zero(m1.frame(f).bytes()));
                assert(entry_ppn(pde.raw()) == tlen);
            }
            let tp = self.tables[pde.get_ppn()];
            let raw_data = read_word(mem, tp, ptx);
            let mut pte = PTE::from(raw_data);
            proof {
                lemma_word_at_zero(m1.frame(f).bytes(), ptx as int);
                assert(raw_data == 0);
                lemma_zero_entry();
            }
            pte.set(pa.get_address(), flags);
            pte.set_flag(Flag::Present);
            pte.set_flag(Flag::Accessed);
            write_word(mem, tp, ptx, pte.get());
            proof {
                assert forall|j: int| 0 <= j < 1024 && j != ptx
                    implies word_at(mem.frame(f).bytes(), j) == 0 by {
                    assert(word_at(mem.frame(f).bytes(), j)
                        == word_at(m1.frame(f).bytes(), j));
                    lemma_word_at_zero(m1.frame(f).bytes(), j);
                }
                self.lemma_map_fresh_table(p0, m0, *mem, spec_address(vaddr.addr()), flags@,
                    pde.raw(), pte.raw(), f, pdx as int, ptx as int);
            }
        } else {
            proof {
                crate::ptable::lemma_split_bounds(spec_address(vaddr.addr()));
                assert(pde.raw() == self.pde_at(m0, pdx as int));
                assert(entry_ppn(pde.raw()) < self.tables@.len());
            }
            let tp = self.tables[pde.get_ppn()];
            let raw_data = read_word(mem, tp, ptx);
            let mut pte = PTE::from(raw_data);
            pte.set(pa.get_address(), flags);
            pte.set_flag(Flag::Present);
            pte.set_flag(Flag::Accessed);
            write_word(mem, tp, ptx, pte.get());
            proof {
                self.lemma_map_existing_table(m0, *mem, spec_address(vaddr.addr()), flags@,
                    pte.raw(), pdx as int, ptx as int);
            }
        }
    }

    /// After storing a fresh entry `w` at `(pdx, ptx)` of an existing
    /// table, the whole address space is still well formed and the walk
    /// of `va` reaches `w`.
    proof fn lemma_map_existing_table(self, m0: Memory, m2: Memory, va: u32, flags: Seq<Flag>,
        w: u32, pdx: int, ptx: int)
        requires
            self.wf(m0),
            m2.wf(),
            pdx == spec_dir_index(va) as int,
            ptx == spec_table_index(va) as int,
            entry_has_flag(self.pde_at(m0, pdx), Flag::Present),
            ({
                let tf = self.table_frame(m0, pdx);
                &&& m2.free_seq() == m0.free_seq()
                &&& m2.used_seq() == m0.used_seq()
                &&& (forall|q: u32| q < 32 && q != tf ==> m2.frame(q) == m0.frame(q))
                &&& word_at(m2.frame(tf).bytes(), ptx) == w
                &&& (forall|j: int| 0 <= j < 1024 && j != ptx
                    ==> word_at(m2.frame(tf).bytes(), j) == word_at(m0.frame(tf).bytes(), j))
            }),
            forall|g: Flag| #[trigger] entry_has_flag(w, g)
                == (flags.contains(g) || g == Flag::Present || g == Flag::Accessed),
        ensures
            self.frames_wf(m2),
            self.dir_wf(m2),
            self.dir_injective(m2),
            forall|d: int| 0 <= d < 1024
                ==> #[trigger] self.pde_at(m2, d) == self.pde_at(m0, d),
            self.pte_at(m2, pdx, ptx) == w,
            self.spec_walk(m2, va) == Some(w),
            flags.contains(Flag::Zero) && !pp_has(self.phys_pages@, spec_page_base(va))
                ==> self.ptes_wf(m2),
    {
        crate::ptable::lemma_split_bounds(va);
        let tf = self.table_frame(m0, pdx);
        let t = entry_ppn(self.pde_at(m0, pdx)) as int;
        assert(0 <= t < self.tables@.len());
        assert(self.tables@[t] == tf);
        assert(tf != self.pgdir);
        assert(m2.frame(self.pgdir) == m0.frame(self.pgdir));
        assert forall|d: int| 0 <= d < 1024
            implies #[trigger] self.pde_at(m2, d) == self.pde_at(m0, d) by {}
        assert forall|d: int, x: int|
            0 <= d < 1024 && 0 <= x < 1024
                && entry_has_flag(self.pde_at(m0, d), Flag::Present)
                && !(d == pdx && x == ptx)
            implies #[trigger] self.pte_at(m2, d, x) == self.pte_at(m0, d, x) by {
            let td = entry_ppn(self.pde_at(m0, d)) as int;
            assert(0 <= td < self.tables@.len());
            if self.tables@[td] == tf {
                if td != t {
                    assert(self.tables@[td] != self.tables@[t]);
                }
                if d != pdx {
                    assert(entry_ppn(self.pde_at(m0, d))
                        != entry_ppn(self.pde_at(m0, pdx)));
                }
                assert(d == pdx && x != ptx);
                assert(self.table_frame(m2, d) == tf);
            } else {
                assert(m2.frame(self.tables@[td]) == m0.frame(self.tables@[td]));
            }
        }
        assert(self.table_frame(m2, pdx) == tf);
        assert(self.pte_at(m2, pdx, ptx) == w);
        assert(entry_has_flag(w, Flag::Present));
        assert(m2.used_seq().contains(self.pgdir));
        assert(self.frames_wf(m2));
        assert(self.dir_wf(m2));
        assert(self.dir_injective(m2));
        if flags.contains(Flag::Zero) && !pp_has(self.phys_pages@, spec_page_base(va)) {
            assert(entry_has_flag(w, Flag::Zero));
            assert forall|d: int, x: int|
                0 <= d < 1024 && 0 <= x < 1024
                    && entry_has_flag(self.pde_at(m2, d), Flag::Present)
                    && entry_has_flag(#[trigger] self.pte_at(m2, d, x), Flag::Present)
                    && !entry_has_flag(self.pte_at(m2, d, x), Flag::Zero)
                implies pp_has(self.phys_pages@, base_from_indices(d as u32, x as u32))
                    && pp_frame_of(self.phys_pages@, base_from_indices(d as u32, x as u32))
                        == entry_ppn(self.pte_at(m2, d, x)) by {
                assert(!(d == pdx && x == ptx));
                assert(self.pte_at(m2, d, x) == self.pte_at(m0, d, x));
            }
            assert forall|i: int| 0 <= i < self.phys_pages@.len() implies ({
                let base = (#[trigger] self.phys_pages@[i]).0;
                let d = spec_dir_index(base) as int;
                let x = spec_table_index(base) as int;
                &&& spec_page_base(base) == base
                &&& entry_has_flag(self.pde_at(m2, d), Flag::Present)
                &&& entry_has_flag(self.pte_at(m2, d, x), Flag::Present)
                &&& !entry_has_flag(self.pte_at(m2, d, x), Flag::Zero)
                &&& entry_ppn(self.pte_at(m2, d, x)) == self.phys_pages@[i].1
            }) by {
                let base = self.phys_pages@[i].0;
                let d = spec_dir_index(base) as int;
                let x = spec_table_index(base) as int;
                crate::ptable::lemma_split_bounds(base);
                crate::ptable::lemma_split_bounds(va);
                if d == pdx && x == ptx {
                    lemma_base_decompose(base);
                    lemma_base_decompose(va);
                    assert(base == spec_page_base(va));
                    assert(pp_has(self.phys_pages@, base));
                    assert(false);
                }
                assert(self.pte_at(m2, d, x) == self.pte_at(m0, d, x));
            }
            assert(self.ptes_wf(m2));
        }
    }

    /// After allocating frame `f` as a fresh table, pointing a new
    /// directory entry at it and storing entry `w` at its `ptx` slot, the
    /// address space is still well formed and the walk of `va` reaches
    /// `w`.
    proof fn lemma_map_fresh_table(self, p0: Process, m0: Memory, m2: Memory, va: u32,
        flags: Seq<Flag>, pdew: u32, w: u32, f: u32, pdx: int, ptx: int)
        requires
            p0.wf(m0),
            m2.wf(),
            pdx == spec_dir_index(va) as int,
            ptx == spec_table_index(va) as int,
            !entry_has_flag(p0.pde_at(m0, pdx), Flag::Present),
            1 <= f < 32,
            !m0.is_used(f),
            self.pgdir == p0.pgdir,
            self.phys_pages@ == p0.phys_pages@,
            self.tables@ == p0.tables@.push(f),
            m2.free_seq() == m0.free_seq().drop_last(),
            m2.used_seq() == m0.used_seq().push(f),
            forall|q: u32| q < 32 && q != f && q != p0.pgdir ==> m2.frame(q) == m0.frame(q),
            word_at(m2.frame(p0.pgdir).bytes(), pdx) == pdew,
            forall|j: int| 0 <= j < 1024 && j != pdx
                ==> word_at(m2.frame(p0.pgdir).bytes(), j)
                    == word_at(m0.frame(p0.pgdir).bytes(), j),
            m2.frame(f).spec_refs() == 1,
            word_at(m2.frame(f).bytes(), ptx) == w,
            forall|j: int| 0 <= j < 1024 && j != ptx ==> word_at(m2.frame(f).bytes(), j) == 0,
            entry_ppn(pdew) == p0.tables@.len(),
            entry_has_flag(pdew, Flag::Present),
            forall|g: Flag| #[trigger] entry_has_flag(w, g)
                == (flags.contains(g) || g == Flag::Present || g == Flag::Accessed),
        ensures
            self.frames_wf(m2),
            self.dir_wf(m2),
            self.dir_injective(m2),
            forall|d: int| 0 <= d < 1024 && d != pdx
                ==> #[trigger] self.pde_at(m2, d) == p0.pde_at(m0, d),
            self.pde_at(m2, pdx) == pdew,
            self.pte_at(m2, pdx, ptx) == w,
            self.spec_walk(m2, va) == Some(w),
            flags.contains(Flag::Zero) && !pp_has(p0.phys_pages@, spec_page_base(va))
                ==> self.ptes_wf(m2),
    {
        lemma_zero_entry();
        crate::ptable::lemma_split_bounds(va);
        crate::frames::lemma_push_contains(m0.used_seq(), f);
        let tl = p0.tables@.len() as int;
        assert(self.tables@[tl] == f);
        assert(f != p0.pgdir);
        assert forall|t: int| 0 <= t < p0.tables@.len()
            implies #[trigger] p0.tables@[t] != f && self.tables@[t] == p0.tables@[t] by {}
        if p0.tables@.contains(f) {
            let t = choose|t: int| 0 <= t < p0.tables@.len() && p0.tables@[t] == f;
            assert(m0.is_used(p0.tables@[t]));
        }
        crate::frames::lemma_push_distinct(p0.tables@, f);
        assert forall|d: int| 0 <= d < 1024 && d != pdx
            implies #[trigger] self.pde_at(m2, d) == p0.pde_at(m0, d) by {}
        assert(self.pde_at(m2, pdx) == pdew);
        assert forall|d: int, x: int|
            0 <= d < 1024 && 0 <= x < 1024 && d != pdx
                && entry_has_flag(p0.pde_at(m0, d), Flag::Present)
            implies #[trigger] self.pte_at(m2, d, x) == p0.pte_at(m0, d, x)
                && self.table_frame(m2, d) == p0.table_frame(m0, d) by {
            let td = entry_ppn(p0.pde_at(m0, d)) as int;
            assert(0 <= td < p0.tables@.len());
            assert(self.tables@[td] == p0.tables@[td]);
            assert(p0.tables@[td] != f);
            assert(p0.tables@[td] != p0.pgdir);
            assert(m2.frame(p0.tables@[td]) == m0.frame(p0.tables@[td]));
        }
        assert(self.table_frame(m2, pdx) == f);
        assert(self.pte_at(m2, pdx, ptx) == w);
        assert(entry_has_flag(w, Flag::Present));
        assert(m2.used_seq().contains(self.pgdir));
        assert(self.frames_wf(m2));
        assert forall|d: int| 0 <= d < 1024
            && entry_has_flag(#[trigger] self.pde_at(m2, d), Flag::Present)
            implies entry_ppn(self.pde_at(m2, d)) < self.tables@.len() by {
            if d != pdx {
                assert(self.pde_at(m2, d) == p0.pde_at(m0, d));
            }
        }
        assert(self.dir_wf(m2));
        assert forall|p1: int, p2: int|
            0 <= p1 < 1024 && 0 <= p2 < 1024 && p1 != p2
                && entry_has_flag(#[trigger] self.pde_at(m2, p1), Flag::Present)
                && entry_has_flag(#[trigger] self.pde_at(m2, p2), Flag::Present)
            implies entry_ppn(self.pde_at(m2, p1)) != entry_ppn(self.pde_at(m2, p2)) by {
            if p1 != pdx && p2 != pdx {
                assert(self.pde_at(m2, p1) == p0.pde_at(m0, p1));
                assert(self.pde_at(m2, p2) == p0.pde_at(m0, p2));
            }
        }
        assert(self.dir_injective(m2));
        if flags.contains(Flag::Zero) && !pp_has(p0.phys_pages@, spec_page_base(va)) {
            assert(entry_has_flag(w, Flag::Zero));
            assert forall|d: int, x: int|
                0 <= d < 1024 && 0 <= x < 1024
                    && entry_has_flag(self.pde_at(m2, d), Flag::Present)
                    && entry_has_flag(#[trigger] self.pte_at(m2, d, x), Flag::Present)
                    && !entry_has_flag(self.pte_at(m2, d, x), Flag::Zero)
                implies pp_has(self.phys_pages@, base_from_indices(d as u32, x as u32))
                    && pp_frame_of(self.phys_pages@, base_from_indices(d as u32, x as u32))
                        == entry_ppn(self.pte_at(m2, d, x)) by {
                if d == pdx {
                    if x != ptx {
                        assert(self.pte_at(m2, d, x) == 0);
                        assert(!entry_has_flag(0u32, Flag::Present));
                    }
                    assert(false);
                } else {
                    assert(self.pte_at(m2, d, x) == p0.pte_at(m0, d, x));
                }
            }
            assert forall|i: int| 0 <= i < self.phys_pages@.len() implies ({
                let base = (#[trigger] self.phys_pages@[i]).0;
                let d = spec_dir_index(base) as int;
                let x = spec_table_index(base) as int;
                &&& spec_page_base(base) == base
                &&& entry_has_flag(self.pde_at(m2, d), Flag::Present)
                &&& entry_has_flag(self.pte_at(m2, d, x), Flag::Present)
                &&& !entry_has_flag(self.pte_at(m2, d, x), Flag::Zero)
                &&& entry_ppn(self.pte_at(m2, d, x)) == self.phys_pages@[i].1
            }) by {
                let base = self.phys_pages@[i].0;
                let d = spec_dir_index(base) as int;
                let x = spec_table_index(base) as int;
                crate::ptable::lemma_split_bounds(base);
                assert(p0.phys_pages@[i] == self.phys_pages@[i]);
                if d == pdx {
                    assert(entry_has_flag(p0.pde_at(m0, d), Flag::Present));
                    assert(false);
                }
                assert(self.pte_at(m2, d, x) == p0.pte_at(m0, d, x));
            }
            assert(self.ptes_wf(m2));
        }
    }

    /// After storing a present, non-zero entry `w2` for `va` whose frame
    /// agrees with the (possibly updated) page table, the directory and
    /// table invariants still hold and the walk of `va` reaches `w2`.
    proof fn lemma_store_data_pte(self, p0: Process, m0: Memory, m2: Memory, va: u32, w2: u32,
        fstar: u32, pdx: int, ptx: int)
        requires
            p0.wf(m0),
            m2.wf(),
            pdx == spec_dir_index(va) as int,
            ptx == spec_table_index(va) as int,
            entry_has_flag(p0.pde_at(m0, pdx), Flag::Present),
            self.pgdir == p0.pgdir,
            self.tables@ == p0.tables@,
            ({
                let tf = p0.table_frame(m0, pdx);
                &&& m2.frame(p0.pgdir) == m0.frame(p0.pgdir)
                &&& (forall|t: int| 0 <= t < p0.tables@.len() && p0.tables@[t] != tf
                    ==> m2.frame(#[trigger] p0.tables@[t]) == m0.frame(p0.tables@[t]))
                &&& word_at(m2.frame(tf).bytes(), ptx) == w2
                &&& (forall|j: int| 0 <= j < 1024 && j != ptx
                    ==> word_at(m2.frame(tf).bytes(), j) == word_at(m0.frame(tf).bytes(), j))
            }),
            entry_has_flag(w2, Flag::Present),
            !entry_has_flag(w2, Flag::Zero),
            entry_ppn(w2) == fstar,
            pp_keys_distinct(self.phys_pages@),
            pp_has(self.phys_pages@, spec_page_base(va)),
            pp_frame_of(self.phys_pages@, spec_page_base(va)) == fstar,
            forall|b: u32| b != spec_page_base(va)
                ==> pp_has(self.phys_pages@, b) == pp_has(p0.phys_pages@, b)
                    && (pp_has(p0.phys_pages@, b)
                        ==> pp_frame_of(self.phys_pages@, b) == pp_frame_of(p0.phys_pages@, b)),
            forall|i: int| 0 <= i < self.phys_pages@.len()
                ==> ((#[trigger] self.phys_pages@[i]).0 == spec_page_base(va)
                        && self.phys_pages@[i].1 == fstar)
                    || (self.phys_pages@[i].0 != spec_page_base(va)
                        && p0.phys_pages@.contains(self.phys_pages@[i])),
        ensures
            self.dir_wf(m2),
            self.dir_injective(m2),
            self.ptes_wf(m2),
            forall|d: int| 0 <= d < 1024
                ==> #[trigger] self.pde_at(m2, d) == p0.pde_at(m0, d),
            self.pte_at(m2, pdx, ptx) == w2,
            self.spec_walk(m2, va) == Some(w2),
    {
        crate::ptable::lemma_split_bounds(va);
        lemma_base_decompose(va);
        let base = spec_page_base(va);
        let tf = p0.table_frame(m0, pdx);
        let t = entry_ppn(p0.pde_at(m0, pdx)) as int;
        assert(0 <= t < p0.tables@.len());
        assert(p0.tables@[t] == tf);
        assert(tf != p0.pgdir);
        assert forall|d: int| 0 <= d < 1024
            implies #[trigger] self.pde_at(m2, d) == p0.pde_at(m0, d) by {}
        assert(self.dir_wf(m2));
        assert(self.dir_injective(m2));
        assert forall|d: int, x: int|
            0 <= d < 1024 && 0 <= x < 1024
                && entry_has_flag(p0.pde_at(m0, d), Flag::Present)
                && !(d == pdx && x == ptx)
            implies #[trigger] self.pte_at(m2, d, x) == p0.pte_at(m0, d, x) by {
            let td = entry_ppn(p0.pde_at(m0, d)) as int;
            assert(0 <= td < p0.tables@.len());
            if p0.tables@[td] == tf {
                if td != t {
                    assert(p0.tables@[td] != p0.tables@[t]);
                }
                if d != pdx {
                    assert(entry_ppn(p0.pde_at(m0, d))
                        != entry_ppn(p0.pde_at(m0, pdx)));
                }
                assert(d == pdx && x != ptx);
                assert(self.table_frame(m2, d) == tf);
            } else {
                assert(m2.frame(p0.tables@[td]) == m0.frame(p0.tables@[td]));
            }
        }
        assert(self.table_frame(m2, pdx) == tf);
        assert(self.pte_at(m2, pdx, ptx) == w2);
        assert forall|d: int, x: int|
            0 <= d < 1024 && 0 <= x < 1024
                && entry_has_flag(self.pde_at(m2, d), Flag::Present)
                && entry_has_flag(#[trigger] self.pte_at(m2, d, x), Flag::Present)
                && !entry_has_flag(self.pte_at(m2, d, x), Flag::Zero)
            implies pp_has(self.phys_pages@, base_from_indices(d as u32, x as u32))
                && pp_frame_of(self.phys_pages@, base_from_indices(d as u32, x as u32))
                    == entry_ppn(self.pte_at(m2, d, x)) by {
            if d == pdx && x == ptx {
                assert(base_from_indices(d as u32, x as u32) == base);
            } else {
                assert(self.pte_at(m2, d, x) == p0.pte_at(m0, d, x));
                let b = base_from_indices(d as u32, x as u32);
                lemma_base_indices(d as u32, x as u32);
                if b == base {
                    assert(spec_dir_index(b) == d && spec_dir_index(base) == pdx as u32);
                    assert(false);
                }
                assert(pp_has(p0.phys_pages@, b)
                    && pp_frame_of(p0.phys_pages@, b) == entry_ppn(p0.pte_at(m0, d, x)));
            }
        }
        assert forall|i: int| 0 <= i < self.phys_pages@.len() implies ({
            let b = (#[trigger] self.phys_pages@[i]).0;
            let d = spec_dir_index(b) as int;
            let x = spec_table_index(b) as int;
            &&& spec_page_base(b) == b
            &&& entry_has_flag(self.pde_at(m2, d), Flag::Present)
            &&& entry_has_flag(self.pte_at(m2, d, x), Flag::Present)
            &&& !entry_has_flag(self.pte_at(m2, d, x), Flag::Zero)
            &&& entry_ppn(self.pte_at(m2, d, x)) == self.phys_pages@[i].1
        }) by {
            let b = self.phys_pages@[i].0;
            let d = spec_dir_index(b) as int;
            let x = spec_table_index(b) as int;
            crate::ptable::lemma_split_bounds(b);
            if b == base && self.phys_pages@[i].1 == fstar {
                lemma_base_indices(pdx as u32, ptx as u32);
                assert(spec_page_base(base) == base);
                assert(d == pdx && x == ptx);
            } else {
                assert(self.phys_pages@[i].0 != base
                    && p0.phys_pages@.contains(self.phys_pages@[i]));
                let j = choose|j: int|
                    0 <= j < p0.phys_pages@.len()
                        && p0.phys_pages@[j] == self.phys_pages@[i];
                assert(p0.phys_pages@[j].0 == b);
                lemma_base_decompose(b);
                if d == pdx && x == ptx {
                    assert(b == spec_page_base(b));
                    assert(b == base_from_indices(pdx as u32, ptx as u32));
                    assert(base == base_from_indices(pdx as u32, ptx as u32));
                    assert(false);
                }
                assert(self.pte_at(m2, d, x) == p0.pte_at(m0, d, x));
            }
        }
        assert(self.ptes_wf(m2));
    }

    /// Every present directory entry of a well-formed process indexes
    /// into the process's table vector.
    pub proof fn lemma_present_pde_indexes_tables(self, m: Memory, pdx: int)
        requires
            self.wf(m),
            0 <= pdx < 1024,
            entry_has_flag(self.pde_at(m, pdx), Flag::Present),
        ensures
            entry_ppn(self.pde_at(m, pdx)) < self.tables_seq().len(),
    {
    }

    /// A present, non-zero table entry of a well-formed process is backed
    /// by exactly one owned frame, recorded at exactly the entry's own
    /// page base with exactly the entry's page number.
    pub proof fn lemma_present_pte_has_unique_frame(self, m: Memory, pdx: int, ptx: int)
        requires
            self.wf(m),
            0 <= pdx < 1024,
            0 <= ptx < 1024,
            entry_has_flag(self.pde_at(m, pdx), Flag::Present),
            entry_has_flag(self.pte_at(m, pdx, ptx), Flag::Present),
            !entry_has_flag(self.pte_at(m, pdx, ptx), Flag::Zero),
        ensures
            pp_has(self.pages_seq(), base_from_indices(pdx as u32, ptx as u32)),
            pp_frame_of(self.pages_seq(), base_from_indices(pdx as u32, ptx as u32))
                == entry_ppn(self.pte_at(m, pdx, ptx)),
            pp_keys_distinct(self.pages_seq()),
            pp_frames_distinct(self.pages_seq()),
    {
    }

    pub fn table_count(&self) -> (r: usize)
        ensures
            r == self.tables_seq().len(),
    {
        self.tables.len()
    }

    pub fn table_ppn(&self, t: usize) -> (r: u32)
        requires
            t < self.tables_seq().len(),
        ensures
            r == self.tables_seq()[t as int],
    {
        self.tables[t]
    }

    /// Whether diagnostic tracing is on for this process.
    pub fn debug_enabled(&self) -> (r: bool)
        ensures
            r == self.spec_debug(),
    {
        self.debug
    }

    /// The page number of the directory frame.
    pub fn dir_ppn(&self) -> (r: u32)
        ensures
            r == self.spec_pgdir(),
    {
        self.pgdir
    }

    pub fn page_count(&self) -> (r: usize)
        ensures
            r == self.pages_seq().len(),
    {
        self.phys_pages.len()
    }

    /// The i-th recorded (virtual page base, frame page number) pair.
    pub fn page_entry(&self, i: usize) -> (r: (u32, u32))
        requires
            i < self.pages_seq().len(),
        ensures
            r == self.pages_seq()[i as int],
    {
        self.phys_pages[i]
    }

    /// Two processes over the same address space are equally well formed
    /// and walk alike: only the scheduling state differs.
    pub(crate) proof fn lemma_same_space_wf(self, other: Process, m: Memory)
        requires
            self.same_space(other),
            other.wf(m),
        ensures
            self.wf(m),
            forall|va: u32| #[trigger] self.spec_walk(m, va) == other.spec_walk(m, va),
            forall|d: int| #[trigger] self.pde_at(m, d) == other.pde_at(m, d),
            forall|d: int, x: int| #[trigger] self.pte_at(m, d, x) == other.pte_at(m, d, x),
    {
        assert forall|d: int| #[trigger] self.pde_at(m, d) == other.pde_at(m, d) by {}
        assert forall|d: int, x: int|
            #[trigger] self.pte_at(m, d, x) == other.pte_at(m, d, x) by {}
        assert(self.frames_wf(m));
        assert(self.dir_wf(m));
        assert(self.dir_injective(m));
        assert(self.ptes_wf(m)) by {
            assert forall|i: int| 0 <= i < self.phys_pages@.len() implies ({
                let base = (#[trigger] self.phys_pages@[i]).0;
                let d = spec_dir_index(base) as int;
                let x = spec_table_index(base) as int;
                &&& spec_page_base(base) == base
                &&& entry_has_flag(self.pde_at(m, d), Flag::Present)
                &&& entry_has_flag(self.pte_at(m, d, x), Flag::Present)
                &&& !entry_has_flag(self.pte_at(m, d, x), Flag::Zero)
                &&& entry_ppn(self.pte_at(m, d, x)) == self.phys_pages@[i].1
            }) by {
                assert(other.phys_pages@[i] == self.phys_pages@[i]);
            }
        }
        assert forall|va: u32|
            #[trigger] self.spec_walk(m, va) == other.spec_walk(m, va) by {}
    }

    /// A pool change that leaves the process's directory and table frames
    /// alone, and only grows the used list, leaves its whole view alone.
    pub(crate) proof fn lemma_wf_frames_untouched(self, ma: Memory, mb: Memory)
        requires
            self.wf(ma),
            mb.wf(),
            mb.is_used(self.pgdir),
            forall|t: int| 0 <= t < self.tables@.len()
                ==> mb.is_used(#[trigger] self.tables@[t]),
            forall|i: int| 0 <= i < self.phys_pages@.len()
                ==> mb.is_used((#[trigger] self.phys_pages@[i]).1),
            mb.frame(self.pgdir) == ma.frame(self.pgdir),
            forall|t: int| 0 <= t < self.tables@.len()
                ==> mb.frame(#[trigger] self.tables@[t]) == ma.frame(self.tables@[t]),
        ensures
            self.wf(mb),
            forall|d: int| 0 <= d < 1024
                ==> #[trigger] self.pde_at(mb, d) == self.pde_at(ma, d),
            forall|d: int, x: int|
                #![trigger self.pte_at(mb, d, x)]
                0 <= d < 1024 && 0 <= x < 1024
                    && entry_has_flag(self.pde_at(ma, d), Flag::Present)
                ==> self.pte_at(mb, d, x) == self.pte_at(ma, d, x),
    {
        assert forall|d: int| 0 <= d < 1024
            implies #[trigger] self.pde_at(mb, d) == self.pde_at(ma, d) by {}
        assert forall|d: int, x: int|
            #![trigger self.pte_at(mb, d, x)]
            0 <= d < 1024 && 0 <= x < 1024
                && entry_has_flag(self.pde_at(ma, d), Flag::Present)
            implies self.pte_at(mb, d, x) == self.pte_at(ma, d, x) by {
            let td = entry_ppn(self.pde_at(ma, d)) as int;
            assert(0 <= td < self.tables@.len());
            assert(mb.frame(self.tables@[td]) == ma.frame(self.tables@[td]));
        }
        assert(self.frames_wf(mb));
        assert(self.dir_wf(mb));
        assert(self.dir_injective(mb));
        assert(self.ptes_wf(mb)) by {
            assert forall|i: int| 0 <= i < self.phys_pages@.len() implies ({
                let base = (#[trigger] self.phys_pages@[i]).0;
                let d = spec_dir_index(base) as int;
                let x = spec_table_index(base) as int;
                &&& spec_page_base(base) == base
                &&& entry_has_flag(self.pde_at(mb, d), Flag::Present)
                &&& entry_has_flag(self.pte_at(mb, d, x), Flag::Present)
                &&& !entry_has_flag(self.pte_at(mb, d, x), Flag::Zero)
                &&& entry_ppn(self.pte_at(mb, d, x)) == self.phys_pages@[i].1
            }) by {
                let base = self.phys_pages@[i].0;
                crate::ptable::lemma_split_bounds(base);
                assert(self.pte_at(mb, spec_dir_index(base) as int,
                    spec_table_index(base) as int)
                    == self.pte_at(ma, spec_dir_index(base) as int,
                        spec_table_index(base) as int));
            }
        }
    }

    /// Whether a walk of the address reaches a present table entry.
    pub fn mapped(&self, mem: &Memory, vaddr: Virtual) -> (r: bool)
        requires
            self.wf(*mem),
            vaddr.addr() is Virtual,
        ensures
            r == (self.spec_walk(*mem, spec_address(vaddr.addr())) is Some),
    {
        match self.walk(mem, vaddr) {
            Some(_) => true,
            None => false,
        }
    }

    /// What a typed read of the address returns: zero for a demand page,
    /// the stored machine word for a mapped data page, nothing otherwise.
    pub open(crate) spec fn read_result(self, m: Memory, va: u32, dt: DataType)
        -> Option<ValueType> {
        if self.state != ProcessState::Running {
            None
        } else {
            match self.spec_walk(m, va) {
                None => None,
                Some(pte) => if entry_has_flag(pte, Flag::Zero) {
                    Some(zero_value(dt))
                } else if pp_has(self.phys_pages@, spec_page_base(va)) {
                    Some(typed_value(dt, qword_at(
                        m.frame(pp_frame_of(self.phys_pages@, spec_page_base(va))).bytes(),
                        align_down(spec_offset(va) as int, 8),
                    )))
                } else {
                    None
                },
            }
        }
    }

    /// The trace record a read of the address emits.
    pub open(crate) spec fn read_trace(self, m: Memory, va: u32) -> Option<TraceEvent> {
        if self.state != ProcessState::Running {
            Some(TraceEvent::Zombie(self.pid))
        } else if self.spec_walk(m, va) is None {
            Some(TraceEvent::InvalidAddress(va))
        } else {
            None
        }
    }

    /// Decode the machine word mapped at the address, at the requested
    /// type, together with the trace record the attempt emits.
    pub fn read(&self, mem: &Memory, vaddr: Virtual, data_type: DataType)
        -> (r: (Option<ValueType>, Option<TraceEvent>))
        requires
            self.wf(*mem),
            vaddr.addr() is Virtual,
        ensures
            r.0 == self.read_result(*mem, spec_address(vaddr.addr()), data_type),
            r.1 == self.read_trace(*mem, spec_address(vaddr.addr())),
    {
        if self.state != ProcessState::Running {
            return (None, Some(TraceEvent::Zombie(self.pid)));
        }
        let va = vaddr.get();
        match self.walk(mem, vaddr) {
            Some(pte) => {
                if pte.get_flag(Flag::Zero) {
                    let v = match data_type {
                        DataType::SignedInt => ValueType::SignedInt(0),
                        DataType::UnsignedInt => ValueType::UnsignedInt(0),
                    };
                    return (Some(v), None);
                }
                let base = va.get_address() & !0xFFFu32;
                match self.find_page(base) {
                    Some(i) => {
                        let f = self.phys_pages[i].1;
                        let off = va.get_offset();
                        let q = read_qword(mem, f, off as usize);
                        proof {
                            lemma_pp_at(self.phys_pages@, base, i as int);
                        }
                        let v = match data_type {
                            DataType::SignedInt => {
                                let s: i64 = #[verifier::truncate] (q as i64);
                                ValueType::SignedInt(#[verifier::truncate] (s as isize))
                            },
                            DataType::UnsignedInt => {
                                ValueType::UnsignedInt(#[verifier::truncate] (q as usize))
                            },
                        };
                        (Some(v), None)
                    },
                    None => (None, None),
                }
            },
            None => (None, Some(TraceEvent::InvalidAddress(va.get_address()))),
        }
    }

    /// The inputs a write must avoid: writing a kernel page is fatal, and
    /// a write that must allocate needs a free frame.  A debug trace of a
    /// fault subtracts `KERNBASE` from the address.
    pub open(crate) spec fn write_pre(self, m: Memory, va: u32) -> bool {
        self.state == ProcessState::Running && self.spec_walk(m, va) is Some ==> {
            let pte = self.spec_walk(m, va).unwrap();
            let base = spec_page_base(va);
            &&& entry_has_flag(pte, Flag::User)
            &&& (entry_has_flag(pte, Flag::Zero)
                ==> m.free_seq().len() > 0 && (self.debug ==> va >= crate::ptable::KERNBASE))
            &&& (!entry_has_flag(pte, Flag::Zero) && !entry_has_flag(pte, Flag::Writable)
                && pp_has(self.phys_pages@, base)
                && m.frame(pp_frame_of(self.phys_pages@, base)).spec_refs() > 1
                ==> m.free_seq().len() > 0 && (self.debug ==> va >= crate::ptable::KERNBASE))
        }
    }

    /// The trace record a write of the address emits.
    pub open(crate) spec fn write_trace(self, m: Memory, va: u32) -> Option<TraceEvent> {
        if self.state != ProcessState::Running {
            Some(TraceEvent::Zombie(self.pid))
        } else {
            match self.spec_walk(m, va) {
                None => Some(TraceEvent::InvalidAddress(va)),
                Some(pte) => {
                    let base = spec_page_base(va);
                    let pb = ((va - crate::ptable::KERNBASE) as u32) & !0xFFFu32;
                    if entry_has_flag(pte, Flag::Zero) {
                        if self.debug { Some(TraceEvent::PgZero(pb)) } else { None }
                    } else if !entry_has_flag(pte, Flag::Writable)
                        && pp_has(self.phys_pages@, base)
                        && m.frame(pp_frame_of(self.phys_pages@, base)).spec_refs() > 1 {
                        if self.debug { Some(TraceEvent::PgCopy(pb)) } else { None }
                    } else {
                        None
                    }
                },
            }
        }
    }

    /// Whether a write of the address stores the value somewhere.
    pub open(crate) spec fn write_success(self, m: Memory, va: u32) -> bool {
        &&& self.state == ProcessState::Running
        &&& self.spec_walk(m, va) is Some
        &&& (entry_has_flag(self.spec_walk(m, va).unwrap(), Flag::Zero)
            || pp_has(self.phys_pages@, spec_page_base(va)))
    }

    /// Store a typed value at the address: lazily allocating the data
    /// frame on the first write to a demand page, cloning or upgrading a
    /// read-only shared page on a copy-on-write fault, and otherwise
    /// writing in place, together with the trace record the attempt
    /// emits.
    pub fn write(&mut self, mem: &mut Memory, vaddr: Virtual, value: ValueType)
        -> (ev: Option<TraceEvent>)
        requires
            old(self).wf(*old(mem)),
            vaddr.addr() is Virtual,
            old(self).write_pre(*old(mem), spec_address(vaddr.addr())),
        ensures
            final(self).wf(*final(mem)),
            final(mem).wf(),
            old(self).write_post(*old(mem), *final(self), *final(mem),
                spec_address(vaddr.addr()), value),
            ev == old(self).write_trace(*old(mem), spec_address(vaddr.addr())),
            old(self).write_success(*old(mem), spec_address(vaddr.addr()))
                ==> forall|dt: DataType|
                    #[trigger] final(self).read_result(*final(mem),
                        spec_address(vaddr.addr()), dt)
                        == Some(typed_value(dt, value.word_rep())),
    {
        if self.state != ProcessState::Running {
            return Some(TraceEvent::Zombie(self.pid));
        }
        let ghost p0 = *self;
        let ghost m0 = *mem;
        let ghost sva = spec_address(vaddr.addr());
        let va = vaddr.get();
        let pte0 = match self.walk(mem, vaddr) {
            Some(p) => p,
            None => {
                return Some(TraceEvent::InvalidAddress(va.get_address()));
            },
        };
        let pdx = va.get_dir_index();
        let ptx = va.get_table_index();
        let base = va.get_address() & !0xFFFu32;
        let off = va.get_offset() as usize;
        proof {
            crate::ptable::lemma_split_bounds(sva);
            lemma_base_decompose(sva);
        }
        let raw_pd = read_word(mem, self.pgdir, pdx);
        let pde = PTE::from(raw_pd);
        proof {
            assert(pde.raw() == p0.pde_at(m0, pdx as int));
            assert(entry_has_flag(pde.raw(), Flag::Present));
            assert(entry_ppn(pde.raw()) < self.tables@.len());
        }
        let tf = self.tables[pde.get_ppn()];
        proof {
            assert(tf == p0.table_frame(m0, pdx as int));
            assert(1 <= tf < 32 && tf != p0.pgdir);
        }
        if pte0.get_flag(Flag::Zero) {
            // demand page: allocate the data frame and re-point the entry
            let f = match mem.kalloc() {
                Some(pg) => pg,
                None => vstd::pervasive::unreached(),
            };
            let mut wflags: Vec<Flag> = Vec::new();
            wflags.push(Flag::Present);
            wflags.push(Flag::Writable);
            wflags.push(Flag::User);
            let mut npte = pte0;
            npte.set(PTE::new(f).get_address(), wflags.as_slice());
            proof {
                let fl = wflags@;
                assert forall|g: Flag| fl.contains(g)
                    == (g == Flag::Present || g == Flag::Writable || g == Flag::User) by {
                    if fl.contains(g) {
                        let k = choose|k: int| 0 <= k < fl.len() && fl[k] == g;
                        assert(k == 0 || k == 1 || k == 2);
                    }
                    if g == Flag::Present { assert(fl[0] == g); }
                    if g == Flag::Writable { assert(fl[1] == g); }
                    if g == Flag::User { assert(fl[2] == g); }
                }
            }
            write_word(mem, tf, ptx, npte.get());
            self.phys_pages.push((base, f));
            let ev = if self.debug {
                Some(TraceEvent::PgZero((va.get_address() - crate::ptable::KERNBASE)
                    & !0xFFFu32))
            } else {
                None
            };
            write_value(mem, f, off, &value);
            let mut dpte = npte;
            dpte.set_flag(Flag::Dirty);
            write_word(mem, tf, ptx, dpte.get());
            proof {
                assert(!pp_has(p0.phys_pages@, base)) by {
                    if pp_has(p0.phys_pages@, base) {
                        let i = choose|i: int|
                            0 <= i < p0.phys_pages@.len() && p0.phys_pages@[i].0 == base;
                        assert(!entry_has_flag(
                            p0.pte_at(m0, spec_dir_index(base) as int,
                                spec_table_index(base) as int), Flag::Zero));
                    }
                }
                lemma_pp_push(p0.phys_pages@, base, f);
                lemma_push_contains(m0.used_seq(), f);
                assert(entry_pwud(dpte.raw()));
                self.lemma_store_data_pte(p0, m0, *mem, sva, dpte.raw(), f,
                    pdx as int, ptx as int);
                assert(self.frames_wf(*mem));
                assert(self.wf(*mem));
                assert(p0.write_post(m0, *self, *mem, sva, value));
            }
            ev
        } else if pte0.get_flag(Flag::Writable) {
            match self.find_page(base) {
                Some(i) => {
                    let f = self.phys_pages[i].1;
                    proof {
                        lemma_pp_at(p0.phys_pages@, base, i as int);
                        assert(f == entry_ppn(pte0.raw()));
                    }
                    write_value(mem, f, off, &value);
                    let mut dpte = pte0;
                    dpte.set_flag(Flag::Dirty);
                    write_word(mem, tf, ptx, dpte.get());
                    proof {
                        assert forall|k: int| 0 <= k < self.phys_pages@.len()
                            implies ((#[trigger] self.phys_pages@[k]).0 == base
                                    && self.phys_pages@[k].1 == f)
                                || (self.phys_pages@[k].0 != base
                                    && p0.phys_pages@.contains(self.phys_pages@[k])) by {
                            if self.phys_pages@[k].0 == base {
                                if k != i as int {
                                    assert(self.phys_pages@[k].0
                                        != self.phys_pages@[i as int].0);
                                }
                            }
                        }
                        self.lemma_store_data_pte(p0, m0, *mem, sva, dpte.raw(), f,
                            pdx as int, ptx as int);
                        assert(self.frames_wf(*mem));
                        assert(self.wf(*mem));
                        assert(p0.write_post(m0, *self, *mem, sva, value));
                    }
                    None
                },
                None => None,
            }
        } else {
            // copy-on-write fault
            match self.find_page(base) {
                Some(i) => {
                    let fold = self.phys_pages[i].1;
                    proof {
                        lemma_pp_at(p0.phys_pages@, base, i as int);
                        assert(fold == entry_ppn(pte0.raw()));
                    }
                    let rc = mem.page(fold).ref_count();
                    if rc > 1 {
                        // still shared: move to a private copy
                        dec_frame_refs(mem, fold);
                        let g = match mem.kalloc() {
                            Some(pg) => pg,
                            None => vstd::pervasive::unreached(),
                        };
                        proof {
                            assert(g != fold);
                        }
                        copy_frame(mem, g, fold);
                        let mut wflags: Vec<Flag> = Vec::new();
                        wflags.push(Flag::Present);
                        wflags.push(Flag::Writable);
                        wflags.push(Flag::User);
                        let mut npte = pte0;
                        npte.set(PTE::new(g).get_address(), wflags.as_slice());
                        proof {
                            let fl = wflags@;
                            assert forall|gg: Flag| fl.contains(gg)
                                == (gg == Flag::Present || gg == Flag::Writable
                                    || gg == Flag::User) by {
                                if fl.contains(gg) {
                                    let k = choose|k: int| 0 <= k < fl.len() && fl[k] == gg;
                                    assert(k == 0 || k == 1 || k == 2);
                                }
                                if gg == Flag::Present { assert(fl[0] == gg); }
                                if gg == Flag::Writable { assert(fl[1] == gg); }
                                if gg == Flag::User { assert(fl[2] == gg); }
                            }
                        }
                        write_word(mem, tf, ptx, npte.get());
                        self.phys_pages.set(i, (base, g));
                        let ev = if self.debug {
                            Some(TraceEvent::PgCopy(
                                (va.get_address() - crate::ptable::KERNBASE) & !0xFFFu32))
                        } else {
                            None
                        };
                        write_value(mem, g, off, &value);
                        let mut dpte = npte;
                        dpte.set_flag(Flag::Dirty);
                        write_word(mem, tf, ptx, dpte.get());
                        proof {
                            lemma_pp_update(p0.phys_pages@, i as int, base, g);
                            lemma_push_contains(m0.used_seq(), g);
                            assert(entry_pwud(dpte.raw()));
                            assert forall|k: int| 0 <= k < self.phys_pages@.len()
                                implies ((#[trigger] self.phys_pages@[k]).0 == base
                                        && self.phys_pages@[k].1 == g)
                                    || (self.phys_pages@[k].0 != base
                                        && p0.phys_pages@.contains(self.phys_pages@[k])) by {
                                if k != i as int {
                                    assert(self.phys_pages@[k] == p0.phys_pages@[k]);
                                }
                            }
                            self.lemma_store_data_pte(p0, m0, *mem, sva, dpte.raw(), g,
                                pdx as int, ptx as int);
                            assert(self.frames_wf(*mem));
                            assert(self.wf(*mem));
                            assert(p0.write_post(m0, *self, *mem, sva, value));
                        }
                        ev
                    } else {
                        // sole holder: upgrade the entry in place
                        let mut upte = pte0;
                        upte.set_flag(Flag::Writable);
                        upte.clear_flag(Flag::Dirty);
                        write_word(mem, tf, ptx, upte.get());
                        write_value(mem, fold, off, &value);
                        let mut dpte = upte;
                        dpte.set_flag(Flag::Dirty);
                        write_word(mem, tf, ptx, dpte.get());
                        proof {
                            assert(entry_with(dpte.raw(), pte0.raw(), Flag::Writable,
                                Flag::Dirty));
                            assert forall|k: int| 0 <= k < self.phys_pages@.len()
                                implies ((#[trigger] self.phys_pages@[k]).0 == base
                                        && self.phys_pages@[k].1 == fold)
                                    || (self.phys_pages@[k].0 != base
                                        && p0.phys_pages@.contains(self.phys_pages@[k])) by {
                                if self.phys_pages@[k].0 == base {
                                    if k != i as int {
                                        assert(self.phys_pages@[k].0
                                            != self.phys_pages@[i as int].0);
                                    }
                                }
                            }
                            self.lemma_store_data_pte(p0, m0, *mem, sva, dpte.raw(), fold,
                                pdx as int, ptx as int);
                            assert(self.frames_wf(*mem));
                            assert(self.wf(*mem));
                            assert(p0.write_post(m0, *self, *mem, sva, value));
                        }
                        None
                    }
                },
                None => None,
            }
        }
    }

    /// Clone the address space for a fork.  Every data frame is shared
    /// with the child and made read-only on both sides; every table frame
    /// and the directory are duplicated byte for byte; the parent goes to
    /// sleep and a sleeping child is returned.
    #[verifier::rlimit(100)]
    pub fn copy(&mut self, mem: &mut Memory, child_pid: u32, debug: bool) -> (r: Process)
        requires
            old(self).wf(*old(mem)),
            old(mem).free_seq().len() >= old(self).tables_seq().len() + 1,
            forall|i: int| 0 <= i < old(self).pages_seq().len()
                ==> old(mem).frame((#[trigger] old(self).pages_seq()[i]).1).spec_refs()
                    < usize::MAX,
        ensures
            final(mem).wf(),
            final(self).wf(*final(mem)),
            r.wf(*final(mem)),
            final(self).spec_pid() == old(self).spec_pid(),
            final(self).spec_state() == ProcessState::Sleeping,
            final(self).spec_debug() == old(self).spec_debug(),
            final(self).spec_pgdir() == old(self).spec_pgdir(),
            final(self).tables_seq() == old(self).tables_seq(),
            final(self).pages_seq() == old(self).pages_seq(),
            r.spec_pid() == child_pid,
            r.spec_state() == ProcessState::Sleeping,
            r.spec_debug() == debug,
            r.pages_seq() == old(self).pages_seq(),
            r.tables_seq().len() == old(self).tables_seq().len(),
            forall|va: u32| #[trigger] r.spec_walk(*final(mem), va)
                == final(self).spec_walk(*final(mem), va),
            !old(mem).is_used(r.spec_pgdir()),
            forall|t: int| 0 <= t < r.tables_seq().len()
                ==> !old(mem).is_used(#[trigger] r.tables_seq()[t]),
            final(mem).frame(r.spec_pgdir()).spec_refs() == 1,
            forall|t: int| 0 <= t < r.tables_seq().len()
                ==> final(mem).frame(#[trigger] r.tables_seq()[t]).spec_refs() == 1,
            forall|i: int| 0 <= i < old(self).pages_seq().len() ==> ({
                let f = (#[trigger] old(self).pages_seq()[i]).1;
                &&& final(mem).frame(f).bytes() == old(mem).frame(f).bytes()
                &&& final(mem).frame(f).spec_refs() == old(mem).frame(f).spec_refs() + 1
            }),
            forall|d: int| 0 <= d < 1024
                ==> #[trigger] final(self).pde_at(*final(mem), d)
                    == old(self).pde_at(*old(mem), d),
            forall|d: int, x: int|
                #![trigger final(self).pte_at(*final(mem), d, x)]
                0 <= d < 1024 && 0 <= x < 1024
                    && entry_has_flag(old(self).pde_at(*old(mem), d), Flag::Present)
                ==> ({
                    let w0 = old(self).pte_at(*old(mem), d, x);
                    let w1 = final(self).pte_at(*final(mem), d, x);
                    if pp_has(old(self).pages_seq(), base_from_indices(d as u32, x as u32)) {
                        entry_without_w(w1, w0)
                    } else {
                        w1 == w0
                    }
                }),
            final(mem).free_seq().len()
                == old(mem).free_seq().len() - old(self).tables_seq().len() - 1,
            forall|q: u32| old(mem).is_used(q) ==> final(mem).is_used(q),
            forall|t: int| 0 <= t < old(self).tables_seq().len() ==> ({
                let g = #[trigger] old(self).tables_seq()[t];
                final(mem).frame(g).spec_refs() == old(mem).frame(g).spec_refs()
            }),
            forall|q: u32| q < 32
                && !old(self).tables_seq().contains(q)
                && !(exists|k: int| 0 <= k < old(self).pages_seq().len()
                    && (#[trigger] old(self).pages_seq()[k]).1 == q)
                && q != r.spec_pgdir()
                && !r.tables_seq().contains(q)
                ==> final(mem).frame(q) == old(mem).frame(q),
    {
        let ghost p0 = *self;
        let ghost m0 = *mem;
        let mut pages: Vec<(u32, u32)> = Vec::new();
        let n = self.phys_pages.len();
        proof {
            assert forall|k: int| 0 <= k < n
                implies m0.frame((#[trigger] p0.phys_pages@[k]).1).spec_refs()
                    < usize::MAX by {
                assert(p0.pages_seq()[k] == p0.phys_pages@[k]);
            }
        }
        let mut i: usize = 0;
        while i < n
            invariant
                *self == p0,
                p0.wf(*mem),
                p0.wf(m0),
                forall|k: int| 0 <= k < n
                    ==> m0.frame((#[trigger] p0.phys_pages@[k]).1).spec_refs() < usize::MAX,
                n == p0.phys_pages@.len(),
                i <= n,
                pages@.len() == i,
                forall|k: int| 0 <= k < i ==> #[trigger] pages@[k] == p0.phys_pages@[k],
                mem.free_seq() == m0.free_seq(),
                mem.used_seq() == m0.used_seq(),
                forall|k: int| 0 <= k < n ==> ({
                    let f = (#[trigger] p0.phys_pages@[k]).1;
                    &&& mem.frame(f).bytes() == m0.frame(f).bytes()
                    &&& mem.frame(f).spec_ppn() == m0.frame(f).spec_ppn()
                    &&& (k < i ==> mem.frame(f).spec_refs()
                        == m0.frame(f).spec_refs() + 1)
                    &&& (k >= i ==> mem.frame(f).spec_refs() == m0.frame(f).spec_refs())
                }),
                forall|t: int| 0 <= t < p0.tables@.len() ==> ({
                    let g = #[trigger] p0.tables@[t];
                    &&& mem.frame(g).spec_refs() == m0.frame(g).spec_refs()
                    &&& mem.frame(g).spec_ppn() == m0.frame(g).spec_ppn()
                }),
                forall|q: u32| q < 32
                    && !p0.tables@.contains(q)
                    && !(exists|k: int| 0 <= k < n
                        && (#[trigger] p0.phys_pages@[k]).1 == q)
                    ==> mem.frame(q) == m0.frame(q),
                forall|d: int| 0 <= d < 1024
                    ==> #[trigger] p0.pde_at(*mem, d) == p0.pde_at(m0, d),
                forall|d: int, x: int|
                    #![trigger p0.pte_at(*mem, d, x)]
                    0 <= d < 1024 && 0 <= x < 1024
                        && entry_has_flag(p0.pde_at(m0, d), Flag::Present)
                    ==> ({
                        let w0 = p0.pte_at(m0, d, x);
                        let w1 = p0.pte_at(*mem, d, x);
                        if exists|k: int| 0 <= k < i && (#[trigger] p0.phys_pages@[k]).0
                            == base_from_indices(d as u32, x as u32) {
                            entry_without_w(w1, w0)
                        } else {
                            w1 == w0
                        }
                    }),
            decreases n - i,
        {
            let ghost mprev = *mem;
            let pr = self.phys_pages[i];
            let b = pr.0;
            let f = pr.1;
            proof {
                assert(p0.phys_pages@[i as int] == pr);
                crate::ptable::lemma_split_bounds(b);
                lemma_base_decompose(b);
                assert(spec_page_base(b) == b);
            }
            inc_frame_refs(mem, f);
            let ghost ma = *mem;
            let d = ((b >> crate::ptable::PDXSHIFT) & 0x3FF) as usize;
            let x = ((b >> crate::ptable::PTXSHIFT) & 0x3FF) as usize;
            proof {
                assert(d == spec_dir_index(b) as usize);
                assert(x == spec_table_index(b) as usize);
                p0.lemma_wf_frames_untouched(mprev, ma);
                assert(entry_has_flag(p0.pde_at(ma, d as int), Flag::Present));
            }
            let raw_pd = read_word(mem, self.pgdir, d);
            let pde = PTE::from(raw_pd);
            proof {
                assert(pde.raw() == p0.pde_at(ma, d as int));
                assert(entry_ppn(pde.raw()) < p0.tables@.len());
            }
            let tfk = self.tables[pde.get_ppn()];
            let raw = read_word(mem, tfk, x);
            let mut pte = PTE::from(raw);
            proof {
                assert(tfk == p0.table_frame(ma, d as int));
                assert(raw == p0.pte_at(ma, d as int, x as int));
                // the entry for an unprocessed page is still the original
                assert(!(exists|k: int| 0 <= k < i && (#[trigger] p0.phys_pages@[k]).0
                    == base_from_indices(d as u32, x as u32))) by {
                    if exists|k: int| 0 <= k < i && (#[trigger] p0.phys_pages@[k]).0
                        == base_from_indices(d as u32, x as u32) {
                        let k = choose|k: int| 0 <= k < i
                            && (#[trigger] p0.phys_pages@[k]).0
                                == base_from_indices(d as u32, x as u32);
                        assert(p0.phys_pages@[k].0 != p0.phys_pages@[i as int].0);
                    }
                }
                assert(p0.pte_at(ma, d as int, x as int)
                    == p0.pte_at(mprev, d as int, x as int));
                assert(raw == p0.pte_at(m0, d as int, x as int));
                assert(entry_has_flag(raw, Flag::Present)
                    && !entry_has_flag(raw, Flag::Zero)
                    && entry_ppn(raw) == f);
            }
            pte.clear_flag(Flag::Writable);
            write_word(mem, tfk, x, pte.get());
            pages.push((b, f));
            proof {
                lemma_pp_at(p0.phys_pages@, b, i as int);
                self.lemma_store_data_pte(p0, ma, *mem, b, pte.raw(), f,
                    d as int, x as int);
                assert(p0.frames_wf(*mem));
                assert(p0.wf(*mem));
                assert forall|dd: int, xx: int|
                    #![trigger p0.pte_at(*mem, dd, xx)]
                    0 <= dd < 1024 && 0 <= xx < 1024
                        && entry_has_flag(p0.pde_at(m0, dd), Flag::Present)
                    implies ({
                        let w0 = p0.pte_at(m0, dd, xx);
                        let w1 = p0.pte_at(*mem, dd, xx);
                        if exists|k: int| 0 <= k < i + 1 && (#[trigger] p0.phys_pages@[k]).0
                            == base_from_indices(dd as u32, xx as u32) {
                            entry_without_w(w1, w0)
                        } else {
                            w1 == w0
                        }
                    }) by {
                    lemma_base_indices(dd as u32, xx as u32);
                    lemma_base_indices(d as u32, x as u32);
                    if dd == d as int && xx == x as int {
                        assert(p0.phys_pages@[i as int].0
                            == base_from_indices(dd as u32, xx as u32));
                        assert(entry_without_w(pte.raw(), raw));
                    } else {
                        assert(base_from_indices(dd as u32, xx as u32)
                            != base_from_indices(d as u32, x as u32));
                        assert(p0.pte_at(*mem, dd, xx) == p0.pte_at(ma, dd, xx));
                        assert(p0.pte_at(ma, dd, xx) == p0.pte_at(mprev, dd, xx));
                        assert forall|k: int| 0 <= k < i + 1
                            && (#[trigger] p0.phys_pages@[k]).0
                                == base_from_indices(dd as u32, xx as u32)
                            implies k < i by {
                            if k == i {
                                assert(p0.phys_pages@[i as int].0
                                    == base_from_indices(d as u32, x as u32));
                            }
                        }
                    }
                }
            }
            i = i + 1;
        }
        let ghost m1 = *mem;
        // duplicate every table frame for the child
        let mut tables: Vec<u32> = Vec::new();
        let tn = self.tables.len();
        let mut t: usize = 0;
        while t < tn
            invariant
                *self == p0,
                p0.wf(*mem),
                p0.wf(m1),
                tn == p0.tables@.len(),
                t <= tn,
                m1.free_seq().len() >= tn + 1,
                tables@.len() == t,
                distinct_seq(tables@),
                forall|k: int| 0 <= k < t ==> ({
                    let g = #[trigger] tables@[k];
                    &&& 1 <= g < 32
                    &&& !m1.is_used(g)
                    &&& mem.is_used(g)
                    &&& mem.frame(g).bytes() == m1.frame(p0.tables@[k]).bytes()
                    &&& mem.frame(g).spec_refs() == 1
                    &&& mem.frame(g).spec_ppn() == g
                }),
                mem.free_seq() == m1.free_seq().subrange(0, m1.free_seq().len() - t),
                forall|q: u32| #[trigger] mem.is_used(q)
                    == (m1.is_used(q) || tables@.contains(q)),
                forall|q: u32| q < 32 && !tables@.contains(q)
                    ==> mem.frame(q) == m1.frame(q),
            decreases tn - t,
        {
            let ghost mprev = *mem;
            proof {
                assert(mem.free_seq().len() == m1.free_seq().len() - t);
            }
            let g = match mem.kalloc() {
                Some(pg) => pg,
                None => vstd::pervasive::unreached(),
            };
            proof {
                lemma_push_contains(mprev.used_seq(), g);
                assert(!mprev.is_used(g));
                assert(!m1.is_used(g));
                assert(!tables@.contains(g));
                assert(mprev.free_seq().last() == m1.free_seq()[m1.free_seq().len() - t - 1]);
                assert(mem.free_seq() =~= m1.free_seq().subrange(0, m1.free_seq().len() - t - 1));
            }
            proof {
                assert(m1.is_used(p0.tables@[t as int]));
                assert(p0.tables@[t as int] != g);
                assert(!tables@.contains(p0.tables@[t as int]));
            }
            copy_frame(mem, g, self.tables[t]);
            let ghost tb_old = tables@;
            proof {
                assert(mem.frame(g).bytes() == m1.frame(p0.tables@[t as int]).bytes());
                lemma_push_distinct(tb_old, g);
                lemma_push_contains(tb_old, g);
            }
            tables.push(g);
            proof {
                assert(tables@ == tb_old.push(g));
                assert forall|q: u32| #[trigger] mem.is_used(q)
                    == (m1.is_used(q) || tables@.contains(q)) by {
                    assert(mem.is_used(q) == (mprev.is_used(q) || q == g));
                }
                assert(m1.is_used(p0.pgdir));
                p0.lemma_wf_frames_untouched(mprev, *mem);
            }
            t = t + 1;
        }
        let ghost m2 = *mem;
        // duplicate the directory frame
        proof {
            assert(mem.free_seq().len() == m1.free_seq().len() - tn);
        }
        let pgdir = match mem.kalloc() {
            Some(dir) => dir,
            None => vstd::pervasive::unreached(),
        };
        proof {
            lemma_push_contains(m2.used_seq(), pgdir);
        }
        copy_frame(mem, pgdir, self.pgdir);
        self.yieldk();
        let ghost mf = *mem;
        let child = Process {
            pid: child_pid,
            state: ProcessState::Sleeping,
            pgdir,
            tables,
            phys_pages: pages,
            debug,
        };
        proof {
            assert(pages@ =~= p0.phys_pages@);
            assert(!m2.is_used(pgdir));
            assert(!m1.is_used(pgdir) && !tables@.contains(pgdir));
            assert(1 <= pgdir < 32);
            assert(m1.is_used(p0.pgdir));
            p0.lemma_wf_frames_untouched(m2, mf);
            assert forall|q: u32| m0.is_used(q) implies mf.is_used(q) by {
                assert(m1.is_used(q));
                assert(m2.is_used(q));
                assert(mf.is_used(q) == (m2.is_used(q) || q == pgdir));
            }
            // the parent's frames were not touched after the first loop
            assert(p0.pgdir != pgdir && !p0.tables@.contains(pgdir));
            assert(mf.frame(p0.pgdir) == m1.frame(p0.pgdir)) by {
                assert(!tables@.contains(p0.pgdir));
            }
            assert(m1.frame(p0.pgdir) == m0.frame(p0.pgdir));
            assert forall|tt: int| 0 <= tt < tn
                implies mf.frame(#[trigger] p0.tables@[tt]) == m1.frame(p0.tables@[tt]) by {
                assert(m1.is_used(p0.tables@[tt]));
                assert(!tables@.contains(p0.tables@[tt]));
                assert(p0.tables@[tt] != pgdir);
            }
            assert forall|dd: int| 0 <= dd < 1024
                implies #[trigger] self.pde_at(mf, dd) == p0.pde_at(m0, dd) by {}
            assert forall|dd: int, xx: int|
                #![trigger self.pte_at(mf, dd, xx)]
                0 <= dd < 1024 && 0 <= xx < 1024
                    && entry_has_flag(p0.pde_at(m0, dd), Flag::Present)
                implies self.pte_at(mf, dd, xx) == p0.pte_at(m1, dd, xx) by {
                let td = entry_ppn(p0.pde_at(m0, dd)) as int;
                assert(0 <= td < p0.tables@.len());
                assert(mf.frame(p0.tables@[td]) == m1.frame(p0.tables@[td]));
            }
            // the parent stays well formed in the final pool
            assert(self.frames_wf(mf)) by {
                assert forall|k: int| 0 <= k < n
                    implies mf.is_used((#[trigger] p0.phys_pages@[k]).1) by {
                    assert(m1.is_used(p0.phys_pages@[k].1));
                }
            }
            assert(self.wf(mf)) by {
                assert forall|dd: int, xx: int|
                    #![trigger self.pte_at(mf, dd, xx)]
                    0 <= dd < 1024 && 0 <= xx < 1024
                        && entry_has_flag(self.pde_at(mf, dd), Flag::Present)
                        && entry_has_flag(self.pte_at(mf, dd, xx), Flag::Present)
                        && !entry_has_flag(self.pte_at(mf, dd, xx), Flag::Zero)
                    implies pp_has(self.phys_pages@,
                            base_from_indices(dd as u32, xx as u32))
                        && pp_frame_of(self.phys_pages@,
                            base_from_indices(dd as u32, xx as u32))
                            == entry_ppn(self.pte_at(mf, dd, xx)) by {
                    assert(self.pte_at(mf, dd, xx) == p0.pte_at(m1, dd, xx));
                }
                assert forall|k: int| 0 <= k < self.phys_pages@.len() implies ({
                    let bb = (#[trigger] self.phys_pages@[k]).0;
                    let dd = spec_dir_index(bb) as int;
                    let xx = spec_table_index(bb) as int;
                    &&& spec_page_base(bb) == bb
                    &&& entry_has_flag(self.pde_at(mf, dd), Flag::Present)
                    &&& entry_has_flag(self.pte_at(mf, dd, xx), Flag::Present)
                    &&& !entry_has_flag(self.pte_at(mf, dd, xx), Flag::Zero)
                    &&& entry_ppn(self.pte_at(mf, dd, xx)) == self.phys_pages@[k].1
                }) by {
                    let bb = self.phys_pages@[k].0;
                    crate::ptable::lemma_split_bounds(bb);
                    assert(self.pte_at(mf, spec_dir_index(bb) as int,
                        spec_table_index(bb) as int)
                        == p0.pte_at(m1, spec_dir_index(bb) as int,
                            spec_table_index(bb) as int));
                }
            }
            // the child sees the parent's directory and tables byte for byte
            assert(mf.frame(pgdir).bytes() == m1.frame(p0.pgdir).bytes());
            assert forall|k: int| 0 <= k < tn
                implies mf.frame(#[trigger] tables@[k]).bytes()
                    == m1.frame(p0.tables@[k]).bytes() by {
                assert(tables@[k] != pgdir);
                assert(m2.frame(tables@[k]).bytes() == m1.frame(p0.tables@[k]).bytes());
            }
            assert forall|dd: int| 0 <= dd < 1024
                implies #[trigger] child.pde_at(mf, dd) == self.pde_at(mf, dd) by {}
            assert forall|dd: int, xx: int|
                #![trigger child.pte_at(mf, dd, xx)]
                0 <= dd < 1024 && 0 <= xx < 1024
                    && entry_has_flag(child.pde_at(mf, dd), Flag::Present)
                implies child.pte_at(mf, dd, xx) == self.pte_at(mf, dd, xx) by {
                let td = entry_ppn(child.pde_at(mf, dd)) as int;
                assert(0 <= td < p0.tables@.len());
                assert(child.tables@[td] == tables@[td]);
                assert(mf.frame(tables@[td]).bytes() == m1.frame(p0.tables@[td]).bytes());
                assert(mf.frame(p0.tables@[td]).bytes()
                    == m1.frame(p0.tables@[td]).bytes());
            }
            assert(child.frames_wf(mf)) by {
                lemma_push_contains(m2.used_seq(), pgdir);
                assert(mf.is_used(pgdir));
                assert forall|k: int| 0 <= k < tn
                    implies mf.is_used(#[trigger] tables@[k]) && tables@[k] != pgdir by {
                    assert(m2.is_used(tables@[k]));
                }
                assert forall|k: int| 0 <= k < n implies ({
                    let ff = (#[trigger] child.phys_pages@[k]).1;
                    &&& mf.is_used(ff)
                    &&& ff != pgdir
                    &&& (forall|tt: int| 0 <= tt < tn ==> ff != #[trigger] tables@[tt])
                }) by {
                    let ff = child.phys_pages@[k].1;
                    assert(child.phys_pages@[k] == p0.phys_pages@[k]);
                    assert(m1.is_used(ff));
                    assert forall|tt: int| 0 <= tt < tn
                        implies ff != #[trigger] tables@[tt] by {
                        assert(!m1.is_used(tables@[tt]));
                    }
                }
            }
            assert(child.dir_wf(mf) && child.dir_injective(mf)) by {
                assert forall|dd: int| 0 <= dd < 1024
                    implies #[trigger] child.pde_at(mf, dd) == self.pde_at(mf, dd) by {}
            }
            assert(child.ptes_wf(mf)) by {
                assert forall|dd: int, xx: int|
                    #![trigger child.pte_at(mf, dd, xx)]
                    0 <= dd < 1024 && 0 <= xx < 1024
                        && entry_has_flag(child.pde_at(mf, dd), Flag::Present)
                        && entry_has_flag(child.pte_at(mf, dd, xx), Flag::Present)
                        && !entry_has_flag(child.pte_at(mf, dd, xx), Flag::Zero)
                    implies pp_has(child.phys_pages@,
                            base_from_indices(dd as u32, xx as u32))
                        && pp_frame_of(child.phys_pages@,
                            base_from_indices(dd as u32, xx as u32))
                            == entry_ppn(child.pte_at(mf, dd, xx)) by {
                    assert(child.pte_at(mf, dd, xx) == self.pte_at(mf, dd, xx));
                }
                assert forall|k: int| 0 <= k < child.phys_pages@.len() implies ({
                    let bb = (#[trigger] child.phys_pages@[k]).0;
                    let dd = spec_dir_index(bb) as int;
                    let xx = spec_table_index(bb) as int;
                    &&& spec_page_base(bb) == bb
                    &&& entry_has_flag(child.pde_at(mf, dd), Flag::Present)
                    &&& entry_has_flag(child.pte_at(mf, dd, xx), Flag::Present)
                    &&& !entry_has_flag(child.pte_at(mf, dd, xx), Flag::Zero)
                    &&& entry_ppn(child.pte_at(mf, dd, xx)) == child.phys_pages@[k].1
                }) by {
                    let bb = child.phys_pages@[k].0;
                    crate::ptable::lemma_split_bounds(bb);
                    assert(child.phys_pages@[k] == self.phys_pages@[k]);
                    assert(child.pte_at(mf, spec_dir_index(bb) as int,
                        spec_table_index(bb) as int)
                        == self.pte_at(mf, spec_dir_index(bb) as int,
                            spec_table_index(bb) as int));
                }
            }
            assert forall|va: u32| #[trigger] child.spec_walk(mf, va)
                == self.spec_walk(mf, va) by {
                crate::ptable::lemma_split_bounds(va);
                let dd = spec_dir_index(va) as int;
                let xx = spec_table_index(va) as int;
                assert(child.pde_at(mf, dd) == self.pde_at(mf, dd));
                if entry_has_flag(child.pde_at(mf, dd), Flag::Present) {
                    assert(child.pte_at(mf, dd, xx) == self.pte_at(mf, dd, xx));
                }
            }
            // the pte dichotomy against the original pool
            assert forall|dd: int, xx: int|
                #![trigger self.pte_at(mf, dd, xx)]
                0 <= dd < 1024 && 0 <= xx < 1024
                    && entry_has_flag(p0.pde_at(m0, dd), Flag::Present)
                implies ({
                    let w0 = p0.pte_at(m0, dd, xx);
                    let w1 = self.pte_at(mf, dd, xx);
                    if pp_has(p0.phys_pages@, base_from_indices(dd as u32, xx as u32)) {
                        entry_without_w(w1, w0)
                    } else {
                        w1 == w0
                    }
                }) by {
                assert(self.pte_at(mf, dd, xx) == p0.pte_at(m1, dd, xx));
                assert(pp_has(p0.phys_pages@, base_from_indices(dd as u32, xx as u32))
                    == (exists|k: int| 0 <= k < n && (#[trigger] p0.phys_pages@[k]).0
                        == base_from_indices(dd as u32, xx as u32)));
            }
        }
        child
    }

    /// Terminate the process and release everything it owns: each owned
    /// data frame loses one reference and is returned to the free list
    /// when that was the last one; the directory and all tables are
    /// returned unconditionally.
    pub fn kill(&mut self, mem: &mut Memory)
        requires
            old(self).wf(*old(mem)),
        ensures
            final(mem).wf(),
            final(self).spec_pid() == old(self).spec_pid(),
            final(self).spec_state() == ProcessState::Terminated,
            final(self).spec_debug() == old(self).spec_debug(),
            final(self).spec_pgdir() == old(self).spec_pgdir(),
            final(self).tables_seq().len() == 0,
            final(self).pages_seq().len() == 0,
            forall|q: u32| q < 32
                ==> final(mem).frame(q).bytes() == old(mem).frame(q).bytes()
                    && final(mem).frame(q).spec_ppn() == old(mem).frame(q).spec_ppn(),
            forall|q: u32| q < 32
                && !(exists|k: int| 0 <= k < old(self).pages_seq().len()
                    && (#[trigger] old(self).pages_seq()[k]).1 == q)
                ==> final(mem).frame(q) == old(mem).frame(q),
            forall|i: int| 0 <= i < old(self).pages_seq().len() ==> ({
                let f = (#[trigger] old(self).pages_seq()[i]).1;
                &&& (old(mem).frame(f).spec_refs() > 1
                    ==> final(mem).frame(f).spec_refs()
                        == old(mem).frame(f).spec_refs() - 1 && final(mem).is_used(f))
                &&& (old(mem).frame(f).spec_refs() == 1 ==> !final(mem).is_used(f))
                &&& (old(mem).frame(f).spec_refs() == 0
                    ==> final(mem).frame(f).spec_refs() == 0 && final(mem).is_used(f))
            }),
            !final(mem).is_used(old(self).spec_pgdir()),
            forall|t: int| 0 <= t < old(self).tables_seq().len()
                ==> !final(mem).is_used(#[trigger] old(self).tables_seq()[t]),
            forall|q: u32| final(mem).is_used(q) ==> old(mem).is_used(q),
            forall|q: u32| old(mem).is_used(q)
                && q != old(self).spec_pgdir()
                && !old(self).tables_seq().contains(q)
                && !sole_owned_upto(old(self).pages_seq(), *old(mem),
                    old(self).pages_seq().len() as int, q)
                ==> final(mem).is_used(q),
    {
        let ghost p0 = *self;
        let ghost m0 = *mem;
        self.state = ProcessState::Terminated;
        // release the owned data frames, respecting shared references
        let n = self.phys_pages.len();
        let mut i: usize = 0;
        while i < n
            invariant
                self.pgdir == p0.pgdir,
                self.tables@ == p0.tables@,
                self.phys_pages@ == p0.phys_pages@,
                self.pid == p0.pid,
                self.debug == p0.debug,
                p0.wf(m0),
                mem.wf(),
                n == p0.phys_pages@.len(),
                i <= n,
                forall|q: u32| q < 32
                    ==> mem.frame(q).bytes() == m0.frame(q).bytes()
                        && mem.frame(q).spec_ppn() == m0.frame(q).spec_ppn(),
                forall|q: u32| q < 32
                    && !(exists|k: int| 0 <= k < n
                        && (#[trigger] p0.phys_pages@[k]).1 == q)
                    ==> mem.frame(q) == m0.frame(q),
                forall|k: int| 0 <= k < n ==> ({
                    let f = (#[trigger] p0.phys_pages@[k]).1;
                    &&& (k >= i ==> mem.is_used(f)
                        && mem.frame(f).spec_refs() == m0.frame(f).spec_refs())
                    &&& (k < i ==> ({
                        &&& (m0.frame(f).spec_refs() > 1
                            ==> mem.frame(f).spec_refs() == m0.frame(f).spec_refs() - 1
                                && mem.is_used(f))
                        &&& (m0.frame(f).spec_refs() == 1 ==> !mem.is_used(f))
                        &&& (m0.frame(f).spec_refs() == 0
                            ==> mem.frame(f).spec_refs() == 0 && mem.is_used(f))
                    }))
                }),
                forall|q: u32| #[trigger] mem.is_used(q)
                    == (m0.is_used(q)
                        && !sole_owned_upto(p0.phys_pages@, m0, i as int, q)),
            decreases n - i,
        {
            let ghost mprev = *mem;
            let pr = self.phys_pages[i];
            let f = pr.1;
            proof {
                assert(p0.phys_pages@[i as int] == pr);
                assert(1 <= f < 32);
                assert(!sole_owned_upto(p0.phys_pages@, m0, i as int, f)) by {
                    if sole_owned_upto(p0.phys_pages@, m0, i as int, f) {
                        let k = choose|k: int| 0 <= k < i
                            && (#[trigger] p0.phys_pages@[k]).1 == f
                            && m0.frame(f).spec_refs() == 1;
                        assert(p0.phys_pages@[k].1 != p0.phys_pages@[i as int].1);
                    }
                }
            }
            let rc = mem.page(f).ref_count();
            if rc == 0 {
            } else if rc > 1 {
                dec_frame_refs(mem, f);
            } else {
                mem.kfree(f);
            }
            proof {
                assert forall|q: u32| #[trigger] mem.is_used(q)
                    == (m0.is_used(q)
                        && !sole_owned_upto(p0.phys_pages@, m0, i + 1 as int, q)) by {
                    let so_new = sole_owned_upto(p0.phys_pages@, m0, i + 1 as int, q);
                    let so_old = sole_owned_upto(p0.phys_pages@, m0, i as int, q);
                    assert(so_new == (so_old || (q == f && m0.frame(f).spec_refs() == 1)))
                        by {
                        if so_new {
                            let k = choose|k: int| 0 <= k < i + 1
                                && (#[trigger] p0.phys_pages@[k]).1 == q
                                && m0.frame(q).spec_refs() == 1;
                            if k < i {
                                assert(sole_owned_upto(p0.phys_pages@, m0, i as int, q));
                            } else {
                                assert(q == f);
                            }
                        }
                        if so_old {
                            let k = choose|k: int| 0 <= k < i
                                && (#[trigger] p0.phys_pages@[k]).1 == q
                                && m0.frame(q).spec_refs() == 1;
                            assert(0 <= k < i + 1 && p0.phys_pages@[k].1 == q);
                        }
                        if q == f && m0.frame(f).spec_refs() == 1 {
                            assert(p0.phys_pages@[i as int].1 == q);
                        }
                    }
                    assert(m0.frame(f).spec_refs() == rc);
                    if rc == 1 {
                        if q != f {
                            assert(mem.is_used(q) == mprev.is_used(q));
                        }
                    } else {
                        assert(mem.is_used(q) == mprev.is_used(q));
                    }
                    assert(mprev.is_used(q) == (m0.is_used(q) && !so_old));
                }
            }
            i = i + 1;
        }
        self.phys_pages.clear();
        let ghost ma = *mem;
        // release the directory and every table frame
        proof {
            assert(!sole_owned_upto(p0.phys_pages@, m0, n as int, p0.pgdir)) by {
                if sole_owned_upto(p0.phys_pages@, m0, n as int, p0.pgdir) {
                    let k = choose|k: int| 0 <= k < n
                        && (#[trigger] p0.phys_pages@[k]).1 == p0.pgdir
                        && m0.frame(p0.pgdir).spec_refs() == 1;
                }
            }
            assert(ma.is_used(p0.pgdir));
        }
        mem.kfree(self.pgdir);
        let ghost mb = *mem;
        proof {
            assert forall|q: u32| #[trigger] mb.is_used(q)
                == (m0.is_used(q)
                    && !sole_owned_upto(p0.phys_pages@, m0, n as int, q)
                    && q != p0.pgdir) by {
                if q != p0.pgdir {
                    assert(mb.is_used(q) == ma.is_used(q));
                }
            }
        }
        let tn = self.tables.len();
        let mut t: usize = 0;
        while t < tn
            invariant
                self.tables@ == p0.tables@,
                p0.wf(m0),
                mem.wf(),
                tn == p0.tables@.len(),
                t <= tn,
                n == p0.phys_pages@.len(),
                forall|q: u32| #[trigger] mb.is_used(q)
                    == (m0.is_used(q)
                        && !sole_owned_upto(p0.phys_pages@, m0, n as int, q)
                        && q != p0.pgdir),
                forall|q: u32| q < 32 ==> mem.frame(q) == mb.frame(q),
                forall|k: int| 0 <= k < t
                    ==> !mem.is_used(#[trigger] p0.tables@[k]),
                forall|k: int| t <= k < tn
                    ==> mem.is_used(#[trigger] p0.tables@[k]) == mb.is_used(p0.tables@[k]),
                forall|q: u32| #[trigger] mem.is_used(q) ==> mb.is_used(q),
                forall|q: u32| mb.is_used(q)
                    && !(exists|k: int| 0 <= k < t && #[trigger] p0.tables@[k] == q)
                    ==> mem.is_used(q),
            decreases tn - t,
        {
            proof {
                assert(mb.is_used(p0.tables@[t as int])) by {
                    assert(!sole_owned_upto(p0.phys_pages@, m0, n as int,
                        p0.tables@[t as int])) by {
                        if sole_owned_upto(p0.phys_pages@, m0, n as int,
                            p0.tables@[t as int]) {
                            let k = choose|k: int| 0 <= k < n
                                && (#[trigger] p0.phys_pages@[k]).1
                                    == p0.tables@[t as int]
                                && m0.frame(p0.tables@[t as int]).spec_refs() == 1;
                            assert(p0.phys_pages@[k].1 != p0.tables@[t as int]);
                        }
                    }
                    assert(p0.tables@[t as int] != p0.pgdir);
                    assert(m0.is_used(p0.tables@[t as int]));
                }
                assert(mem.is_used(p0.tables@[t as int])) by {
                    if exists|k: int| 0 <= k < t
                        && #[trigger] p0.tables@[k] == p0.tables@[t as int] {
                        let k = choose|k: int| 0 <= k < t
                            && #[trigger] p0.tables@[k] == p0.tables@[t as int];
                        assert(p0.tables@[k] != p0.tables@[t as int]);
                    }
                }
            }
            let g = self.tables[t];
            mem.kfree(g);
            proof {
                assert forall|q: u32| mb.is_used(q)
                    && !(exists|k: int| 0 <= k < t + 1 && #[trigger] p0.tables@[k] == q)
                    implies mem.is_used(q) by {
                    assert(!(exists|k: int| 0 <= k < t && #[trigger] p0.tables@[k] == q));
                    assert(q != p0.tables@[t as int]);
                }
            }
            t = t + 1;
        }
        self.tables.clear();
        proof {
            let mf = *mem;
            assert forall|q: u32| q < 32
                implies mf.frame(q).bytes() == m0.frame(q).bytes()
                    && mf.frame(q).spec_ppn() == m0.frame(q).spec_ppn() by {
                assert(mb.frame(q) == ma.frame(q));
            }
            assert forall|q: u32| q < 32
                && !(exists|k: int| 0 <= k < p0.pages_seq().len()
                    && (#[trigger] p0.pages_seq()[k]).1 == q)
                implies mf.frame(q).spec_refs() == m0.frame(q).spec_refs() by {
                assert(mb.frame(q) == ma.frame(q));
                assert(!(exists|k: int| 0 <= k < n
                    && (#[trigger] p0.phys_pages@[k]).1 == q));
            }
            assert forall|k: int| 0 <= k < p0.pages_seq().len() implies ({
                let f = (#[trigger] p0.pages_seq()[k]).1;
                &&& (m0.frame(f).spec_refs() > 1
                    ==> mf.frame(f).spec_refs() == m0.frame(f).spec_refs() - 1
                        && mf.is_used(f))
                &&& (m0.frame(f).spec_refs() == 1 ==> !mf.is_used(f))
                &&& (m0.frame(f).spec_refs() == 0
                    ==> mf.frame(f).spec_refs() == 0 && mf.is_used(f))
            }) by {
                let f = p0.pages_seq()[k].1;
                assert(p0.phys_pages@[k].1 == f);
                assert(1 <= f < 32);
                assert(mb.frame(f) == ma.frame(f));
                assert(f != p0.pgdir);
                assert(mb.is_used(f) == ma.is_used(f));
                if m0.frame(f).spec_refs() != 1 {
                    assert(ma.is_used(f));
                    assert(mb.is_used(f));
                    assert(mf.is_used(f)) by {
                        if exists|kk: int| 0 <= kk < tn && #[trigger] p0.tables@[kk] == f {
                            let kk = choose|kk: int| 0 <= kk < tn
                                && #[trigger] p0.tables@[kk] == f;
                            assert(p0.phys_pages@[k].1 != p0.tables@[kk]);
                        }
                    }
                } else {
                    assert(sole_owned_upto(p0.phys_pages@, m0, n as int, f));
                    assert(!ma.is_used(f));
                    assert(!mb.is_used(f));
                    assert(!mf.is_used(f));
                }
            }
            assert(!mf.is_used(p0.pgdir));
            assert forall|q: u32| #[trigger] mf.is_used(q) implies m0.is_used(q) by {
                assert(mb.is_used(q));
                assert(ma.is_used(q));
            }
            assert forall|q: u32| m0.is_used(q)
                && q != p0.pgdir
                && !p0.tables@.contains(q)
                && !sole_owned_upto(p0.pages_seq(), m0, p0.pages_seq().len() as int, q)
                implies mf.is_used(q) by {
                assert(!sole_owned_upto(p0.phys_pages@, m0, n as int, q));
                assert(ma.is_used(q));
                assert(mb.is_used(q));
                assert(mf.is_used(q)) by {
                    if exists|kk: int| 0 <= kk < tn && #[trigger] p0.tables@[kk] == q {
                        let kk = choose|kk: int| 0 <= kk < tn
                            && #[trigger] p0.tables@[kk] == q;
                        assert(p0.tables@.contains(q));
                    }
                }
            }
        }
    }

    /// How one write step takes the process `self` with pool `m0` to the
    /// process `p1` with pool `m1`.
    pub open(crate) spec fn write_post(self, m0: Memory, p1: Process, m1: Memory, va: u32,
        value: ValueType) -> bool {
        let pdx = spec_dir_index(va) as int;
        let ptx = spec_table_index(va) as int;
        let base = spec_page_base(va);
        let off8 = align_down(spec_offset(va) as int, 8);
        if self.state != ProcessState::Running || (self.spec_walk(m0, va) is None) {
            &&& p1 == self
            &&& m1.same_state(m0)
        } else {
            let pte = self.spec_walk(m0, va).unwrap();
            let tf = self.table_frame(m0, pdx);
            &&& p1.pid == self.pid
            &&& p1.state == self.state
            &&& p1.debug == self.debug
            &&& p1.pgdir == self.pgdir
            &&& p1.tables@ == self.tables@
            &&& if entry_has_flag(pte, Flag::Zero) {
                let f = m0.free_seq().last();
                &&& m0.free_seq().len() > 0
                &&& 1 <= f < 32
                &&& p1.phys_pages@ == self.phys_pages@.push((base, f))
                &&& m1.free_seq() == m0.free_seq().drop_last()
                &&& m1.used_seq() == m0.used_seq().push(f)
                &&& (forall|q: u32| q < 32 && q != f && q != tf
                    ==> m1.frame(q) == m0.frame(q))
                &&& m1.frame(f).spec_refs() == 1
                &&& m1.frame(f).spec_ppn() == f
                &&& qword_at(m1.frame(f).bytes(), off8) == value.word_rep()
                &&& (forall|k: int| 0 <= k < 4096 && !(off8 <= k < off8 + 8)
                    ==> m1.frame(f).bytes()[k] == 0)
                &&& entry_ppn(p1.pte_at(m1, pdx, ptx)) == f
                &&& entry_pwud(p1.pte_at(m1, pdx, ptx))
                &&& m1.frame(tf).spec_refs() == m0.frame(tf).spec_refs()
                &&& (forall|j: int| 0 <= j < 1024 && j != ptx
                    ==> word_at(m1.frame(tf).bytes(), j) == word_at(m0.frame(tf).bytes(), j))
            } else if !pp_has(self.phys_pages@, base) {
                &&& p1 == self
                &&& m1.same_state(m0)
            } else if entry_has_flag(pte, Flag::Writable) {
                let f = pp_frame_of(self.phys_pages@, base);
                &&& p1 == self
                &&& m1.free_seq() == m0.free_seq()
                &&& m1.used_seq() == m0.used_seq()
                &&& (forall|q: u32| q < 32 && q != f && q != tf
                    ==> m1.frame(q) == m0.frame(q))
                &&& m1.frame(f).bytes()
                    == store_qword(m0.frame(f).bytes(), off8, value.word_rep())
                &&& m1.frame(f).spec_refs() == m0.frame(f).spec_refs()
                &&& m1.frame(f).spec_ppn() == f
                &&& entry_with(p1.pte_at(m1, pdx, ptx), pte, Flag::Dirty, Flag::Dirty)
                &&& m1.frame(tf).spec_refs() == m0.frame(tf).spec_refs()
                &&& (forall|j: int| 0 <= j < 1024 && j != ptx
                    ==> word_at(m1.frame(tf).bytes(), j) == word_at(m0.frame(tf).bytes(), j))
            } else if m0.frame(pp_frame_of(self.phys_pages@, base)).spec_refs() > 1 {
                let fold = pp_frame_of(self.phys_pages@, base);
                let g = m0.free_seq().last();
                &&& m0.free_seq().len() > 0
                &&& 1 <= g < 32
                &&& p1.phys_pages@
                    == self.phys_pages@.update(pp_index(self.phys_pages@, base), (base, g))
                &&& m1.free_seq() == m0.free_seq().drop_last()
                &&& m1.used_seq() == m0.used_seq().push(g)
                &&& (forall|q: u32| q < 32 && q != g && q != fold && q != tf
                    ==> m1.frame(q) == m0.frame(q))
                &&& m1.frame(fold).bytes() == m0.frame(fold).bytes()
                &&& m1.frame(fold).spec_refs() == m0.frame(fold).spec_refs() - 1
                &&& m1.frame(g).spec_refs() == 1
                &&& m1.frame(g).spec_ppn() == g
                &&& m1.frame(g).bytes()
                    == store_qword(m0.frame(fold).bytes(), off8, value.word_rep())
                &&& entry_ppn(p1.pte_at(m1, pdx, ptx)) == g
                &&& entry_pwud(p1.pte_at(m1, pdx, ptx))
                &&& m1.frame(tf).spec_refs() == m0.frame(tf).spec_refs()
                &&& (forall|j: int| 0 <= j < 1024 && j != ptx
                    ==> word_at(m1.frame(tf).bytes(), j) == word_at(m0.frame(tf).bytes(), j))
            } else {
                let f = pp_frame_of(self.phys_pages@, base);
                &&& p1 == self
                &&& m1.free_seq() == m0.free_seq()
                &&& m1.used_seq() == m0.used_seq()
                &&& (forall|q: u32| q < 32 && q != f && q != tf
                    ==> m1.frame(q) == m0.frame(q))
                &&& m1.frame(f).bytes()
                    == store_qword(m0.frame(f).bytes(), off8, value.word_rep())
                &&& m1.frame(f).spec_refs() == m0.frame(f).spec_refs()
                &&& m1.frame(f).spec_ppn() == f
                &&& entry_with(p1.pte_at(m1, pdx, ptx), pte, Flag::Writable, Flag::Dirty)
                &&& m1.frame(tf).spec_refs() == m0.frame(tf).spec_refs()
                &&& (forall|j: int| 0 <= j < 1024 && j != ptx
                    ==> word_at(m1.frame(tf).bytes(), j) == word_at(m0.frame(tf).bytes(), j))
            }
        }
    }
}

/// Read the 64-bit machine word in the aligned slot holding `offset`.
fn read_qword(m: &Memory, ppn: u32, offset: usize) -> (r: u64)
    requires
        m.wf(),
        ppn < 32,
        offset < 4096,
    ensures
        ppn != 0 ==> r == qword_at(m.frame(ppn).bytes(), align_down(offset as int, 8)),
        ppn == 0 ==> r == 0,
{
    let pg = m.page(ppn);
    let b = pg.read(offset, 8);
    let r = (b[0] as u64) | ((b[1] as u64) << 8u64) | ((b[2] as u64) << 16u64)
        | ((b[3] as u64) << 24u64) | ((b[4] as u64) << 32u64) | ((b[5] as u64) << 40u64)
        | ((b[6] as u64) << 48u64) | ((b[7] as u64) << 56u64);
    proof {
        if ppn == 0 {
            lemma_zero_word();
        }
    }
    r
}

/// Store a value's machine word in the aligned slot holding `offset`.
fn write_value(m: &mut Memory, ppn: u32, offset: usize, value: &ValueType)
    requires
        old(m).wf(),
        1 <= ppn < 32,
        offset < 4096,
    ensures
        final(m).wf(),
        final(m).free_seq() == old(m).free_seq(),
        final(m).used_seq() == old(m).used_seq(),
        forall|q: u32| q < 32 && q != ppn ==> final(m).frame(q) == old(m).frame(q),
        final(m).frame(ppn).bytes()
            == store_qword(old(m).frame(ppn).bytes(), align_down(offset as int, 8),
                value.word_rep()),
        qword_at(final(m).frame(ppn).bytes(), align_down(offset as int, 8))
            == value.word_rep(),
        final(m).frame(ppn).spec_ppn() == ppn,
        final(m).frame(ppn).spec_refs() == old(m).frame(ppn).spec_refs(),
{
    let bytes = value.as_bytes();
    let ghost m0 = *m;
    let pg = m.frame_mut(ppn);
    pg.write(offset, 8, bytes.as_slice());
    proof {
        crate::words::lemma_align_down(offset as int, 8, 4096);
        assert(m.frame(ppn).bytes()
            =~= store_qword(m0.frame(ppn).bytes(), align_down(offset as int, 8),
                value.word_rep()));
        lemma_store_qword(m0.frame(ppn).bytes(), align_down(offset as int, 8),
            value.word_rep());
        assert forall|q: u32| q < 32 && q != ppn
            implies m.frame(q) == m0.frame(q) by {
            assert(m.pages@[q as int] == m0.pages@[q as int]);
        }
    }
}

/// Copy the whole payload of one frame into another.
fn copy_frame(m: &mut Memory, dst: u32, src: u32)
    requires
        old(m).wf(),
        1 <= dst < 32,
        src < 32,
        dst != src,
    ensures
        final(m).wf(),
        final(m).free_seq() == old(m).free_seq(),
        final(m).used_seq() == old(m).used_seq(),
        forall|q: u32| q < 32 && q != dst ==> final(m).frame(q) == old(m).frame(q),
        final(m).frame(dst).bytes() == old(m).frame(src).bytes(),
        final(m).frame(dst).spec_ppn() == dst,
        final(m).frame(dst).spec_refs() == old(m).frame(dst).spec_refs(),
{
    let ghost m0 = *m;
    let b = m.page(src).read(0, 4096);
    let pg = m.frame_mut(dst);
    pg.write(0, 4096, b.as_slice());
    proof {
        assert(m.frame(dst).bytes() =~= m0.frame(src).bytes());
        assert forall|q: u32| q < 32 && q != dst
            implies m.frame(q) == m0.frame(q) by {
            assert(m.pages@[q as int] == m0.pages@[q as int]);
        }
    }
}

/// Drop one reference from a shared frame.
fn dec_frame_refs(m: &mut Memory, ppn: u32)
    requires
        old(m).wf(),
        1 <= ppn < 32,
        old(m).frame(ppn).spec_refs() > 0,
    ensures
        final(m).wf(),
        final(m).free_seq() == old(m).free_seq(),
        final(m).used_seq() == old(m).used_seq(),
        forall|q: u32| q < 32 && q != ppn ==> final(m).frame(q) == old(m).frame(q),
        final(m).frame(ppn).bytes() == old(m).frame(ppn).bytes(),
        final(m).frame(ppn).spec_ppn() == ppn,
        final(m).frame(ppn).spec_refs() == old(m).frame(ppn).spec_refs() - 1,
{
    let ghost m0 = *m;
    let pg = m.frame_mut(ppn);
    pg.decrement_refs();
    proof {
        assert forall|q: u32| q < 32 && q != ppn
            implies m.frame(q) == m0.frame(q) by {
            assert(m.pages@[q as int] == m0.pages@[q as int]);
        }
    }
}

/// Add one reference to a shared frame.
fn inc_frame_refs(m: &mut Memory, ppn: u32)
    requires
        old(m).wf(),
        1 <= ppn < 32,
        old(m).frame(ppn).spec_refs() < usize::MAX,
    ensures
        final(m).wf(),
        final(m).free_seq() == old(m).free_seq(),
        final(m).used_seq() == old(m).used_seq(),
        forall|q: u32| q < 32 && q != ppn ==> final(m).frame(q) == old(m).frame(q),
        final(m).frame(ppn).bytes() == old(m).frame(ppn).bytes(),
        final(m).frame(ppn).spec_ppn() == ppn,
        final(m).frame(ppn).spec_refs() == old(m).frame(ppn).spec_refs() + 1,
{
    let ghost m0 = *m;
    let pg = m.frame_mut(ppn);
    pg.increment_refs();
    proof {
        assert forall|q: u32| q < 32 && q != ppn
            implies m.frame(q) == m0.frame(q) by {
            assert(m.pages@[q as int] == m0.pages@[q as int]);
        }
    }
}

/// Assemble a 32-bit word from four little-endian bytes.
pub fn raw_to_u32(raw_data: &[u8]) -> (r: u32)
    requires
        raw_data@.len() == 4,
    ensures
        r == le_bytes_to_u32(raw_data@[0], raw_data@[1], raw_data@[2], raw_data@[3]),
{
    (raw_data[0] as u32) | ((raw_data[1] as u32) << 8u32) | ((raw_data[2] as u32) << 16u32)
        | ((raw_data[3] as u32) << 24u32)
}

/// Split a 32-bit word into its four little-endian bytes.
pub fn u32_to_raw(data: u32) -> (r: Vec<u8>)
    ensures
        r@ == le_bytes_of_u32(data),
{
    proof {
        assert((data >> 0u32) & 0xFF < 256 && (data >> 8u32) & 0xFF < 256
            && (data >> 16u32) & 0xFF < 256 && (data >> 24u32) & 0xFF < 256) by (bit_vector);
    }
    let mut v: Vec<u8> = Vec::new();
    v.push(((data >> 0u32) & 0xFF) as u8);
    v.push(((data >> 8u32) & 0xFF) as u8);
    v.push(((data >> 16u32) & 0xFF) as u8);
    v.push(((data >> 24u32) & 0xFF) as u8);
    proof {
        assert(v@ =~= le_bytes_of_u32(data));
    }
    v
}

/// Read the 32-bit word at a word index of a frame.
fn read_word(m: &Memory, ppn: u32, widx: usize) -> (r: u32)
    requires
        m.wf(),
        ppn < 32,
        widx < 1024,
    ensures
        r == word_at(m.frame(ppn).bytes(), widx as int),
{
    let pg = m.page(ppn);
    let b = pg.read(widx * 4, 4);
    let r = raw_to_u32(b.as_slice());
    proof {
        assert((4 * (widx as int)) % 4 == 0) by (nonlinear_arith);
        assert(align_down(4 * (widx as int), 4) == 4 * (widx as int));
        if ppn == 0 {
            lemma_zero_word();
            assert(m.frame(0).spec_ppn() == 0);
            assert(all_zero(m.frame(0).bytes()));
        }
    }
    r
}

/// Store a 32-bit word at a word index of a frame.
fn write_word(m: &mut Memory, ppn: u32, widx: usize, w: u32)
    requires
        old(m).wf(),
        1 <= ppn < 32,
        widx < 1024,
    ensures
        final(m).wf(),
        final(m).free_seq() == old(m).free_seq(),
        final(m).used_seq() == old(m).used_seq(),
        forall|q: u32| q < 32 && q != ppn ==> final(m).frame(q) == old(m).frame(q),
        final(m).frame(ppn).bytes()
            == store_word(old(m).frame(ppn).bytes(), widx as int, w),
        final(m).frame(ppn).spec_ppn() == ppn,
        final(m).frame(ppn).spec_refs() == old(m).frame(ppn).spec_refs(),
        final(m).frame(ppn).wf(),
        word_at(final(m).frame(ppn).bytes(), widx as int) == w,
        forall|j: int| 0 <= j < 1024 && j != widx
            ==> word_at(final(m).frame(ppn).bytes(), j)
                == word_at(old(m).frame(ppn).bytes(), j),
    {
    let bytes = u32_to_raw(w);
    let ghost m0 = *m;
    let pg = m.frame_mut(ppn);
    pg.write(widx * 4, 4, bytes.as_slice());
    proof {
        assert((4 * (widx as int)) % 4 == 0) by (nonlinear_arith);
        assert(align_down(4 * (widx as int), 4) == 4 * (widx as int));
        assert(m.frame(ppn).bytes()
            =~= store_word(m0.frame(ppn).bytes(), widx as int, w));
        lemma_store_word(m0.frame(ppn).bytes(), widx as int, w);
        assert forall|j: int| 0 <= j < 1024 && j != widx
            implies word_at(m.frame(ppn).bytes(), j)
                == word_at(m0.frame(ppn).bytes(), j) by {
            assert(4 * j + 4 <= 4096);
        }
        assert forall|q: u32| q < 32 && q != ppn
            implies m.frame(q) == m0.frame(q) by {
            assert(m.pages@[q as int] == m0.pages@[q as int]);
        }
    }
}

} // verus!
