//! The simulator front end: typed values, trace records, and the process
//! table that dispatches driver requests to the current process.

use vstd::prelude::*;
use crate::frames::{kinit, Memory};
use crate::pointer::Pointer;
use crate::process::{pp_frame_of, pp_has, Process, ProcessState};
use crate::ptable::{
    entry_has_flag, entry_ppn, spec_dir_index, spec_page_base, Flag, Physical,
    Virtual,
};
use crate::words::le_bytes_of_u64;

verus! {

/// A typed machine-word value handed to the simulator by the driver.
#[derive(Copy, Clone, Eq, PartialEq, Structural, Debug)]
pub enum ValueType {
    UnsignedInt(usize),
    SignedInt(isize),
    Zero,
}

/// The type at which a read decodes the stored machine word.
#[derive(Copy, Clone, Eq, PartialEq, Structural, Debug)]
pub enum DataType {
    SignedInt,
    UnsignedInt,
}

/// One diagnostic trace record.  The driver decides how to print these;
/// the simulator only reports them.
#[derive(Copy, Clone, Eq, PartialEq, Structural, Debug)]
pub enum TraceEvent {
    /// An operation reached a terminated process; carries its PID.
    Zombie(u32),
    /// A walk of the carried virtual address found no mapping.
    InvalidAddress(u32),
    /// A second registration of the carried virtual address.
    AlreadyRegistered(u32),
    /// First write to a demand page; carries the physical page base.
    PgZero(u32),
    /// Copy-on-write fault resolved; carries the physical page base.
    PgCopy(u32),
}

/// The zero of the requested type.
pub open spec fn zero_value(dt: DataType) -> ValueType {
    match dt {
        DataType::SignedInt => ValueType::SignedInt(0),
        DataType::UnsignedInt => ValueType::UnsignedInt(0),
    }
}

/// The stored 64-bit word decoded at the requested type.
pub open spec fn typed_value(dt: DataType, q: u64) -> ValueType {
    match dt {
        DataType::SignedInt => ValueType::SignedInt((q as i64) as isize),
        DataType::UnsignedInt => ValueType::UnsignedInt(q as usize),
    }
}

impl ValueType {
    /// The 64-bit machine word that the value stores: its two's
    /// complement representation.
    pub open spec fn word_rep(self) -> u64 {
        match self {
            ValueType::UnsignedInt(uint) => uint as u64,
            ValueType::SignedInt(sint) => sint as u64,
            ValueType::Zero => 0,
        }
    }

    /// The word read back at the value's own width, as a plain integer.
    pub open spec fn spec_value(self) -> usize {
        match self {
            ValueType::UnsignedInt(uint) => uint,
            ValueType::SignedInt(sint) => sint as usize,
            ValueType::Zero => 0,
        }
    }

    pub fn get_value(&self) -> (r: usize)
        ensures
            r == self.spec_value(),
    {
        match *self {
            Self::UnsignedInt(uint) => uint,
            Self::SignedInt(sint) => #[verifier::truncate] (sint as usize),
            Self::Zero => 0,
        }
    }

    /// The eight little-endian bytes of the value's machine word.
    pub fn as_bytes(&self) -> (r: Vec<u8>)
        ensures
            r@ == le_bytes_of_u64(self.word_rep()),
            r@.len() == 8,
    {
        let w: u64 = match *self {
            Self::UnsignedInt(uint) => uint as u64,
            Self::SignedInt(sint) => #[verifier::truncate] (sint as u64),
            Self::Zero => 0,
        };
        proof {
            assert((w >> 0u64) & 0xFF < 256 && (w >> 8u64) & 0xFF < 256
                && (w >> 16u64) & 0xFF < 256 && (w >> 24u64) & 0xFF < 256
                && (w >> 32u64) & 0xFF < 256 && (w >> 40u64) & 0xFF < 256
                && (w >> 48u64) & 0xFF < 256 && (w >> 56u64) & 0xFF < 256) by (bit_vector);
        }
        let mut v: Vec<u8> = Vec::new();
        v.push(((w >> 0u64) & 0xFF) as u8);
        v.push(((w >> 8u64) & 0xFF) as u8);
        v.push(((w >> 16u64) & 0xFF) as u8);
        v.push(((w >> 24u64) & 0xFF) as u8);
        v.push(((w >> 32u64) & 0xFF) as u8);
        v.push(((w >> 40u64) & 0xFF) as u8);
        v.push(((w >> 48u64) & 0xFF) as u8);
        v.push(((w >> 56u64) & 0xFF) as u8);
        proof {
            assert(v@ =~= le_bytes_of_u64(w));
        }
        v
    }
}

/// How many of this process's page-table entries reference frame `f`:
/// one or none, since a process backs each page with a distinct frame.
pub open spec fn refs_in(s: Seq<(u32, u32)>, f: u32) -> nat {
    if exists|i: int| 0 <= i < s.len() && (#[trigger] s[i]).1 == f {
        1
    } else {
        0
    }
}

/// The number of page-table entries across all processes that reference
/// frame `f`.
pub open spec fn total_refs(ps: Seq<Process>, f: u32) -> nat
    decreases ps.len(),
{
    if ps.len() == 0 {
        0
    } else {
        total_refs(ps.drop_last(), f) + refs_in(ps.last().pages_seq(), f)
    }
}

/// Frame `f` is the directory or a table frame of the process.
pub open spec fn is_priv(p: Process, f: u32) -> bool {
    f == p.spec_pgdir() || p.tables_seq().contains(f)
}

/// Frame `f` backs one of the process's mapped pages.
pub open spec fn is_data(p: Process, f: u32) -> bool {
    refs_in(p.pages_seq(), f) == 1
}

proof fn lemma_total_refs_update(ps: Seq<Process>, j: int, p: Process, f: u32)
    requires
        0 <= j < ps.len(),
    ensures
        total_refs(ps.update(j, p), f) + refs_in(ps[j].pages_seq(), f)
            == total_refs(ps, f) + refs_in(p.pages_seq(), f),
    decreases ps.len(),
{
    let t = ps.update(j, p);
    if j == ps.len() - 1 {
        assert(t.drop_last() =~= ps.drop_last());
        assert(t.last() == p);
    } else {
        assert(t.drop_last() =~= ps.drop_last().update(j, p));
        assert(t.last() == ps.last());
        lemma_total_refs_update(ps.drop_last(), j, p, f);
    }
}

proof fn lemma_total_refs_push(ps: Seq<Process>, p: Process, f: u32)
    ensures
        total_refs(ps.push(p), f) == total_refs(ps, f) + refs_in(p.pages_seq(), f),
{
    assert(ps.push(p).drop_last() =~= ps);
    assert(ps.push(p).last() == p);
}

proof fn lemma_total_refs_remove(ps: Seq<Process>, j: int, f: u32)
    requires
        0 <= j < ps.len(),
    ensures
        total_refs(ps.remove(j), f) + refs_in(ps[j].pages_seq(), f) == total_refs(ps, f),
    decreases ps.len(),
{
    let t = ps.remove(j);
    if j == ps.len() - 1 {
        assert(t =~= ps.drop_last());
    } else {
        assert(t.drop_last() =~= ps.drop_last().remove(j));
        assert(t.last() == ps.last());
        lemma_total_refs_remove(ps.drop_last(), j, f);
    }
}

/// A positive total pins down at least one referencing process.
proof fn lemma_total_refs_pos(ps: Seq<Process>, f: u32)
    requires
        total_refs(ps, f) > 0,
    ensures
        exists|i: int| 0 <= i < ps.len()
            && refs_in((#[trigger] ps[i]).pages_seq(), f) == 1,
    decreases ps.len(),
{
    if refs_in(ps.last().pages_seq(), f) == 1 {
        assert(ps[ps.len() - 1] == ps.last());
    } else {
        lemma_total_refs_pos(ps.drop_last(), f);
        let i = choose|i: int| 0 <= i < ps.drop_last().len()
            && refs_in((#[trigger] ps.drop_last()[i]).pages_seq(), f) == 1;
        assert(ps[i] == ps.drop_last()[i]);
    }
}

/// Each member contributes no more than the total.
proof fn lemma_total_refs_lower(ps: Seq<Process>, j: int, f: u32)
    requires
        0 <= j < ps.len(),
    ensures
        refs_in(ps[j].pages_seq(), f) <= total_refs(ps, f),
    decreases ps.len(),
{
    if j == ps.len() - 1 {
        assert(ps[j] == ps.last());
    } else {
        assert(ps.drop_last()[j] == ps[j]);
        lemma_total_refs_lower(ps.drop_last(), j, f);
    }
}

/// In an invariant-preserving simulator, the reference count of every
/// shared data frame equals the number of page-table entries, across all
/// processes, that reference it; the ZERO frame is not counted, since no
/// page table records it.
pub proof fn lemma_refcount_matches_sharing(s: Simulator, f: u32)
    requires
        s.inv(),
        total_refs(s.procs(), f) > 0,
    ensures
        1 <= f < 32,
        s.spec_mem().is_used(f),
        s.spec_mem().frame(f).spec_refs() == total_refs(s.procs(), f),
{
}

/// Decoding a stored machine word at the type it was written with gives
/// back the written value: the unsigned, signed and zero forms all
/// survive the round trip through the little-endian frame bytes.
pub proof fn lemma_round_trip_value(v: ValueType)
    ensures
        v matches ValueType::UnsignedInt(u)
            ==> typed_value(DataType::UnsignedInt, v.word_rep())
                == ValueType::UnsignedInt(u),
        v matches ValueType::SignedInt(s)
            ==> typed_value(DataType::SignedInt, v.word_rep()) == ValueType::SignedInt(s),
        v is Zero ==> typed_value(DataType::UnsignedInt, v.word_rep())
            == ValueType::UnsignedInt(0)
            && typed_value(DataType::SignedInt, v.word_rep()) == ValueType::SignedInt(0),
{
    match v {
        ValueType::UnsignedInt(u) => {
            assert((u as u64) as usize == u) by (bit_vector);
        },
        ValueType::SignedInt(s) => {
            assert(((s as u64) as i64) as isize == s) by (bit_vector);
        },
        ValueType::Zero => {
            assert((0u64 as i64) as isize == 0) by (bit_vector);
        },
    }
}

/// Two distinct processes together contribute at most the total.
proof fn lemma_total_refs_lower2(ps: Seq<Process>, a: int, b: int, f: u32)
    requires
        0 <= a < ps.len(),
        0 <= b < ps.len(),
        a != b,
    ensures
        refs_in(ps[a].pages_seq(), f) + refs_in(ps[b].pages_seq(), f)
            <= total_refs(ps, f),
    decreases ps.len(),
{
    let n = ps.len() as int;
    if a == n - 1 {
        assert(ps[a] == ps.last());
        assert(ps.drop_last()[b] == ps[b]);
        lemma_total_refs_lower(ps.drop_last(), b, f);
    } else if b == n - 1 {
        assert(ps[b] == ps.last());
        assert(ps.drop_last()[a] == ps[a]);
        lemma_total_refs_lower(ps.drop_last(), a, f);
    } else {
        assert(ps.drop_last()[a] == ps[a]);
        assert(ps.drop_last()[b] == ps[b]);
        lemma_total_refs_lower2(ps.drop_last(), a, b, f);
    }
}

/// No frame can be referenced more often than there are processes.
proof fn lemma_total_refs_upper(ps: Seq<Process>, f: u32)
    ensures
        total_refs(ps, f) <= ps.len(),
    decreases ps.len(),
{
    if ps.len() > 0 {
        lemma_total_refs_upper(ps.drop_last(), f);
    }
}

/// Within one well-formed process, no directory or table frame backs a
/// mapped page.
proof fn lemma_own_priv_not_data(p: Process, m: Memory)
    requires
        p.wf(m),
    ensures
        forall|f: u32| #[trigger] is_priv(p, f) ==> !is_data(p, f),
{
    assert forall|f: u32| #[trigger] is_priv(p, f) implies !is_data(p, f) by {
        if is_data(p, f) {
            let k = choose|k: int| 0 <= k < p.pages_seq().len()
                && (#[trigger] p.pages_seq()[k]).1 == f;
            if p.tables_seq().contains(f) {
                let t = choose|t: int| 0 <= t < p.tables_seq().len()
                    && p.tables_seq()[t] == f;
                assert(p.pages_seq()[k].1 != p.tables_seq()[t]);
            }
            assert(false);
        }
    }
}

/// The simulator: the process table, the index of the current process,
/// and the frame pool they share.
pub struct Simulator {
    pub(crate) proc_list: Vec<Process>,
    pub(crate) curr_proc: usize,
    pub(crate) mem: Memory,
}

impl Simulator {
    pub open(crate) spec fn procs(self) -> Seq<Process> {
        self.proc_list@
    }

    pub open(crate) spec fn spec_curr(self) -> usize {
        self.curr_proc
    }

    pub open(crate) spec fn spec_mem(self) -> Memory {
        self.mem
    }

    /// The process currently dispatched to.
    pub open(crate) spec fn cur(self) -> Process {
        self.proc_list@[self.curr_proc as int]
    }

    /// The system invariant: the pool is sound, every process is well
    /// formed against it, no two processes share a directory or table
    /// frame, no directory or table frame doubles as anyone's data frame,
    /// and every shared data frame's reference count equals the number of
    /// page-table entries that reference it, across all processes.
    pub open(crate) spec fn inv(self) -> bool {
        &&& self.mem.wf()
        &&& (forall|i: int| 0 <= i < self.proc_list@.len()
            ==> (#[trigger] self.proc_list@[i]).wf(self.mem))
        &&& (forall|i: int, j: int, f: u32|
            #![trigger is_priv(self.proc_list@[i], f), is_priv(self.proc_list@[j], f)]
            0 <= i < self.proc_list@.len() && 0 <= j < self.proc_list@.len() && i != j
                && is_priv(self.proc_list@[i], f) ==> !is_priv(self.proc_list@[j], f))
        &&& (forall|i: int, j: int, f: u32|
            #![trigger is_priv(self.proc_list@[i], f), is_data(self.proc_list@[j], f)]
            0 <= i < self.proc_list@.len() && 0 <= j < self.proc_list@.len() && i != j
                && is_priv(self.proc_list@[i], f) ==> !is_data(self.proc_list@[j], f))
        &&& (forall|f: u32| #[trigger] total_refs(self.proc_list@, f) > 0
            ==> 1 <= f < 32 && self.mem.is_used(f)
                && self.mem.frame(f).spec_refs() == total_refs(self.proc_list@, f))
        &&& (self.proc_list@.len() > 0 ==> self.curr_proc < self.proc_list@.len())
    }

    /// Initialise the frame pool, construct PID 0, wake it and make it
    /// current.
    pub fn begin(debug: bool) -> (r: Simulator)
        ensures
            r.inv(),
            r.procs().len() == 1,
            r.spec_curr() == 0,
            r.cur().spec_pid() == 0,
            r.cur().spec_state() == ProcessState::Running,
            r.cur().spec_debug() == debug,
            r.cur().tables_seq().len() == 0,
            r.cur().pages_seq().len() == 0,
            r.spec_mem().free_seq().len() == 30,
            forall|va: u32| (r.cur().spec_walk(r.spec_mem(), va) is None),
    {
        let mut mem = kinit();
        let mut v: Vec<Process> = Vec::new();
        let mut proc = Process::new(0, debug, &mut mem);
        let ghost p0 = proc;
        proc.wake_up();
        v.push(proc);
        let r = Self { proc_list: v, curr_proc: 0, mem };
        proof {
            r.proc_list@[0].lemma_same_space_wf(p0, r.mem);
            assert(r.proc_list@[0].wf(r.mem));
            assert forall|f: u32| #[trigger] total_refs(r.proc_list@, f) > 0
                implies 1 <= f < 32 && r.mem.is_used(f)
                    && r.mem.frame(f).spec_refs() == total_refs(r.proc_list@, f) by {
                assert(r.proc_list@.drop_last().len() == 0);
                assert(total_refs(r.proc_list@.drop_last(), f) == 0);
                assert(refs_in(r.proc_list@.last().pages_seq(), f) == 0);
            }
        }
        r
    }

    /// Whether the current process already maps the pointer's page.
    fn check_valid(&self, addr: Pointer) -> (r: bool)
        requires
            self.inv(),
            self.procs().len() > 0,
        ensures
            r == (self.cur().spec_walk(self.spec_mem(), addr.spec_vaddr()) is Some),
    {
        self.proc_list[self.curr_proc].mapped(
            &self.mem,
            Virtual::new(addr.vaddr(), addr.as_ptr()),
        )
    }

    /// Register the pointer's page: back it with the shared ZERO frame,
    /// readable and owned by the user, so that the first write takes the
    /// demand-paging path.  A second registration is refused with a trace.
    pub fn register(&mut self, addr: Pointer) -> (ev: Option<TraceEvent>)
        requires
            old(self).inv(),
            old(self).procs().len() > 0,
            ({
                let p = old(self).cur();
                let va = addr.spec_vaddr();
                !entry_has_flag(
                    p.pde_at(old(self).spec_mem(), spec_dir_index(va) as int),
                    Flag::Present,
                ) ==> old(self).spec_mem().free_seq().len() > 0
            }),
        ensures
            final(self).inv(),
            final(self).procs().len() == old(self).procs().len(),
            final(self).spec_curr() == old(self).spec_curr(),
            forall|i: int| 0 <= i < old(self).procs().len()
                && i != old(self).spec_curr() as int
                ==> final(self).procs()[i] == old(self).procs()[i],
            ({
                let va = addr.spec_vaddr();
                let was = old(self).cur().spec_walk(old(self).spec_mem(), va) is Some;
                &&& ev == (if was {
                    Some(TraceEvent::AlreadyRegistered(va))
                } else {
                    None::<TraceEvent>
                })
                &&& (was ==> *final(self) == *old(self))
                &&& (final(self).cur().spec_walk(final(self).spec_mem(), va) is Some)
                &&& (!was ==> ({
                    let pte = final(self).cur().spec_walk(final(self).spec_mem(),
                        va).unwrap();
                    &&& entry_has_flag(pte, Flag::Zero)
                    &&& entry_has_flag(pte, Flag::User)
                    &&& entry_has_flag(pte, Flag::Present)
                    &&& !entry_has_flag(pte, Flag::Writable)
                    &&& final(self).cur().pages_seq() == old(self).cur().pages_seq()
                    &&& final(self).cur().spec_state() == old(self).cur().spec_state()
                    &&& final(self).cur().spec_pid() == old(self).cur().spec_pid()
                    &&& final(self).cur().spec_debug() == old(self).cur().spec_debug()
                }))
            }),
    {
        if !self.check_valid(addr) {
            let ghost s0 = *self;
            let ghost sva = addr.spec_vaddr();
            let va = Virtual::new(addr.vaddr(), addr.as_ptr());
            let pa = Physical::new(0, 0);
            let mut flags: Vec<Flag> = Vec::new();
            flags.push(Flag::User);
            flags.push(Flag::Zero);
            proof {
                let fl = flags@;
                assert forall|g: Flag| fl.contains(g)
                    == (g == Flag::User || g == Flag::Zero) by {
                    if fl.contains(g) {
                        let k = choose|k: int| 0 <= k < fl.len() && fl[k] == g;
                        assert(k == 0 || k == 1);
                    }
                    if g == Flag::User { assert(fl[0] == g); }
                    if g == Flag::Zero { assert(fl[1] == g); }
                }
                crate::ptable::lemma_split_bounds(sva);
                crate::ptable::lemma_base_decompose(sva);
                // a page that is not mapped is not in the page table
                assert(!pp_has(s0.cur().pages_seq(), spec_page_base(sva))) by {
                    if pp_has(s0.cur().pages_seq(), spec_page_base(sva)) {
                        let k = choose|k: int|
                            0 <= k < s0.cur().pages_seq().len()
                                && (#[trigger] s0.cur().pages_seq()[k]).0
                                    == spec_page_base(sva);
                        assert(s0.cur().wf(s0.spec_mem()));
                        crate::ptable::lemma_base_decompose(spec_page_base(sva));
                        assert(s0.cur().spec_walk(s0.spec_mem(), sva) is Some);
                    }
                }
            }
            let i = self.curr_proc;
            let p = proc_mut(&mut self.proc_list, i);
            p.map(&mut self.mem, va, pa, flags.as_slice());
            proof {
                let j = s0.spec_curr() as int;
                let pnew = self.proc_list@[j];
                let mnew = self.mem;
                assert(pnew.wf(mnew));
                // the walk now finds the fresh zero-backed entry
                assert(pnew.spec_walk(mnew, sva) is Some);
                // every touched frame was the current process's own or free
                assert forall|q: u32| q < 32 && mnew.frame(q) != s0.spec_mem().frame(q)
                    implies is_priv(s0.procs()[j], q) || is_data(s0.procs()[j], q)
                        || !s0.spec_mem().is_used(q) by {
                    let pdx = spec_dir_index(sva) as int;
                    if entry_has_flag(s0.cur().pde_at(s0.spec_mem(), pdx),
                        Flag::Present) {
                        assert(s0.cur().tables_seq().contains(
                            s0.cur().table_frame(s0.spec_mem(), pdx)));
                    }
                }
                assert forall|q: u32| s0.spec_mem().is_used(q)
                    implies mnew.is_used(q) by {
                    let pdx = spec_dir_index(sva) as int;
                    if !entry_has_flag(s0.cur().pde_at(s0.spec_mem(), pdx),
                        Flag::Present) {
                        crate::frames::lemma_push_contains(s0.spec_mem().used_seq(),
                            s0.spec_mem().free_seq().last());
                    }
                }
                lemma_others_wf(s0, j, mnew);
                // private frames may have grown by one fresh table frame
                let pdx = spec_dir_index(sva) as int;
                let caseb = !entry_has_flag(s0.cur().pde_at(s0.spec_mem(), pdx),
                    Flag::Present);
                let fresh = s0.spec_mem().free_seq().last();
                assert forall|f: u32| #[trigger] is_priv(pnew, f)
                    implies is_priv(s0.procs()[j], f) || (caseb && f == fresh
                        && !s0.spec_mem().is_used(f)) by {
                    if caseb {
                        crate::frames::lemma_push_contains(s0.procs()[j].tables_seq(),
                            fresh);
                    }
                }
                assert forall|a: int, b: int, f: u32|
                    #![trigger is_priv(self.proc_list@[a], f),
                        is_priv(self.proc_list@[b], f)]
                    0 <= a < self.proc_list@.len() && 0 <= b < self.proc_list@.len()
                        && a != b && is_priv(self.proc_list@[a], f)
                    implies !is_priv(self.proc_list@[b], f) by {
                    if a == j {
                        if is_priv(s0.procs()[j], f) {
                            assert(!is_priv(s0.procs()[b], f));
                        } else {
                            assert(caseb && f == fresh && !s0.spec_mem().is_used(f));
                            if is_priv(s0.procs()[b], f) {
                                assert(s0.procs()[b].wf(s0.spec_mem()));
                                if s0.procs()[b].tables_seq().contains(f) {
                                    let tt = choose|tt: int|
                                        0 <= tt < s0.procs()[b].tables_seq().len()
                                            && s0.procs()[b].tables_seq()[tt] == f;
                                    assert(s0.spec_mem().is_used(f));
                                }
                                assert(false);
                            }
                        }
                    } else if b == j {
                        assert(is_priv(s0.procs()[a], f));
                        assert(s0.procs()[a].wf(s0.spec_mem()));
                        if is_priv(pnew, f) {
                            if is_priv(s0.procs()[j], f) {
                                assert(false);
                            } else {
                                assert(!s0.spec_mem().is_used(f));
                                if s0.procs()[a].tables_seq().contains(f) {
                                    let tt = choose|tt: int|
                                        0 <= tt < s0.procs()[a].tables_seq().len()
                                            && s0.procs()[a].tables_seq()[tt] == f;
                                    assert(s0.spec_mem().is_used(f));
                                }
                                assert(false);
                            }
                        }
                    } else {
                        assert(is_priv(s0.procs()[a], f));
                        assert(!is_priv(s0.procs()[b], f));
                    }
                }
                assert forall|a: int, b: int, f: u32|
                    #![trigger is_priv(self.proc_list@[a], f),
                        is_data(self.proc_list@[b], f)]
                    0 <= a < self.proc_list@.len() && 0 <= b < self.proc_list@.len()
                        && a != b && is_priv(self.proc_list@[a], f)
                    implies !is_data(self.proc_list@[b], f) by {
                    assert(self.proc_list@[b].pages_seq()
                        == s0.procs()[b].pages_seq());
                    if a == j {
                        if is_priv(s0.procs()[j], f) {
                            assert(!is_data(s0.procs()[b], f));
                        } else {
                            assert(caseb && f == fresh && !s0.spec_mem().is_used(f));
                            if is_data(s0.procs()[b], f) {
                                let kk = choose|kk: int|
                                    0 <= kk < s0.procs()[b].pages_seq().len()
                                        && (#[trigger] s0.procs()[b].pages_seq()[kk]).1
                                            == f;
                                assert(s0.procs()[b].wf(s0.spec_mem()));
                                assert(s0.spec_mem().is_used(f));
                                assert(false);
                            }
                        }
                    } else {
                        assert(is_priv(s0.procs()[a], f));
                        assert(!is_data(s0.procs()[b], f));
                    }
                }
                assert forall|f: u32| #[trigger] total_refs(self.proc_list@, f) > 0
                    implies 1 <= f < 32 && mnew.is_used(f)
                        && mnew.frame(f).spec_refs() == total_refs(self.proc_list@, f)
                    by {
                    lemma_total_refs_update(s0.procs(), j, pnew, f);
                    assert(refs_in(pnew.pages_seq(), f)
                        == refs_in(s0.procs()[j].pages_seq(), f));
                    assert(total_refs(self.proc_list@, f) == total_refs(s0.procs(), f));
                    assert(mnew.frame(f) == s0.spec_mem().frame(f)) by {
                        if mnew.frame(f) != s0.spec_mem().frame(f) {
                            lemma_total_refs_pos(s0.procs(), f);
                            let w = choose|w: int| 0 <= w < s0.procs().len()
                                && refs_in((#[trigger] s0.procs()[w]).pages_seq(), f)
                                    == 1;
                            assert(is_data(s0.procs()[w], f));
                            if is_priv(s0.procs()[j], f) {
                                lemma_not_shared(s0, f);
                            }
                        }
                    }
                }
                assert(self.inv());
            }
            None
        } else {
            Some(TraceEvent::AlreadyRegistered(addr.vaddr()))
        }
    }

    /// Write a typed value at the pointer's address through the current
    /// process; demand paging and copy-on-write happen here.
    pub fn write(&mut self, addr: Pointer, value: ValueType) -> (ev: Option<TraceEvent>)
        requires
            old(self).inv(),
            old(self).procs().len() > 0,
            old(self).cur().write_pre(old(self).spec_mem(), addr.spec_vaddr()),
        ensures
            final(self).inv(),
            final(self).procs().len() == old(self).procs().len(),
            final(self).spec_curr() == old(self).spec_curr(),
            forall|i: int| 0 <= i < old(self).procs().len()
                && i != old(self).spec_curr() as int
                ==> final(self).procs()[i] == old(self).procs()[i],
            old(self).cur().write_post(old(self).spec_mem(), final(self).cur(),
                final(self).spec_mem(), addr.spec_vaddr(), value),
            ev == old(self).cur().write_trace(old(self).spec_mem(), addr.spec_vaddr()),
            old(self).cur().write_success(old(self).spec_mem(), addr.spec_vaddr())
                ==> forall|dt: DataType|
                    #[trigger] final(self).cur().read_result(final(self).spec_mem(),
                        addr.spec_vaddr(), dt)
                        == Some(typed_value(dt, value.word_rep())),
    {
        let ghost s0 = *self;
        let ghost sva = addr.spec_vaddr();
        let va = Virtual::new(addr.vaddr(), addr.as_ptr());
        let i = self.curr_proc;
        let proc = proc_mut(&mut self.proc_list, i);
        let ev = proc.write(&mut self.mem, va, value);
        proof {
            self.lemma_write_inv(s0, sva, value);
        }
        ev
    }

    /// One write step by the current process preserves the system
    /// invariant.
    #[verifier::rlimit(100)]
    proof fn lemma_write_inv(self, s0: Simulator, va: u32, value: ValueType)
        requires
            s0.inv(),
            s0.procs().len() > 0,
            self.procs().len() == s0.procs().len(),
            self.spec_curr() == s0.spec_curr(),
            self.procs() == s0.procs().update(s0.spec_curr() as int, self.cur()),
            self.cur().wf(self.spec_mem()),
            self.spec_mem().wf(),
            s0.cur().write_post(s0.spec_mem(), self.cur(), self.spec_mem(), va, value),
        ensures
            self.inv(),
    {
        let j = s0.spec_curr() as int;
        let p0 = s0.procs()[j];
        let p1 = self.cur();
        let m0 = s0.spec_mem();
        let m1 = self.spec_mem();
        let pdx = spec_dir_index(va) as int;
        let base = spec_page_base(va);
        crate::ptable::lemma_split_bounds(va);
        let noop = p0.spec_state() != ProcessState::Running
            || (p0.spec_walk(m0, va) is None)
            || (!entry_has_flag(p0.spec_walk(m0, va).unwrap(), Flag::Zero)
                && !pp_has(p0.pages_seq(), base));
        if noop {
            // nothing changed but bookkeeping-free views
            assert(p1 == p0 && m1.same_state(m0));
            assert(self.proc_list@ =~= s0.proc_list@);
            assert forall|i: int| 0 <= i < self.procs().len()
                implies (#[trigger] self.procs()[i]).wf(m1) by {
                let p = self.procs()[i];
                assert(p.wf(m0));
                assert forall|q: u32| q < 32 implies m1.frame(q) == m0.frame(q) by {
                    assert(m1.pages@[q as int] == m0.pages@[q as int]);
                }
                p.lemma_wf_frames_untouched(m0, m1);
            }
            assert forall|f: u32| #[trigger] total_refs(self.proc_list@, f) > 0
                implies 1 <= f < 32 && m1.is_used(f)
                    && m1.frame(f).spec_refs() == total_refs(self.proc_list@, f) by {
                assert(total_refs(s0.proc_list@, f) == total_refs(self.proc_list@, f));
                assert(m1.frame(f) == m0.frame(f)) by {
                    assert(m1.pages@[f as int] == m0.pages@[f as int]);
                }
            }
            assert(self.inv());
        } else {
            let pte = p0.spec_walk(m0, va).unwrap();
            let tf = p0.table_frame(m0, pdx);
            assert(p0.wf(m0));
            assert(entry_ppn(p0.pde_at(m0, pdx)) < p0.tables_seq().len());
            assert(p0.tables_seq().contains(tf)) by {
                assert(p0.tables_seq()[entry_ppn(p0.pde_at(m0, pdx)) as int] == tf);
            }
            assert(is_priv(p0, tf));
            // name the stored-to and freshly allocated frames of this case
            let zero_case = entry_has_flag(pte, Flag::Zero);
            let cow_case = !zero_case && !entry_has_flag(pte, Flag::Writable)
                && m0.frame(pp_frame_of(p0.pages_seq(), base)).spec_refs() > 1;
            let fstar = if zero_case { m0.free_seq().last() } else {
                pp_frame_of(p0.pages_seq(), base)
            };
            let fresh = m0.free_seq().last();
            if zero_case || cow_case {
                assert(!m0.is_used(fresh)) by {
                    if m0.is_used(fresh) {
                        let k = choose|k: int| 0 <= k < m0.used_seq().len()
                            && m0.used_seq()[k] == fresh;
                        assert(m0.free_seq()[m0.free_seq().len() - 1]
                            != m0.used_seq()[k]);
                    }
                }
                lemma_not_shared(s0, fresh);
            }
            if !zero_case {
                assert(pp_has(p0.pages_seq(), base));
                let k = crate::process::pp_index(p0.pages_seq(), base);
                assert(0 <= k < p0.pages_seq().len()
                    && p0.pages_seq()[k].0 == base
                    && p0.pages_seq()[k].1 == fstar) by {
                    assert(pp_has(p0.pages_seq(), base));
                }
                assert(is_data(p0, fstar)) by {
                    assert(p0.pages_seq()[k].1 == fstar);
                }
            }
            // how the page table of the current process changed
            assert forall|q: u32| #[trigger] is_priv(p1, q) == is_priv(p0, q) by {}
            if zero_case {
                assert forall|q: u32| #[trigger] refs_in(p1.pages_seq(), q)
                    == (if q == fresh { 1nat } else { refs_in(p0.pages_seq(), q) }) by {
                    lemma_refs_in_push(p0.pages_seq(), (base, fresh), q);
                }
            } else if cow_case {
                let k = crate::process::pp_index(p0.pages_seq(), base);
                assert forall|q: u32| #[trigger] refs_in(p1.pages_seq(), q)
                    == (if q == fresh { 1nat } else if q == fstar { 0nat } else {
                        refs_in(p0.pages_seq(), q)
                    }) by {
                    assert(p0.pages_seq()[k].1 == fstar);
                    assert(fstar != fresh);
                    lemma_refs_in_update(p0.pages_seq(), k, (base, fresh), q);
                }
            } else {
                assert(p1 == p0);
            }
            // which frames of the pool changed, and how the used list grew
            assert forall|q: u32| q < 32 && m1.frame(q) != m0.frame(q)
                implies is_priv(p0, q) || is_data(p0, q) || !m0.is_used(q) by {}
            assert forall|q: u32| m0.is_used(q) implies m1.is_used(q) by {
                if zero_case || cow_case {
                    crate::frames::lemma_push_contains(m0.used_seq(), fresh);
                }
            }
            lemma_others_wf(s0, j, m1);
            assert forall|i: int| 0 <= i < self.procs().len()
                implies (#[trigger] self.procs()[i]).wf(m1) by {
                if i != j {
                    assert(self.procs()[i] == s0.procs()[i]);
                }
            }
            // directory and table frames stay disjoint: they did not move
            assert forall|a: int, b: int, f: u32|
                #![trigger is_priv(self.proc_list@[a], f),
                    is_priv(self.proc_list@[b], f)]
                0 <= a < self.proc_list@.len() && 0 <= b < self.proc_list@.len()
                    && a != b && is_priv(self.proc_list@[a], f)
                implies !is_priv(self.proc_list@[b], f) by {
                assert(is_priv(self.proc_list@[a], f)
                    == is_priv(s0.proc_list@[a], f));
                assert(is_priv(self.proc_list@[b], f)
                    == is_priv(s0.proc_list@[b], f));
            }
            // data frames stay clear of everyone's private frames
            assert forall|a: int, b: int, f: u32|
                #![trigger is_priv(self.proc_list@[a], f),
                    is_data(self.proc_list@[b], f)]
                0 <= a < self.proc_list@.len() && 0 <= b < self.proc_list@.len()
                    && a != b && is_priv(self.proc_list@[a], f)
                implies !is_data(self.proc_list@[b], f) by {
                assert(is_priv(self.proc_list@[a], f)
                    == is_priv(s0.proc_list@[a], f));
                if b == j {
                    if is_data(p1, f) {
                        assert(refs_in(p1.pages_seq(), f) == 1);
                        if (zero_case || cow_case) && f == fresh {
                            assert(s0.procs()[a].wf(m0));
                            if is_priv(s0.procs()[a], f) {
                                if s0.procs()[a].tables_seq().contains(f) {
                                    let tt = choose|tt: int|
                                        0 <= tt < s0.procs()[a].tables_seq().len()
                                            && s0.procs()[a].tables_seq()[tt] == f;
                                    assert(m0.is_used(f));
                                }
                                assert(m0.is_used(f));
                                assert(false);
                            }
                        } else {
                            assert(is_data(p0, f));
                            assert(!is_priv(s0.procs()[a], f));
                        }
                    }
                } else {
                    assert(is_data(self.proc_list@[b], f)
                        == is_data(s0.proc_list@[b], f));
                }
            }
            // reference counts still mirror the sharing
            assert forall|f: u32| #[trigger] total_refs(self.proc_list@, f) > 0
                implies 1 <= f < 32 && m1.is_used(f)
                    && m1.frame(f).spec_refs() == total_refs(self.proc_list@, f) by {
                lemma_total_refs_update(s0.procs(), j, p1, f);
                let t0 = total_refs(s0.proc_list@, f);
                let t1 = total_refs(self.proc_list@, f);
                if zero_case {
                    assert(refs_in(p0.pages_seq(), f)
                        == (if f == fresh { 0nat } else { refs_in(p1.pages_seq(), f) }))
                        by {
                        if f == fresh {
                            lemma_total_refs_lower(s0.procs(), j, f);
                        }
                    }
                } else if cow_case {
                    if f == fstar {
                        lemma_total_refs_lower(s0.procs(), j, f);
                    }
                    if f == fresh {
                        lemma_total_refs_lower(s0.procs(), j, f);
                    }
                }
                if (zero_case || cow_case) && f == fresh {
                    assert(t0 == 0);
                    assert(t1 == 1);
                    assert(m1.frame(f).spec_refs() == 1);
                    assert(m1.is_used(f)) by {
                        crate::frames::lemma_push_contains(m0.used_seq(), fresh);
                        assert(m1.used_seq() == m0.used_seq().push(fresh));
                    }
                } else if cow_case && f == fstar {
                    assert(t1 == t0 - 1);
                    assert(m1.frame(f).spec_refs() == m0.frame(f).spec_refs() - 1);
                    assert(t0 > 0);
                    assert(m1.is_used(f));
                } else {
                    assert(t1 == t0);
                    assert(t0 > 0);
                    lemma_total_refs_pos(s0.procs(), f);
                    let w = choose|w: int| 0 <= w < s0.procs().len()
                        && refs_in((#[trigger] s0.procs()[w]).pages_seq(), f) == 1;
                    assert(is_data(s0.procs()[w], f));
                    assert(m1.frame(f).spec_refs() == m0.frame(f).spec_refs()) by {
                        assert(f != tf) by {
                            if w == j {
                                let kk = choose|kk: int|
                                    0 <= kk < p0.pages_seq().len()
                                        && (#[trigger] p0.pages_seq()[kk]).1 == f;
                                let tt = choose|tt: int|
                                    0 <= tt < p0.tables_seq().len()
                                        && p0.tables_seq()[tt] == tf;
                                assert(p0.pages_seq()[kk].1 != p0.tables_seq()[tt]);
                            } else {
                                assert(is_priv(s0.procs()[j], tf));
                                assert(!is_data(s0.procs()[w], tf));
                            }
                        }
                        if zero_case || cow_case {
                            assert(f != fresh);
                        }
                        if cow_case {
                            assert(f != fstar);
                        }
                        if !zero_case && !cow_case {
                            if f == fstar {
                                assert(m1.frame(f).spec_refs()
                                    == m0.frame(f).spec_refs());
                            }
                        }
                    }
                }
            }
            assert(self.inv());
        }
    }

    /// Clone the current process: the clone takes the next PID, shares
    /// every data frame with its parent, becomes Running and current; the
    /// parent is left Sleeping.
    #[verifier::rlimit(100)]
    pub fn fork(&mut self)
        requires
            old(self).inv(),
            old(self).procs().len() > 0,
            old(self).procs().len() < usize::MAX,
            old(self).procs().len() <= u32::MAX as usize,
            old(self).spec_mem().free_seq().len()
                >= old(self).cur().tables_seq().len() + 1,
        ensures
            final(self).inv(),
            final(self).procs().len() == old(self).procs().len() + 1,
            final(self).spec_curr() == old(self).procs().len(),
            final(self).cur().spec_pid() == old(self).procs().len() as u32,
            final(self).cur().spec_state() == ProcessState::Running,
            final(self).cur().pages_seq() == old(self).cur().pages_seq(),
            final(self).cur().spec_debug() == old(self).cur().spec_debug(),
            final(self).procs()[old(self).spec_curr() as int].same_space(old(self).cur()),
            final(self).procs()[old(self).spec_curr() as int].spec_state()
                == ProcessState::Sleeping,
            forall|i: int| 0 <= i < old(self).procs().len()
                && i != old(self).spec_curr() as int
                ==> final(self).procs()[i] == old(self).procs()[i],
            forall|va: u32| #[trigger] final(self).cur().spec_walk(final(self).spec_mem(),
                va) == final(self).procs()[old(self).spec_curr() as int].spec_walk(
                    final(self).spec_mem(), va),
    {
        let ghost s0 = *self;
        let ghost j = self.curr_proc as int;
        let size = self.proc_list.len();
        let i = self.curr_proc;
        let dbg = self.proc_list[i].debug;
        proof {
            // reference counts are bounded by the number of processes
            assert forall|k: int| 0 <= k < s0.cur().pages_seq().len()
                implies s0.spec_mem().frame(
                    (#[trigger] s0.cur().pages_seq()[k]).1).spec_refs() < usize::MAX by {
                let f = s0.cur().pages_seq()[k].1;
                assert(refs_in(s0.cur().pages_seq(), f) == 1) by {
                    assert(s0.cur().pages_seq()[k].1 == f);
                }
                lemma_total_refs_lower(s0.procs(), j, f);
                lemma_total_refs_upper(s0.procs(), f);
                assert(total_refs(s0.procs(), f) > 0);
            }
        }
        let mut new_proc = {
            let p = proc_mut(&mut self.proc_list, i);
            p.copy(&mut self.mem, size as u32, dbg)
        };
        let ghost child0 = new_proc;
        new_proc.wake_up();
        self.curr_proc = new_proc.pid() as usize;
        self.proc_list.push(new_proc);
        proof {
            let m0 = s0.spec_mem();
            let m1 = self.spec_mem();
            let p0 = s0.cur();
            let p1 = self.proc_list@[j];
            let ch = self.cur();
            ch.lemma_same_space_wf(child0, m1);
            assert(self.proc_list@ == s0.proc_list@.update(j, p1).push(ch));
            assert(p1.wf(m1) && ch.wf(m1));
            // the pool changed only in the current process's frames and in
            // freshly allocated ones
            assert forall|q: u32| q < 32 && m1.frame(q) != m0.frame(q)
                implies is_priv(p0, q) || is_data(p0, q) || !m0.is_used(q) by {
                if q != child0.spec_pgdir() && !child0.tables_seq().contains(q)
                    && !p0.tables_seq().contains(q)
                    && !(exists|k: int| 0 <= k < p0.pages_seq().len()
                        && (#[trigger] p0.pages_seq()[k]).1 == q) {
                    assert(m1.frame(q) == m0.frame(q));
                }
                if exists|k: int| 0 <= k < p0.pages_seq().len()
                    && (#[trigger] p0.pages_seq()[k]).1 == q {
                    assert(is_data(p0, q));
                }
            }
            lemma_others_wf(s0, j, m1);
            assert forall|ii: int| 0 <= ii < self.procs().len()
                implies (#[trigger] self.procs()[ii]).wf(m1) by {
                if ii < s0.procs().len() && ii != j {
                    assert(self.procs()[ii] == s0.procs()[ii]);
                }
            }
            // the child's private frames are fresh; everyone's data frames
            // are untouched as sets
            assert forall|f: u32| #[trigger] is_priv(ch, f)
                implies !m0.is_used(f) by {}
            assert forall|f: u32| #[trigger] is_priv(p1, f) == is_priv(p0, f) by {}
            assert forall|f: u32| #[trigger] refs_in(ch.pages_seq(), f)
                == refs_in(p0.pages_seq(), f)
                && refs_in(p1.pages_seq(), f) == refs_in(p0.pages_seq(), f) by {}
            lemma_own_priv_not_data(p0, m0);
            assert forall|a: int, b: int, f: u32|
                #![trigger is_priv(self.proc_list@[a], f),
                    is_priv(self.proc_list@[b], f)]
                0 <= a < self.proc_list@.len() && 0 <= b < self.proc_list@.len()
                    && a != b && is_priv(self.proc_list@[a], f)
                implies !is_priv(self.proc_list@[b], f) by {
                let n0 = s0.procs().len() as int;
                if a < n0 && b < n0 {
                    assert(is_priv(self.proc_list@[a], f)
                        == is_priv(s0.proc_list@[a], f));
                    assert(is_priv(self.proc_list@[b], f)
                        == is_priv(s0.proc_list@[b], f));
                } else if b == n0 {
                    // the child's private frames were free before
                    assert(is_priv(s0.proc_list@[a], f)
                        == is_priv(self.proc_list@[a], f));
                    if is_priv(ch, f) {
                        assert(!m0.is_used(f));
                        assert(s0.procs()[a].wf(m0));
                        if s0.procs()[a].tables_seq().contains(f) {
                            let tt = choose|tt: int|
                                0 <= tt < s0.procs()[a].tables_seq().len()
                                    && s0.procs()[a].tables_seq()[tt] == f;
                            assert(m0.is_used(f));
                        }
                        assert(m0.is_used(f));
                        assert(false);
                    }
                } else {
                    assert(a == n0);
                    assert(!m0.is_used(f));
                    assert(s0.procs()[b].wf(m0));
                    if is_priv(s0.proc_list@[b], f) {
                        if s0.procs()[b].tables_seq().contains(f) {
                            let tt = choose|tt: int|
                                0 <= tt < s0.procs()[b].tables_seq().len()
                                    && s0.procs()[b].tables_seq()[tt] == f;
                            assert(m0.is_used(f));
                        }
                        assert(m0.is_used(f));
                        assert(false);
                    }
                }
            }
            assert forall|a: int, b: int, f: u32|
                #![trigger is_priv(self.proc_list@[a], f),
                    is_data(self.proc_list@[b], f)]
                0 <= a < self.proc_list@.len() && 0 <= b < self.proc_list@.len()
                    && a != b && is_priv(self.proc_list@[a], f)
                implies !is_data(self.proc_list@[b], f) by {
                let n0 = s0.procs().len() as int;
                let data_owner = if b == n0 { p0 } else if b == j { p0 } else {
                    s0.proc_list@[b]
                };
                assert(refs_in(self.proc_list@[b].pages_seq(), f)
                    == refs_in(data_owner.pages_seq(), f));
                if a < n0 {
                    assert(is_priv(self.proc_list@[a], f)
                        == is_priv(s0.proc_list@[a], f));
                    if is_data(data_owner, f) {
                        if a == j && (b == n0 || b == j) {
                            assert(is_priv(p0, f) && is_data(p0, f));
                            assert(false);
                        } else if b == n0 || b == j {
                            assert(is_priv(s0.proc_list@[a], f)
                                && is_data(s0.proc_list@[j], f));
                            assert(false);
                        } else {
                            assert(is_priv(s0.proc_list@[a], f)
                                && is_data(s0.proc_list@[b], f));
                            assert(false);
                        }
                    }
                } else {
                    assert(a == n0);
                    assert(is_priv(ch, f));
                    assert(!m0.is_used(f));
                    if is_data(data_owner, f) {
                        let kk = choose|kk: int| 0 <= kk < data_owner.pages_seq().len()
                            && (#[trigger] data_owner.pages_seq()[kk]).1 == f;
                        assert(data_owner.wf(m0));
                        assert(m0.is_used(f));
                        assert(false);
                    }
                }
            }
            // reference counts: one more for every page shared with the child
            assert forall|f: u32| #[trigger] total_refs(self.proc_list@, f) > 0
                implies 1 <= f < 32 && m1.is_used(f)
                    && m1.frame(f).spec_refs() == total_refs(self.proc_list@, f) by {
                let mid = s0.proc_list@.update(j, p1);
                lemma_total_refs_push(mid, ch, f);
                lemma_total_refs_update(s0.procs(), j, p1, f);
                let t0 = total_refs(s0.proc_list@, f);
                assert(total_refs(self.proc_list@, f)
                    == t0 + refs_in(p0.pages_seq(), f));
                if refs_in(p0.pages_seq(), f) == 1 {
                    let kk = choose|kk: int| 0 <= kk < p0.pages_seq().len()
                        && (#[trigger] p0.pages_seq()[kk]).1 == f;
                    lemma_total_refs_lower(s0.procs(), j, f);
                    assert(t0 > 0);
                    assert(m1.frame(f).spec_refs() == m0.frame(f).spec_refs() + 1);
                    assert(m1.is_used(f));
                } else {
                    assert(total_refs(self.proc_list@, f) == t0);
                    assert(t0 > 0);
                    lemma_total_refs_pos(s0.procs(), f);
                    let w = choose|w: int| 0 <= w < s0.procs().len()
                        && refs_in((#[trigger] s0.procs()[w]).pages_seq(), f) == 1;
                    assert(is_data(s0.procs()[w], f));
                    assert(m0.is_used(f));
                    assert(m1.frame(f) == m0.frame(f)) by {
                        assert(!is_data(p0, f));
                        if is_priv(p0, f) {
                            lemma_not_shared(s0, f);
                        }
                        assert(f != child0.spec_pgdir()
                            && !child0.tables_seq().contains(f)) by {
                            assert(is_priv(ch, f) ==> !m0.is_used(f));
                            if f == child0.spec_pgdir()
                                || child0.tables_seq().contains(f) {
                                assert(is_priv(ch, f));
                            }
                        }
                        assert(!p0.tables_seq().contains(f)) by {
                            if p0.tables_seq().contains(f) {
                                assert(is_priv(p0, f));
                            }
                        }
                        assert(!(exists|k: int| 0 <= k < p0.pages_seq().len()
                            && (#[trigger] p0.pages_seq()[k]).1 == f));
                    }
                    assert(m1.is_used(f));
                }
            }
            assert(self.inv());
            // both sides of the fork walk alike
            assert forall|va: u32| #[trigger] ch.spec_walk(m1, va)
                == p1.spec_walk(m1, va) by {
                assert(child0.spec_walk(m1, va) == p1.spec_walk(m1, va));
            }
        }
    }

    /// Read a typed value at the pointer's address through the current
    /// process, together with the trace record the attempt emits.
    pub fn read(&self, addr: Pointer, data_type: DataType)
        -> (r: (Option<ValueType>, Option<TraceEvent>))
        requires
            self.inv(),
            self.procs().len() > 0,
        ensures
            r.0 == self.cur().read_result(self.spec_mem(), addr.spec_vaddr(), data_type),
            r.1 == self.cur().read_trace(self.spec_mem(), addr.spec_vaddr()),
    {
        let proc = &self.proc_list[self.curr_proc];
        proc.read(&self.mem, Virtual::new(addr.vaddr(), addr.as_ptr()), data_type)
    }

    /// Terminate the current process, remove it from the table, and wake
    /// the neighbour below it when there is one.
    #[verifier::rlimit(100)]
    pub fn kill(&mut self)
        requires
            old(self).inv(),
            old(self).procs().len() > 0,
        ensures
            final(self).inv(),
            final(self).procs().len() == old(self).procs().len() - 1,
            final(self).spec_mem().wf(),
            old(self).spec_curr() > 0 ==> ({
                &&& final(self).spec_curr() == old(self).spec_curr() - 1
                &&& final(self).cur().same_space(
                    old(self).procs()[old(self).spec_curr() - 1])
                &&& final(self).cur().spec_state() == ProcessState::Running
            }),
            old(self).spec_curr() == 0 ==> final(self).spec_curr() == 0,
            forall|i: int| 0 <= i < final(self).procs().len() ==> ({
                let oi = if i < old(self).spec_curr() as int { i } else { i + 1 };
                (#[trigger] final(self).procs()[i]).same_space(old(self).procs()[oi])
            }),
    {
        let ghost s0 = *self;
        let ghost j = self.curr_proc as int;
        let i = self.curr_proc;
        {
            let p = proc_mut(&mut self.proc_list, i);
            p.kill(&mut self.mem);
        }
        let ghost smid = *self;
        let ghost dead = smid.proc_list@[j];
        let ghost p0 = s0.cur();
        let ghost m0 = s0.spec_mem();
        let ghost m1 = self.mem;
        proof {
            // every other process survives with its frames intact and live
            assert forall|ii: int| 0 <= ii < s0.procs().len() && ii != j
                implies (#[trigger] s0.procs()[ii]).wf(m1) by {
                let p = s0.procs()[ii];
                assert(p.wf(m0));
                lemma_own_priv_not_data(p0, m0);
                assert(m1.is_used(p.spec_pgdir())) by {
                    self.lemma_kill_keeps_frame(s0, j, p.spec_pgdir(), ii, true);
                }
                assert forall|t: int| 0 <= t < p.tables@.len()
                    implies m1.is_used(#[trigger] p.tables@[t])
                        && m1.frame(p.tables@[t]) == m0.frame(p.tables@[t]) by {
                    assert(p.tables_seq().contains(p.tables@[t]));
                    assert(is_priv(p, p.tables@[t]));
                    self.lemma_kill_keeps_frame(s0, j, p.tables@[t], ii, true);
                    assert(!(exists|k: int| 0 <= k < p0.pages_seq().len()
                        && (#[trigger] p0.pages_seq()[k]).1 == p.tables@[t])) by {
                        if exists|k: int| 0 <= k < p0.pages_seq().len()
                            && (#[trigger] p0.pages_seq()[k]).1 == p.tables@[t] {
                            assert(is_data(s0.procs()[j], p.tables@[t]));
                        }
                    }
                }
                assert forall|k: int| 0 <= k < p.phys_pages@.len()
                    implies m1.is_used((#[trigger] p.phys_pages@[k]).1) by {
                    let f = p.phys_pages@[k].1;
                    assert(refs_in(p.pages_seq(), f) == 1) by {
                        assert(p.pages_seq()[k].1 == f);
                    }
                    assert(is_data(p, f));
                    self.lemma_kill_keeps_frame(s0, j, f, ii, false);
                }
                assert(m1.frame(p.spec_pgdir()) == m0.frame(p.spec_pgdir())) by {
                    assert(is_priv(p, p.spec_pgdir()));
                    assert(!is_data(s0.procs()[j], p.spec_pgdir()));
                    assert(!(exists|k: int| 0 <= k < p0.pages_seq().len()
                        && (#[trigger] p0.pages_seq()[k]).1 == p.spec_pgdir()));
                }
                p.lemma_wf_frames_untouched(m0, m1);
            }
        }
        self.proc_list.remove(i);
        let ghost srem = *self;
        if self.curr_proc > 0 {
            self.curr_proc = self.curr_proc - 1;
            let c = self.curr_proc;
            let p = proc_mut(&mut self.proc_list, c);
            p.wake_up();
        }
        proof {
            // relate the final table to the old one, index by index
            assert forall|ii: int| 0 <= ii < self.proc_list@.len() implies ({
                let oi = if ii < j { ii } else { ii + 1 };
                (#[trigger] self.proc_list@[ii]).same_space(s0.proc_list@[oi])
                    && self.proc_list@[ii].wf(m1)
                    && self.proc_list@[ii].pages_seq()
                        == s0.proc_list@[oi].pages_seq()
            }) by {
                let oi = if ii < j { ii } else { ii + 1 };
                assert(srem.proc_list@[ii] == smid.proc_list@[if ii < j { ii } else {
                    ii + 1
                }]);
                assert(smid.proc_list@[oi] == s0.proc_list@[oi]);
                if self.proc_list@[ii] != srem.proc_list@[ii] {
                    self.proc_list@[ii].lemma_same_space_wf(srem.proc_list@[ii], m1);
                }
            }
            assert forall|ii: int| 0 <= ii < self.proc_list@.len()
                implies (#[trigger] self.proc_list@[ii]).wf(m1) by {}
            assert forall|a: int, b: int, f: u32|
                #![trigger is_priv(self.proc_list@[a], f),
                    is_priv(self.proc_list@[b], f)]
                0 <= a < self.proc_list@.len() && 0 <= b < self.proc_list@.len()
                    && a != b && is_priv(self.proc_list@[a], f)
                implies !is_priv(self.proc_list@[b], f) by {
                let oa = if a < j { a } else { a + 1 };
                let ob = if b < j { b } else { b + 1 };
                assert(is_priv(self.proc_list@[a], f)
                    == is_priv(s0.proc_list@[oa], f));
                assert(is_priv(self.proc_list@[b], f)
                    == is_priv(s0.proc_list@[ob], f));
            }
            assert forall|a: int, b: int, f: u32|
                #![trigger is_priv(self.proc_list@[a], f),
                    is_data(self.proc_list@[b], f)]
                0 <= a < self.proc_list@.len() && 0 <= b < self.proc_list@.len()
                    && a != b && is_priv(self.proc_list@[a], f)
                implies !is_data(self.proc_list@[b], f) by {
                let oa = if a < j { a } else { a + 1 };
                let ob = if b < j { b } else { b + 1 };
                assert(is_priv(self.proc_list@[a], f)
                    == is_priv(s0.proc_list@[oa], f));
                assert(is_data(self.proc_list@[b], f)
                    == is_data(s0.proc_list@[ob], f));
            }
            // the shared-frame accounting after removing the dead process
            assert(dead.pages_seq().len() == 0);
            assert forall|f: u32| #[trigger] total_refs(self.proc_list@, f) > 0
                implies 1 <= f < 32 && m1.is_used(f)
                    && m1.frame(f).spec_refs() == total_refs(self.proc_list@, f) by {
                lemma_total_refs_same(self.proc_list@, srem.proc_list@, f);
                lemma_total_refs_remove(smid.proc_list@, j, f);
                assert(refs_in(dead.pages_seq(), f) == 0);
                lemma_total_refs_update(s0.proc_list@, j, dead, f);
                let t0 = total_refs(s0.proc_list@, f);
                let t1 = total_refs(self.proc_list@, f);
                assert(t1 == t0 - refs_in(p0.pages_seq(), f));
                assert(t0 > 0);
                if refs_in(p0.pages_seq(), f) == 1 {
                    let kk = choose|kk: int| 0 <= kk < p0.pages_seq().len()
                        && (#[trigger] p0.pages_seq()[kk]).1 == f;
                    assert(t0 >= 2) by {
                        lemma_total_refs_pos(srem.proc_list@, f);
                        let w = choose|w: int| 0 <= w < srem.procs().len()
                            && refs_in((#[trigger] srem.procs()[w]).pages_seq(), f)
                                == 1;
                        let ow = if w < j { w } else { w + 1 };
                        assert(refs_in(s0.procs()[ow].pages_seq(), f) == 1);
                        lemma_total_refs_lower2(s0.proc_list@, ow, j, f);
                    }
                    assert(m0.frame(f).spec_refs() == t0);
                    assert(m1.frame(f).spec_refs() == t0 - 1);
                    assert(m1.is_used(f));
                } else {
                    assert(t1 == t0);
                    assert(m1.frame(f) == m0.frame(f)) by {
                        assert(!(exists|k: int| 0 <= k < p0.pages_seq().len()
                            && (#[trigger] p0.pages_seq()[k]).1 == f));
                    }
                    assert(m1.is_used(f)) by {
                        lemma_total_refs_pos(srem.proc_list@, f);
                        let w = choose|w: int| 0 <= w < srem.procs().len()
                            && refs_in((#[trigger] srem.procs()[w]).pages_seq(), f)
                                == 1;
                        let ow = if w < j { w } else { w + 1 };
                        assert(is_data(s0.procs()[ow], f));
                        self.lemma_kill_keeps_frame(s0, j, f, ow, false);
                    }
                }
            }
            assert(self.inv());
        }
    }

    /// After the process at `j` is killed, a frame that some other
    /// process `ii` holds privately or as data is still allocated.
    proof fn lemma_kill_keeps_frame(self, s0: Simulator, j: int, f: u32, ii: int,
        fpriv: bool)
        requires
            s0.inv(),
            0 <= j < s0.procs().len(),
            0 <= ii < s0.procs().len(),
            ii != j,
            fpriv ==> is_priv(s0.procs()[ii], f),
            !fpriv ==> is_data(s0.procs()[ii], f),
            s0.spec_mem().is_used(f),
            forall|q: u32| self.spec_mem().is_used(q) ==> s0.spec_mem().is_used(q),
            forall|q: u32| s0.spec_mem().is_used(q)
                && q != s0.procs()[j].spec_pgdir()
                && !s0.procs()[j].tables_seq().contains(q)
                && !crate::process::sole_owned_upto(s0.procs()[j].pages_seq(),
                    s0.spec_mem(), s0.procs()[j].pages_seq().len() as int, q)
                ==> self.spec_mem().is_used(q),
        ensures
            self.spec_mem().is_used(f),
    {
        let pj = s0.procs()[j];
        let pi = s0.procs()[ii];
        assert(f != pj.spec_pgdir() && !pj.tables_seq().contains(f)) by {
            if f == pj.spec_pgdir() || pj.tables_seq().contains(f) {
                assert(is_priv(pj, f));
                if fpriv {
                    assert(!is_priv(pi, f));
                } else {
                    assert(!is_data(pi, f));
                }
            }
        }
        assert(!crate::process::sole_owned_upto(pj.pages_seq(), s0.spec_mem(),
            pj.pages_seq().len() as int, f)) by {
            if crate::process::sole_owned_upto(pj.pages_seq(), s0.spec_mem(),
                pj.pages_seq().len() as int, f) {
                let k = choose|k: int| 0 <= k < pj.pages_seq().len()
                    && (#[trigger] pj.pages_seq()[k]).1 == f
                    && s0.spec_mem().frame(f).spec_refs() == 1;
                assert(refs_in(pj.pages_seq(), f) == 1);
                if fpriv {
                    assert(is_data(pj, f));
                    assert(!is_priv(pi, f) || !is_data(pj, f));
                    assert(false);
                } else {
                    lemma_total_refs_lower2(s0.procs(), ii, j, f);
                    assert(total_refs(s0.procs(), f) >= 2);
                    assert(s0.spec_mem().frame(f).spec_refs() >= 2);
                    assert(false);
                }
            }
        }
    }

    /// Yield the current process and wake the one at the given index.
    pub fn switch(&mut self, proc_num: usize)
        requires
            old(self).inv(),
            old(self).procs().len() > 0,
            proc_num < old(self).procs().len(),
        ensures
            final(self).inv(),
            final(self).procs().len() == old(self).procs().len(),
            final(self).spec_curr() == proc_num,
            final(self).spec_mem() == old(self).spec_mem(),
            final(self).cur().same_space(old(self).procs()[proc_num as int]),
            final(self).cur().spec_state() == ProcessState::Running,
            final(self).procs()[old(self).spec_curr() as int].same_space(old(self).cur()),
            proc_num != old(self).spec_curr()
                ==> final(self).procs()[old(self).spec_curr() as int].spec_state()
                    == ProcessState::Sleeping,
            forall|i: int| 0 <= i < old(self).procs().len()
                && i != old(self).spec_curr() as int && i != proc_num as int
                ==> final(self).procs()[i] == old(self).procs()[i],
    {
        let ghost s0 = *self;
        let i = self.curr_proc;
        {
            let p = proc_mut(&mut self.proc_list, i);
            p.yieldk();
        }
        self.curr_proc = proc_num;
        {
            let p = proc_mut(&mut self.proc_list, proc_num);
            p.wake_up();
        }
        proof {
            self.lemma_state_only_update(s0);
        }
    }

    /// Both tables hold the same address spaces in the same order over
    /// the same pool; only scheduling states may differ.
    proof fn lemma_state_only_update(self, s0: Simulator)
        requires
            s0.inv(),
            self.spec_mem() == s0.spec_mem(),
            self.procs().len() == s0.procs().len(),
            forall|i: int| 0 <= i < self.procs().len()
                ==> (#[trigger] self.procs()[i]).same_space(s0.procs()[i]),
            self.procs().len() > 0 ==> self.spec_curr() < self.procs().len(),
        ensures
            self.inv(),
    {
        assert forall|i: int| 0 <= i < self.procs().len()
            implies (#[trigger] self.procs()[i]).wf(self.spec_mem()) by {
            self.procs()[i].lemma_same_space_wf(s0.procs()[i], self.spec_mem());
        }
        assert forall|i: int| 0 <= i < self.procs().len()
            implies (#[trigger] self.procs()[i]).tables_seq()
                    == s0.procs()[i].tables_seq()
                && self.procs()[i].pages_seq() == s0.procs()[i].pages_seq()
                && self.procs()[i].spec_pgdir() == s0.procs()[i].spec_pgdir() by {}
        assert forall|a: int, b: int, f: u32|
            #![trigger is_priv(self.proc_list@[a], f), is_priv(self.proc_list@[b], f)]
            0 <= a < self.proc_list@.len() && 0 <= b < self.proc_list@.len() && a != b
                && is_priv(self.proc_list@[a], f)
            implies !is_priv(self.proc_list@[b], f) by {
            assert(is_priv(s0.procs()[a], f) == is_priv(self.proc_list@[a], f));
            assert(is_priv(s0.procs()[b], f) == is_priv(self.proc_list@[b], f));
        }
        assert forall|a: int, b: int, f: u32|
            #![trigger is_priv(self.proc_list@[a], f), is_data(self.proc_list@[b], f)]
            0 <= a < self.proc_list@.len() && 0 <= b < self.proc_list@.len() && a != b
                && is_priv(self.proc_list@[a], f)
            implies !is_data(self.proc_list@[b], f) by {
            assert(is_priv(s0.procs()[a], f) == is_priv(self.proc_list@[a], f));
            assert(is_data(s0.procs()[b], f) == is_data(self.proc_list@[b], f));
        }
        assert forall|f: u32| #[trigger] total_refs(self.proc_list@, f) > 0
            implies 1 <= f < 32 && self.mem.is_used(f)
                && self.mem.frame(f).spec_refs() == total_refs(self.proc_list@, f) by {
            lemma_total_refs_same(self.proc_list@, s0.proc_list@, f);
        }
    }

    /// Borrow the frame pool, for diagnostics.
    pub fn memory(&self) -> (r: &Memory)
        ensures
            *r == self.spec_mem(),
    {
        &self.mem
    }

    pub fn proc_count(&self) -> (r: usize)
        ensures
            r == self.procs().len(),
    {
        self.proc_list.len()
    }

    pub fn current_index(&self) -> (r: usize)
        ensures
            r == self.spec_curr(),
    {
        self.curr_proc
    }

    /// Borrow a process, for diagnostics.
    pub fn process(&self, i: usize) -> (r: &Process)
        requires
            i < self.procs().len(),
        ensures
            *r == self.procs()[i as int],
    {
        &self.proc_list[i]
    }
}

proof fn lemma_refs_in_push(s: Seq<(u32, u32)>, pr: (u32, u32), q: u32)
    ensures
        refs_in(s.push(pr), q) == if pr.1 == q { 1nat } else { refs_in(s, q) },
{
    let t = s.push(pr);
    if pr.1 == q {
        assert(t[s.len() as int].1 == q);
    } else {
        if refs_in(s, q) == 1 {
            let i = choose|i: int| 0 <= i < s.len() && (#[trigger] s[i]).1 == q;
            assert(t[i].1 == q);
        }
        if refs_in(t, q) == 1 {
            let i = choose|i: int| 0 <= i < t.len() && (#[trigger] t[i]).1 == q;
            assert(i < s.len());
            assert(s[i].1 == q);
        }
    }
}

proof fn lemma_refs_in_update(s: Seq<(u32, u32)>, k: int, pr: (u32, u32), q: u32)
    requires
        0 <= k < s.len(),
        forall|i: int, j: int| #![trigger s[i], s[j]] 0 <= i < j < s.len()
            ==> s[i].1 != s[j].1,
    ensures
        refs_in(s.update(k, pr), q) == ({
            if pr.1 == q {
                1nat
            } else if s[k].1 == q {
                0nat
            } else {
                refs_in(s, q)
            }
        }),
{
    let t = s.update(k, pr);
    if pr.1 == q {
        assert(t[k].1 == q);
    } else if s[k].1 == q {
        if refs_in(t, q) == 1 {
            let i = choose|i: int| 0 <= i < t.len() && (#[trigger] t[i]).1 == q;
            assert(i != k);
            assert(s[i].1 == q && s[k].1 == q);
        }
    } else {
        if refs_in(s, q) == 1 {
            let i = choose|i: int| 0 <= i < s.len() && (#[trigger] s[i]).1 == q;
            assert(i != k);
            assert(t[i].1 == q);
        }
        if refs_in(t, q) == 1 {
            let i = choose|i: int| 0 <= i < t.len() && (#[trigger] t[i]).1 == q;
            assert(i != k);
            assert(s[i].1 == q);
        }
    }
}

proof fn lemma_total_refs_same(ps1: Seq<Process>, ps2: Seq<Process>, f: u32)
    requires
        ps1.len() == ps2.len(),
        forall|i: int| 0 <= i < ps1.len()
            ==> (#[trigger] ps1[i]).pages_seq() == ps2[i].pages_seq(),
    ensures
        total_refs(ps1, f) == total_refs(ps2, f),
    decreases ps1.len(),
{
    if ps1.len() > 0 {
        assert(ps1.last().pages_seq() == ps2.last().pages_seq()) by {
            assert(ps1[ps1.len() - 1].pages_seq() == ps2[ps1.len() - 1].pages_seq());
        }
        assert forall|i: int| 0 <= i < ps1.drop_last().len()
            implies (#[trigger] ps1.drop_last()[i]).pages_seq()
                == ps2.drop_last()[i].pages_seq() by {
            assert(ps1[i].pages_seq() == ps2[i].pages_seq());
        }
        lemma_total_refs_same(ps1.drop_last(), ps2.drop_last(), f);
    }
}

/// A frame that is someone's directory or table frame, or that is not
/// even allocated, is nobody's data frame.
proof fn lemma_not_shared(s: Simulator, f: u32)
    requires
        s.inv(),
        (exists|j: int| 0 <= j < s.procs().len() && is_priv(#[trigger] s.procs()[j], f))
            || !s.spec_mem().is_used(f),
    ensures
        total_refs(s.procs(), f) == 0,
{
    if total_refs(s.procs(), f) > 0 {
        lemma_total_refs_pos(s.procs(), f);
        let i = choose|i: int| 0 <= i < s.procs().len()
            && refs_in((#[trigger] s.procs()[i]).pages_seq(), f) == 1;
        assert(is_data(s.procs()[i], f));
        if !s.spec_mem().is_used(f) {
            assert(false);
        }
        let j = choose|j: int| 0 <= j < s.procs().len()
            && is_priv(#[trigger] s.procs()[j], f);
        if i == j {
            let p = s.procs()[j];
            let k = choose|k: int| 0 <= k < p.pages_seq().len()
                && (#[trigger] p.pages_seq()[k]).1 == f;
            if p.tables_seq().contains(f) {
                let t = choose|t: int| 0 <= t < p.tables_seq().len()
                    && p.tables_seq()[t] == f;
                assert(p.pages_seq()[k].1 != p.tables_seq()[t]);
            }
            assert(false);
        } else {
            assert(is_priv(s.procs()[j], f) && is_data(s.procs()[i], f));
            assert(false);
        }
    }
}

/// Every process other than the one at `j` stays well formed when the
/// pool only changes in frames that belong to `j` or were free.
proof fn lemma_others_wf(s: Simulator, j: int, m_new: Memory)
    requires
        s.inv(),
        0 <= j < s.procs().len(),
        m_new.wf(),
        forall|q: u32| s.spec_mem().is_used(q) ==> m_new.is_used(q),
        forall|q: u32| q < 32 && m_new.frame(q) != s.spec_mem().frame(q)
            ==> is_priv(s.procs()[j], q) || is_data(s.procs()[j], q)
                || !s.spec_mem().is_used(q),
    ensures
        forall|i: int| 0 <= i < s.procs().len() && i != j
            ==> (#[trigger] s.procs()[i]).wf(m_new),
{
    assert forall|i: int| 0 <= i < s.procs().len() && i != j
        implies (#[trigger] s.procs()[i]).wf(m_new) by {
        let p = s.procs()[i];
        assert(p.wf(s.spec_mem()));
        assert(m_new.frame(p.spec_pgdir()) == s.spec_mem().frame(p.spec_pgdir())) by {
            assert(is_priv(p, p.spec_pgdir()));
            assert(!is_priv(s.procs()[j], p.spec_pgdir()));
            assert(!is_data(s.procs()[j], p.spec_pgdir()));
        }
        assert forall|t: int| 0 <= t < p.tables@.len()
            implies m_new.frame(#[trigger] p.tables@[t])
                == s.spec_mem().frame(p.tables@[t]) by {
            assert(p.tables_seq().contains(p.tables@[t]));
            assert(is_priv(p, p.tables@[t]));
            assert(!is_priv(s.procs()[j], p.tables@[t]));
            assert(!is_data(s.procs()[j], p.tables@[t]));
        }
        p.lemma_wf_frames_untouched(s.spec_mem(), m_new);
    }
}

fn proc_mut(ps: &mut Vec<Process>, i: usize) -> (r: &mut Process)
    requires
        i < old(ps).len(),
    ensures
        *r == old(ps)@[i as int],
        final(ps)@ == old(ps)@.update(i as int, *final(r)),
{
    &mut ps[i]
}

} // verus!
