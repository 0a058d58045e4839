//! Component-level checks: the frame pool, frame payloads, entry packing,
//! address decomposition, word encoding and the dump-walk helper.

use vmsim::frames::{kinit, Page};
use vmsim::process::{raw_to_u32, u32_to_raw};
use vmsim::ptable::{Address, Flag, PageTableEntry, Physical, Virtual, PTE};
use vmsim::sim::{ValueType};
use vmsim::translation::Address as WalkAddress;

#[test]
fn kinit_fills_the_free_list() {
    let mut mem = kinit();
    assert_eq!(mem.free_count(), 31);
    assert_eq!(mem.used_count(), 0);
    // every allocated page number is distinct and in 1..=31
    let mut seen: Vec<u32> = Vec::new();
    loop {
        match mem.kalloc() {
            Some(ppn) => {
                assert!(1 <= ppn && ppn < 32);
                assert!(!seen.contains(&ppn));
                seen.push(ppn);
            },
            None => break,
        }
    }
    assert_eq!(seen.len(), 31);
    // the pool fails with an empty free list, exactly then
    assert_eq!(mem.kalloc(), None);
}

#[test]
fn kalloc_pops_the_top() {
    let mut mem = kinit();
    // page numbers 1..=31 were pushed in order, so 31 is on top
    assert_eq!(mem.kalloc(), Some(31));
    assert_eq!(mem.kalloc(), Some(30));
    mem.kfree(31);
    assert_eq!(mem.kalloc(), Some(31));
}

#[test]
fn kfree_zero_frame_is_noop() {
    let mut mem = kinit();
    let free = mem.free_count();
    mem.kfree(0);
    assert_eq!(mem.free_count(), free);
}

#[test]
fn freshly_allocated_frames_are_zeroed() {
    let mut mem = kinit();
    let ppn = mem.kalloc().unwrap();
    let bytes = mem.page(ppn).read(0, 4096);
    assert!(bytes.iter().all(|b| *b == 0));
    assert_eq!(mem.page(ppn).ref_count(), 1);
}

#[test]
fn page_aligned_read_write() {
    let mut pg = Page::new(3);
    assert_eq!(pg.ppn(), 3);
    pg.write(5, 4, &[1, 2, 3, 4]);
    // the write lands in the aligned slot starting at byte 4
    assert_eq!(pg.read(6, 4), vec![1, 2, 3, 4]);
    assert_eq!(pg.read(0, 4), vec![0, 0, 0, 0]);
    // extra source bytes are dropped, missing ones leave the tail alone
    pg.write(4, 4, &[9]);
    assert_eq!(pg.read(4, 4), vec![9, 2, 3, 4]);
}

#[test]
fn zero_frame_reads_zero() {
    let mem = kinit();
    let z = mem.zero_page();
    assert_eq!(z.ppn(), 0);
    assert_eq!(z.read(1000, 8), vec![0, 0, 0, 0, 0, 0, 0, 0]);
}

#[test]
fn page_refcounts_and_copy() {
    let mut a = Page::new(4);
    let mut b = Page::new(5);
    a.write(0, 4, &[7, 7, 7, 7]);
    b.copy(&a);
    assert_eq!(b.read(0, 4), vec![7, 7, 7, 7]);
    assert_eq!(b.ref_count(), 0);
    b.increment_refs();
    b.increment_refs();
    assert_eq!(b.ref_count(), 2);
    b.decrement_refs();
    assert_eq!(b.ref_count(), 1);
}

#[test]
fn entry_flag_packing() {
    let mut pte = PTE::from(0);
    pte.set_flag(Flag::Present);
    assert_eq!(pte.get(), 1);
    pte.set_flag(Flag::Writable);
    assert_eq!(pte.get(), 3);
    pte.set_flag(Flag::Zero);
    assert_eq!(pte.get(), 0x103);
    assert!(pte.get_flag(Flag::Present));
    assert!(pte.get_flag(Flag::Writable));
    assert!(pte.get_flag(Flag::Zero));
    assert!(!pte.get_flag(Flag::User));
    pte.clear_flag(Flag::Writable);
    assert_eq!(pte.get(), 0x101);
    assert!(!pte.get_flag(Flag::Writable));
}

#[test]
fn entry_address_and_ppn() {
    let mut pte = PageTableEntry::from(0);
    pte.set(0x12345FFF, &[Flag::User]);
    // the low twelve bits of the address are masked off first
    assert_eq!(pte.get_address(), 0x12345000);
    assert_eq!(pte.get_ppn(), 0x12345);
    assert!(pte.get_flag(Flag::User));
    assert!(!pte.get_flag(Flag::Present));
    assert!(!pte.get_flag(Flag::Dirty));
    assert_eq!(pte.get(), 0x12345004);
}

#[test]
fn address_decomposition() {
    let v = Virtual::new(0x80ABC123, 55);
    let a = v.get();
    assert_eq!(a.get_address(), 0x80ABC123);
    assert_eq!(a.get_dir_index(), (0x80ABC123u32 >> 22) as usize & 0x3FF);
    assert_eq!(a.get_table_index(), (0x80ABC123u32 >> 12) as usize & 0x3FF);
    assert_eq!(a.get_offset(), 0x123);
    assert_eq!(a.get_ptr(), 55);
}

#[test]
fn translate_round_trip() {
    let a = Address::Virtual(0x80001234, 5);
    let p = a.translate();
    assert_eq!(p, Address::Physical(0x1234, 5));
    assert_eq!(p.translate(), a);
}

#[test]
fn virtual_as_phys() {
    let v = Virtual::new(0x80002468, 9);
    let p = v.as_phys();
    assert_eq!(p.get(), Address::Physical(0x2468, 9));
}

#[test]
fn physical_from_parts() {
    let p = Physical::from(0x5000, 0x234, 1);
    assert_eq!(p.get().get_address(), 0x5234);
}

#[test]
fn word_encoding_round_trip() {
    let bytes = u32_to_raw(0xA1B2C3D4);
    assert_eq!(bytes, vec![0xD4, 0xC3, 0xB2, 0xA1]);
    assert_eq!(raw_to_u32(&bytes), 0xA1B2C3D4);
}

#[test]
fn value_encoding() {
    let v = ValueType::UnsignedInt(0x0102030405060708);
    assert_eq!(v.as_bytes(), vec![8, 7, 6, 5, 4, 3, 2, 1]);
    assert_eq!(v.get_value(), 0x0102030405060708);
    let s = ValueType::SignedInt(-1);
    assert_eq!(s.as_bytes(), vec![0xFF; 8]);
    let z = ValueType::Zero;
    assert_eq!(z.as_bytes(), vec![0; 8]);
    assert_eq!(z.get_value(), 0);
}

#[test]
fn dump_walk_translation() {
    // a directory whose slot 0 refers to table 0, whose entry 1 maps
    // frame 5: virtual 0x1234 resolves to physical 0x5234
    let mut dir = Page::new(1);
    let pde = u32_to_raw(0 << 12);
    dir.write(0, 4, &pde);
    let mut table = Page::new(2);
    let pte = u32_to_raw(5 << 12);
    table.write(4, 4, &pte);
    let tables = vec![table];
    let va = WalkAddress::Virtual(0x1234);
    let pa = va.translate(&dir, &tables);
    assert_eq!(pa.get_address(), 0x5234);
    // a physical address maps straight back to a virtual one
    let back = WalkAddress::Physical(0x5234).translate(&dir, &tables);
    assert_eq!(back.get_address(), 0x5234);
}
