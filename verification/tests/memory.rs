use std::collections::HashMap;

use rust_os::memory::{
    create_example_mapping, mark_parents_user_accessible, translate_addr, BootInfoFrameAllocator,
    EmptyFrameAllocator, Mapping, MemoryMap, Region, Translation,
};
use rust_os::process::space::{new_p4, page_flags, table_flags, AddressSpace};
use rust_os::process::{USER_REGION_START, USER_STACK_TOP};

fn region(start: u64, end: u64, usable: bool) -> Region {
    Region { start, end, usable }
}

fn allocator(regions: &[Region]) -> BootInfoFrameAllocator {
    let mut map = MemoryMap::new();
    for region in regions {
        map.add_region(*region);
    }
    BootInfoFrameAllocator::init(map)
}

#[test]
fn usable_frames_come_in_order() {
    let mut frames = allocator(&[
        region(0x0, 0x1000, false),
        region(0x1000, 0x3000, true),
        region(0x3000, 0x9000, false),
        region(0x9000, 0x9000, true),
        region(0xA000, 0xB000, true),
    ]);
    assert_eq!(frames.allocate_frame(), Some(0x1000));
    assert_eq!(frames.allocate_frame(), Some(0x2000));
    assert_eq!(frames.allocate_frame(), Some(0xA000));
    assert_eq!(frames.allocate_frame(), None);
    assert_eq!(frames.allocate_frame(), None);
}

#[test]
fn a_region_that_is_not_aligned_counts_whole_frames() {
    let mut frames = allocator(&[region(0x1800, 0x2801, true)]);
    assert_eq!(frames.allocate_frame(), Some(0x1000));
    assert_eq!(frames.allocate_frame(), Some(0x2000));
    assert_eq!(frames.allocate_frame(), None);
}

#[test]
fn no_frame_is_given_out_twice() {
    let mut frames = allocator(&[
        region(0x10_0000, 0x20_0000, true),
        region(0x0, 0x8000, true),
        region(0x8000, 0x10_0000, false),
    ]);
    let mut seen = Vec::new();
    while let Some(frame) = frames.allocate_frame() {
        seen.push(frame);
    }
    let count = seen.len();
    assert_eq!(count, 256 + 8);
    seen.sort();
    seen.dedup();
    assert_eq!(seen.len(), count);
}

#[test]
fn frames_given_back_are_given_out_again() {
    let mut frames = allocator(&[region(0x1000, 0x4000, true)]);
    let a = frames.allocate_frame().unwrap();
    let b = frames.allocate_frame().unwrap();
    frames.deallocate_frame(a);
    frames.deallocate_frame(b);
    assert_eq!(frames.allocate_frame(), Some(b));
    assert_eq!(frames.allocate_frame(), Some(a));
    assert_eq!(frames.allocate_frame(), Some(0x3000));
    assert_eq!(frames.allocate_frame(), None);
}

#[test]
fn the_empty_allocator_is_empty() {
    assert_eq!(EmptyFrameAllocator.allocate_frame(), None);
}

/// Page tables in a sparse memory.
struct Tables {
    words: HashMap<u64, u64>,
}

impl Tables {
    fn set(&mut self, table: u64, index: u64, entry: u64) {
        self.words.insert(table + 8 * index, entry);
    }

    fn read(&self, at: u64) -> u64 {
        *self.words.get(&at).unwrap_or(&0)
    }
}

/// Maps one page: tables at 0x1000, 0x2000, 0x3000 and 0x4000.
fn one_page(addr: u64, frame: u64) -> Tables {
    let mut tables = Tables { words: HashMap::new() };
    tables.set(0x1000, addr >> 39 & 511, 0x2000 | 3);
    tables.set(0x2000, addr >> 30 & 511, 0x3000 | 3);
    tables.set(0x3000, addr >> 21 & 511, 0x4000 | 3);
    tables.set(0x4000, addr >> 12 & 511, frame | 3);
    tables
}

const ADDR: u64 = 0x2012_3456_7ABC;

#[test]
fn a_mapped_address_is_translated() {
    let tables = one_page(ADDR, 0x7_7000);
    let read = |at: u64| tables.read(at);
    assert_eq!(translate_addr(&read, 0x1000, ADDR), Translation::Mapped(0x7_7ABC));
    assert_eq!(translate_addr(&read, 0x1000, ADDR + 0x1000), Translation::Unmapped);
    assert_eq!(translate_addr(&read, 0x1000, ADDR + (1 << 39)), Translation::Unmapped);
}

#[test]
fn huge_pages_and_missing_entries_are_told_apart() {
    let mut tables = one_page(ADDR, 0x7_7000);
    tables.set(0x3000, ADDR >> 21 & 511, 0x4000 | 0x83);
    let read = |at: u64| tables.read(at);
    assert_eq!(translate_addr(&read, 0x1000, ADDR), Translation::Huge);
    let space = AddressSpace { p4_frame: 0x1000 };
    assert_eq!(space.translate(&read, ADDR), None);

    // An entry that is not present ends the walk of the active tables, but only
    // an empty one ends the walk of a process's own.
    let mut tables = one_page(ADDR, 0x7_7000);
    tables.set(0x4000, ADDR >> 12 & 511, 0x7_7000);
    let read = |at: u64| tables.read(at);
    assert_eq!(translate_addr(&read, 0x1000, ADDR), Translation::Unmapped);
    assert_eq!(space.translate(&read, ADDR), Some(0x7_7ABC));
}

#[test]
fn parents_are_marked_and_the_page_is_not() {
    let tables = one_page(ADDR, 0x7_7000);
    let read = |at: u64| tables.read(at);
    let writes = mark_parents_user_accessible(&read, 0x1000, ADDR);
    assert_eq!(writes[0].at, 0x1000 + 8 * (ADDR >> 39 & 511));
    assert_eq!(writes[0].value, 0x2000 | 7);
    assert_eq!(writes[1].at, 0x2000 + 8 * (ADDR >> 30 & 511));
    assert_eq!(writes[1].value, 0x3000 | 7);
    assert_eq!(writes[2].at, 0x3000 + 8 * (ADDR >> 21 & 511));
    assert_eq!(writes[2].value, 0x4000 | 7);
    let mut marked = one_page(ADDR, 0x7_7000);
    for write in writes {
        marked.words.insert(write.at, write.value);
    }
    let read = |at: u64| marked.read(at);
    assert_eq!(translate_addr(&read, 0x1000, ADDR), Translation::Mapped(0x7_7ABC));
    // Marking again changes nothing.
    assert_eq!(mark_parents_user_accessible(&read, 0x1000, ADDR), writes);
}

#[test]
fn the_example_mapping_is_the_text_buffer() {
    assert_eq!(
        create_example_mapping(0xdead_b000),
        Mapping { page: 0xdead_b000, frame: 0xb8000, flags: 3 }
    );
}

#[test]
fn a_new_space_shares_all_but_the_user_slot() {
    let mut kernel = [0u64; 512];
    for (i, entry) in kernel.iter_mut().enumerate() {
        *entry = 0x1000 * i as u64 | 3;
    }
    let table = new_p4(&kernel);
    for i in 0..512 {
        assert_eq!(table[i], if i == 64 { 0 } else { kernel[i] });
    }
    assert_eq!(USER_REGION_START >> 39, 64);
    assert_eq!(page_flags(false), 5);
    assert_eq!(page_flags(true), 7);
    assert_eq!(table_flags(), 7);
}

#[test]
fn tearing_down_a_space_frees_all_it_owns() {
    let mut frames = allocator(&[region(0x1000, 0x100_0000, true)]);
    // P4, P3, P2, two P1s, three pages.
    let taken: Vec<u64> = (0..8).map(|_| frames.allocate_frame().unwrap()).collect();
    let mut tables = Tables { words: HashMap::new() };
    tables.set(taken[0], 0, 0xDEAD_F000 | 3); // the kernel's, not to be freed
    tables.set(taken[0], 64, taken[1] | 7);
    tables.set(taken[1], 0, taken[2] | 7);
    tables.set(taken[2], 0, taken[3] | 7);
    tables.set(taken[2], 1, taken[4] | 7);
    tables.set(taken[3], 1, taken[5] | 5);
    tables.set(taken[3], 2, taken[6] | 5);
    tables.set(taken[4], 511, taken[7] | 7);
    let read = |at: u64| tables.read(at);
    let space = AddressSpace { p4_frame: taken[0] };
    assert_eq!(space.translate(&read, USER_REGION_START + 0x1000), Some(taken[5]));
    assert_eq!(space.translate(&read, USER_STACK_TOP - 1), None);
    let writes = space.destroy(&read, &mut frames);
    assert_eq!(
        frames.free,
        [taken[5], taken[6], taken[3], taken[7], taken[4], taken[2], taken[1], taken[0]]
    );

    // Every entry of the private tables is cleared, each after what it leads
    // to; the kernel's is left alone.
    let places: Vec<u64> = writes.iter().map(|write| write.at).collect();
    assert!(writes.iter().all(|write| write.value == 0));
    assert_eq!(
        places,
        [
            taken[3] + 8,
            taken[3] + 16,
            taken[2],
            taken[4] + 511 * 8,
            taken[2] + 8,
            taken[1],
            taken[0] + 64 * 8,
        ]
    );

    // A space without user pages owns its level-4 table alone.
    let bare = frames.allocate_frame().unwrap();
    let read = |_at: u64| 0;
    assert!(AddressSpace { p4_frame: bare }.destroy(&read, &mut frames).is_empty());
    assert_eq!(frames.free.len(), 8);
}

#[test]
fn frames_survive_many_spaces() {
    let mut frames = allocator(&[region(0x1000, 0x5000, true)]);
    for _ in 0..40 {
        let p4 = frames.allocate_frame().expect("the frames are given back");
        let p3 = frames.allocate_frame().expect("the frames are given back");
        let p2 = frames.allocate_frame().expect("the frames are given back");
        let p1 = frames.allocate_frame().expect("the frames are given back");
        assert_eq!(frames.allocate_frame(), None);
        let mut tables = Tables { words: HashMap::new() };
        tables.set(p4, 64, p3 | 7);
        tables.set(p3, 5, p2 | 7);
        tables.set(p2, 6, p1 | 7);
        let read = |at: u64| tables.read(at);
        AddressSpace { p4_frame: p4 }.destroy(&read, &mut frames);
    }
}
