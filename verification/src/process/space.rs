//! A process's address space: its page tables.

use vstd::prelude::*;

use crate::memory::{
    index_in, BootInfoFrameAllocator, Memory, WordWrite, ADDRESS_MASK, HUGE_PAGE, PAGE_SIZE,
    PRESENT, USER_ACCESSIBLE, WRITABLE,
};
use crate::process::USER_P4_INDEX;

verus! {

/// A process address space: the frame of its level-4 page table.
#[derive(Debug, Clone, Copy, PartialEq, Eq, Structural)]
pub struct AddressSpace {
    pub p4_frame: u64,
}

/// The flags of a user page.
pub open spec fn user_flags(writable: bool) -> u64 {
    if writable {
        7
    } else {
        5
    }
}

/// A user page is there (bit 0) and user code may use it (bit 2); it may be written
/// to (bit 1) only where that is asked for; and nothing else is said of it.
pub proof fn law_user_pages_are_for_users(writable: bool)
    ensures
        user_flags(writable) % 2 == 1,
        user_flags(writable) / 2 % 2 == 1 <==> writable,
        user_flags(writable) / 4 == 1,
{
}

/// The flags of a user page.
pub fn page_flags(writable: bool) -> (flags: u64)
    ensures
        flags == (if writable {
            7u64
        } else {
            5u64
        }),
        flags == user_flags(writable),
{
    proof {
        assert(1u64 | 4u64 == 5u64 && 5u64 | 2u64 == 7u64) by (bit_vector);
    }
    let flags: u64 = PRESENT | USER_ACCESSIBLE;
    if writable {
        flags | WRITABLE
    } else {
        flags
    }
}

/// The flags of the tables above a user page. They must themselves be
/// user-accessible: the CPU checks the flag at *every* level of the walk.
pub fn table_flags() -> (flags: u64)
    ensures
        flags == 7,
{
    page_flags(true)
}

/// The level-4 table of a new address space.
pub open spec fn fresh_p4(kernel: Seq<u64>) -> Seq<u64> {
    kernel.update(USER_P4_INDEX as int, 0)
}

/// A new level-4 table has the kernel's entry in every slot but number 64, which is
/// empty.
pub proof fn law_new_tables_mirror_the_kernel(kernel: Seq<u64>, slot: int)
    requires
        kernel.len() == 512,
        0 <= slot < 512,
    ensures
        fresh_p4(kernel).len() == 512,
        fresh_p4(kernel)[slot] == (if slot == 64 {
            0
        } else {
            kernel[slot]
        }),
{
}

/// The level-4 table of a new address space: it mirrors the kernel's mappings
/// but has an empty user slot.
///
/// Copying every kernel entry (rather than only a higher half) is what keeps
/// the kernel mapped: its image, physical map, and heap live in scattered
/// slots, not one contiguous half. The user slot starts empty, so nothing is
/// shared there.
pub fn new_p4(kernel: &[u64; 512]) -> (table: [u64; 512])
    ensures
        table@ == kernel@.update(USER_P4_INDEX as int, 0),
        table@ == fresh_p4(kernel@),
{
    let mut table = *kernel;
    table[USER_P4_INDEX] = 0;
    table
}

/// The walk down to the page of `addr`, from the table of the given level in
/// `frame`. An empty entry ends it, and so does a huge page.
pub open spec fn space_walk(memory: Memory, frame: u64, addr: u64, level: nat) -> Option<u64>
    decreases level,
{
    let entry = memory(crate::memory::entry_place(frame, addr, level));
    if entry == 0 {
        None
    } else if level <= 1 {
        Some((crate::memory::entry_frame(entry) + addr % 4096) as u64)
    } else if entry & 0x80 != 0 {
        None
    } else {
        space_walk(memory, crate::memory::entry_frame(entry), addr, (level - 1) as nat)
    }
}

/// The frame holds a page table with these entries.
pub open spec fn holds_table(memory: Memory, frame: u64, table: Seq<u64>) -> bool {
    forall|slot: u64|
        0 <= slot < 512 ==> #[trigger] memory((frame + 8 * slot) as u64) == table[slot as int]
}

/// A new address space maps every address outside the user region as the kernel
/// does, and nothing inside it: address spaces share the kernel, and nothing
/// else.
pub proof fn law_spaces_share_only_the_kernel(
    memory: Memory,
    kernel_p4: u64,
    kernel: Seq<u64>,
    p4: u64,
    addr: u64,
)
    requires
        kernel.len() == 512,
        holds_table(memory, kernel_p4, kernel),
        holds_table(memory, p4, fresh_p4(kernel)),
    ensures
        crate::process::USER_REGION_START <= addr < crate::process::USER_REGION_END <==>
            crate::memory::table_index(addr, 4) == USER_P4_INDEX && addr < 0x1_0000_0000_0000,
        if crate::memory::table_index(addr, 4) == USER_P4_INDEX {
            space_walk(memory, p4, addr, 4) is None
        } else {
            space_walk(memory, p4, addr, 4) == space_walk(memory, kernel_p4, addr, 4)
        },
{
    let slot = crate::memory::table_index(addr, 4);
    let kernel_entry = memory((kernel_p4 + 8 * slot) as u64);
    let entry = memory((p4 + 8 * slot) as u64);
    assert(kernel_entry == kernel[slot as int]);
    assert(entry == kernel.update(USER_P4_INDEX as int, 0)[slot as int]);
    reveal_with_fuel(space_walk, 2);
}

/// The frames that a table of the given level owns, itself last: the tables
/// below it with all they own, and the data frames of the lowest ones.
pub open spec fn owned(memory: Memory, frame: u64, level: nat) -> Seq<u64>
    decreases level, 513nat,
{
    owned_from(memory, frame, level, 0).push(frame)
}

/// The frames that the entries of a table own, from entry `i` on.
pub open spec fn owned_from(memory: Memory, frame: u64, level: nat, i: nat) -> Seq<u64>
    decreases level, (512 - i),
{
    if i >= 512 {
        Seq::empty()
    } else {
        let entry = memory((frame + 8 * i) as u64);
        let child = crate::memory::entry_frame(entry);
        let rest = owned_from(memory, frame, level, i + 1);
        if entry == 0 {
            rest
        } else if level > 1 && entry & 0x80 == 0 {
            owned(memory, child, (level - 1) as nat) + rest
        } else {
            seq![child] + rest
        }
    }
}

/// The frames that an address space owns: all those of the user slot's subtree,
/// and its level-4 table last. Kernel entries are copies of live kernel tables,
/// and nothing of theirs is owned.
pub open spec fn space_owned(memory: Memory, p4_frame: u64) -> Seq<u64> {
    let entry = memory((p4_frame + 8 * USER_P4_INDEX) as u64);
    if entry == 0 {
        seq![p4_frame]
    } else {
        owned(memory, crate::memory::entry_frame(entry), 3).push(p4_frame)
    }
}

/// The write that clears an entry.
pub open spec fn clearing(frame: u64, i: nat) -> WordWrite {
    WordWrite { at: (frame + 8 * i) as u64, value: 0 }
}

/// The writes that clear the entries of a table from entry `i` on, and of the
/// tables below it: each entry after what it leads to.
pub open spec fn cleared_from(memory: Memory, frame: u64, level: nat, i: nat) -> Seq<WordWrite>
    decreases level, (512 - i),
{
    if i >= 512 {
        Seq::empty()
    } else {
        let entry = memory((frame + 8 * i) as u64);
        let child = crate::memory::entry_frame(entry);
        let rest = cleared_from(memory, frame, level, i + 1);
        if entry == 0 {
            rest
        } else if level > 1 && entry & 0x80 == 0 {
            cleared_from(memory, child, (level - 1) as nat, 0) + (seq![clearing(frame, i)] + rest)
        } else {
            seq![clearing(frame, i)] + rest
        }
    }
}

/// The writes that clear the user slot of an address space and all below it.
pub open spec fn space_cleared(memory: Memory, p4_frame: u64) -> Seq<WordWrite> {
    let entry = memory((p4_frame + 8 * USER_P4_INDEX) as u64);
    if entry == 0 {
        Seq::empty()
    } else {
        cleared_from(memory, crate::memory::entry_frame(entry), 3, 0).push(
            clearing(p4_frame, USER_P4_INDEX as nat),
        )
    }
}

/// An address space that was torn down maps nothing in the user region.
pub proof fn law_torn_down_spaces_are_empty(memory: Memory, p4_frame: u64, addr: u64)
    requires
        crate::process::USER_REGION_START <= addr < crate::process::USER_REGION_END,
    ensures
        space_walk(
            crate::memory::after_writes(memory, space_cleared(memory, p4_frame)),
            p4_frame,
            addr,
            4,
        ) is None,
{
    let writes = space_cleared(memory, p4_frame);
    let after = crate::memory::after_writes(memory, writes);
    assert(crate::memory::table_index(addr, 4) == USER_P4_INDEX);
    assert(after((p4_frame + 8 * USER_P4_INDEX) as u64) == 0) by {
        if writes.len() > 0 {
            assert(writes.last() == clearing(p4_frame, USER_P4_INDEX as nat));
        }
    }
}

/// Frees a page table and everything below it. `level` is 3 for a P3, 2 for a
/// P2, 1 for a P1 (whose entries are data frames). The writes that clear the
/// entries are added to `writes`; they have to be made before a frame is given
/// out again.
pub fn free_table<F: Fn(u64) -> u64>(
    read: &F,
    frame: u64,
    level: u8,
    frames: &mut BootInfoFrameAllocator,
    writes: &mut Vec<WordWrite>,
)
    requires
        crate::memory::reads_anywhere(*read),
        frame < 0x10_0000_0000_0000,
        1 <= level <= 3,
        old(frames).wf(),
    ensures
        final(frames).wf(),
        final(frames)@.fresh == old(frames)@.fresh,
        forall|memory: Memory| #[trigger]
            crate::memory::shows(*read, memory) ==> final(frames)@.free == old(frames)@.free
                + owned(memory, frame, level as nat) && final(writes)@ == old(writes)@
                + cleared_from(memory, frame, level as nat, 0),
    decreases level,
{
    let ghost before = frames@;
    let ghost asked = writes@;
    let mut i: u64 = 0;
    while i < 512
        invariant
            i <= 512,
            crate::memory::reads_anywhere(*read),
            frame < 0x10_0000_0000_0000,
            1 <= level <= 3,
            frames.wf(),
            frames@.fresh == before.fresh,
            forall|memory: Memory| #[trigger]
                crate::memory::shows(*read, memory) ==> before.free + owned_from(
                    memory,
                    frame,
                    level as nat,
                    0,
                ) == frames@.free + owned_from(memory, frame, level as nat, i as nat),
            forall|memory: Memory| #[trigger]
                crate::memory::shows(*read, memory) ==> asked + cleared_from(
                    memory,
                    frame,
                    level as nat,
                    0,
                ) == writes@ + cleared_from(memory, frame, level as nat, i as nat),
        decreases 512 - i,
    {
        let entry: u64 = read(frame + 8 * i);
        let ghost given = frames@.free;
        let ghost earlier = writes@;
        if entry != 0 {
            let child: u64 = entry & ADDRESS_MASK;
            proof {
                crate::memory::lemma_entry_frame(entry);
            }
            if level > 1 && entry & HUGE_PAGE == 0 {
                free_table(read, child, level - 1, frames, writes);
            } else {
                frames.deallocate_frame(child);
            }
            writes.push(WordWrite { at: frame + 8 * i, value: 0 });
            proof {
                assert forall|memory: Memory| #[trigger]
                    crate::memory::shows(*read, memory) implies asked + cleared_from(
                    memory,
                    frame,
                    level as nat,
                    0,
                ) == writes@ + cleared_from(memory, frame, level as nat, (i + 1) as nat) by {
                    let rest = cleared_from(memory, frame, level as nat, (i + 1) as nat);
                    let mark = clearing(frame, i as nat);
                    if level > 1 && entry & HUGE_PAGE == 0 {
                        let mine = cleared_from(memory, child, (level - 1) as nat, 0);
                        assert(writes@ == (earlier + mine).push(mark));
                        assert(earlier + (mine + (seq![mark] + rest)) =~= (earlier + mine).push(
                            mark,
                        ) + rest);
                    } else {
                        assert(earlier + (seq![mark] + rest) =~= earlier.push(mark) + rest);
                    }
                }
                assert forall|memory: Memory| #[trigger]
                    crate::memory::shows(*read, memory) implies before.free + owned_from(
                    memory,
                    frame,
                    level as nat,
                    0,
                ) == frames@.free + owned_from(memory, frame, level as nat, (i + 1) as nat) by {
                    let rest = owned_from(memory, frame, level as nat, (i + 1) as nat);
                    if level > 1 && entry & HUGE_PAGE == 0 {
                        let mine = owned(memory, child, (level - 1) as nat);
                        assert(frames@.free == given + mine);
                        assert(given + (mine + rest) =~= (given + mine) + rest);
                    } else {
                        assert(given + (seq![child] + rest) =~= given.push(child) + rest);
                    }
                }
            }
        }
        i = i + 1;
    }
    let ghost given = frames@.free;
    frames.deallocate_frame(frame);
    proof {
        assert forall|memory: Memory| #[trigger]
            crate::memory::shows(*read, memory) implies frames@.free == before.free + owned(
            memory,
            frame,
            level as nat,
        ) && writes@ == asked + cleared_from(memory, frame, level as nat, 0) by {
            assert(cleared_from(memory, frame, level as nat, 512) =~= Seq::<WordWrite>::empty());
            assert(writes@ =~= asked + cleared_from(memory, frame, level as nat, 0));
            let all = owned_from(memory, frame, level as nat, 0);
            assert(owned_from(memory, frame, level as nat, 512) =~= Seq::<u64>::empty());
            assert(given =~= before.free + all);
            assert(given.push(frame) =~= before.free + all.push(frame));
        }
    }
}

impl AddressSpace {
    /// The level-4 table is in a frame.
    pub open spec fn wf(&self) -> bool {
        self.p4_frame < 0x10_0000_0000_0000
    }

    /// Translates a user virtual address using this (possibly inactive) address
    /// space's tables.
    pub fn translate<F: Fn(u64) -> u64>(&self, read: &F, addr: u64) -> (phys: Option<u64>)
        requires
            crate::memory::reads_anywhere(*read),
            self.wf(),
        ensures
            forall|memory: Memory| #[trigger]
                crate::memory::shows(*read, memory) ==> phys == space_walk(
                    memory,
                    self.p4_frame,
                    addr,
                    4,
                ),
    {
        let mut frame: u64 = self.p4_frame;
        let mut level: u8 = 4;
        while level > 1
            invariant
                1 <= level <= 4,
                frame < 0x10_0000_0000_0000,
                crate::memory::reads_anywhere(*read),
                forall|memory: Memory| #[trigger]
                    crate::memory::shows(*read, memory) ==> space_walk(
                        memory,
                        self.p4_frame,
                        addr,
                        4,
                    ) == space_walk(memory, frame, addr, level as nat),
            decreases level,
        {
            let entry: u64 = read(frame + 8 * index_in(addr, level));
            if entry == 0 || entry & HUGE_PAGE != 0 {
                return None;
            }
            proof {
                crate::memory::lemma_entry_frame(entry);
            }
            frame = entry & ADDRESS_MASK;
            level = level - 1;
        }
        let entry: u64 = read(frame + 8 * index_in(addr, 1));
        if entry == 0 {
            return None;
        }
        proof {
            crate::memory::lemma_entry_frame(entry);
        }
        Some((entry & ADDRESS_MASK) + addr % PAGE_SIZE)
    }

    /// Frees every frame the process owns: the private subtree and the P4
    /// itself. Gives the writes that clear the entries on the way, which have to
    /// be made before a frame is given out again.
    pub fn destroy<F: Fn(u64) -> u64>(self, read: &F, frames: &mut BootInfoFrameAllocator) -> (writes:
        Vec<WordWrite>)
        requires
            crate::memory::reads_anywhere(*read),
            self.wf(),
            old(frames).wf(),
        ensures
            final(frames).wf(),
            final(frames)@.fresh == old(frames)@.fresh,
            forall|memory: Memory| #[trigger]
                crate::memory::shows(*read, memory) ==> final(frames)@.free == old(frames)@.free
                    + space_owned(memory, self.p4_frame) && writes@ == space_cleared(
                    memory,
                    self.p4_frame,
                ),
    {
        let mut writes: Vec<WordWrite> = Vec::new();
        let ghost before = frames@.free;
        let entry: u64 = read(self.p4_frame + 8 * USER_P4_INDEX as u64);
        if entry != 0 {
            proof {
                crate::memory::lemma_entry_frame(entry);
            }
            free_table(read, entry & ADDRESS_MASK, 3, frames, &mut writes);
            writes.push(WordWrite { at: self.p4_frame + 8 * USER_P4_INDEX as u64, value: 0 });
        }
        let ghost given = frames@.free;
        frames.deallocate_frame(self.p4_frame);
        proof {
            let p4 = self.p4_frame;
            assert forall|memory: Memory| #[trigger]
                crate::memory::shows(*read, memory) implies frames@.free == before + space_owned(
                memory,
                p4,
            ) && writes@ == space_cleared(memory, p4) by {
                assert(writes@ =~= space_cleared(memory, p4));
                if entry == 0 {
                    assert(before.push(p4) =~= before + seq![p4]);
                } else {
                    let mine = owned(memory, crate::memory::entry_frame(entry), 3);
                    assert((before + mine).push(p4) =~= before + mine.push(p4));
                }
            }
        }
        writes
    }
}

/// How an address of a (possibly inactive) address space is translated, one table
/// after the other: an entry of 0 leads nowhere, and neither does a huge page on
/// the way; below the last table lies the frame of the page, and the offset is the
/// same in both.
pub proof fn law_spaces_are_walked_table_by_table(
    memory: Memory,
    frame: u64,
    addr: u64,
    level: nat,
)
    requires
        1 <= level <= 4,
        frame < 0x10_0000_0000_0000,
    ensures
        ({
            let entry = memory((frame + 8 * crate::memory::table_index(addr, level)) as u64);
            let next = (4096 * (entry / 4096 % 0x100_0000_0000)) as u64;
            &&& entry == 0 ==> space_walk(memory, frame, addr, level) is None
            &&& entry != 0 && level == 1 ==> space_walk(memory, frame, addr, level) == Some(
                (next + addr % 4096) as u64,
            )
            &&& entry != 0 && level > 1 ==> space_walk(memory, frame, addr, level) == (if entry / 128
                % 2 == 1 {
                None
            } else {
                space_walk(memory, next, addr, (level - 1) as nat)
            })
        }),
{
    let entry = memory(crate::memory::entry_place(frame, addr, level));
    crate::memory::law_entries_name_frames(entry);
    assert(entry & 0x80 != 0 <==> entry / 128 % 2 == 1) by (bit_vector);
}

/// The number of an entry in a table.
pub open spec fn is_slot(slot: nat) -> bool {
    slot < 512
}

/// The word at `at` is a used entry of the table of the given level in `frame`, or of
/// a table that a used entry of it leads down to.
pub open spec fn is_entry_below(memory: Memory, frame: u64, level: nat, at: u64) -> bool
    decreases level,
{
    exists|slot: nat| #[trigger]
        is_slot(slot) && {
            let entry = memory((frame + 8 * slot) as u64);
            &&& entry != 0
            &&& at == (frame + 8 * slot) as u64 || (level > 1 && entry / 128 % 2 == 0
                && is_entry_below(
                memory,
                (4096 * (entry / 4096 % 0x100_0000_0000)) as u64,
                (level - 1) as nat,
                at,
            ))
        }
}

/// What entry `slot` contributes to that.
spec fn slot_leads_to(memory: Memory, frame: u64, level: nat, slot: nat, at: u64) -> bool {
    let entry = memory((frame + 8 * slot) as u64);
    &&& entry != 0
    &&& at == (frame + 8 * slot) as u64 || (level > 1 && entry / 128 % 2 == 0 && is_entry_below(
        memory,
        (4096 * (entry / 4096 % 0x100_0000_0000)) as u64,
        (level - 1) as nat,
        at,
    ))
}

proof fn lemma_entries(entry: u64)
    ensures
        entry & 0x80 == 0 <==> entry / 128 % 2 == 0,
        crate::memory::entry_frame(entry) == 4096 * (entry / 4096 % 0x100_0000_0000),
{
    assert(entry & 0x80 == 0 <==> entry / 128 % 2 == 0) by (bit_vector);
    assert(entry & 0x000f_ffff_ffff_f000 == 4096 * (entry / 4096 % 0x100_0000_0000)) by (bit_vector);
}

proof fn lemma_entries_below(memory: Memory, frame: u64, level: nat, at: u64)
    ensures
        is_entry_below(memory, frame, level, at) <==> exists|slot: nat| #[trigger]
            is_slot(slot) && 0 <= slot && slot_leads_to(memory, frame, level, slot, at),
{
    reveal_with_fuel(is_entry_below, 2);
    if exists|slot: nat| #[trigger]
        is_slot(slot) && 0 <= slot && slot_leads_to(memory, frame, level, slot, at) {
        let slot = choose|slot: nat| #[trigger]
            is_slot(slot) && 0 <= slot && slot_leads_to(memory, frame, level, slot, at);
        assert(is_slot(slot));
    }
}

proof fn lemma_either_part(a: Seq<WordWrite>, b: Seq<WordWrite>, write: WordWrite)
    ensures
        (a + b).contains(write) <==> a.contains(write) || b.contains(write),
{
    let all = a + b;
    if a.contains(write) {
        let i = choose|i: int| 0 <= i < a.len() && a[i] == write;
        assert(all[i] == write);
    }
    if b.contains(write) {
        let i = choose|i: int| 0 <= i < b.len() && b[i] == write;
        assert(all[a.len() + i] == write);
    }
    if all.contains(write) {
        let i = choose|i: int| 0 <= i < all.len() && all[i] == write;
        if i < a.len() {
            assert(a[i] == write);
        } else {
            assert(b[i - a.len()] == write);
        }
    }
}

proof fn lemma_cleared(memory: Memory, frame: u64, level: nat, i: nat, write: WordWrite)
    ensures
        cleared_from(memory, frame, level, i).contains(write) <==> write.value == 0 && exists|
            slot: nat,
        | #[trigger]
            is_slot(slot) && i <= slot && slot_leads_to(memory, frame, level, slot, write.at),
    decreases level, (512 - i),
{
    if i < 512 {
        let entry = memory((frame + 8 * i) as u64);
        let child = crate::memory::entry_frame(entry);
        let rest = cleared_from(memory, frame, level, i + 1);
        let here = seq![clearing(frame, i)];
        lemma_entries(entry);
        lemma_cleared(memory, frame, level, i + 1, write);
        lemma_either_part(here, rest, write);
        assert(here.contains(write) <==> write == clearing(frame, i)) by {
            assert(here[0] == clearing(frame, i));
        }
        if entry != 0 && level > 1 && entry & 0x80 == 0 {
            let below = cleared_from(memory, child, (level - 1) as nat, 0);
            lemma_cleared(memory, child, (level - 1) as nat, 0, write);
            lemma_entries_below(memory, child, (level - 1) as nat, write.at);
            lemma_either_part(below, here + rest, write);
            assert(below.contains(write) <==> write.value == 0 && is_entry_below(
                memory,
                child,
                (level - 1) as nat,
                write.at,
            ));
        }
        let mine = slot_leads_to(memory, frame, level, i, write.at);
        assert(is_slot(i));
        assert((exists|slot: nat| #[trigger]
            is_slot(slot) && i <= slot && slot_leads_to(memory, frame, level, slot, write.at)) <==> (
        mine || exists|slot: nat| #[trigger]
            is_slot(slot) && i + 1 <= slot && slot_leads_to(
                memory,
                frame,
                level,
                slot,
                write.at,
            )));
    }
}

/// Tearing an address space down clears the user slot and every used entry of every
/// table below it, and writes nothing else: no word of a data frame, and none of a
/// table that the kernel's slots lead to.
pub proof fn law_tables_are_torn_down_whole(memory: Memory, p4_frame: u64, write: WordWrite)
    requires
        p4_frame < 0x10_0000_0000_0000,
    ensures
        ({
            let slot = (p4_frame + 512) as u64;
            let table = (4096 * (memory(slot) / 4096 % 0x100_0000_0000)) as u64;
            space_cleared(memory, p4_frame).contains(write) <==> {
                &&& write.value == 0
                &&& memory(slot) != 0
                &&& write.at == slot || is_entry_below(memory, table, 3, write.at)
            }
        }),
{
    let slot = (p4_frame + 512) as u64;
    let entry = memory(slot);
    if entry != 0 {
        let below = cleared_from(memory, crate::memory::entry_frame(entry), 3, 0);
        let last = seq![clearing(p4_frame, 64)];
        lemma_entries(entry);
        lemma_cleared(memory, crate::memory::entry_frame(entry), 3, 0, write);
        lemma_entries_below(memory, crate::memory::entry_frame(entry), 3, write.at);
        lemma_either_part(below, last, write);
        assert(space_cleared(memory, p4_frame) =~= below + last);
        assert(last.contains(write) <==> write == clearing(p4_frame, 64)) by {
            assert(last[0] == clearing(p4_frame, 64));
        }
    }
}

} // verus!
