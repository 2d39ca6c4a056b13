//! Paging and physical frames.
//!
//! Addresses are plain numbers here. A page table lives in physical memory,
//! which the kernel binary maps at some offset; the walks below are given a
//! function that reads the 64-bit word at a physical address, and what they
//! come to is stated for a memory that holds still while they run.

use vstd::multiset::Multiset;
use vstd::prelude::*;

verus! {

/// Bytes in a page and in a frame.
pub const PAGE_SIZE: u64 = 4096;

/// The page or table is present.
pub const PRESENT: u64 = 1;

/// Writes are allowed.
pub const WRITABLE: u64 = 2;

/// Ring 3 may use it.
pub const USER_ACCESSIBLE: u64 = 4;

/// The entry maps a huge page instead of naming a table.
pub const HUGE_PAGE: u64 = 0x80;

/// The bits of an entry that hold an address.
pub const ADDRESS_MASK: u64 = 0x000f_ffff_ffff_f000;

/// The word at each physical address.
pub type Memory = spec_fn(u64) -> u64;

/// Reads through `read` see `memory`.
pub open spec fn shows<F: Fn(u64) -> u64>(read: F, memory: Memory) -> bool {
    forall|at: u64, word: u64| #[trigger] read.ensures((at,), word) ==> word == memory(at)
}

/// `read` can be called on every address.
pub open spec fn reads_anywhere<F: Fn(u64) -> u64>(read: F) -> bool {
    forall|at: u64| #[trigger] read.requires((at,))
}

/// A region of physical memory, as the bootloader's memory map describes it.
#[derive(Debug, Clone, Copy, PartialEq, Eq, Structural)]
pub struct Region {
    pub start: u64,
    /// Exclusive.
    pub end: u64,
    pub usable: bool,
}

impl Region {
    /// Frames in the region, the last of which may stick out of it.
    pub open spec fn frame_count(self) -> nat {
        if self.usable && self.start < self.end {
            ((self.end - self.start + 4095) / 4096) as nat
        } else {
            0
        }
    }

    /// Frames of the region, by their start addresses.
    pub open spec fn frames(self) -> Seq<u64> {
        Seq::new(self.frame_count(), |i: int| ((self.start + 4096 * i) / 4096 * 4096) as u64)
    }
}

/// The usable frames of a memory map, in its order.
pub open spec fn usable_frames(regions: Seq<Region>) -> Seq<u64>
    decreases regions.len(),
{
    if regions.len() == 0 {
        Seq::empty()
    } else {
        regions[0].frames() + usable_frames(regions.drop_first())
    }
}

/// Regions that a memory map has room for.
pub const MAX_REGIONS: usize = 64;

/// The memory map is one that the bootloader can hand over: it has no more
/// regions than there is room for, and they end below 2^52, where physical
/// addresses do.
pub open spec fn is_memory_map(regions: Seq<Region>) -> bool {
    &&& regions.len() <= MAX_REGIONS
    &&& forall|i: int|
        0 <= i < regions.len() ==> (#[trigger] regions[i]).end <= 0x10_0000_0000_0000
}

/// The regions of physical memory that the bootloader found.
#[derive(Debug, Clone, Copy, PartialEq, Eq)]
pub struct MemoryMap {
    /// The regions fill the first `count` places.
    pub regions: [Region; MAX_REGIONS],
    pub count: usize,
}

impl View for MemoryMap {
    type V = Seq<Region>;

    open spec fn view(&self) -> Seq<Region> {
        self.regions@.take(self.count as int)
    }
}

impl MemoryMap {
    /// See [`is_memory_map`].
    pub open spec fn wf(&self) -> bool {
        self.count <= MAX_REGIONS && is_memory_map(self@)
    }

    /// A memory map without regions.
    pub fn new() -> (map: MemoryMap)
        ensures
            map.wf(),
            map@ == Seq::<Region>::empty(),
    {
        let none = Region { start: 0, end: 0, usable: false };
        let map = MemoryMap { regions: [none; MAX_REGIONS], count: 0 };
        assert(map@ =~= Seq::<Region>::empty());
        map
    }

    /// Adds a region.
    pub fn add_region(&mut self, region: Region)
        requires
            old(self).wf(),
            old(self)@.len() < MAX_REGIONS,
            region.end <= 0x10_0000_0000_0000,
        ensures
            final(self).wf(),
            final(self)@ == old(self)@.push(region),
    {
        let at: usize = self.count;
        self.regions[at] = region;
        self.count = at + 1;
        assert(self@ =~= old(self)@.push(region));
    }
}

proof fn lemma_frame_count(regions: Seq<Region>)
    requires
        is_memory_map(regions),
    ensures
        usable_frames(regions).len() <= regions.len() * 0x100_0000_0000,
    decreases regions.len(),
{
    if regions.len() > 0 {
        let rest = regions.drop_first();
        assert forall|i: int| 0 <= i < rest.len() implies (#[trigger] rest[i]).end
            <= 0x10_0000_0000_0000 by {
            assert(rest[i] == regions[i + 1]);
        }
        lemma_frame_count(rest);
        assert(regions[0].frame_count() <= 0x100_0000_0000);
    }
}

/// A frame allocator that returns usable frames from the bootloader's memory
/// map, and frames that were given back before those.
#[derive(Debug)]
pub struct BootInfoFrameAllocator {
    pub memory_map: MemoryMap,
    /// How many frames of the memory map were given out.
    pub next: u64,
    /// Frames that were given back, the latest last.
    pub free: Vec<u64>,
}

/// What a frame allocator holds: the frames of the memory map that were never
/// given out, and those that were given back.
#[verifier::ext_equal]
pub ghost struct FrameModel {
    pub fresh: Seq<u64>,
    pub free: Seq<u64>,
}

impl FrameModel {
    /// The frame that is given out next.
    pub open spec fn next_frame(self) -> Option<u64> {
        if self.free.len() > 0 {
            Some(self.free.last())
        } else if self.fresh.len() > 0 {
            Some(self.fresh[0])
        } else {
            None
        }
    }

    /// What is left once it is given out.
    pub open spec fn taken(self) -> FrameModel {
        if self.free.len() > 0 {
            FrameModel { free: self.free.drop_last(), ..self }
        } else if self.fresh.len() > 0 {
            FrameModel { fresh: self.fresh.drop_first(), ..self }
        } else {
            self
        }
    }

    /// What it holds once `frame` is given back.
    pub open spec fn given_back(self, frame: u64) -> FrameModel {
        FrameModel { free: self.free.push(frame), ..self }
    }

    /// The frames that are at hand to be given out.
    pub open spec fn at_hand(self) -> Multiset<u64> {
        self.fresh.to_multiset().add(self.free.to_multiset())
    }

    /// The frame is at hand to be given out.
    pub open spec fn has(self, frame: u64) -> bool {
        self.fresh.contains(frame) || self.free.contains(frame)
    }

    /// No frame is at hand twice.
    pub open spec fn is_distinct(self) -> bool {
        &&& self.fresh.no_duplicates()
        &&& self.free.no_duplicates()
        &&& forall|frame: u64|
            !(#[trigger] self.fresh.contains(frame) && self.free.contains(frame))
    }
}

impl View for BootInfoFrameAllocator {
    type V = FrameModel;

    open spec fn view(&self) -> FrameModel {
        FrameModel {
            fresh: usable_frames(self.memory_map@).skip(self.next as int),
            free: self.free@,
        }
    }
}

/// Usable regions begin and end at pages, and no two of them overlap.
pub open spec fn are_apart(regions: Seq<Region>) -> bool {
    &&& forall|i: int|
        0 <= i < regions.len() && (#[trigger] regions[i]).usable ==> regions[i].start % 4096 == 0
            && regions[i].end % 4096 == 0
    &&& forall|i: int, j: int|
        0 <= i < j < regions.len() && (#[trigger] regions[i]).usable && (
        #[trigger] regions[j]).usable ==> regions[i].end <= regions[j].start || regions[j].end
            <= regions[i].start
}

/// A new allocator has no frame at hand twice, where the usable regions of the
/// memory map lie apart.
pub proof fn law_frames_are_distinct_at_first(regions: Seq<Region>)
    requires
        are_apart(regions),
    ensures
        usable_frames(regions).no_duplicates(),
        (FrameModel { fresh: usable_frames(regions), free: Seq::empty() }).is_distinct(),
    decreases regions.len(),
{
    if regions.len() > 0 {
        let region = regions[0];
        let rest = regions.drop_first();
        assert(are_apart(rest)) by {
            assert forall|i: int| 0 <= i < rest.len() && (#[trigger] rest[i]).usable implies
                rest[i].start % 4096 == 0 && rest[i].end % 4096 == 0 by {
                assert(rest[i] == regions[i + 1]);
            }
            assert forall|i: int, j: int|
                0 <= i < j < rest.len() && (#[trigger] rest[i]).usable && (
                #[trigger] rest[j]).usable implies rest[i].end <= rest[j].start || rest[j].end
                <= rest[i].start by {
                assert(rest[i] == regions[i + 1] && rest[j] == regions[j + 1]);
            }
        }
        law_frames_are_distinct_at_first(rest);
        let here = region.frames();
        let there = usable_frames(rest);
        let all = usable_frames(regions);
        assert forall|i: int, j: int| 0 <= i < j < all.len() implies all[i] != all[j] by {
            if j < here.len() {
                assert(all[i] == here[i] && all[j] == here[j]);
            } else if i >= here.len() {
                assert(all[i] == there[i - here.len()] && all[j] == there[j - here.len()]);
            } else {
                assert(all[i] == here[i] && all[j] == there[j - here.len()]);
                let k = lemma_frame_in_region(rest, j - here.len());
                assert(rest[k] == regions[k + 1]);
            }
        }
    }
}

/// The region that holds usable frame number `n`.
pub(crate) proof fn lemma_frame_in_region(regions: Seq<Region>, n: int) -> (k: int)
    requires
        are_apart(regions),
        0 <= n < usable_frames(regions).len(),
    ensures
        0 <= k < regions.len(),
        regions[k].usable,
        regions[k].start <= usable_frames(regions)[n] < regions[k].end,
        usable_frames(regions)[n] % 4096 == 0,
    decreases regions.len(),
{
    let here = regions[0].frames();
    if n < here.len() {
        assert(regions[0].usable);
        0
    } else {
        let rest = regions.drop_first();
        assert forall|i: int| 0 <= i < rest.len() && (#[trigger] rest[i]).usable implies
            rest[i].start % 4096 == 0 && rest[i].end % 4096 == 0 by {
            assert(rest[i] == regions[i + 1]);
        }
        assert forall|i: int, j: int|
            0 <= i < j < rest.len() && (#[trigger] rest[i]).usable && (
            #[trigger] rest[j]).usable implies rest[i].end <= rest[j].start || rest[j].end
            <= rest[i].start by {
            assert(rest[i] == regions[i + 1] && rest[j] == regions[j + 1]);
        }
        let k = lemma_frame_in_region(rest, n - here.len());
        assert(rest[k] == regions[k + 1]);
        k + 1
    }
}

/// A use of a frame allocator.
pub ghost enum FrameUse {
    Take,
    GiveBack(u64),
}

/// What an allocator holds after some uses.
pub open spec fn used(frames: FrameModel, uses: Seq<FrameUse>) -> FrameModel
    decreases uses.len(),
{
    if uses.len() == 0 {
        frames
    } else {
        let before = used(frames, uses.drop_last());
        match uses.last() {
            FrameUse::Take => before.taken(),
            FrameUse::GiveBack(frame) => before.given_back(frame),
        }
    }
}

/// The frames that are given out in the course of some uses.
pub open spec fn handed_out(frames: FrameModel, uses: Seq<FrameUse>) -> Seq<u64>
    decreases uses.len(),
{
    if uses.len() == 0 {
        Seq::empty()
    } else {
        let earlier = handed_out(frames, uses.drop_last());
        match (uses.last(), used(frames, uses.drop_last()).next_frame()) {
            (FrameUse::Take, Some(frame)) => earlier.push(frame),
            _ => earlier,
        }
    }
}

/// The frames that are given back in the course of some uses.
pub open spec fn handed_in(uses: Seq<FrameUse>) -> Seq<u64>
    decreases uses.len(),
{
    if uses.len() == 0 {
        Seq::empty()
    } else {
        match uses.last() {
            FrameUse::Take => handed_in(uses.drop_last()),
            FrameUse::GiveBack(frame) => handed_in(uses.drop_last()).push(frame),
        }
    }
}

/// Frames are accounted for: those at hand in the end and those given out are
/// those at hand in the beginning and those given back.
pub proof fn law_frames_are_accounted_for(frames: FrameModel, uses: Seq<FrameUse>)
    ensures
        used(frames, uses).at_hand().add(handed_out(frames, uses).to_multiset())
            == frames.at_hand().add(handed_in(uses).to_multiset()),
        handed_out(frames, uses).to_multiset() == handed_in(uses).to_multiset() ==> used(
            frames,
            uses,
        ).at_hand() == frames.at_hand(),
    decreases uses.len(),
{
    broadcast use vstd::multiset::group_multiset_axioms;

    if uses.len() > 0 {
        let earlier = uses.drop_last();
        law_frames_are_accounted_for(frames, earlier);
        let before = used(frames, earlier);
        let out = handed_out(frames, earlier);
        let back = handed_in(earlier);
        match uses.last() {
            FrameUse::Take => {
                lemma_take_counts(before);
                if let Some(frame) = before.next_frame() {
                    vstd::seq_lib::to_multiset_build(out, frame);
                }
            },
            FrameUse::GiveBack(frame) => {
                vstd::seq_lib::to_multiset_build(before.free, frame);
                vstd::seq_lib::to_multiset_build(back, frame);
            },
        }
        let ends = used(frames, uses).at_hand().add(handed_out(frames, uses).to_multiset());
        let starts = frames.at_hand().add(handed_in(uses).to_multiset());
        assert forall|f: u64| ends.count(f) == starts.count(f) by {
            assert(before.at_hand().add(out.to_multiset()).count(f) == frames.at_hand().add(
                back.to_multiset(),
            ).count(f));
        }
        assert(ends =~= starts);
    } else {
        assert(handed_out(frames, uses).to_multiset() =~= handed_in(uses).to_multiset());
    }
    let left = used(frames, uses).at_hand();
    let out = handed_out(frames, uses).to_multiset();
    let back = handed_in(uses).to_multiset();
    if out == back {
        assert forall|frame: u64| left.count(frame) == frames.at_hand().count(frame) by {
            assert(left.add(out).count(frame) == frames.at_hand().add(back).count(frame));
        }
        assert(left =~= frames.at_hand());
    }
}

pub(crate) proof fn lemma_take_counts(frames: FrameModel)
    ensures
        match frames.next_frame() {
            Some(frame) => frames.at_hand() == frames.taken().at_hand().insert(frame),
            None => frames.taken().at_hand() == frames.at_hand(),
        },
{
    broadcast use vstd::multiset::group_multiset_axioms;

    if frames.free.len() > 0 {
        let less = frames.free.drop_last();
        vstd::seq_lib::to_multiset_build(less, frames.free.last());
        assert(less.push(frames.free.last()) =~= frames.free);
        assert(frames.at_hand() =~= frames.taken().at_hand().insert(frames.free.last()));
    } else if frames.fresh.len() > 0 {
        vstd::seq_lib::to_multiset_remove(frames.fresh, 0);
        vstd::seq_lib::to_multiset_contains(frames.fresh, frames.fresh[0]);
        assert(frames.fresh.contains(frames.fresh[0]));
        assert(frames.fresh.remove(0) =~= frames.fresh.drop_first());
        assert(frames.at_hand() =~= frames.taken().at_hand().insert(frames.fresh[0]));
    }
}

/// A frame that is given out is at hand no longer, so it is not given out again
/// before it is given back; and one that is given back can be given out again.
pub proof fn law_frames_are_not_shared(frames: FrameModel, frame: u64)
    requires
        frames.is_distinct(),
    ensures
        frames.taken().is_distinct(),
        frames.next_frame() matches Some(given) ==> frames.has(given) && !frames.taken().has(given),
        forall|other: u64|
            Some(other) != frames.next_frame() ==> (#[trigger] frames.taken().has(other)
                == frames.has(other)),
        !frames.has(frame) ==> frames.given_back(frame).is_distinct() && frames.given_back(
            frame,
        ).next_frame() == Some(frame),
        frames.given_back(frame).taken() == frames,
{
    let taken = frames.taken();
    if frames.free.len() > 0 {
        let last = frames.free.len() - 1;
        assert(frames.free.contains(frames.free[last]));
        assert forall|other: u64| #[trigger]
            taken.free.contains(other) == (frames.free.contains(other) && other
                != frames.free.last()) by {
            if frames.free.contains(other) && other != frames.free.last() {
                let i = choose|i: int| 0 <= i < frames.free.len() && frames.free[i] == other;
                assert(taken.free[i] == other);
            }
            if taken.free.contains(other) {
                let i = choose|i: int| 0 <= i < taken.free.len() && taken.free[i] == other;
                assert(frames.free[i] == other);
            }
        }
    } else if frames.fresh.len() > 0 {
        assert(frames.fresh.contains(frames.fresh[0]));
        assert forall|other: u64| #[trigger]
            taken.fresh.contains(other) == (frames.fresh.contains(other) && other
                != frames.fresh[0]) by {
            if frames.fresh.contains(other) && other != frames.fresh[0] {
                let i = choose|i: int| 0 <= i < frames.fresh.len() && frames.fresh[i] == other;
                assert(taken.fresh[i - 1] == other);
            }
            if taken.fresh.contains(other) {
                let i = choose|i: int| 0 <= i < taken.fresh.len() && taken.fresh[i] == other;
                assert(frames.fresh[i + 1] == other);
            }
        }
    }
    let back = frames.given_back(frame);
    assert(back.free.drop_last() =~= frames.free);
    if !frames.has(frame) {
        assert forall|other: u64| !(#[trigger] back.fresh.contains(other) && back.free.contains(
            other,
        )) by {
            if back.free.contains(other) && other != frame {
                let i = choose|i: int| 0 <= i < back.free.len() && back.free[i] == other;
                assert(frames.free[i] == other);
            }
        }
        assert forall|i: int, j: int|
            0 <= i < back.free.len() && 0 <= j < back.free.len() && i != j implies back.free[i]
            != back.free[j] by {
            if i == frames.free.len() {
                assert(frames.free.contains(frames.free[j]));
            } else if j == frames.free.len() {
                assert(frames.free.contains(frames.free[i]));
            }
        }
    }
}

impl BootInfoFrameAllocator {
    /// No more frames were given out than there are.
    pub open spec fn wf(&self) -> bool {
        &&& self.memory_map.wf()
        &&& self.next <= usable_frames(self.memory_map@).len()
    }

    /// Creates a frame allocator from the regions of a memory map. All the
    /// frames in usable regions have to be really unused.
    pub fn init(memory_map: MemoryMap) -> (frames: BootInfoFrameAllocator)
        requires
            memory_map.wf(),
        ensures
            frames.wf(),
            frames@ == (FrameModel { fresh: usable_frames(memory_map@), free: Seq::empty() }),
    {
        let frames = BootInfoFrameAllocator { memory_map, next: 0, free: Vec::new() };
        assert(usable_frames(memory_map@).skip(0) =~= usable_frames(memory_map@));
        frames
    }

    /// Frame number `n` of the usable frames.
    fn usable_frame(&self, n: u64) -> (frame: Option<u64>)
        requires
            self.wf(),
        ensures
            frame == (if n < usable_frames(self.memory_map@).len() {
                Some(usable_frames(self.memory_map@)[n as int])
            } else {
                None
            }),
    {
        let mut i: usize = 0;
        let mut left: u64 = n;
        let ghost all = usable_frames(self.memory_map@);
        assert(self.memory_map@.skip(0) =~= self.memory_map@);
        while i < self.memory_map.count
            invariant
                i <= self.memory_map@.len(),
                self.wf(),
                left <= n,
                all == usable_frames(self.memory_map@),
                all.len() == n - left + usable_frames(self.memory_map@.skip(i as int)).len(),
                n < all.len() ==> usable_frames(self.memory_map@.skip(i as int))[left as int]
                    == all[n as int],
            decreases self.memory_map@.len() - i,
        {
            let region = self.memory_map.regions[i];
            let ghost here = self.memory_map@.skip(i as int);
            assert(here[0] == region);
            assert(here.drop_first() =~= self.memory_map@.skip(i + 1));
            let count: u64 = if region.usable && region.start < region.end {
                (region.end - region.start - 1) / PAGE_SIZE + 1
            } else {
                0
            };
            assert(count == region.frame_count());
            if left < count {
                let frame: u64 = (region.start + PAGE_SIZE * left) / PAGE_SIZE * PAGE_SIZE;
                assert(usable_frames(here)[left as int] == region.frames()[left as int]);
                return Some(frame);
            }
            left = left - count;
            i = i + 1;
        }
        assert(usable_frames(self.memory_map@.skip(i as int)) =~= Seq::<u64>::empty());
        None
    }

    /// Gives out a frame, by its start address: the one that was given back
    /// last, else the next usable one of the memory map.
    pub fn allocate_frame(&mut self) -> (frame: Option<u64>)
        requires
            old(self).wf(),
        ensures
            final(self).wf(),
            final(self).memory_map == old(self).memory_map,
            frame == old(self)@.next_frame(),
            final(self)@ == old(self)@.taken(),
    {
        if let Some(frame) = self.free.pop() {
            assert(self@ =~= old(self)@.taken());
            return Some(frame);
        }
        let frame = self.usable_frame(self.next);
        proof {
            lemma_frame_count(self.memory_map@);
        }
        if frame.is_some() {
            self.next = self.next + 1;
        }
        assert(self@ =~= old(self)@.taken());
        frame
    }

    /// Takes a frame back.
    pub fn deallocate_frame(&mut self, frame: u64)
        requires
            old(self).wf(),
        ensures
            final(self).wf(),
            final(self).memory_map == old(self).memory_map,
            final(self)@ == old(self)@.given_back(frame),
    {
        self.free.push(frame);
        assert(self@ =~= old(self)@.given_back(frame));
    }
}

/// A frame allocator that never has a frame.
#[derive(Debug, Clone, Copy, PartialEq, Eq, Structural)]
pub struct EmptyFrameAllocator;

impl EmptyFrameAllocator {
    /// Always `None`.
    pub fn allocate_frame(&mut self) -> (frame: Option<u64>)
        ensures
            frame is None,
    {
        None
    }
}

/// What lies at a virtual address.
#[derive(Debug, Clone, Copy, PartialEq, Eq, Structural)]
pub enum Translation {
    /// It is mapped to this physical address.
    Mapped(u64),
    Unmapped,
    /// A huge page is in the way; those are not supported.
    Huge,
}

/// The slot of a virtual address in a page table of the given level (4 is the
/// top).
pub open spec fn table_index(addr: u64, level: nat) -> u64 {
    if level == 4 {
        addr / 0x80_0000_0000 % 512
    } else if level == 3 {
        addr / 0x4000_0000 % 512
    } else if level == 2 {
        addr / 0x20_0000 % 512
    } else {
        addr / 0x1000 % 512
    }
}

/// Where the entry of a virtual address lies in the table in `frame`.
pub open spec fn entry_place(frame: u64, addr: u64, level: nat) -> u64 {
    (frame + 8 * table_index(addr, level)) as u64
}

/// The frame that an entry names.
pub open spec fn entry_frame(entry: u64) -> u64 {
    entry & 0x000f_ffff_ffff_f000
}

/// The walk from the table of the given level in `frame` down to the page.
pub open spec fn walk(memory: Memory, frame: u64, addr: u64, level: nat) -> Translation
    decreases level,
{
    if level == 0 {
        Translation::Mapped((frame + addr % 4096) as u64)
    } else {
        let entry = memory(entry_place(frame, addr, level));
        if entry & 1 == 0 {
            Translation::Unmapped
        } else if entry & 0x80 != 0 {
            Translation::Huge
        } else {
            walk(memory, entry_frame(entry), addr, (level - 1) as nat)
        }
    }
}

/// A frame that an entry names is aligned and below 2^52.
pub proof fn lemma_entry_frame(entry: u64)
    ensures
        entry_frame(entry) % 4096 == 0,
        entry_frame(entry) < 0x10_0000_0000_0000,
{
    assert((entry & 0x000f_ffff_ffff_f000) % 4096 == 0 && (entry & 0x000f_ffff_ffff_f000)
        < 0x10_0000_0000_0000) by (bit_vector);
}

/// The slot of a virtual address in a page table of the given level.
pub fn index_in(addr: u64, level: u8) -> (index: u64)
    requires
        1 <= level <= 4,
    ensures
        index == table_index(addr, level as nat),
        index < 512,
{
    if level == 4 {
        addr / 0x80_0000_0000 % 512
    } else if level == 3 {
        addr / 0x4000_0000 % 512
    } else if level == 2 {
        addr / 0x20_0000 % 512
    } else {
        addr / 0x1000 % 512
    }
}

/// Translates a virtual address to the physical address it is mapped to,
/// through the level-4 table in the frame `level_4`.
pub fn translate_addr<F: Fn(u64) -> u64>(read: &F, level_4: u64, addr: u64) -> (result: Translation)
    requires
        reads_anywhere(*read),
        level_4 < 0x10_0000_0000_0000,
    ensures
        forall|memory: Memory| #[trigger]
            shows(*read, memory) ==> result == walk(memory, level_4, addr, 4),
{
    let mut frame: u64 = level_4;
    let mut level: u8 = 4;
    // traverse the multi-level page table
    while level > 0
        invariant
            level <= 4,
            frame < 0x10_0000_0000_0000,
            reads_anywhere(*read),
            forall|memory: Memory| #[trigger]
                shows(*read, memory) ==> walk(memory, level_4, addr, 4) == walk(
                    memory,
                    frame,
                    addr,
                    level as nat,
                ),
        decreases level,
    {
        // read the page table entry and update `frame`
        let entry: u64 = read(frame + 8 * index_in(addr, level));
        if entry & PRESENT == 0 {
            return Translation::Unmapped;
        }
        if entry & HUGE_PAGE != 0 {
            return Translation::Huge;
        }
        proof {
            lemma_entry_frame(entry);
        }
        frame = entry & ADDRESS_MASK;
        level = level - 1;
    }
    // calculate the physical address by adding the page offset
    Translation::Mapped(frame + addr % PAGE_SIZE)
}

/// A word of physical memory that is to be written.
#[derive(Debug, Clone, Copy, PartialEq, Eq, Structural)]
pub struct WordWrite {
    pub at: u64,
    pub value: u64,
}

/// The writes that mark the entries above a page: from the table of the given
/// level in `frame` down to level 2.
pub open spec fn parent_marks(memory: Memory, frame: u64, addr: u64, level: nat) -> Seq<WordWrite>
    decreases level,
{
    if level <= 1 {
        Seq::empty()
    } else {
        let at = entry_place(frame, addr, level);
        let entry = memory(at);
        seq![WordWrite { at, value: entry | 4 }] + parent_marks(
            memory,
            entry_frame(entry),
            addr,
            (level - 1) as nat,
        )
    }
}

/// The writes that OR `USER_ACCESSIBLE` into the P4/P3/P2 entries covering
/// `addr`.
///
/// Mapping a page applies its parent flags only to page tables that it
/// *creates*; entries that already existed (e.g. the bootloader's P4 entry for
/// the low half of the address space) keep their supervisor-only flags, and a
/// ring-3 walk faults at that level. These writes widen the existing entries.
/// Safe in practice because access is still gated by the leaf entries: kernel
/// pages under these tables remain supervisor-only.
///
/// Assumes 4 KiB mappings (no huge pages) at `addr`. The TLB has to be flushed
/// afterwards.
pub fn mark_parents_user_accessible<F: Fn(u64) -> u64>(read: &F, level_4: u64, addr: u64) -> (writes:
    [WordWrite; 3])
    requires
        reads_anywhere(*read),
        level_4 < 0x10_0000_0000_0000,
    ensures
        forall|memory: Memory| #[trigger]
            shows(*read, memory) ==> writes@ == parent_marks(memory, level_4, addr, 4),
{
    proof {
        reveal_with_fuel(parent_marks, 4);
    }
    let at_4: u64 = level_4 + 8 * index_in(addr, 4);
    let entry_4: u64 = read(at_4);
    let level_3: u64 = entry_4 & ADDRESS_MASK;
    proof {
        lemma_entry_frame(entry_4);
    }
    let at_3: u64 = level_3 + 8 * index_in(addr, 3);
    let entry_3: u64 = read(at_3);
    let level_2: u64 = entry_3 & ADDRESS_MASK;
    proof {
        lemma_entry_frame(entry_3);
    }
    let at_2: u64 = level_2 + 8 * index_in(addr, 2);
    let entry_2: u64 = read(at_2);
    let writes = [
        WordWrite { at: at_4, value: entry_4 | USER_ACCESSIBLE },
        WordWrite { at: at_3, value: entry_3 | USER_ACCESSIBLE },
        WordWrite { at: at_2, value: entry_2 | USER_ACCESSIBLE },
    ];
    proof {
        assert forall|memory: Memory| #[trigger] shows(*read, memory) implies writes@
            == parent_marks(memory, level_4, addr, 4) by {
            assert(writes@ =~= parent_marks(memory, level_4, addr, 4));
        }
    }
    writes
}

/// What memory holds once the writes are made, in their order.
pub open spec fn after_writes(memory: Memory, writes: Seq<WordWrite>) -> Memory
    decreases writes.len(),
{
    if writes.len() == 0 {
        memory
    } else {
        let earlier = after_writes(memory, writes.drop_last());
        |at: u64|
            if at == writes.last().at {
                writes.last().value
            } else {
                earlier(at)
            }
    }
}

/// Every entry above the page of `addr` lets user code through, from the table
/// of the given level in `frame` down to level 2.
pub open spec fn parents_are_open(memory: Memory, frame: u64, addr: u64, level: nat) -> bool
    decreases level,
{
    let entry = memory(entry_place(frame, addr, level));
    level <= 1 || (entry & 4 != 0 && parents_are_open(
        memory,
        entry_frame(entry),
        addr,
        (level - 1) as nat,
    ))
}

/// Once the marks are written, user code gets through every level above the
/// page of `addr`; and every address, this one among them, is mapped to what it
/// was mapped to before.
pub proof fn law_marking_opens_the_way(memory: Memory, level_4: u64, addr: u64, other: u64)
    ensures
        ({
            let marked = after_writes(memory, parent_marks(memory, level_4, addr, 4));
            &&& parents_are_open(marked, level_4, addr, 4)
            &&& walk(marked, level_4, other, 4) == walk(memory, level_4, other, 4)
        }),
{
    let writes = parent_marks(memory, level_4, addr, 4);
    let marked = after_writes(memory, writes);
    lemma_marks_are_marks(memory, level_4, addr, 4);
    lemma_writes_mark(memory, writes);
    lemma_open(memory, marked, level_4, addr, 4);
    lemma_same_walk(memory, marked, level_4, other, 4);
}

/// A marked entry names the same frame, and is as present and as huge as it was.
proof fn lemma_marked_entry(entry: u64)
    ensures
        entry_frame(entry | 4) == entry_frame(entry),
        (entry | 4) & 1 == entry & 1,
        (entry | 4) & 0x80 == entry & 0x80,
        (entry | 4) & 4 != 0,
{
    assert((entry | 4) & 0x000f_ffff_ffff_f000 == entry & 0x000f_ffff_ffff_f000 && (entry | 4) & 1
        == entry & 1 && (entry | 4) & 0x80 == entry & 0x80 && (entry | 4) & 4 != 0)
        by (bit_vector);
}

/// Each of the writes marks the word that is there.
spec fn all_mark(memory: Memory, writes: Seq<WordWrite>) -> bool {
    forall|i: int|
        0 <= i < writes.len() ==> (#[trigger] writes[i]).value == memory(writes[i].at) | 4
}

proof fn lemma_marks_are_marks(memory: Memory, frame: u64, addr: u64, level: nat)
    ensures
        all_mark(memory, parent_marks(memory, frame, addr, level)),
    decreases level,
{
    if level > 1 {
        let entry = memory(entry_place(frame, addr, level));
        lemma_marks_are_marks(memory, entry_frame(entry), addr, (level - 1) as nat);
    }
}

proof fn lemma_writes_mark(memory: Memory, writes: Seq<WordWrite>)
    requires
        all_mark(memory, writes),
    ensures
        forall|at: u64|
            #[trigger] after_writes(memory, writes)(at) == memory(at) || after_writes(
                memory,
                writes,
            )(at) == memory(at) | 4,
        forall|i: int|
            0 <= i < writes.len() ==> after_writes(memory, writes)((#[trigger] writes[i]).at)
                == memory(writes[i].at) | 4,
    decreases writes.len(),
{
    if writes.len() > 0 {
        let earlier = writes.drop_last();
        assert(all_mark(memory, earlier)) by {
            assert forall|i: int| 0 <= i < earlier.len() implies (#[trigger] earlier[i]).value
                == memory(earlier[i].at) | 4 by {
                assert(earlier[i] == writes[i]);
            }
        }
        lemma_writes_mark(memory, earlier);
        let last = writes[writes.len() - 1];
        assert(last.value == memory(last.at) | 4);
        assert forall|at: u64| #[trigger]
            after_writes(memory, writes)(at) == memory(at) || after_writes(memory, writes)(at)
                == memory(at) | 4 by {
            let before = after_writes(memory, earlier)(at);
            assert(before == memory(at) || before == memory(at) | 4);
        }
        assert forall|i: int| 0 <= i < writes.len() implies after_writes(memory, writes)(
            (#[trigger] writes[i]).at,
        ) == memory(writes[i].at) | 4 by {
            if i < earlier.len() {
                assert(earlier[i] == writes[i]);
            }
        }
    }
}

proof fn lemma_open(
    memory: Memory,
    marked: Memory,
    frame: u64,
    addr: u64,
    level: nat,
)
    requires
        forall|i: int|
            0 <= i < parent_marks(memory, frame, addr, level).len() ==> marked(
                (#[trigger] parent_marks(memory, frame, addr, level)[i]).at,
            ) == memory(parent_marks(memory, frame, addr, level)[i].at) | 4,
    ensures
        parents_are_open(marked, frame, addr, level),
    decreases level,
{
    if level > 1 {
        let marks = parent_marks(memory, frame, addr, level);
        let at = entry_place(frame, addr, level);
        let entry = memory(at);
        let below = parent_marks(memory, entry_frame(entry), addr, (level - 1) as nat);
        assert(marks[0].at == at);
        lemma_marked_entry(entry);
        assert forall|i: int| 0 <= i < below.len() implies marked((#[trigger] below[i]).at)
            == memory(below[i].at) | 4 by {
            assert(marks[i + 1] == below[i]);
        }
        lemma_open(memory, marked, entry_frame(entry), addr, (level - 1) as nat);
    }
}

proof fn lemma_same_walk(memory: Memory, marked: Memory, frame: u64, addr: u64, level: nat)
    requires
        forall|at: u64| #[trigger] marked(at) == memory(at) || marked(at) == memory(at) | 4,
    ensures
        walk(marked, frame, addr, level) == walk(memory, frame, addr, level),
    decreases level,
{
    if level > 0 {
        let at = entry_place(frame, addr, level);
        let entry = memory(at);
        lemma_marked_entry(entry);
        assert(marked(at) == entry || marked(at) == entry | 4);
        lemma_same_walk(memory, marked, entry_frame(entry), addr, (level - 1) as nat);
    }
}

/// A mapping of one page.
#[derive(Debug, Clone, Copy, PartialEq, Eq, Structural)]
pub struct Mapping {
    pub page: u64,
    pub frame: u64,
    pub flags: u64,
}

/// The example mapping of a page: to the frame of the VGA text buffer,
/// `0xb8000`, present and writable.
pub fn create_example_mapping(page: u64) -> (mapping: Mapping)
    ensures
        mapping == (Mapping { page, frame: 0xb8000, flags: 3 }),
{
    proof {
        assert(1u64 | 2u64 == 3u64) by (bit_vector);
    }
    Mapping { page, frame: 0xb8000, flags: PRESENT | WRITABLE }
}

/// A virtual address is taken apart into four slots of nine bits each and an offset
/// of twelve: together they are its lowest 48 bits, the slot in the top table
/// first.
pub proof fn law_addresses_are_taken_apart(addr: u64)
    ensures
        addr % 0x1_0000_0000_0000 == 0x80_0000_0000 * table_index(addr, 4) + 0x4000_0000
            * table_index(addr, 3) + 0x20_0000 * table_index(addr, 2) + 0x1000 * table_index(addr, 1)
            + addr % 0x1000,
        table_index(addr, 4) < 512,
        table_index(addr, 3) < 512,
        table_index(addr, 2) < 512,
        table_index(addr, 1) < 512,
{
    assert(addr % 0x1_0000_0000_0000 == 0x80_0000_0000 * (addr / 0x80_0000_0000 % 512) + 0x4000_0000
        * (addr / 0x4000_0000 % 512) + 0x20_0000 * (addr / 0x20_0000 % 512) + 0x1000 * (addr / 0x1000
        % 512) + addr % 0x1000 && addr / 0x80_0000_0000 % 512 < 512) by (bit_vector);
}

/// An entry names the frame that its bits 12 to 51 number.
pub proof fn law_entries_name_frames(entry: u64)
    ensures
        entry_frame(entry) == 4096 * (entry / 4096 % 0x100_0000_0000),
{
    assert((entry & 0x000f_ffff_ffff_f000) == 4096 * (entry / 4096 % 0x100_0000_0000))
        by (bit_vector);
}

/// How an address is translated, one table after the other: the entry in its slot,
/// eight bytes to an entry, leads on if its lowest bit is set, unless bit 7 makes
/// it a huge page; below the last table lies the frame of the page, and the offset
/// is the same in both.
pub proof fn law_translation_follows_the_tables(memory: Memory, frame: u64, addr: u64, level: nat)
    requires
        1 <= level <= 4,
        frame < 0x10_0000_0000_0000,
    ensures
        ({
            let entry = memory((frame + 8 * table_index(addr, level)) as u64);
            let next = (4096 * (entry / 4096 % 0x100_0000_0000)) as u64;
            &&& entry % 2 == 0 ==> walk(memory, frame, addr, level) == Translation::Unmapped
            &&& entry % 2 == 1 && entry / 128 % 2 == 1 ==> walk(memory, frame, addr, level)
                == Translation::Huge
            &&& entry % 2 == 1 && entry / 128 % 2 == 0 ==> walk(memory, frame, addr, level) == (
            if level == 1 {
                Translation::Mapped((next + addr % 4096) as u64)
            } else {
                walk(memory, next, addr, (level - 1) as nat)
            })
        }),
{
    let entry = memory(entry_place(frame, addr, level));
    reveal_with_fuel(walk, 2);
    law_entries_name_frames(entry);
    assert((entry & 1 == 0 <==> entry % 2 == 0) && (entry & 0x80 != 0 <==> entry / 128 % 2 == 1))
        by (bit_vector);
}

/// A page is mapped as a whole: two addresses in it are mapped, or not, alike, and
/// as far apart as they are.
pub proof fn law_pages_are_mapped_as_a_whole(
    memory: Memory,
    frame: u64,
    a: u64,
    b: u64,
    level: nat,
)
    requires
        level <= 4,
        frame < 0x10_0000_0000_0000,
        a / 4096 == b / 4096,
    ensures
        match walk(memory, frame, a, level) {
            Translation::Mapped(place) => walk(memory, frame, b, level) matches Translation::Mapped(
                other,
            ) && place - other == a - b,
            other => walk(memory, frame, b, level) == other,
        },
    decreases level,
{
    if level > 0 {
        assert(table_index(a, level) == table_index(b, level)) by {
            assert(a / 4096 == b / 4096);
            assert(a / 0x20_0000 == b / 0x20_0000);
            assert(a / 0x4000_0000 == b / 0x4000_0000);
            assert(a / 0x80_0000_0000 == b / 0x80_0000_0000);
        }
        let entry = memory(entry_place(frame, a, level));
        lemma_entry_frame(entry);
        law_pages_are_mapped_as_a_whole(
            memory,
            entry_frame(entry),
            a,
            b,
            (level - 1) as nat,
        );
    }
}

/// The frames that are given out are those of usable memory: every one that lies in
/// a usable region, and no other.
pub proof fn law_usable_memory_is_given_out(regions: Seq<Region>, frame: u64)
    requires
        are_apart(regions),
        is_memory_map(regions),
    ensures
        usable_frames(regions).contains(frame) <==> frame % 4096 == 0 && exists|i: int|
            0 <= i < regions.len() && (#[trigger] regions[i]).usable && regions[i].start <= frame
                && frame < regions[i].end,
{
    let all = usable_frames(regions);
    if all.contains(frame) {
        let n = choose|n: int| 0 <= n < all.len() && all[n] == frame;
        let k = lemma_frame_in_region(regions, n);
        assert(regions[k].usable);
    }
    if frame % 4096 == 0 && exists|i: int|
        0 <= i < regions.len() && (#[trigger] regions[i]).usable && regions[i].start <= frame
            && frame < regions[i].end {
        let i = choose|i: int|
            0 <= i < regions.len() && (#[trigger] regions[i]).usable && regions[i].start <= frame
                && frame < regions[i].end;
        lemma_region_is_given_out(regions, i, frame);
    }
}

proof fn lemma_region_is_given_out(regions: Seq<Region>, i: int, frame: u64)
    requires
        are_apart(regions),
        is_memory_map(regions),
        0 <= i < regions.len(),
        regions[i].usable,
        regions[i].start <= frame < regions[i].end,
        frame % 4096 == 0,
    ensures
        usable_frames(regions).contains(frame),
    decreases regions.len(),
{
    let here = regions[0].frames();
    let rest = regions.drop_first();
    let all = usable_frames(regions);
    if i == 0 {
        let region = regions[0];
        assert(region.start % 4096 == 0);
        let k = (frame - region.start) / 4096;
        assert(region.start + 4096 * k == frame);
        assert(0 <= k < here.len());
        assert(all[k] == here[k]);
        assert(here[k] == frame);
    } else {
        assert forall|j: int| 0 <= j < rest.len() && (#[trigger] rest[j]).usable implies
            rest[j].start % 4096 == 0 && rest[j].end % 4096 == 0 by {
            assert(rest[j] == regions[j + 1]);
        }
        assert forall|j: int, k: int|
            0 <= j < k < rest.len() && (#[trigger] rest[j]).usable && (
            #[trigger] rest[k]).usable implies rest[j].end <= rest[k].start || rest[k].end
            <= rest[j].start by {
            assert(rest[j] == regions[j + 1] && rest[k] == regions[k + 1]);
        }
        assert forall|j: int| 0 <= j < rest.len() implies (#[trigger] rest[j]).end
            <= 0x10_0000_0000_0000 by {
            assert(rest[j] == regions[j + 1]);
        }
        assert(rest[i - 1] == regions[i]);
        lemma_region_is_given_out(rest, i - 1, frame);
        let there = usable_frames(rest);
        let n = choose|n: int| 0 <= n < there.len() && there[n] == frame;
        assert(all[here.len() + n] == frame);
    }
}

/// A mark sets bit 2 of an entry, and leaves every other bit as it is.
pub proof fn law_marks_set_one_bit(memory: Memory, level_4: u64, addr: u64)
    ensures
        ({
            let writes = parent_marks(memory, level_4, addr, 4);
            &&& writes.len() == 3
            &&& writes[0].at == entry_place(level_4, addr, 4)
            &&& forall|i: int|
                0 <= i < 3 ==> {
                    let before = memory((#[trigger] writes[i]).at);
                    writes[i].value == (if before / 4 % 2 == 1 {
                        before as int
                    } else {
                        before + 4
                    })
                }
        }),
{
    reveal_with_fuel(parent_marks, 4);
    let writes = parent_marks(memory, level_4, addr, 4);
    lemma_marks_are_marks(memory, level_4, addr, 4);
    assert forall|i: int| 0 <= i < 3 implies {
        let before = memory((#[trigger] writes[i]).at);
        writes[i].value == (if before / 4 % 2 == 1 {
            before as int
        } else {
            before + 4
        })
    } by {
        let before = memory(writes[i].at);
        assert(before | 4 == (if before / 4 % 2 == 1 {
            before as int
        } else {
            before + 4
        })) by (bit_vector);
    }
}

/// The frames of a usable region: one for every 4096 bytes of it from its start on,
/// each the frame that such a byte lies in, as long as one lies in the region. A
/// region that is not usable has none.
pub proof fn law_regions_are_cut_into_frames(region: Region, i: int)
    requires
        region.end <= 0x10_0000_0000_0000,
        0 <= i,
    ensures
        i < region.frames().len() <==> region.usable && region.start + 4096 * i < region.end,
        i < region.frames().len() ==> {
            let frame = region.frames()[i];
            frame % 4096 == 0 && frame <= region.start + 4096 * i < frame + 4096
        },
{
}

/// The memory map is used region by region, in its order.
pub proof fn law_regions_are_used_in_order(a: Seq<Region>, b: Seq<Region>)
    ensures
        usable_frames(a + b) == usable_frames(a) + usable_frames(b),
        a.len() == 1 ==> usable_frames(a) == a[0].frames(),
    decreases a.len(),
{
    if a.len() == 0 {
        assert(a + b =~= b);
        assert(usable_frames(a) + usable_frames(b) =~= usable_frames(b));
    } else {
        let rest = a.drop_first();
        law_regions_are_used_in_order(rest, b);
        assert((a + b).drop_first() =~= rest + b);
        assert(usable_frames(a + b) =~= usable_frames(a) + usable_frames(b));
        if a.len() == 1 {
            assert(usable_frames(rest) =~= Seq::<u64>::empty());
            assert(usable_frames(a) =~= a[0].frames());
        }
    }
}

/// What was given back last is given out first; after all that, what was never given
/// out comes in the order of the memory map; and only then is there nothing.
pub proof fn law_frames_are_reused_first(frames: FrameModel, frame: u64)
    ensures
        frames.given_back(frame).next_frame() == Some(frame),
        frames.given_back(frame).taken() == frames,
        frames.free.len() == 0 && frames.fresh.len() > 0 ==> frames.next_frame() == Some(
            frames.fresh[0],
        ) && frames.taken().fresh == frames.fresh.drop_first() && frames.taken().free.len() == 0,
        frames.next_frame() is None <==> frames.free.len() == 0 && frames.fresh.len() == 0,
{
    assert(frames.given_back(frame).free.drop_last() =~= frames.free);
}

} // verus!
