//! Processes: real ELF binaries loaded from disk into their own address
//! spaces.
//!
//! A process gets a fresh level-4 page table. The kernel's entries are copied
//! into it, so the kernel stays mapped at the same addresses no matter which
//! address space is active: an interrupt arriving while user code runs must
//! find the IDT, the handler, and a kernel stack exactly where it expects them.
//! One P4 slot ([`USER_P4_INDEX`]) is reserved for the process's private
//! mappings, and *only* that subtree is ever created or freed. Two processes
//! therefore cannot see each other's memory, and no process can touch the
//! kernel's (kernel pages lack `USER_ACCESSIBLE`).
//!
//! ## Scope
//!
//! Execution is synchronous: [`exec`] loads, runs, and tears down a process
//! before its exit code is known, and only one may run at a time.

use vstd::prelude::*;

use crate::elf::{ElfError, Image};
use crate::fat::FsError;
use crate::memory::PAGE_SIZE;

pub mod exec;
pub mod growth;
pub mod load;
pub mod machine;
pub mod outcome;
pub mod space;
pub mod table;

pub use crate::process::exec::{exec, Exec};
pub use crate::process::table::{snapshot, Entry, ProcessTable, State};

verus! {

/// Page-table slot reserved for user mappings. Probed to be unused by the
/// kernel: the bootloader and kernel occupy slots 0, 2-5, 31 and the heap's.
pub const USER_P4_INDEX: usize = 64;

/// Start of the per-process region: one 512 GiB P4 slot.
pub const USER_REGION_START: u64 = 0x2000_0000_0000;

/// End of the per-process region.
pub const USER_REGION_END: u64 = 0x2080_0000_0000;

/// Top of the user stack (it grows down from here), 2 MiB into the region so
/// that program segments loaded near the bottom cannot reach it.
pub const USER_STACK_TOP: u64 = 0x2000_0020_0000;

/// Pages of the user stack.
pub const USER_STACK_PAGES: u64 = 4;

/// Lowest address of the user stack.
pub const USER_STACK_BOTTOM: u64 = 0x2000_001F_C000;

/// Cap on how much memory one program may map, so a crafted `p_memsz` cannot
/// exhaust every frame in the system.
pub const MAX_IMAGE_PAGES: u64 = 256;  // 1 MiB

/// Rows of the process table.
pub const MAX_PROCESSES: usize = 8;

/// Why a program could not be run.
#[derive(Debug, Clone, Copy, PartialEq, Eq, Structural)]
pub enum ProcError {
    /// A user program is already running (one at a time).
    Busy,
    Fs(FsError),
    Elf(ElfError),
    /// Out of physical frames.
    OutOfMemory,
    /// A segment asked to be mapped outside the user region: the check that
    /// stops a crafted ELF from being loaded over the kernel.
    SegmentOutOfRange,
    /// A segment would collide with the user stack.
    SegmentOverlapsStack,
    /// The image wants more memory than [`MAX_IMAGE_PAGES`].
    ImageTooLarge,
    /// The entry point is not inside a loaded segment.
    BadEntryPoint,
}

/// The user region is the P4 slot reserved for it, and the stack lies in it,
/// the top 2 MiB above its start.
pub proof fn law_user_region_is_one_slot(addr: u64)
    ensures
        USER_REGION_START == USER_P4_INDEX * 0x80_0000_0000,
        USER_REGION_END == USER_REGION_START + 0x80_0000_0000,
        USER_REGION_START <= addr < USER_REGION_END ==> crate::memory::table_index(addr, 4)
            == USER_P4_INDEX,
        USER_STACK_BOTTOM == USER_STACK_TOP - USER_STACK_PAGES * PAGE_SIZE,
        USER_STACK_TOP == USER_REGION_START + 0x20_0000,
        USER_REGION_START < USER_STACK_BOTTOM,
{
}

/// The first page that `size` bytes at `start` touch.
pub open spec fn first_page(start: u64) -> int {
    start as int / 4096 * 4096
}

/// How many pages `size` bytes at `start` touch.
pub open spec fn page_count(start: u64, size: u64) -> int {
    (start + size - 1) / 4096 - start as int / 4096 + 1
}

/// The pages that `size` bytes at `start` touch: the first, and how many.
pub fn page_range(start: u64, size: u64) -> (range: (u64, u64))
    requires
        0 < size,
        start + size - 1 <= u64::MAX,
    ensures
        range.0 == first_page(start),
        range.1 == page_count(start, size),
{
    let first: u64 = start / PAGE_SIZE * PAGE_SIZE;
    let last_byte: u64 = start + (size - 1);
    let last: u64 = last_byte / PAGE_SIZE * PAGE_SIZE;
    (first, (last - first) / PAGE_SIZE + 1)
}

/// The segment lies inside the user region.
pub open spec fn in_user_region(segment: crate::elf::Segment) -> bool {
    USER_REGION_START <= segment.vaddr && segment.vaddr + segment.mem_size <= USER_REGION_END
}

/// The segment and the user stack have memory in common.
pub open spec fn overlaps_stack(segment: crate::elf::Segment) -> bool {
    segment.vaddr < USER_STACK_TOP && segment.vaddr + segment.mem_size > USER_STACK_BOTTOM
}

/// The pages that segments touch, each segment counted by itself.
pub open spec fn total_pages(segments: Seq<crate::elf::Segment>) -> int
    decreases segments.len(),
{
    if segments.len() == 0 {
        0
    } else {
        total_pages(segments.drop_last()) + page_count(
            segments.last().vaddr,
            segments.last().mem_size,
        )
    }
}

/// What is wrong with segment `i`, if the ones before it are in order.
pub open spec fn segment_fault(segments: Seq<crate::elf::Segment>, i: int) -> Option<ProcError> {
    if !in_user_region(segments[i]) {
        Some(ProcError::SegmentOutOfRange)
    } else if overlaps_stack(segments[i]) {
        Some(ProcError::SegmentOverlapsStack)
    } else if total_pages(segments.take(i + 1)) > MAX_IMAGE_PAGES {
        Some(ProcError::ImageTooLarge)
    } else {
        None
    }
}

/// What is wrong with the first segment, from number `i` on, that is not in
/// order.
pub open spec fn first_fault(segments: Seq<crate::elf::Segment>, i: int) -> Option<ProcError>
    decreases segments.len() - i,
{
    if i < 0 || i >= segments.len() {
        None
    } else {
        match segment_fault(segments, i) {
            Some(error) => Some(error),
            None => first_fault(segments, i + 1),
        }
    }
}

/// The address lies in the memory of an executable segment.
pub open spec fn in_code(segments: Seq<crate::elf::Segment>, addr: u64) -> bool {
    exists|i: int|
        0 <= i < segments.len() && (#[trigger] segments[i]).executable && segments[i].vaddr <= addr
            < segments[i].vaddr + segments[i].mem_size
}

/// What is wrong with an image: the fault of its first bad segment, else an
/// entry point outside the code.
pub open spec fn fault(image: crate::elf::ImageModel) -> Option<ProcError> {
    match first_fault(image.segments, 0) {
        Some(error) => Some(error),
        None => if in_code(image.segments, image.entry) {
            None
        } else {
            Some(ProcError::BadEntryPoint)
        },
    }
}

proof fn lemma_no_fault(segments: Seq<crate::elf::Segment>, i: int, j: int)
    requires
        first_fault(segments, i) is None,
        0 <= i <= j < segments.len(),
    ensures
        segment_fault(segments, j) is None,
    decreases segments.len() - i,
{
    if i < j {
        lemma_no_fault(segments, i + 1, j);
    }
}

/// An image without fault is harmless: every segment lies inside the user
/// region and clear of the stack, together they are bounded in size, and the
/// program starts inside its own code.
pub proof fn law_faultless_images_are_confined(image: crate::elf::ImageModel)
    requires
        fault(image) is None,
    ensures
        forall|i: int|
            0 <= i < image.segments.len() ==> in_user_region(#[trigger] image.segments[i])
                && !overlaps_stack(image.segments[i]),
        image.segments.len() > 0 ==> total_pages(image.segments) <= MAX_IMAGE_PAGES,
        in_code(image.segments, image.entry),
        USER_REGION_START <= image.entry < USER_REGION_END,
{
    let segments = image.segments;
    assert forall|i: int| 0 <= i < segments.len() implies in_user_region(#[trigger] segments[i])
        && !overlaps_stack(segments[i]) by {
        lemma_no_fault(segments, 0, i);
    }
    if segments.len() > 0 {
        lemma_no_fault(segments, 0, segments.len() - 1);
        assert(segments.take(segments.len() as int) =~= segments);
    }
}

/// Checks every segment before a single frame is allocated: inside the user
/// region, clear of the stack, and collectively bounded in size.
pub fn validate(image: &Image) -> (result: Result<(), ProcError>)
    requires
        image.wf(),
    ensures
        match fault(image@) {
            Some(error) => result == Err::<(), ProcError>(error),
            None => result == Ok::<(), ProcError>(()),
        },
{
    let segments = image.segments();
    let mut total: u64 = 0;
    let mut i: usize = 0;
    assert(segments@.take(0) =~= Seq::<crate::elf::Segment>::empty());
    while i < segments.len()
        invariant
            i <= segments@.len(),
            image.wf(),
            segments@ == image@.segments,
            first_fault(segments@, 0) == first_fault(segments@, i as int),
            total == total_pages(segments@.take(i as int)),
            total <= MAX_IMAGE_PAGES,
        decreases segments@.len() - i,
    {
        let segment = segments[i];
        assert(image@.segments[i as int].wf());
        if segment.vaddr < USER_REGION_START || segment.mem_end() > USER_REGION_END {
            return Err(ProcError::SegmentOutOfRange);
        }
        if segment.vaddr < USER_STACK_TOP && segment.mem_end() > USER_STACK_BOTTOM {
            return Err(ProcError::SegmentOverlapsStack);
        }
        let (_, pages): (u64, u64) = page_range(segment.vaddr, segment.mem_size);
        let ghost here = segments@.take(i + 1);
        assert(here.drop_last() =~= segments@.take(i as int));
        assert(here.last() == segment);
        total = total + pages;
        if total > MAX_IMAGE_PAGES {
            return Err(ProcError::ImageTooLarge);
        }
        i = i + 1;
    }
    let mut j: usize = 0;
    while j < segments.len()
        invariant
            j <= segments@.len(),
            image.wf(),
            segments@ == image@.segments,
            first_fault(segments@, 0) is None,
            forall|k: int|
                0 <= k < j ==> !((#[trigger] segments@[k]).executable && segments@[k].vaddr
                    <= image.entry < segments@[k].vaddr + segments@[k].mem_size),
        decreases segments@.len() - j,
    {
        let segment = segments[j];
        assert(image@.segments[j as int].wf());
        if image.entry >= segment.vaddr && image.entry < segment.mem_end() && segment.executable {
            return Ok(());
        }
        j = j + 1;
    }
    Err(ProcError::BadEntryPoint)
}

/// The pages that bytes touch: they begin at a page boundary, the first of them
/// holds the first byte and the last of them the last byte.
pub proof fn law_pages_hold_what_touches_them(start: u64, size: u64)
    requires
        0 < size,
        start + size - 1 <= u64::MAX,
    ensures
        ({
            let first = first_page(start);
            let last = first + 4096 * (page_count(start, size) - 1);
            &&& first % 4096 == 0
            &&& first <= start < first + 4096
            &&& last <= start + size - 1 < last + 4096
            &&& page_count(start, size) >= 1
        }),
{
}

/// Pages that a segment touches: from the one that its first byte lies in to the
/// one that its last byte lies in.
pub open spec fn pages_touched(segment: crate::elf::Segment) -> int {
    (segment.vaddr + segment.mem_size + 4095) / 4096 - segment.vaddr as int / 4096
}

/// Pages that segments touch, each counted by itself.
pub open spec fn pages_in_all(segments: Seq<crate::elf::Segment>) -> int {
    segments.fold_left(0int, |sum: int, segment: crate::elf::Segment| sum + pages_touched(segment))
}

/// The segment lies in the user region, and clear of the stack's four pages below
/// 2 MiB into it.
pub open spec fn is_placed_well(segment: crate::elf::Segment) -> bool {
    let end = segment.vaddr + segment.mem_size;
    &&& 0x2000_0000_0000 <= segment.vaddr && end <= 0x2080_0000_0000
    &&& end <= 0x2000_001F_C000 || 0x2000_0020_0000 <= segment.vaddr
}

/// The address lies in a segment that may be executed.
pub open spec fn is_code(segments: Seq<crate::elf::Segment>, addr: u64) -> bool {
    exists|i: int|
        0 <= i < segments.len() && (#[trigger] segments[i]).executable && segments[i].vaddr <= addr
            && addr < segments[i].vaddr + segments[i].mem_size
}

/// Each segment takes up memory.
pub open spec fn all_take_memory(segments: Seq<crate::elf::Segment>) -> bool {
    forall|i: int| 0 <= i < segments.len() ==> (#[trigger] segments[i]).mem_size > 0
}

proof fn lemma_total(segments: Seq<crate::elf::Segment>)
    requires
        all_take_memory(segments),
    ensures
        total_pages(segments) == pages_in_all(segments),
        0 <= pages_in_all(segments),
    decreases segments.len(),
{
    let step = |sum: int, segment: crate::elf::Segment| sum + pages_touched(segment);
    if segments.len() > 0 {
        let front = segments.drop_last();
        assert forall|i: int| 0 <= i < front.len() implies (#[trigger] front[i]).mem_size > 0 by {
            assert(front[i] == segments[i]);
        }
        lemma_total(front);
        assert(segments[segments.len() - 1].mem_size > 0);
        assert(segments.fold_left(0int, step) == step(
            front.fold_left(0int, step),
            segments.last(),
        ));
    }
}

proof fn lemma_total_grows(segments: Seq<crate::elf::Segment>, i: int)
    requires
        all_take_memory(segments),
        0 <= i <= segments.len(),
    ensures
        total_pages(segments.take(i)) <= total_pages(segments),
    decreases segments.len() - i,
{
    if i < segments.len() {
        lemma_total_grows(segments, i + 1);
        let more = segments.take(i + 1);
        assert(more.drop_last() =~= segments.take(i));
        assert(more.last() == segments[i]);
        assert(segments[i].mem_size > 0);
    } else {
        assert(segments.take(i) =~= segments);
    }
}

/// Which images may be run: those whose segments all lie in the user region, clear
/// of the stack, and touch no more than 256 pages together, and whose entry point
/// lies in a segment that may be executed. All of these, and no others.
pub proof fn law_sound_images_may_run(image: crate::elf::ImageModel)
    requires
        all_take_memory(image.segments),
    ensures
        fault(image) is None <==> {
            &&& forall|i: int|
                0 <= i < image.segments.len() ==> is_placed_well(#[trigger] image.segments[i])
            &&& pages_in_all(image.segments) <= 256
            &&& is_code(image.segments, image.entry)
        },
{
    let segments = image.segments;
    lemma_total(segments);
    if fault(image) is None {
        law_faultless_images_are_confined(image);
        assert forall|i: int| 0 <= i < segments.len() implies is_placed_well(
            #[trigger] segments[i],
        ) by {
            assert(in_user_region(segments[i]) && !overlaps_stack(segments[i]));
        }
        let i = choose|i: int|
            0 <= i < segments.len() && (#[trigger] segments[i]).executable && segments[i].vaddr
                <= image.entry < segments[i].vaddr + segments[i].mem_size;
        assert(segments[i].executable);
    }
    if (forall|i: int| 0 <= i < segments.len() ==> is_placed_well(#[trigger] segments[i]))
        && pages_in_all(segments) <= 256 && is_code(segments, image.entry) {
        assert forall|i: int| 0 <= i < segments.len() implies #[trigger] segment_fault(
            segments,
            i,
        ) is None by {
            assert(is_placed_well(segments[i]));
            lemma_total_grows(segments, i + 1);
        }
        lemma_none_at_fault(segments, 0);
        let i = choose|i: int|
            0 <= i < segments.len() && (#[trigger] segments[i]).executable && segments[i].vaddr
                <= image.entry && image.entry < segments[i].vaddr + segments[i].mem_size;
        assert(segments[i].executable);
    }
}

proof fn lemma_none_at_fault(segments: Seq<crate::elf::Segment>, i: int)
    requires
        0 <= i,
        forall|k: int|
            0 <= k < segments.len() ==> #[trigger] segment_fault(segments, k) is None,
    ensures
        first_fault(segments, i) is None,
    decreases segments.len() - i,
{
    if i < segments.len() {
        assert(segment_fault(segments, i) is None);
        lemma_none_at_fault(segments, i + 1);
    }
}

/// Why an image may not run: the first segment that is out of place decides, or
/// the first one that makes the image too large; the entry point counts only where
/// no segment is at fault.
pub proof fn law_the_first_fault_counts(image: crate::elf::ImageModel, i: int)
    requires
        all_take_memory(image.segments),
        0 <= i < image.segments.len(),
        forall|k: int| 0 <= k < i ==> is_placed_well(#[trigger] image.segments[k]),
        pages_in_all(image.segments.take(i)) <= 256,
    ensures
        ({
            let segment = image.segments[i];
            let end = segment.vaddr + segment.mem_size;
            let outside = segment.vaddr < 0x2000_0000_0000 || end > 0x2080_0000_0000;
            &&& outside ==> fault(image) == Some(ProcError::SegmentOutOfRange)
            &&& !outside && segment.vaddr < 0x2000_0020_0000 && end > 0x2000_001F_C000 ==> fault(
                image,
            ) == Some(ProcError::SegmentOverlapsStack)
            &&& is_placed_well(segment) && pages_in_all(image.segments.take(i + 1)) > 256 ==> fault(
                image,
            ) == Some(ProcError::ImageTooLarge)
            &&& is_placed_well(segment) && pages_in_all(image.segments.take(i + 1)) <= 256 && i + 1
                == image.segments.len() && !is_code(image.segments, image.entry) ==> fault(image)
                == Some(ProcError::BadEntryPoint)
        }),
{
    let segments = image.segments;
    lemma_takes_memory(segments, i);
    lemma_takes_memory(segments, i + 1);
    lemma_total(segments.take(i));
    lemma_total(segments.take(i + 1));
    assert forall|k: int| 0 <= k < i implies #[trigger] segment_fault(segments, k) is None by {
        assert(is_placed_well(segments[k]));
        let front = segments.take(i);
        lemma_total_grows(front, k + 1);
        assert(front.take(k + 1) =~= segments.take(k + 1));
    }
    lemma_fault_at(segments, 0, i);
    if in_code(segments, image.entry) {
        let k = choose|k: int|
            0 <= k < segments.len() && (#[trigger] segments[k]).executable && segments[k].vaddr
                <= image.entry < segments[k].vaddr + segments[k].mem_size;
        assert(segments[k].executable);
        assert(is_code(segments, image.entry));
    }
}

proof fn lemma_takes_memory(segments: Seq<crate::elf::Segment>, i: int)
    requires
        all_take_memory(segments),
        0 <= i <= segments.len(),
    ensures
        all_take_memory(segments.take(i)),
{
    let front = segments.take(i);
    assert forall|k: int| 0 <= k < front.len() implies (#[trigger] front[k]).mem_size > 0 by {
        assert(front[k] == segments[k]);
    }
}

proof fn lemma_fault_at(segments: Seq<crate::elf::Segment>, i: int, j: int)
    requires
        0 <= i <= j < segments.len(),
        forall|k: int| i <= k < j ==> #[trigger] segment_fault(segments, k) is None,
    ensures
        first_fault(segments, i) == (match segment_fault(segments, j) {
            Some(error) => Some(error),
            None => first_fault(segments, j + 1),
        }),
    decreases j - i,
{
    if i < j {
        assert(segment_fault(segments, i) is None);
        lemma_fault_at(segments, i + 1, j);
    }
}

} // verus!
