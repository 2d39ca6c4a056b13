//! What running a program comes to: which pages it is given, what is copied to
//! them, and how it ends.

use vstd::prelude::*;

use crate::fat::Volume;
use crate::process::exec::{Entered, PageMap, World};
use crate::process::load::Copied;
use crate::process::ProcError;

verus! {

/// The page has something of the segment in it.
pub open spec fn is_touched_by(addr: int, segment: crate::elf::Segment) -> bool {
    addr < segment.vaddr + segment.mem_size && segment.vaddr < addr + 4096
}

/// The page is one of the stack's: the four that end 2 MiB into the user region.
pub open spec fn is_stack_page(addr: int) -> bool {
    0x2000_001F_C000 <= addr < 0x2000_0020_0000 && addr % 4096 == 0
}

/// A segment is given the pages that it touches, from the first to the last, with
/// its own right to write.
proof fn lemma_segment_pages(segment: crate::elf::Segment, addr: u64, writable: bool)
    requires
        segment.wf(),
    ensures
        crate::process::exec::segment_pages(segment).contains(PageMap { addr, writable }) <==> addr
            % 4096 == 0 && writable == segment.writable && is_touched_by(addr as int, segment),
{
    let pages = crate::process::exec::segment_pages(segment);
    let page = PageMap { addr, writable };
    let first = crate::process::first_page(segment.vaddr);
    crate::process::law_pages_hold_what_touches_them(segment.vaddr, segment.mem_size);
    if pages.contains(page) {
        let i = choose|i: int| 0 <= i < pages.len() && pages[i] == page;
        assert(page.addr == first + 4096 * i);
    }
    if addr % 4096 == 0 && writable == segment.writable && is_touched_by(addr as int, segment) {
        let i = (addr - first) / 4096;
        assert(addr == first + 4096 * i);
        assert(0 <= i < pages.len());
        assert(pages[i] == page);
    }
}

proof fn lemma_stack_pages(addr: u64, writable: bool)
    ensures
        crate::process::exec::stack_pages().contains(PageMap { addr, writable }) <==> writable
            && is_stack_page(addr as int),
{
    let pages = crate::process::exec::stack_pages();
    let page = PageMap { addr, writable };
    if pages.contains(page) {
        let i = choose|i: int| 0 <= i < pages.len() && pages[i] == page;
        assert(page.addr == 0x2000_001F_C000 + 4096 * i);
    }
    if writable && is_stack_page(addr as int) {
        let i = (addr - 0x2000_001F_C000) / 4096;
        assert(addr == 0x2000_001F_C000 + 4096 * i);
        assert(pages[i] == page);
    }
}

/// A program is given the pages that its segments touch, which it may write to
/// where their segment lets it, and the pages of its stack, which it may write to;
/// and no others.
pub proof fn law_programs_are_given_the_pages_they_touch(
    segments: Seq<crate::elf::Segment>,
    i: int,
    addr: u64,
    writable: bool,
)
    requires
        0 <= i <= segments.len(),
        forall|s: int| 0 <= s < segments.len() ==> (#[trigger] segments[s]).wf(),
    ensures
        crate::process::exec::image_pages(segments, i).contains(PageMap { addr, writable }) <==> {
            ||| writable && is_stack_page(addr as int)
            ||| exists|s: int|
                i <= s < segments.len() && is_touched_by(addr as int, #[trigger] segments[s])
                    && segments[s].writable == writable && addr % 4096 == 0
        },
    decreases segments.len() - i,
{
    let page = PageMap { addr, writable };
    let pages = crate::process::exec::image_pages(segments, i);
    if i == segments.len() {
        lemma_stack_pages(addr, writable);
    } else {
        let mine = crate::process::exec::segment_pages(segments[i]);
        let rest = crate::process::exec::image_pages(segments, i + 1);
        law_programs_are_given_the_pages_they_touch(segments, i + 1, addr, writable);
        lemma_segment_pages(segments[i], addr, writable);
        if pages.contains(page) {
            let k = choose|k: int| 0 <= k < pages.len() && pages[k] == page;
            if k < mine.len() {
                assert(mine[k] == page);
            } else {
                assert(rest[k - mine.len()] == page);
            }
        }
        if mine.contains(page) {
            let k = choose|k: int| 0 <= k < mine.len() && mine[k] == page;
            assert(pages[k] == page);
        }
        if rest.contains(page) {
            let k = choose|k: int| 0 <= k < rest.len() && rest[k] == page;
            assert(pages[k + mine.len()] == page);
        }
    }
}

/// The stack pointer that a program is entered with is the end of its stack, and
/// the memory that it may have printed is the whole user region; it starts at the
/// entry point and under the number that it was given.
pub proof fn law_programs_are_entered_with_their_own(run: crate::process::exec::Exec<'_>)
    ensures
        run.pending() matches Some(
            crate::process::exec::Request::Enter { entry, stack_top, pid, range_start, range_end },
        ) ==> {
            &&& run.stage == (crate::process::exec::Stage::Entering { entry, pid })
            &&& is_stack_page(stack_top - 4096) && !is_stack_page(stack_top as int)
            &&& range_start == 0x2000_0000_0000
            &&& range_end == 0x2080_0000_0000
        },
{
}

/// A page is there for the program, if it was already or could be mapped to a
/// frame.
pub open spec fn is_provided(world: World, k: int) -> bool {
    (world.already)(k as nat) || ((world.frame)(k as nat) is Some && (world.linked)(k as nat))
}

/// The pages from number `k` on are there.
pub open spec fn are_provided(world: World, k: int, count: int) -> bool {
    forall|i: int| k <= i < k + count ==> #[trigger] is_provided(world, i)
}

/// The piece found its page.
pub open spec fn was_copied(world: World, i: int) -> bool {
    (world.copied)(i as nat)
}

/// The pieces from number `c` on were copied.
pub open spec fn were_copied(world: World, c: int, count: int) -> bool {
    forall|i: int| c <= i < c + count ==> #[trigger] was_copied(world, i)
}

proof fn lemma_copied(pieces: Seq<Copied>, world: World, c: nat)
    ensures
        crate::process::exec::all_copied(pieces.len(), world.copied, c) <==> were_copied(
            world,
            c as int,
            pieces.len() as int,
        ),
        were_copied(world, c as int, pieces.len() as int) ==> crate::process::exec::tried(
            pieces,
            world.copied,
            c,
        ) == pieces,
    decreases pieces.len(),
{
    if pieces.len() > 0 {
        let rest = pieces.drop_first();
        lemma_copied(rest, world, c + 1);
        assert(pieces =~= seq![pieces[0]] + rest);
        if were_copied(world, c as int, pieces.len() as int) {
            assert(was_copied(world, c as int));
            assert(were_copied(world, c as int + 1, rest.len() as int));
        }
        if (world.copied)(c) && were_copied(world, c as int + 1, rest.len() as int) {
            assert forall|i: int| c <= i < c + pieces.len() implies #[trigger] was_copied(
                world,
                i,
            ) by {
                if i > c {
                    assert(was_copied(world, i));
                }
            }
        }
    } else {
        assert(crate::process::exec::tried(pieces, world.copied, c) =~= pieces);
    }
}

proof fn lemma_mapping_outcome(
    mounted: Option<Volume>,
    path: Seq<u8>,
    image: crate::elf::ImageModel,
    pages: Seq<PageMap>,
    world: World,
    k: nat,
)
    ensures
        ({
            let life = crate::process::exec::mapping(mounted, path, image, pages, world, k);
            let file = crate::fat::file::contents(mounted, path, world.second);
            let pieces = crate::process::load::data_pieces(image.segments, 0, file.data);
            let done = crate::process::exec::loading(image, file.result, pieces, false, world, 0);
            if are_provided(world, k as int, pages.len() as int) {
                &&& life.result == done.result
                &&& life.copied == done.copied
                &&& life.entered == done.entered
                &&& life.reads == file.reads
                &&& life.probed == pages.map_values(|page: PageMap| page.addr)
                &&& forall|i: int|
                    0 <= i < pages.len() && !(world.already)((k + i) as nat)
                        ==> life.mapped.contains(#[trigger] pages[i])
            } else {
                &&& life.result == Err::<u64, ProcError>(ProcError::OutOfMemory)
                &&& life.copied.len() == 0
                &&& life.entered.len() == 0
                &&& life.reads.len() == 0
            }
        }),
    decreases pages.len(),
{
    reveal_with_fuel(crate::process::exec::mapping, 4);
    reveal_with_fuel(crate::process::exec::gaining, 4);
    reveal_with_fuel(crate::process::exec::linking, 4);
    let life = crate::process::exec::mapping(mounted, path, image, pages, world, k);
    let file = crate::fat::file::contents(mounted, path, world.second);
    let pieces = crate::process::load::data_pieces(image.segments, 0, file.data);
    let done = crate::process::exec::loading(image, file.result, pieces, false, world, 0);
    if pages.len() == 0 {
        assert(done.reads =~= Seq::empty());
        assert(life.reads =~= file.reads);
        assert(life.probed =~= pages.map_values(|page: PageMap| page.addr));
    } else {
        let others = pages.drop_first();
        let rest = crate::process::exec::mapping(mounted, path, image, others, world, k + 1);
        lemma_mapping_outcome(mounted, path, image, others, world, k + 1);
        if is_provided(world, k as int) {
            assert(are_provided(world, k as int, pages.len() as int) <==> are_provided(
                world,
                k as int + 1,
                others.len() as int,
            )) by {
                if are_provided(world, k as int + 1, others.len() as int) {
                    assert forall|i: int| k <= i < k + pages.len() implies #[trigger] is_provided(
                        world,
                        i,
                    ) by {
                        if i > k {
                            assert(is_provided(world, i));
                        }
                    }
                }
            }
            if are_provided(world, k as int, pages.len() as int) {
                assert(life.probed =~= pages.map_values(|page: PageMap| page.addr));
                assert forall|i: int|
                    0 <= i < pages.len() && !(world.already)((k + i) as nat) implies
                    life.mapped.contains(#[trigger] pages[i]) by {
                    if (world.already)(k) {
                        assert(i > 0);
                        assert(others[i - 1] == pages[i]);
                        assert(((k + 1) + (i - 1)) as nat == (k + i) as nat);
                    } else if i == 0 {
                        assert(life.mapped[0] == pages[0]);
                    } else {
                        assert(others[i - 1] == pages[i]);
                        assert(((k + 1) + (i - 1)) as nat == (k + i) as nat);
                        let j = choose|j: int|
                            0 <= j < rest.mapped.len() && rest.mapped[j] == pages[i];
                        assert(life.mapped[j + 1] == pages[i]);
                    }
                }
            }
        } else {
            assert(!are_provided(world, k as int, pages.len() as int)) by {
                assert(!is_provided(world, k as int));
            }
        }
    }
}

/// How a program ends. It is refused while another runs, where its file cannot be
/// read, is no program, or may not run, each for that reason; where there is no
/// memory for its tables or for one of its pages; where its file can no longer be
/// read when it is loaded, or one of its bytes has no page. Otherwise it runs, and
/// ends with the exit code that it gives.
pub proof fn law_programs_end_as_they_should(
    active: bool,
    mounted: Option<Volume>,
    path: Seq<u8>,
    world: World,
)
    ensures
        ({
            let life = crate::process::exec::life(active, mounted, path, world);
            let first = crate::fat::file::contents(mounted, path, world.first);
            let second = crate::fat::file::contents(mounted, path, world.second);
            &&& active ==> life.result == Err::<u64, ProcError>(ProcError::Busy)
            &&& !active ==> match first.result {
                Err(error) => life.result == Err::<u64, ProcError>(ProcError::Fs(error)),
                Ok(_) => match crate::elf::parsed(crate::process::exec::header_of(first.data)) {
                    Err(error) => life.result == Err::<u64, ProcError>(ProcError::Elf(error)),
                    Ok(image) => match crate::process::fault(image) {
                        Some(error) => life.result == Err::<u64, ProcError>(error),
                        None => {
                            let pages = crate::process::exec::image_pages(image.segments, 0);
                            let pieces = crate::process::load::data_pieces(
                                image.segments,
                                0,
                                second.data,
                            );
                            let room = world.created && are_provided(
                                world,
                                0,
                                pages.len() as int,
                            );
                            let loaded = were_copied(world, 0, pieces.len() as int);
                            &&& !room ==> life.result == Err::<u64, ProcError>(
                                ProcError::OutOfMemory,
                            )
                            &&& room ==> match second.result {
                                Err(error) => life.result == Err::<u64, ProcError>(
                                    ProcError::Fs(error),
                                ),
                                Ok(_) => if loaded {
                                    life.result == Ok::<u64, ProcError>(world.code)
                                } else {
                                    life.result == Err::<u64, ProcError>(
                                        ProcError::SegmentOutOfRange,
                                    )
                                },
                            }
                        },
                    },
                },
            }
        }),
{
    let first = crate::fat::file::contents(mounted, path, world.first);
    let second = crate::fat::file::contents(mounted, path, world.second);
    if let Ok(image) = crate::elf::parsed(crate::process::exec::header_of(first.data)) {
        let pages = crate::process::exec::image_pages(image.segments, 0);
        let pieces = crate::process::load::data_pieces(image.segments, 0, second.data);
        lemma_mapping_outcome(mounted, path, image, pages, world, 0);
        lemma_copied(pieces, world, 0);
    }
}

/// A program that has run was complete. It was entered once, at the entry point
/// that its file gives and under its own number; every page that it touches was
/// asked about, and mapped if it was not yet; and wherever a segment wants a byte
/// of the file, that byte was put, and nothing was put anywhere else.
pub proof fn law_programs_run_complete(
    active: bool,
    mounted: Option<Volume>,
    path: Seq<u8>,
    world: World,
    addr: int,
    byte: u8,
)
    ensures
        ({
            let life = crate::process::exec::life(active, mounted, path, world);
            let first = crate::fat::file::contents(mounted, path, world.first);
            let second = crate::fat::file::contents(mounted, path, world.second);
            life.result is Ok ==> (crate::elf::parsed(
                crate::process::exec::header_of(first.data),
            ) matches Ok(image) && {
                let pages = crate::process::exec::image_pages(image.segments, 0);
                &&& life.entered == seq![Entered { entry: image.entry, pid: world.pid }]
                &&& life.reads == first.reads + second.reads
                &&& life.probed == pages.map_values(|page: PageMap| page.addr)
                &&& forall|i: int|
                    0 <= i < pages.len() && !(world.already)(i as nat) ==> life.mapped.contains(
                        #[trigger] pages[i],
                    )
                &&& crate::process::load::puts(life.copied, addr, byte) <==> exists|s: int|
                    0 <= s < image.segments.len() && crate::process::load::wants(
                        #[trigger] image.segments[s],
                        0,
                        second.data,
                        addr,
                        byte,
                    )
            })
        }),
{
    let life = crate::process::exec::life(active, mounted, path, world);
    let first = crate::fat::file::contents(mounted, path, world.first);
    let second = crate::fat::file::contents(mounted, path, world.second);
    law_programs_end_as_they_should(active, mounted, path, world);
    if life.result is Ok {
        if let Ok(image) = crate::elf::parsed(crate::process::exec::header_of(first.data)) {
            let pages = crate::process::exec::image_pages(image.segments, 0);
            let pieces = crate::process::load::data_pieces(image.segments, 0, second.data);
            lemma_mapping_outcome(mounted, path, image, pages, world, 0);
            lemma_copied(pieces, world, 0);
            crate::process::load::law_loading_puts_bytes_in_place(
                image.segments,
                0,
                second.data,
                addr,
                byte,
            );
            let done = crate::process::exec::loading(
                image,
                second.result,
                pieces,
                false,
                world,
                0,
            );
            assert(done.copied =~= pieces);
            assert(done.entered =~= seq![Entered { entry: image.entry, pid: world.pid }]);
            assert forall|i: int|
                0 <= i < pages.len() && !(world.already)(i as nat) implies life.mapped.contains(
                #[trigger] pages[i],
            ) by {
                assert((0 + i) as nat == i as nat);
            }
        }
    }
}

/// The headers that are looked at are the first bytes of the file, 2048 of them at
/// the most; behind a shorter file lie zeros.
pub proof fn law_headers_are_the_first_bytes(data: Seq<u8>, i: int)
    requires
        0 <= i < 2048,
    ensures
        crate::process::exec::header_of(data).len() == 2048,
        i < data.len() ==> crate::process::exec::header_of(data)[i] == data[i],
        i >= data.len() ==> crate::process::exec::header_of(data)[i] == 0,
{
}

/// Page number `k` of a program belongs to segment number `owner`, or to the stack
/// where that is behind the last segment.
pub open spec fn belongs_to(segments: Seq<crate::elf::Segment>, owner: int, page: PageMap) -> bool {
    if owner < segments.len() {
        is_touched_by(page.addr as int, segments[owner]) && page.writable == segments[owner].writable
    } else {
        is_stack_page(page.addr as int) && page.writable
    }
}

/// The pages come segment by segment, in the order of the segments, and the stack's
/// last; those of one segment, or of the stack, come in the order of their
/// addresses, one right after the other. So where segments share a page, the first
/// of them decides what may be done with it.
pub proof fn law_pages_come_segment_by_segment(segments: Seq<crate::elf::Segment>, i: int) -> (owners:
    Seq<int>)
    requires
        0 <= i <= segments.len(),
        forall|s: int| 0 <= s < segments.len() ==> (#[trigger] segments[s]).wf(),
    ensures
        ({
            let pages = crate::process::exec::image_pages(segments, i);
            &&& owners.len() == pages.len()
            &&& forall|k: int|
                0 <= k < pages.len() ==> i <= #[trigger] owners[k] <= segments.len() && belongs_to(
                    segments,
                    owners[k],
                    pages[k],
                )
            &&& forall|k: int, l: int| 0 <= k < l < pages.len() ==> owners[k] <= owners[l]
            &&& forall|k: int|
                0 < k < pages.len() && owners[k - 1] == #[trigger] owners[k] ==> pages[k].addr
                    == pages[k - 1].addr + 4096
        }),
    decreases segments.len() - i,
{
    let pages = crate::process::exec::image_pages(segments, i);
    if i == segments.len() {
        Seq::new(pages.len(), |k: int| i)
    } else {
        let mine = crate::process::exec::segment_pages(segments[i]);
        let rest = crate::process::exec::image_pages(segments, i + 1);
        let others = law_pages_come_segment_by_segment(segments, i + 1);
        let owners = Seq::new(mine.len(), |k: int| i) + others;
        crate::process::law_pages_hold_what_touches_them(segments[i].vaddr, segments[i].mem_size);
        assert forall|k: int| 0 <= k < pages.len() implies i <= #[trigger] owners[k]
            <= segments.len() && belongs_to(segments, owners[k], pages[k]) by {
            if k < mine.len() {
                assert(pages[k] == mine[k]);
                assert(mine.contains(mine[k]));
                lemma_segment_pages(segments[i], mine[k].addr, mine[k].writable);
            } else {
                assert(pages[k] == rest[k - mine.len()]);
                assert(owners[k] == others[k - mine.len()]);
            }
        }
        assert forall|k: int, l: int| 0 <= k < l < pages.len() implies owners[k] <= owners[l] by {
            if l >= mine.len() {
                assert(owners[l] == others[l - mine.len()]);
                if k >= mine.len() {
                    assert(owners[k] == others[k - mine.len()]);
                }
            }
        }
        assert forall|k: int|
            0 < k < pages.len() && owners[k - 1] == #[trigger] owners[k] implies pages[k].addr
            == pages[k - 1].addr + 4096 by {
            if k < mine.len() {
                assert(pages[k] == mine[k] && pages[k - 1] == mine[k - 1]);
            } else {
                let j = k - mine.len();
                assert(pages[k] == rest[j]);
                assert(owners[k] == others[j]);
                if j > 0 {
                    assert(pages[k - 1] == rest[j - 1]);
                    assert(owners[k - 1] == others[j - 1]);
                }
            }
        }
        owners
    }
}

} // verus!
