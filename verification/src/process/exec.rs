//! Running a program: from its file to its exit code.
//!
//! The program is read twice. The first pass gathers the headers, and nothing
//! is allocated before they have been checked. The second pass copies the
//! segments into an address space made for them. Whatever goes wrong from there
//! on, the address space is torn down again.

use vstd::prelude::*;
use vstd::string::StringSliceAdditionalSpecFns;

use crate::ata::{AtaError, SECTOR_SIZE};
use crate::elf::{parse, Image, HEADER_BUFFER};
use crate::fat::lookup::{Read, Replies};
use crate::fat::{read_file, FsError, ReadFile, Volume};
use crate::memory::PAGE_SIZE;
use crate::process::load::{next_piece, Piece};
use crate::process::{
    page_range, validate, ProcError, USER_REGION_END, USER_REGION_START, USER_STACK_BOTTOM,
    USER_STACK_PAGES, USER_STACK_TOP,
};

verus! {

/// A page that a program needs.
#[derive(Debug, Clone, Copy, PartialEq, Eq, Structural)]
pub struct PageMap {
    pub addr: u64,
    pub writable: bool,
}

/// How the world answers what running a program asks of it.
pub ghost struct World {
    /// The answers to the reads of the first pass over the file.
    pub first: Replies,
    /// The answers to the reads of the second pass.
    pub second: Replies,
    /// An address space could be made.
    pub created: bool,
    /// Page number `k` was mapped already.
    pub already: spec_fn(nat) -> bool,
    /// The frame that there was for page number `k`.
    pub frame: spec_fn(nat) -> Option<u64>,
    /// Page number `k` could be mapped to it.
    pub linked: spec_fn(nat) -> bool,
    /// Piece number `c` found its page mapped.
    pub copied: spec_fn(nat) -> bool,
    /// The number that the process is given.
    pub pid: u64,
    /// The exit code of the program.
    pub code: u64,
}

/// A program that is entered: where it starts, and its process number.
pub ghost struct Entered {
    pub entry: u64,
    pub pid: u64,
}

/// A step in the running of a program that has to do with its address space and
/// the frames in it, with the answer that it got.
pub ghost enum Step {
    /// Make an address space; whether that worked.
    Create(bool),
    /// Take a frame, if there is one.
    Allocate(Option<u64>),
    /// Map this page to this frame; whether that worked.
    MapPage { page: PageMap, frame: u64, ok: bool },
    /// Give this frame back.
    GiveBack(u64),
    /// Make the address space the active one.
    Activate,
    /// Make the one before active again.
    Restore,
    /// Tear the address space down.
    Destroy,
}

/// What the world answers to a request.
pub ghost enum Answer {
    Plain(bool),
    Frame(Option<u64>),
    /// Something else, or nothing.
    Other,
}

/// All that running a program asks of the world, and what it comes to.
#[verifier::ext_equal]
pub ghost struct Life {
    /// Sectors read, those of the first pass first.
    pub reads: Seq<Read>,
    /// Address spaces asked for.
    pub creates: nat,
    /// Pages asked about.
    pub probed: Seq<u64>,
    /// Frames asked for.
    pub allocates: nat,
    /// Pages asked to be mapped.
    pub mapped: Seq<PageMap>,
    /// The frames that they were asked to be mapped to.
    pub frames: Seq<u64>,
    /// Frames given back.
    pub returned: Seq<u64>,
    /// Bytes asked to be copied.
    pub copied: Seq<crate::process::load::Copied>,
    /// Processes entered into the process table.
    pub starts: nat,
    /// Times that the address space was made the active one.
    pub activations: nat,
    /// Times that the one before was made active again.
    pub restores: nat,
    /// Programs entered.
    pub entered: Seq<Entered>,
    /// Address spaces torn down.
    pub destroys: nat,
    /// Exits noted in the process table: process number and exit code.
    pub finished: Seq<(u64, u64)>,
    /// The steps that have to do with the address space, in their order.
    pub steps: Seq<Step>,
    pub result: Result<u64, ProcError>,
}

impl Life {
    /// Nothing more is asked.
    pub open spec fn ended(result: Result<u64, ProcError>) -> Life {
        Life {
            reads: Seq::empty(),
            creates: 0,
            probed: Seq::empty(),
            allocates: 0,
            mapped: Seq::empty(),
            frames: Seq::empty(),
            returned: Seq::empty(),
            copied: Seq::empty(),
            starts: 0,
            activations: 0,
            restores: 0,
            entered: Seq::empty(),
            destroys: 0,
            finished: Seq::empty(),
            steps: Seq::empty(),
            result,
        }
    }

    /// The same, after these reads.
    pub open spec fn after_reads(self, reads: Seq<Read>) -> Life {
        Life { reads: reads + self.reads, ..self }
    }

    /// The same, after these copies.
    pub open spec fn after_copies(self, copied: Seq<crate::process::load::Copied>) -> Life {
        Life { copied: copied + self.copied, ..self }
    }

    /// The same, after a page was asked about.
    pub open spec fn after_probe(self, addr: u64) -> Life {
        Life { probed: seq![addr] + self.probed, ..self }
    }

    /// The same, after a step.
    pub open spec fn after_step(self, step: Step) -> Life {
        Life { steps: seq![step] + self.steps, ..self }
    }

    /// The same, after a frame was asked for.
    pub open spec fn after_allocate(self, frame: Option<u64>) -> Life {
        Life { allocates: self.allocates + 1, ..self.after_step(Step::Allocate(frame)) }
    }

    /// The same, after a page was asked to be mapped to a frame.
    pub open spec fn after_map(self, page: PageMap, frame: u64, ok: bool) -> Life {
        Life {
            mapped: seq![page] + self.mapped,
            frames: seq![frame] + self.frames,
            ..self.after_step(Step::MapPage { page, frame, ok })
        }
    }

    /// The same, after a frame was given back.
    pub open spec fn after_return(self, frame: u64) -> Life {
        Life { returned: seq![frame] + self.returned, ..self.after_step(Step::GiveBack(frame)) }
    }

    /// The same, after a program was entered.
    pub open spec fn after_enter(self, entry: u64, pid: u64) -> Life {
        Life { entered: seq![Entered { entry, pid }] + self.entered, ..self }
    }
}

/// The pages that a segment touches.
pub open spec fn segment_pages(segment: crate::elf::Segment) -> Seq<PageMap> {
    Seq::new(
        crate::process::page_count(segment.vaddr, segment.mem_size) as nat,
        |i: int|
            PageMap {
                addr: (crate::process::first_page(segment.vaddr) + 4096 * i) as u64,
                writable: segment.writable,
            },
    )
}

/// The pages of the user stack.
pub open spec fn stack_pages() -> Seq<PageMap> {
    Seq::new(
        USER_STACK_PAGES as nat,
        |i: int| PageMap { addr: (USER_STACK_BOTTOM + 4096 * i) as u64, writable: true },
    )
}

/// The pages of the segments from number `i` on, then those of the stack.
pub open spec fn image_pages(segments: Seq<crate::elf::Segment>, i: int) -> Seq<PageMap>
    decreases segments.len() - i,
{
    if i < 0 || i >= segments.len() {
        stack_pages()
    } else {
        segment_pages(segments[i]) + image_pages(segments, i + 1)
    }
}

/// The pages from page `page` of segment number `i` on; behind the segments
/// lies the stack.
pub open spec fn pages_at(segments: Seq<crate::elf::Segment>, i: int, page: int) -> Seq<PageMap> {
    if i < 0 || i >= segments.len() {
        stack_pages().skip(page)
    } else {
        segment_pages(segments[i]).skip(page) + image_pages(segments, i + 1)
    }
}

/// The first bytes of a file, filled up with zeros.
pub open spec fn header_of(data: Seq<u8>) -> Seq<u8> {
    Seq::new(
        HEADER_BUFFER as nat,
        |i: int|
            if i < data.len() {
                data[i]
            } else {
                0
            },
    )
}

/// The pieces that are tried: all up to the first that fails.
pub open spec fn tried(
    pieces: Seq<crate::process::load::Copied>,
    copied: spec_fn(nat) -> bool,
    c: nat,
) -> Seq<crate::process::load::Copied>
    decreases pieces.len(),
{
    if pieces.len() == 0 {
        Seq::empty()
    } else if copied(c) {
        seq![pieces[0]] + tried(pieces.drop_first(), copied, c + 1)
    } else {
        seq![pieces[0]]
    }
}

/// Every piece finds its page mapped.
pub open spec fn all_copied(count: nat, copied: spec_fn(nat) -> bool, c: nat) -> bool
    decreases count,
{
    count == 0 || (copied(c) && all_copied((count - 1) as nat, copied, c + 1))
}

/// The program fails once it has an address space, which is torn down.
pub open spec fn aborted(error: ProcError) -> Life {
    Life { destroys: 1, ..Life::ended(Err(error)).after_step(Step::Destroy) }
}

/// The program has exited: its address space is torn down, and its exit noted.
pub open spec fn exited(pid: u64, code: u64) -> Life {
    Life {
        destroys: 1,
        finished: seq![(pid, code)],
        ..Life::ended(Ok(code)).after_step(Step::Destroy)
    }
}

/// The program has exited in its own address space.
pub open spec fn leaving(pid: u64, code: u64) -> Life {
    Life { restores: 1, ..exited(pid, code).after_step(Step::Restore) }
}

/// The program has its number, and is ready to be entered.
pub open spec fn starting(entry: u64, pid: u64, world: World) -> Life {
    Life {
        activations: 1,
        ..leaving(pid, world.code).after_enter(entry, pid).after_step(Step::Activate)
    }
}

/// The program is ready to run.
pub open spec fn running(entry: u64, world: World) -> Life {
    Life { starts: 1, ..starting(entry, world.pid, world) }
}

/// A page could not be mapped to a frame, which is given back.
pub open spec fn unlinked(frame: u64) -> Life {
    aborted(ProcError::OutOfMemory).after_return(frame)
}

/// The second pass over the file: the pieces of what it delivers are copied,
/// until one fails; but the file is read to its end all the same, and its own
/// failure counts for more.
pub open spec fn loading(
    image: crate::elf::ImageModel,
    read: Result<u32, FsError>,
    pieces: Seq<crate::process::load::Copied>,
    failed: bool,
    world: World,
    c: nat,
) -> Life {
    let rest = match read {
        Err(error) => aborted(ProcError::Fs(error)),
        Ok(_) => if failed || !all_copied(pieces.len(), world.copied, c) {
            aborted(ProcError::SegmentOutOfRange)
        } else {
            running(image.entry, world)
        },
    };
    if failed {
        rest
    } else {
        rest.after_copies(tried(pieces, world.copied, c))
    }
}

/// Mapping the pages that are left, of which the first is number `k`. One that
/// is mapped already is left alone (segments can share a page).
pub open spec fn mapping(
    mounted: Option<Volume>,
    path: Seq<u8>,
    image: crate::elf::ImageModel,
    pages: Seq<PageMap>,
    world: World,
    k: nat,
) -> Life
    decreases pages.len(), 2nat,
{
    if pages.len() == 0 {
        let file = crate::fat::file::contents(mounted, path, world.second);
        loading(
            image,
            file.result,
            crate::process::load::data_pieces(image.segments, 0, file.data),
            false,
            world,
            0,
        ).after_reads(file.reads)
    } else {
        let rest = if (world.already)(k) {
            mapping(mounted, path, image, pages.drop_first(), world, k + 1)
        } else {
            gaining(mounted, path, image, pages, world, k)
        };
        rest.after_probe(pages[0].addr)
    }
}

/// Finding a frame for the first of the pages that are left, which was not
/// mapped yet.
pub open spec fn gaining(
    mounted: Option<Volume>,
    path: Seq<u8>,
    image: crate::elf::ImageModel,
    pages: Seq<PageMap>,
    world: World,
    k: nat,
) -> Life
    decreases pages.len(), 1nat,
{
    let rest = match (world.frame)(k) {
        None => aborted(ProcError::OutOfMemory),
        Some(frame) => linking(mounted, path, image, pages, frame, world, k),
    };
    rest.after_allocate((world.frame)(k))
}

/// Mapping the first of the pages that are left to its frame.
pub open spec fn linking(
    mounted: Option<Volume>,
    path: Seq<u8>,
    image: crate::elf::ImageModel,
    pages: Seq<PageMap>,
    frame: u64,
    world: World,
    k: nat,
) -> Life
    decreases pages.len(), 0nat,
{
    if pages.len() == 0 {
        unlinked(frame)
    } else {
        let rest = if (world.linked)(k) {
            mapping(mounted, path, image, pages.drop_first(), world, k + 1)
        } else {
            unlinked(frame)
        };
        rest.after_map(pages[0], frame, (world.linked)(k))
    }
}

/// The headers are in order: an address space is made for the program.
pub open spec fn creating(
    mounted: Option<Volume>,
    path: Seq<u8>,
    image: crate::elf::ImageModel,
    world: World,
) -> Life {
    let rest = if world.created {
        mapping(mounted, path, image, image_pages(image.segments, 0), world, 0)
    } else {
        Life::ended(Err(ProcError::OutOfMemory))
    };
    Life { creates: 1, ..rest.after_step(Step::Create(world.created)) }
}

/// Once the first pass is over, with the data that it delivered.
pub open spec fn checking(
    mounted: Option<Volume>,
    path: Seq<u8>,
    read: Result<u32, FsError>,
    data: Seq<u8>,
    world: World,
) -> Life {
    match read {
        Err(error) => Life::ended(Err(ProcError::Fs(error))),
        Ok(_) => match crate::elf::parsed(header_of(data)) {
            Err(error) => Life::ended(Err(ProcError::Elf(error))),
            Ok(image) => match crate::process::fault(image) {
                Some(error) => Life::ended(Err(error)),
                None => creating(mounted, path, image, world),
            },
        },
    }
}

/// All that running the program at `path` asks of the world, and what it comes
/// to. Only one program may run at a time.
pub open spec fn life(
    active: bool,
    mounted: Option<Volume>,
    path: Seq<u8>,
    world: World,
) -> Life {
    if active {
        Life::ended(Err(ProcError::Busy))
    } else {
        let file = crate::fat::file::contents(mounted, path, world.first);
        checking(mounted, path, file.result, file.data, world).after_reads(file.reads)
    }
}

/// What to do next in order to run a program.
#[derive(Debug, Clone, Copy, PartialEq, Eq, Structural)]
pub enum Request {
    /// Read a sector.
    Read(Read),
    /// Make an address space.
    Create,
    /// See whether this page is mapped in it.
    Probe { addr: u64 },
    /// Take a frame, and fill it with zeros.
    Allocate,
    /// Map this page to this frame.
    MapPage { page: PageMap, frame: u64 },
    /// Give this frame back.
    GiveBack { frame: u64 },
    /// Copy `len` bytes, from byte `from` of the sector read last, to `vaddr`;
    /// all of them belong to one page.
    Copy { vaddr: u64, from: usize, len: usize },
    /// Enter the process into the process table.
    Start,
    /// Make the address space the active one, keeping what was active.
    Activate,
    /// Enter the program, which may use this much of the address space.
    Enter { entry: u64, stack_top: u64, pid: u64, range_start: u64, range_end: u64 },
    /// Make the address space active again that was before.
    Restore,
    /// Tear the address space down.
    Destroy,
    /// Note in the process table that the process has exited.
    Finish { pid: u64, code: u64 },
}

/// How far the running of a program has come.
#[derive(Debug, Clone, Copy, PartialEq, Eq)]
pub enum Stage<'a> {
    /// First pass over the file; `filled` bytes of the header are gathered.
    Reading { file: ReadFile<'a>, filled: usize },
    Creating { image: Image },
    /// About to see whether page `page` of segment `segment` is mapped.
    Probing { image: Image, segment: usize, page: u64 },
    /// About to find a frame for it.
    Allocating { image: Image, segment: usize, page: u64 },
    /// About to map it to this frame.
    Mapping { image: Image, segment: usize, page: u64, frame: u64 },
    /// The frame could not be used.
    GivingBack { frame: u64 },
    /// Second pass over the file, which has come to `pos`.
    Fetching { image: Image, file: ReadFile<'a>, pos: u64, failed: bool },
    /// Copying from the chunk of `taken` bytes at `pos`.
    Copying { image: Image, file: ReadFile<'a>, pos: u64, taken: usize, piece: Piece },
    Starting { entry: u64 },
    Activating { entry: u64, pid: u64 },
    Entering { entry: u64, pid: u64 },
    Restoring { pid: u64, code: u64 },
    /// Tearing down after a failure.
    Aborting(ProcError),
    /// Tearing down after the program exited.
    Destroying { pid: u64, code: u64 },
    Finishing { pid: u64, code: u64 },
    Done(Result<u64, ProcError>),
}

/// The running of a program, under way.
#[derive(Debug, Clone, Copy, PartialEq, Eq)]
pub struct Exec<'a> {
    pub mounted: Option<Volume>,
    pub path: &'a str,
    /// The first bytes of the file, as far as they are read.
    pub header: [u8; HEADER_BUFFER],
    /// The sector read last.
    pub sector: [u8; SECTOR_SIZE],
    pub stage: Stage<'a>,
}

/// The segments are sound and there is a page at this place.
pub open spec fn is_page(image: Image, segment: usize, page: u64) -> bool {
    &&& image.wf()
    &&& segment <= image@.segments.len()
    &&& crate::process::fault(image@) is None
    &&& if segment < image@.segments.len() {
        page < segment_pages(image@.segments[segment as int]).len()
    } else {
        page < USER_STACK_PAGES
    }
}

impl<'a> Exec<'a> {
    /// Every stage is in order.
    pub open spec fn wf(&self) -> bool {
        &&& self.mounted matches Some(volume) ==> volume.wf()
        &&& match self.stage {
            Stage::Reading { file, filled } => {
                &&& file.wf()
                &&& !file.is_done()
                &&& filled <= HEADER_BUFFER
                &&& forall|i: int|
                    filled <= i < HEADER_BUFFER ==> (#[trigger] self.header@[i]) == 0
            },
            Stage::Creating { image } => image.wf() && crate::process::fault(image@) is None,
            Stage::Probing { image, segment, page } => is_page(image, segment, page),
            Stage::Allocating { image, segment, page } => is_page(image, segment, page),
            Stage::Mapping { image, segment, page, frame } => is_page(image, segment, page),
            Stage::Fetching { image, file, pos, failed } => {
                &&& image.wf()
                &&& file.wf()
                &&& !file.is_done()
                &&& pos + file.at_most() <= u32::MAX
            },
            Stage::Copying { image, file, pos, taken, piece } => {
                &&& image.wf()
                &&& file.wf()
                &&& taken <= SECTOR_SIZE
                &&& pos + taken + file.at_most() <= u32::MAX
                &&& 0 < taken < SECTOR_SIZE ==> file.is_done()
                &&& piece.segment < image@.segments.len()
                &&& piece.done <= taken
                &&& 0 < piece.len
                &&& piece.from + piece.len <= taken
            },
            _ => true,
        }
    }

    /// What is still to come, when in the current pass over the file the next
    /// answer is number `n`, the next page is number `k`, and the next piece is
    /// number `c`.
    pub open spec fn rest(&self, world: World, n: nat, k: nat, c: nat) -> Life {
        let path = self.path.spec_bytes();
        match self.stage {
            Stage::Reading { file, filled } => {
                let f = file.rest(world.first, n);
                checking(
                    self.mounted,
                    path,
                    f.result,
                    self.header@.take(filled as int) + f.data,
                    world,
                ).after_reads(f.reads)
            },
            Stage::Creating { image } => creating(self.mounted, path, image@, world),
            Stage::Probing { image, segment, page } => mapping(
                self.mounted,
                path,
                image@,
                pages_at(image@.segments, segment as int, page as int),
                world,
                k,
            ),
            Stage::Allocating { image, segment, page } => gaining(
                self.mounted,
                path,
                image@,
                pages_at(image@.segments, segment as int, page as int),
                world,
                k,
            ),
            Stage::Mapping { image, segment, page, frame } => linking(
                self.mounted,
                path,
                image@,
                pages_at(image@.segments, segment as int, page as int),
                frame,
                world,
                k,
            ),
            Stage::GivingBack { frame } => unlinked(frame),
            Stage::Fetching { image, file, pos, failed } => {
                let f = file.rest(world.second, n);
                loading(
                    image@,
                    f.result,
                    crate::process::load::data_pieces(image@.segments, pos as int, f.data),
                    failed,
                    world,
                    c,
                ).after_reads(f.reads)
            },
            Stage::Copying { image, file, pos, taken, piece } => {
                let f = file.rest(world.second, n);
                let chunk = self.sector@.take(taken as int);
                let here = seq![piece.of(chunk)] + crate::process::load::chunk_pieces(
                    image@.segments,
                    piece.segment as int,
                    piece.done as int,
                    pos as int,
                    chunk,
                );
                loading(
                    image@,
                    f.result,
                    here + crate::process::load::data_pieces(image@.segments, pos + taken, f.data),
                    false,
                    world,
                    c,
                ).after_reads(f.reads)
            },
            Stage::Starting { entry } => running(entry, world),
            Stage::Activating { entry, pid } => starting(entry, pid, world),
            Stage::Entering { entry, pid } => leaving(pid, world.code).after_enter(entry, pid),
            Stage::Restoring { pid, code } => leaving(pid, code),
            Stage::Aborting(error) => aborted(error),
            Stage::Destroying { pid, code } => exited(pid, code),
            Stage::Finishing { pid, code } => Life {
                finished: seq![(pid, code)],
                ..Life::ended(Ok(code))
            },
            Stage::Done(result) => Life::ended(result),
        }
    }
}

impl<'a> Exec<'a> {
    /// What to do next; nothing once the program has run.
    pub open spec fn pending(&self) -> Option<Request> {
        match self.stage {
            Stage::Reading { file, .. } => Some(Request::Read(file.pending()->0)),
            Stage::Creating { .. } => Some(Request::Create),
            Stage::Probing { image, segment, page } => Some(
                Request::Probe {
                    addr: pages_at(image@.segments, segment as int, page as int)[0].addr,
                },
            ),
            Stage::Allocating { .. } => Some(Request::Allocate),
            Stage::Mapping { image, segment, page, frame } => Some(
                Request::MapPage {
                    page: pages_at(image@.segments, segment as int, page as int)[0],
                    frame,
                },
            ),
            Stage::GivingBack { frame } => Some(Request::GiveBack { frame }),
            Stage::Fetching { file, .. } => Some(Request::Read(file.pending()->0)),
            Stage::Copying { piece, .. } => Some(
                Request::Copy { vaddr: piece.vaddr, from: piece.from, len: piece.len },
            ),
            Stage::Starting { .. } => Some(Request::Start),
            Stage::Activating { .. } => Some(Request::Activate),
            Stage::Restoring { .. } => Some(Request::Restore),
            Stage::Entering { entry, pid } => Some(
                Request::Enter {
                    entry,
                    stack_top: USER_STACK_TOP,
                    pid,
                    range_start: USER_REGION_START,
                    range_end: USER_REGION_END,
                },
            ),
            Stage::Aborting(_) => Some(Request::Destroy),
            Stage::Destroying { .. } => Some(Request::Destroy),
            Stage::Finishing { pid, code } => Some(Request::Finish { pid, code }),
            Stage::Done(_) => None,
        }
    }

    /// What lies ahead, seen from before what is to be done next, which gets this
    /// answer.
    pub open spec fn followed_by(&self, answer: Answer, rest: Life) -> Life {
        let ok = answer == Answer::Plain(true);
        match self.pending() {
            Some(Request::Read(read)) => rest.after_reads(seq![read]),
            Some(Request::Create) => Life {
                creates: rest.creates + 1,
                ..rest.after_step(Step::Create(ok))
            },
            Some(Request::Probe { addr }) => rest.after_probe(addr),
            Some(Request::Allocate) => rest.after_allocate(
                match answer {
                    Answer::Frame(frame) => frame,
                    _ => None,
                },
            ),
            Some(Request::MapPage { page, frame }) => rest.after_map(page, frame, ok),
            Some(Request::GiveBack { frame }) => rest.after_return(frame),
            Some(Request::Activate) => Life {
                activations: rest.activations + 1,
                ..rest.after_step(Step::Activate)
            },
            Some(Request::Restore) => Life {
                restores: rest.restores + 1,
                ..rest.after_step(Step::Restore)
            },
            Some(Request::Copy { vaddr, from, len }) => rest.after_copies(
                seq![
                    crate::process::load::Copied {
                        vaddr: vaddr as int,
                        bytes: self.sector@.subrange(from as int, from + len),
                    },
                ],
            ),
            Some(Request::Start) => Life { starts: rest.starts + 1, ..rest },
            Some(Request::Enter { entry, pid, .. }) => rest.after_enter(entry, pid),
            Some(Request::Destroy) => Life {
                destroys: rest.destroys + 1,
                ..rest.after_step(Step::Destroy)
            },
            Some(Request::Finish { pid, code }) => Life {
                finished: seq![(pid, code)] + rest.finished,
                ..rest
            },
            None => rest,
        }
    }
}

/// The stage that follows the first pass over the file.
pub open spec fn is_after_header(
    stage: Stage<'_>,
    read: Result<u32, FsError>,
    header: Seq<u8>,
) -> bool {
    match read {
        Err(error) => stage == Stage::Done(Err(ProcError::Fs(error))),
        Ok(_) => match crate::elf::parsed(header) {
            Err(error) => stage == Stage::Done(Err(ProcError::Elf(error))),
            Ok(model) => match crate::process::fault(model) {
                Some(error) => stage == Stage::Done(Err(error)),
                None => stage matches Stage::Creating { image } && image.wf() && image@ == model,
            },
        },
    }
}

/// What follows the first pass over the file.
fn after_header<'a>(read: Result<u32, FsError>, header: &[u8; HEADER_BUFFER]) -> (stage: Stage<'a>)
    ensures
        is_after_header(stage, read, header@),
{
    match read {
        Err(error) => Stage::Done(Err(ProcError::Fs(error))),
        Ok(_) => match parse(header) {
            Err(error) => Stage::Done(Err(ProcError::Elf(error))),
            Ok(image) => match validate(&image) {
                Err(error) => Stage::Done(Err(error)),
                Ok(_) => Stage::Creating { image },
            },
        },
    }
}

/// Begins to run the program at `path`. `active` tells whether one is running
/// already.
pub fn exec<'a>(active: bool, mounted: Option<Volume>, path: &'a str) -> (exec: Exec<'a>)
    requires
        mounted matches Some(volume) ==> volume.wf(),
    ensures
        exec.wf(),
        forall|world: World, k: nat, c: nat| #[trigger]
            exec.rest(world, 0, k, c) == life(active, mounted, path.spec_bytes(), world),
{
    let header = [0u8; HEADER_BUFFER];
    let sector = [0u8; SECTOR_SIZE];
    if active {
        return Exec { mounted, path, header, sector, stage: Stage::Done(Err(ProcError::Busy)) };
    }
    let file = read_file(mounted, path);
    proof {
        assert(header_of(Seq::empty()) =~= header@);
    }
    let stage = match file.result() {
        Some(read) => after_header(read, &header),
        None => Stage::Reading { file, filled: 0 },
    };
    let exec = Exec { mounted, path, header, sector, stage };
    proof {
        assert(header@.take(0) =~= Seq::<u8>::empty());
        assert forall|world: World, k: nat, c: nat| #[trigger]
            exec.rest(world, 0, k, c) == life(active, mounted, path.spec_bytes(), world) by {
            let f = file.rest(world.first, 0);
            assert(f == crate::fat::file::contents(mounted, path.spec_bytes(), world.first));
            assert(Seq::<u8>::empty() + f.data =~= f.data);
            assert(exec.rest(world, 0, k, c) =~= life(active, mounted, path.spec_bytes(), world));
        }
    }
    exec
}

impl<'a> Exec<'a> {
    /// What to do next; nothing once the program has run.
    pub fn request(&self) -> (request: Option<Request>)
        requires
            self.wf(),
        ensures
            request == self.pending(),
    {
        match &self.stage {
            Stage::Reading { file, .. } => match file.request() {
                Some(read) => Some(Request::Read(read)),
                None => None,
            },
            Stage::Creating { .. } => Some(Request::Create),
            Stage::Probing { image, segment, page } => {
                let page = page_at(image, *segment, *page);
                Some(Request::Probe { addr: page.addr })
            },
            Stage::Allocating { .. } => Some(Request::Allocate),
            Stage::Mapping { image, segment, page, frame } => Some(
                Request::MapPage { page: page_at(image, *segment, *page), frame: *frame },
            ),
            Stage::GivingBack { frame } => Some(Request::GiveBack { frame: *frame }),
            Stage::Fetching { file, .. } => match file.request() {
                Some(read) => Some(Request::Read(read)),
                None => None,
            },
            Stage::Copying { piece, .. } => Some(
                Request::Copy { vaddr: piece.vaddr, from: piece.from, len: piece.len },
            ),
            Stage::Starting { .. } => Some(Request::Start),
            Stage::Activating { .. } => Some(Request::Activate),
            Stage::Restoring { .. } => Some(Request::Restore),
            Stage::Entering { entry, pid } => Some(
                Request::Enter {
                    entry: *entry,
                    stack_top: USER_STACK_TOP,
                    pid: *pid,
                    range_start: USER_REGION_START,
                    range_end: USER_REGION_END,
                },
            ),
            Stage::Aborting(_) => Some(Request::Destroy),
            Stage::Destroying { .. } => Some(Request::Destroy),
            Stage::Finishing { pid, code } => Some(Request::Finish { pid: *pid, code: *code }),
            Stage::Done(_) => None,
        }
    }

    /// The exit code, or why the program did not run; nothing while it is on
    /// its way.
    pub fn result(&self) -> (result: Option<Result<u64, ProcError>>)
        ensures
            result == (match self.stage {
                Stage::Done(result) => Some(result),
                _ => None,
            }),
    {
        match self.stage {
            Stage::Done(result) => Some(result),
            _ => None,
        }
    }
}

proof fn lemma_page_in_range(image: Image, segment: usize, page: u64)
    requires
        is_page(image, segment, page),
    ensures
        ({
            let pages = pages_at(image@.segments, segment as int, page as int);
            &&& pages.len() > 0
            &&& segment < image@.segments.len() ==> {
                let this = image@.segments[segment as int];
                &&& this.wf()
                &&& crate::process::first_page(this.vaddr) + 4096 * page <= u64::MAX
                &&& pages[0] == segment_pages(this)[page as int]
            }
            &&& segment == image@.segments.len() ==> pages[0] == stack_pages()[page as int]
        }),
{
    crate::process::law_faultless_images_are_confined(image@);
    if segment < image@.segments.len() {
        let this = image@.segments[segment as int];
        assert(this.wf());
        assert(crate::process::in_user_region(this));
    }
}

/// The page at a place.
fn page_at(image: &Image, segment: usize, page: u64) -> (found: PageMap)
    requires
        is_page(*image, segment, page),
    ensures
        found == pages_at(image@.segments, segment as int, page as int)[0],
{
    proof {
        lemma_page_in_range(*image, segment, page);
    }
    if segment < image.segment_count() {
        let this = image.segments()[segment];
        let (first, _): (u64, u64) = page_range(this.vaddr, this.mem_size);
        PageMap { addr: first + page * PAGE_SIZE, writable: this.writable }
    } else {
        PageMap { addr: USER_STACK_BOTTOM + page * PAGE_SIZE, writable: true }
    }
}

/// The place of the page after this one.
fn next_page(image: &Image, segment: usize, page: u64) -> (next: Option<(usize, u64)>)
    requires
        is_page(*image, segment, page),
    ensures
        ({
            let left = pages_at(image@.segments, segment as int, page as int).drop_first();
            match next {
                None => left == Seq::<PageMap>::empty(),
                Some((s, p)) => is_page(*image, s, p) && left == pages_at(
                    image@.segments,
                    s as int,
                    p as int,
                ),
            }
        }),
{
    let ghost segments = image@.segments;
    let ghost pages = pages_at(segments, segment as int, page as int);
    proof {
        lemma_page_in_range(*image, segment, page);
    }
    if segment < image.segment_count() {
        let this = image.segments()[segment];
        let (_, count): (u64, u64) = page_range(this.vaddr, this.mem_size);
        if page + 1 < count {
            assert(pages.drop_first() =~= pages_at(segments, segment as int, page + 1));
            Some((segment, page + 1))
        } else {
            proof {
                assert(pages.drop_first() =~= image_pages(segments, segment + 1));
                if segment + 1 < segments.len() {
                    let after = segments[segment + 1];
                    assert(after.wf());
                    assert(segment_pages(after).skip(0) =~= segment_pages(after));
                } else {
                    assert(stack_pages().skip(0) =~= stack_pages());
                }
            }
            Some((segment + 1, 0))
        }
    } else if page + 1 < USER_STACK_PAGES {
        assert(pages.drop_first() =~= pages_at(segments, segment as int, page + 1));
        Some((segment, page + 1))
    } else {
        assert(pages.drop_first() =~= Seq::<PageMap>::empty());
        None
    }
}

proof fn lemma_data_pieces_of_both(
    segments: Seq<crate::elf::Segment>,
    pos: int,
    chunk: Seq<u8>,
    rest: Seq<u8>,
)
    requires
        chunk.len() <= 512,
        chunk.len() == 512 || chunk.len() == 0 || rest.len() == 0,
    ensures
        crate::process::load::data_pieces(segments, pos, chunk + rest)
            == crate::process::load::chunk_pieces(segments, 0, 0, pos, chunk)
            + crate::process::load::data_pieces(segments, pos + chunk.len(), rest),
{
    let all = chunk + rest;
    if rest.len() == 0 {
        assert(all =~= chunk);
        if chunk.len() == 0 {
            lemma_no_pieces_of_nothing(segments, 0, pos, chunk);
        }
        assert(crate::process::load::data_pieces(segments, pos, all)
            =~= crate::process::load::chunk_pieces(segments, 0, 0, pos, chunk)
            + crate::process::load::data_pieces(segments, pos + chunk.len(), rest));
    } else if chunk.len() == 0 {
        assert(all =~= rest);
        lemma_no_pieces_of_nothing(segments, 0, pos, chunk);
        assert(crate::process::load::data_pieces(segments, pos, all)
            =~= crate::process::load::chunk_pieces(segments, 0, 0, pos, chunk)
            + crate::process::load::data_pieces(segments, pos + chunk.len(), rest));
    } else {
        assert(all.take(512) =~= chunk);
        assert(all.skip(512) =~= rest);
    }
}

proof fn lemma_no_pieces_of_nothing(
    segments: Seq<crate::elf::Segment>,
    i: int,
    pos: int,
    chunk: Seq<u8>,
)
    requires
        chunk.len() == 0,
        0 <= i,
    ensures
        crate::process::load::chunk_pieces(segments, i, 0, pos, chunk) == Seq::<
            crate::process::load::Copied,
        >::empty(),
    decreases segments.len() - i,
{
    if i < segments.len() {
        lemma_no_pieces_of_nothing(segments, i + 1, pos, chunk);
        assert(crate::process::load::chunk_pieces(segments, i, 0, pos, chunk) =~= Seq::<
            crate::process::load::Copied,
        >::empty());
    }
}

/// What follows once a chunk of the second pass is dealt with.
fn after_chunk<'a>(image: Image, file: ReadFile<'a>, pos: u64, failed: bool) -> (stage: Stage<'a>)
    requires
        image.wf(),
        file.wf(),
        pos + file.at_most() <= u32::MAX,
    ensures
        forall|exec: Exec<'a>, world: World, n: nat, k: nat, c: nat|
            exec.stage == stage ==> #[trigger] exec.rest(world, n, k, c) == loading(
                image@,
                file.rest(world.second, n).result,
                crate::process::load::data_pieces(
                    image@.segments,
                    pos as int,
                    file.rest(world.second, n).data,
                ),
                failed,
                world,
                c,
            ).after_reads(file.rest(world.second, n).reads),
        forall|exec: Exec<'a>|
            exec.stage == stage && (exec.mounted matches Some(volume) ==> volume.wf())
                ==> #[trigger] exec.wf(),
        stage !is Reading,
{
    let stage = match file.result() {
        None => Stage::Fetching { image, file, pos, failed },
        Some(Err(error)) => Stage::Aborting(ProcError::Fs(error)),
        Some(Ok(_)) => if failed {
            Stage::Aborting(ProcError::SegmentOutOfRange)
        } else {
            Stage::Starting { entry: image.entry }
        },
    };
    proof {
        assert forall|exec: Exec<'a>, world: World, n: nat, k: nat, c: nat|
            exec.stage == stage implies #[trigger] exec.rest(world, n, k, c) == loading(
            image@,
            file.rest(world.second, n).result,
            crate::process::load::data_pieces(
                image@.segments,
                pos as int,
                file.rest(world.second, n).data,
            ),
            failed,
            world,
            c,
        ).after_reads(file.rest(world.second, n).reads) by {
            let f = file.rest(world.second, n);
            let life = loading(
                image@,
                f.result,
                crate::process::load::data_pieces(image@.segments, pos as int, f.data),
                failed,
                world,
                c,
            ).after_reads(f.reads);
            assert(exec.rest(world, n, k, c) =~= life);
        }
    }
    stage
}

/// Goes on with a chunk of the second pass, from where the segment with this
/// number has had `done` bytes of its share.
fn with_chunk<'a>(
    image: Image,
    file: ReadFile<'a>,
    pos: u64,
    taken: usize,
    segment: usize,
    done: usize,
) -> (stage: Stage<'a>)
    requires
        image.wf(),
        file.wf(),
        taken <= SECTOR_SIZE,
        pos + taken + file.at_most() <= u32::MAX,
        0 < taken < SECTOR_SIZE ==> file.is_done(),
        segment < image@.segments.len(),
        done <= taken,
    ensures
        forall|exec: Exec<'a>, world: World, n: nat, k: nat, c: nat|
            exec.stage == stage ==> #[trigger] exec.rest(world, n, k, c) == loading(
                image@,
                file.rest(world.second, n).result,
                crate::process::load::chunk_pieces(
                    image@.segments,
                    segment as int,
                    done as int,
                    pos as int,
                    exec.sector@.take(taken as int),
                ) + crate::process::load::data_pieces(
                    image@.segments,
                    pos + taken,
                    file.rest(world.second, n).data,
                ),
                false,
                world,
                c,
            ).after_reads(file.rest(world.second, n).reads),
        forall|exec: Exec<'a>|
            exec.stage == stage && (exec.mounted matches Some(volume) ==> volume.wf())
                ==> #[trigger] exec.wf(),
        stage !is Reading,
{
    let segments = image.segments();
    proof {
        assert forall|i: int| 0 <= i < segments@.len() implies (#[trigger] segments@[i]).wf() by {
            assert(image@.segments[i].wf());
        }
    }
    let next = next_piece(segments, segment, done, pos, taken);
    match next {
        Some(piece) => {
            let stage = Stage::Copying { image, file, pos, taken, piece };
            proof {
                assert forall|exec: Exec<'a>, world: World, n: nat, k: nat, c: nat|
                    exec.stage == stage implies #[trigger] exec.rest(world, n, k, c) == loading(
                    image@,
                    file.rest(world.second, n).result,
                    crate::process::load::chunk_pieces(
                        image@.segments,
                        segment as int,
                        done as int,
                        pos as int,
                        exec.sector@.take(taken as int),
                    ) + crate::process::load::data_pieces(
                        image@.segments,
                        pos + taken,
                        file.rest(world.second, n).data,
                    ),
                    false,
                    world,
                    c,
                ).after_reads(file.rest(world.second, n).reads) by {
                    let chunk = exec.sector@.take(taken as int);
                    assert(chunk.len() == taken);
                }
            }
            stage
        },
        None => {
            let stage = after_chunk(image, file, pos + taken as u64, false);
            proof {
                assert forall|exec: Exec<'a>, world: World, n: nat, k: nat, c: nat|
                    exec.stage == stage implies #[trigger] exec.rest(world, n, k, c) == loading(
                    image@,
                    file.rest(world.second, n).result,
                    crate::process::load::chunk_pieces(
                        image@.segments,
                        segment as int,
                        done as int,
                        pos as int,
                        exec.sector@.take(taken as int),
                    ) + crate::process::load::data_pieces(
                        image@.segments,
                        pos + taken,
                        file.rest(world.second, n).data,
                    ),
                    false,
                    world,
                    c,
                ).after_reads(file.rest(world.second, n).reads) by {
                    let chunk = exec.sector@.take(taken as int);
                    assert(chunk.len() == taken);
                    let rest = crate::process::load::data_pieces(
                        image@.segments,
                        pos + taken,
                        file.rest(world.second, n).data,
                    );
                    assert(Seq::<crate::process::load::Copied>::empty() + rest =~= rest);
                }
            }
            stage
        },
    }
}

/// The header `is` follows from `was` by adding `had` to its first `filled`
/// bytes, as far as there is room: now `now` of them are filled.
spec fn header_follows(was: Seq<u8>, is: Seq<u8>, filled: int, now: int, had: Seq<u8>) -> bool {
    &&& was.len() == HEADER_BUFFER
    &&& is.len() == HEADER_BUFFER
    &&& 0 <= filled <= now <= HEADER_BUFFER
    &&& now == filled + had.len() || (now == HEADER_BUFFER && now <= filled + had.len())
    &&& is.take(now) == was.take(filled) + had.take(now - filled)
    &&& forall|i: int| now <= i < HEADER_BUFFER ==> (#[trigger] is[i]) == 0
}

proof fn lemma_header_grows(
    was: Seq<u8>,
    is: Seq<u8>,
    filled: int,
    now: int,
    had: Seq<u8>,
    rest: Seq<u8>,
)
    requires
        header_follows(was, is, filled, now, had),
    ensures
        header_of(was.take(filled) + (had + rest)) == header_of(is.take(now) + rest),
        rest.len() == 0 ==> header_of(is.take(now) + rest) == is,
{
    let before = was.take(filled) + (had + rest);
    let after = is.take(now) + rest;
    assert forall|i: int| 0 <= i < HEADER_BUFFER implies header_of(before)[i] == header_of(
        after,
    )[i] by {
        if i < now {
            assert(after[i] == is.take(now)[i]);
        }
    }
    assert(header_of(before) =~= header_of(after));
    if rest.len() == 0 {
        assert(header_of(after) =~= is);
    }
}

proof fn lemma_reads_twice(life: Life, first: Seq<Read>, later: Seq<Read>)
    ensures
        life.after_reads(first + later) == life.after_reads(later).after_reads(first),
        life.after_reads(Seq::empty()) == life,
{
    assert(first + later + life.reads =~= first + (later + life.reads));
    assert(Seq::<Read>::empty() + life.reads =~= life.reads);
}

proof fn lemma_after_header<'a>(
    exec: Exec<'a>,
    read: Result<u32, FsError>,
    data: Seq<u8>,
    world: World,
    n: nat,
    k: nat,
    c: nat,
)
    requires
        is_after_header(exec.stage, read, header_of(data)),
    ensures
        exec.rest(world, n, k, c) == checking(
            exec.mounted,
            exec.path.spec_bytes(),
            read,
            data,
            world,
        ),
{
}

proof fn lemma_header_step<'a>(
    before: Exec<'a>,
    after: Exec<'a>,
    file_before: ReadFile<'a>,
    file: ReadFile<'a>,
    filled: usize,
    now: usize,
    had: Seq<u8>,
    world: World,
    n: nat,
    k: nat,
    c: nat,
)
    requires
        before.stage == (Stage::Reading { file: file_before, filled }),
        header_follows(before.header@, after.header@, filled as int, now as int, had),
        after.mounted == before.mounted,
        after.path == before.path,
        file_before.pending() is Some,
        file_before.rest(world.first, n) == file.rest(world.first, n + 1).after(
            file_before.pending()->0,
            had,
        ),
        match file.stage {
            crate::fat::file::ReadStage::Done(read) => is_after_header(
                after.stage,
                read,
                after.header@,
            ),
            _ => after.stage == (Stage::Reading { file, filled: now }),
        },
    ensures
        before.rest(world, n, k, c) == before.followed_by(Answer::Other, after.rest(world, n + 1, k, c)),
{
    let f = file_before.rest(world.first, n);
    let g = file.rest(world.first, n + 1);
    let read = file_before.pending()->0;
    let path = after.path.spec_bytes();
    let data = after.header@.take(now as int) + g.data;
    let life = checking(after.mounted, path, g.result, data, world);
    lemma_header_grows(before.header@, after.header@, filled as int, now as int, had, g.data);
    lemma_reads_twice(life, seq![read], g.reads);
    assert(before.rest(world, n, k, c) == life.after_reads(f.reads));
    if let crate::fat::file::ReadStage::Done(result) = file.stage {
        lemma_after_header(after, result, data, world, n + 1, k, c);
        lemma_reads_twice(life, Seq::empty(), Seq::empty());
        assert(g.reads == Seq::<Read>::empty());
    }
    assert(after.rest(world, n + 1, k, c) == life.after_reads(g.reads));
}

impl<'a> Exec<'a> {
    /// Goes on with the sector that was asked for.
    pub fn sector(&mut self, reply: Result<&[u8; SECTOR_SIZE], AtaError>)
        requires
            old(self).wf(),
            old(self).stage is Reading || old(self).stage is Fetching,
        ensures
            final(self).wf(),
            final(self).mounted == old(self).mounted,
            final(self).path == old(self).path,
            forall|world: World, n: nat, k: nat, c: nat|
                (if old(self).stage is Reading {
                    (world.first)(n)
                } else {
                    (world.second)(n)
                }) == crate::fat::lookup::reply_view(reply) ==> #[trigger] old(self).rest(
                    world,
                    n,
                    k,
                    c,
                ) == old(self).followed_by(Answer::Other, final(self).rest(world, n + 1, k, c)),
    {
        match self.stage {
            Stage::Reading { .. } => self.header_sector(reply),
            _ => self.load_sector(reply),
        }
    }

    /// Goes on with a sector of the first pass.
    fn header_sector(&mut self, reply: Result<&[u8; SECTOR_SIZE], AtaError>)
        requires
            old(self).wf(),
            old(self).stage is Reading,
        ensures
            final(self).wf(),
            final(self).mounted == old(self).mounted,
            final(self).path == old(self).path,
            forall|world: World, n: nat, k: nat, c: nat|
                (world.first)(n) == crate::fat::lookup::reply_view(reply) ==> #[trigger] old(
                    self,
                ).rest(world, n, k, c) == old(self).followed_by(
                    Answer::Other,
                    final(self).rest(world, n + 1, k, c),
                ),
    {
        if let Stage::Reading { file, filled } = self.stage {
            let ghost file_before = file;
            let ghost header_before = self.header@;
            let mut file = file;
            let taken: usize = file.resume(reply);
            let ghost had = crate::fat::file::delivered(reply, taken);
            let mut now: usize = filled;
            if let Ok(sector) = reply {
                now = self.gather(filled, sector, taken);
            }
            self.stage = match file.result() {
                Some(read) => after_header(read, &self.header),
                None => Stage::Reading { file, filled: now },
            };
            proof {
                let after = *self;
                match reply {
                    Ok(sector) => {
                        assert(had.take(now - filled) =~= sector@.take(now - filled));
                    },
                    Err(_) => {
                        assert(had.take(0) =~= Seq::<u8>::empty());
                        assert(header_before.take(filled as int) + Seq::<u8>::empty()
                            =~= header_before.take(filled as int));
                    },
                }
                assert(header_follows(header_before, after.header@, filled as int, now as int, had));
                assert forall|world: World, n: nat, k: nat, c: nat|
                    (world.first)(n) == crate::fat::lookup::reply_view(
                        reply,
                    ) implies #[trigger] old(self).rest(world, n, k, c) == old(self).followed_by(
                    Answer::Other,
                    after.rest(world, n + 1, k, c),
                ) by {
                    let g = file.rest(world.first, n + 1);
                    assert(file_before.rest(world.first, n) == g.after(
                        file_before.pending()->0,
                        had,
                    ));
                    lemma_header_step(
                        *old(self),
                        after,
                        file_before,
                        file,
                        filled,
                        now,
                        had,
                        world,
                        n,
                        k,
                        c,
                    );
                }
            }
        }
    }

    /// Goes on with a sector of the second pass.
    fn load_sector(&mut self, reply: Result<&[u8; SECTOR_SIZE], AtaError>)
        requires
            old(self).wf(),
            old(self).stage is Fetching,
        ensures
            final(self).wf(),
            final(self).mounted == old(self).mounted,
            final(self).path == old(self).path,
            forall|world: World, n: nat, k: nat, c: nat|
                (world.second)(n) == crate::fat::lookup::reply_view(reply) ==> #[trigger] old(
                    self,
                ).rest(world, n, k, c) == old(self).followed_by(
                    Answer::Other,
                    final(self).rest(world, n + 1, k, c),
                ),
    {
        if let Stage::Fetching { image, file, pos, failed } = self.stage {
            let ghost file_before = file;
            let mut file = file;
            let taken: usize = file.resume(reply);
            if let Ok(sector) = reply {
                self.sector = *sector;
            }
            self.stage = if failed || taken == 0 {
                after_chunk(image, file, pos + taken as u64, failed)
            } else {
                with_chunk(image, file, pos, taken, 0, 0)
            };
            proof {
                let after = *self;
                let read = file_before.pending()->0;
                let had = crate::fat::file::delivered(reply, taken);
                let segments = image@.segments;
                assert forall|world: World, n: nat, k: nat, c: nat|
                    (world.second)(n) == crate::fat::lookup::reply_view(
                        reply,
                    ) implies #[trigger] old(self).rest(world, n, k, c) == old(self).followed_by(
                    Answer::Other,
                    after.rest(world, n + 1, k, c),
                ) by {
                    let f = file_before.rest(world.second, n);
                    let g = file.rest(world.second, n + 1);
                    assert(f == g.after(read, had));
                    assert(had.len() == taken);
                    lemma_data_pieces_of_both(segments, pos as int, had, g.data);
                    let later = crate::process::load::data_pieces(segments, pos + taken, g.data);
                    if taken == 0 {
                        lemma_no_pieces_of_nothing(segments, 0, pos as int, had);
                        assert(Seq::<crate::process::load::Copied>::empty() + later =~= later);
                    } else {
                        assert(had == after.sector@.take(taken as int));
                    }
                    let all = crate::process::load::data_pieces(segments, pos as int, f.data);
                    let was = loading(image@, f.result, all, failed, world, c);
                    let is = loading(
                        image@,
                        g.result,
                        if failed {
                            later
                        } else {
                            all
                        },
                        failed,
                        world,
                        c,
                    );
                    assert(was == is);
                    assert(was.after_reads(f.reads) =~= is.after_reads(g.reads).after_reads(
                        seq![read],
                    ));
                }
            }
        }
    }

    /// Adds the first `taken` bytes of a sector to the header, as far as there
    /// is room; gives how many bytes of the header are filled.
    fn gather(&mut self, filled: usize, sector: &[u8; SECTOR_SIZE], taken: usize) -> (now: usize)
        requires
            filled <= HEADER_BUFFER,
            taken <= SECTOR_SIZE,
            forall|i: int|
                filled <= i < HEADER_BUFFER ==> (#[trigger] old(self).header@[i]) == 0,
        ensures
            final(self).mounted == old(self).mounted,
            final(self).path == old(self).path,
            final(self).sector == old(self).sector,
            final(self).stage == old(self).stage,
            now <= HEADER_BUFFER,
            now == (if filled + taken < HEADER_BUFFER {
                filled + taken
            } else {
                HEADER_BUFFER as int
            }),
            final(self).header@.take(now as int) == old(self).header@.take(filled as int)
                + sector@.take(now - filled),
            forall|i: int| now <= i < HEADER_BUFFER ==> (#[trigger] final(self).header@[i]) == 0,
    {
        let mut i: usize = 0;
        assert(sector@.take(0) =~= Seq::<u8>::empty());
        while i < taken && filled + i < HEADER_BUFFER
            invariant
                i <= taken <= SECTOR_SIZE,
                filled + i <= HEADER_BUFFER,
                self.mounted == old(self).mounted,
                self.path == old(self).path,
                self.sector == old(self).sector,
                self.stage == old(self).stage,
                self.header@.take(filled + i) =~= old(self).header@.take(filled as int)
                    + sector@.take(i as int),
                forall|k: int|
                    filled + i <= k < HEADER_BUFFER ==> (#[trigger] self.header@[k]) == 0,
            decreases taken - i,
        {
            let ghost before = self.header@;
            self.header[filled + i] = sector[i];
            i = i + 1;
            assert(self.header@.take(filled + i) =~= before.take(filled + i - 1).push(
                sector@[i - 1],
            ));
            assert(sector@.take(i as int) =~= sector@.take(i - 1).push(sector@[i - 1]));
        }
        filled + i
    }
}

impl<'a> Exec<'a> {
    /// The stage waits for a plain answer.
    pub open spec fn asks(&self) -> bool {
        self.stage is Creating || self.stage is Probing || self.stage is Mapping
            || self.stage is Copying
    }

    /// The answer that the world has to what is asked.
    pub open spec fn answer_of(&self, world: World, k: nat, c: nat) -> bool {
        match self.stage {
            Stage::Creating { .. } => world.created,
            Stage::Probing { .. } => (world.already)(k),
            Stage::Mapping { .. } => (world.linked)(k),
            _ => (world.copied)(c),
        }
    }

    /// What is still to come once it is answered. A page is done with once it
    /// was found mapped, or was asked to be; a piece once it was tried. The second
    /// pass over the file, and the copying, begin from their first answer.
    pub open spec fn rest_after_answer(
        &self,
        next: Exec<'_>,
        ok: bool,
        world: World,
        n: nat,
        k: nat,
        c: nat,
    ) -> Life {
        match self.stage {
            Stage::Creating { .. } => next.rest(world, 0, 0, 0),
            Stage::Probing { .. } => next.rest(
                world,
                0,
                if ok {
                    k + 1
                } else {
                    k
                },
                0,
            ),
            Stage::Mapping { .. } => next.rest(world, 0, k + 1, 0),
            _ => next.rest(world, n, k, c + 1),
        }
    }

    /// Goes on with the answer to what was asked: whether the address space
    /// could be made, the page was mapped already, the page could be mapped, or
    /// the page to copy to was mapped.
    pub fn answered(&mut self, ok: bool)
        requires
            old(self).wf(),
            old(self).asks(),
        ensures
            final(self).wf(),
            final(self).mounted == old(self).mounted,
            final(self).path == old(self).path,
            forall|world: World, n: nat, k: nat, c: nat|
                old(self).answer_of(world, k, c) == ok ==> #[trigger] old(self).rest(
                    world,
                    n,
                    k,
                    c,
                ) == old(self).followed_by(
                    Answer::Plain(ok),
                    old(self).rest_after_answer(*final(self), ok, world, n, k, c),
                ),
    {
        match self.stage {
            Stage::Creating { .. } => self.created(ok),
            Stage::Probing { .. } => self.probed(ok),
            Stage::Mapping { .. } => self.linked(ok),
            _ => self.copied(ok),
        }
    }

    /// Goes on after an address space was asked for.
    fn created(&mut self, ok: bool)
        requires
            old(self).wf(),
            old(self).stage is Creating,
        ensures
            final(self).wf(),
            final(self).mounted == old(self).mounted,
            final(self).path == old(self).path,
            forall|world: World, n: nat, k: nat, c: nat|
                world.created == ok ==> #[trigger] old(self).rest(world, n, k, c) == old(
                    self,
                ).followed_by(Answer::Plain(ok), final(self).rest(world, 0, 0, 0)),
    {
        if let Stage::Creating { image } = self.stage {
            proof {
                let segments = image@.segments;
                assert(image@.segments[0].wf());
                assert(segment_pages(segments[0]).skip(0) =~= segment_pages(segments[0]));
                assert(pages_at(segments, 0, 0) == image_pages(segments, 0));
            }
            self.stage = if ok {
                Stage::Probing { image, segment: 0, page: 0 }
            } else {
                Stage::Done(Err(ProcError::OutOfMemory))
            };
            proof {
                let pages = image_pages(image@.segments, 0);
                assert forall|world: World|
                    #![trigger mapping(self.mounted, self.path.spec_bytes(), image@, pages, world, 0)]
                    mapping(
                        self.mounted,
                        self.path.spec_bytes(),
                        image@,
                        pages,
                        world,
                        0,
                    ).creates == 0 by {
                    lemma_mapping_creates_nothing(
                        self.mounted,
                        self.path.spec_bytes(),
                        image@,
                        pages,
                        world,
                        0,
                    );
                }
            }
        }
    }

    /// Goes on after a page was asked about.
    fn probed(&mut self, ok: bool)
        requires
            old(self).wf(),
            old(self).stage is Probing,
        ensures
            final(self).wf(),
            final(self).mounted == old(self).mounted,
            final(self).path == old(self).path,
            forall|world: World, n: nat, k: nat, c: nat|
                (world.already)(k) == ok ==> #[trigger] old(self).rest(world, n, k, c) == old(
                    self,
                ).followed_by(Answer::Plain(ok), final(self).rest(world, 0, if ok { k + 1 } else { k }, 0)),
    {
        if let Stage::Probing { image, segment, page } = self.stage {
            proof {
                lemma_page_in_range(image, segment, page);
            }
            if ok {
                self.to_next_page(image, segment, page);
            } else {
                self.stage = Stage::Allocating { image, segment, page };
            }
        }
    }

    /// Goes on with the frame that was asked for, if there was one.
    pub fn allocated(&mut self, frame: Option<u64>)
        requires
            old(self).wf(),
            old(self).stage is Allocating,
        ensures
            final(self).wf(),
            final(self).mounted == old(self).mounted,
            final(self).path == old(self).path,
            forall|world: World, n: nat, k: nat, c: nat|
                (world.frame)(k) == frame ==> #[trigger] old(self).rest(world, n, k, c) == old(
                    self,
                ).followed_by(Answer::Frame(frame), final(self).rest(world, 0, k, 0)),
    {
        if let Stage::Allocating { image, segment, page } = self.stage {
            self.stage = match frame {
                Some(frame) => Stage::Mapping { image, segment, page, frame },
                None => Stage::Aborting(ProcError::OutOfMemory),
            };
        }
    }

    /// Goes on after a page was asked to be mapped.
    fn linked(&mut self, ok: bool)
        requires
            old(self).wf(),
            old(self).stage is Mapping,
        ensures
            final(self).wf(),
            final(self).mounted == old(self).mounted,
            final(self).path == old(self).path,
            forall|world: World, n: nat, k: nat, c: nat|
                (world.linked)(k) == ok ==> #[trigger] old(self).rest(world, n, k, c) == old(
                    self,
                ).followed_by(Answer::Plain(ok), final(self).rest(world, 0, k + 1, 0)),
    {
        if let Stage::Mapping { image, segment, page, frame } = self.stage {
            proof {
                lemma_page_in_range(image, segment, page);
            }
            if ok {
                self.to_next_page(image, segment, page);
            } else {
                self.stage = Stage::GivingBack { frame };
            }
        }
    }

    /// Goes on to the page after this one, or to the second pass over the file.
    fn to_next_page(&mut self, image: Image, segment: usize, page: u64)
        requires
            old(self).wf(),
            is_page(image, segment, page),
        ensures
            final(self).wf(),
            final(self).mounted == old(self).mounted,
            final(self).path == old(self).path,
            forall|world: World, k: nat| #[trigger]
                final(self).rest(world, 0, k, 0) == mapping(
                    old(self).mounted,
                    old(self).path.spec_bytes(),
                    image@,
                    pages_at(image@.segments, segment as int, page as int).drop_first(),
                    world,
                    k,
                ),
    {
        match next_page(&image, segment, page) {
            Some((segment, page)) => {
                self.stage = Stage::Probing { image, segment, page };
            },
            None => {
                let file = read_file(self.mounted, self.path);
                self.stage = after_chunk(image, file, 0, false);
            },
        }
    }

    /// Goes on after a piece was tried.
    fn copied(&mut self, ok: bool)
        requires
            old(self).wf(),
            old(self).stage is Copying,
        ensures
            final(self).wf(),
            final(self).mounted == old(self).mounted,
            final(self).path == old(self).path,
            forall|world: World, n: nat, k: nat, c: nat|
                (world.copied)(c) == ok ==> #[trigger] old(self).rest(world, n, k, c) == old(
                    self,
                ).followed_by(Answer::Plain(ok), final(self).rest(world, n, k, c + 1)),
    {
        if let Stage::Copying { image, file, pos, taken, piece } = self.stage {
            self.stage = if ok {
                with_chunk(image, file, pos, taken, piece.segment, piece.done)
            } else {
                after_chunk(image, file, pos + taken as u64, true)
            };
            proof {
                let after = *self;
                let chunk = old(self).sector@.take(taken as int);
                let here = piece.of(chunk);
                assert(here.bytes =~= old(self).sector@.subrange(
                    piece.from as int,
                    piece.from + piece.len,
                ));
                assert forall|world: World, n: nat, k: nat, c: nat|
                    (world.copied)(c) == ok implies #[trigger] old(self).rest(world, n, k, c)
                    == old(self).followed_by(Answer::Plain(ok), after.rest(world, n, k, c + 1)) by {
                    let f = file.rest(world.second, n);
                    let left = crate::process::load::chunk_pieces(
                        image@.segments,
                        piece.segment as int,
                        piece.done as int,
                        pos as int,
                        chunk,
                    );
                    let later = crate::process::load::data_pieces(
                        image@.segments,
                        pos + taken,
                        f.data,
                    );
                    lemma_one_copied(image@, f.result, here, left, later, ok, world, c, f.reads);
                }
            }
        }
    }
}

proof fn lemma_mapping_creates_nothing(
    mounted: Option<Volume>,
    path: Seq<u8>,
    image: crate::elf::ImageModel,
    pages: Seq<PageMap>,
    world: World,
    k: nat,
)
    ensures
        mapping(mounted, path, image, pages, world, k).creates == 0,
    decreases pages.len(),
{
    reveal_with_fuel(mapping, 4);
    reveal_with_fuel(gaining, 4);
    reveal_with_fuel(linking, 4);
    if pages.len() > 0 {
        lemma_mapping_creates_nothing(mounted, path, image, pages.drop_first(), world, k + 1);
    }
}

proof fn lemma_one_copied(
    image: crate::elf::ImageModel,
    read: Result<u32, FsError>,
    here: crate::process::load::Copied,
    left: Seq<crate::process::load::Copied>,
    later: Seq<crate::process::load::Copied>,
    ok: bool,
    world: World,
    c: nat,
    reads: Seq<Read>,
)
    requires
        (world.copied)(c) == ok,
    ensures
        loading(image, read, (seq![here] + left) + later, false, world, c).after_reads(reads)
            == loading(
            image,
            read,
            if ok {
                left + later
            } else {
                later
            },
            !ok,
            world,
            c + 1,
        ).after_reads(reads).after_copies(seq![here]),
{
    let all = (seq![here] + left) + later;
    assert(all.drop_first() =~= left + later);
    assert(all[0] == here);
    let was = loading(image, read, all, false, world, c).after_reads(reads);
    let is = loading(
        image,
        read,
        if ok {
            left + later
        } else {
            later
        },
        !ok,
        world,
        c + 1,
    ).after_reads(reads).after_copies(seq![here]);
    assert(was.copied =~= is.copied);
    assert(was.reads =~= is.reads);
}

impl<'a> Exec<'a> {
    /// The stage waits for something to be done.
    pub open spec fn is_doing(&self) -> bool {
        self.stage is GivingBack || self.stage is Activating || self.stage is Restoring
            || self.stage is Aborting || self.stage is Destroying || self.stage is Finishing
    }

    /// Goes on with the number that the process was given.
    pub fn started(&mut self, pid: u64)
        requires
            old(self).wf(),
            old(self).stage is Starting,
        ensures
            final(self).wf(),
            final(self).mounted == old(self).mounted,
            final(self).path == old(self).path,
            forall|world: World, n: nat, k: nat, c: nat|
                world.pid == pid ==> #[trigger] old(self).rest(world, n, k, c) == old(
                    self,
                ).followed_by(Answer::Other, final(self).rest(world, n, k, c)),
    {
        if let Stage::Starting { entry } = self.stage {
            self.stage = Stage::Activating { entry, pid };
        }
    }

    /// Goes on with the exit code of the program.
    pub fn exited(&mut self, code: u64)
        requires
            old(self).wf(),
            old(self).stage is Entering,
        ensures
            final(self).wf(),
            final(self).mounted == old(self).mounted,
            final(self).path == old(self).path,
            forall|world: World, n: nat, k: nat, c: nat|
                world.code == code ==> #[trigger] old(self).rest(world, n, k, c) == old(
                    self,
                ).followed_by(Answer::Other, final(self).rest(world, n, k, c)),
    {
        if let Stage::Entering { entry, pid } = self.stage {
            self.stage = Stage::Restoring { pid, code };
        }
    }

    /// Goes on once what was asked is done: a frame is given back, an address
    /// space is made active or torn down, or the exit is noted.
    pub fn done(&mut self)
        requires
            old(self).wf(),
            old(self).is_doing(),
        ensures
            final(self).wf(),
            final(self).mounted == old(self).mounted,
            final(self).path == old(self).path,
            forall|world: World, n: nat, k: nat, c: nat| #[trigger]
                old(self).rest(world, n, k, c) == old(self).followed_by(
                    Answer::Other,
                    final(self).rest(world, n, k, c),
                ),
    {
        match self.stage {
            Stage::GivingBack { .. } => {
                self.stage = Stage::Aborting(ProcError::OutOfMemory);
            },
            Stage::Activating { entry, pid } => {
                self.stage = Stage::Entering { entry, pid };
            },
            Stage::Restoring { pid, code } => {
                self.stage = Stage::Destroying { pid, code };
            },
            Stage::Aborting(error) => {
                self.stage = Stage::Done(Err(error));
            },
            Stage::Destroying { pid, code } => {
                self.stage = Stage::Finishing { pid, code };
            },
            Stage::Finishing { pid, code } => {
                self.stage = Stage::Done(Ok(code));
                assert(seq![(pid, code)] + Seq::<(u64, u64)>::empty() =~= seq![(pid, code)]);
            },
            _ => {},
        }
    }
}

/// A program that has an address space comes to an orderly end: the address
/// space is torn down exactly once; and either the program was entered in it,
/// exited, the address space before was made active again, and the exit was
/// noted, or it was never entered at all. Where a page cannot be mapped, that is
/// the end, and its frame is given back.
pub open spec fn is_orderly(life: Life, world: World) -> bool {
    &&& life.creates == 0
    &&& life.destroys == 1
    &&& life.activations == life.entered.len()
    &&& life.restores == life.entered.len()
    &&& life.mapped.len() == life.frames.len()
    &&& life.allocates == life.frames.len() || (life.allocates == life.frames.len() + 1
        && life.result == Err::<u64, ProcError>(ProcError::OutOfMemory) && life.returned.len()
        == 0)
    &&& life.returned.len() == 0 || (life.frames.len() > 0 && life.returned
        == seq![life.frames.last()] && life.result == Err::<u64, ProcError>(
        ProcError::OutOfMemory,
    ))
    &&& match life.result {
        Ok(code) => {
            &&& code == world.code
            &&& life.starts == 1
            &&& life.entered.len() == 1 && life.entered[0].pid == world.pid
            &&& life.finished == seq![(world.pid, world.code)]
        },
        Err(_) => life.starts == 0 && life.entered.len() == 0 && life.finished.len() == 0,
    }
}

/// All the pages asked for are among these.
pub open spec fn maps_only(life: Life, pages: Seq<PageMap>) -> bool {
    forall|i: int| 0 <= i < life.mapped.len() ==> pages.contains(#[trigger] life.mapped[i])
}

proof fn lemma_maps_only_after(life: Life, pages: Seq<PageMap>, frame: u64, ok: bool)
    requires
        pages.len() > 0,
        maps_only(life, pages.drop_first()) || life.mapped.len() == 0,
    ensures
        maps_only(life, pages),
        maps_only(life.after_map(pages[0], frame, ok), pages),
{
    assert(pages[0] == pages.first());
    assert forall|i: int| 0 <= i < life.mapped.len() implies pages.contains(
        #[trigger] life.mapped[i],
    ) by {
        let rest = pages.drop_first();
        let j = choose|j: int| 0 <= j < rest.len() && rest[j] == life.mapped[i];
        assert(pages[j + 1] == life.mapped[i]);
    }
    let after = life.after_map(pages[0], frame, ok);
    assert forall|i: int| 0 <= i < after.mapped.len() implies pages.contains(
        #[trigger] after.mapped[i],
    ) by {
        if i > 0 {
            assert(after.mapped[i] == life.mapped[i - 1]);
        }
    }
}

proof fn lemma_mapping_is_orderly(
    mounted: Option<Volume>,
    path: Seq<u8>,
    image: crate::elf::ImageModel,
    pages: Seq<PageMap>,
    world: World,
    k: nat,
)
    ensures
        is_orderly(mapping(mounted, path, image, pages, world, k), world),
        maps_only(mapping(mounted, path, image, pages, world, k), pages),
    decreases pages.len(),
{
    reveal_with_fuel(mapping, 4);
    reveal_with_fuel(gaining, 4);
    reveal_with_fuel(linking, 4);
    if pages.len() > 0 {
        let rest = mapping(mounted, path, image, pages.drop_first(), world, k + 1);
        lemma_mapping_is_orderly(mounted, path, image, pages.drop_first(), world, k + 1);
        match (world.frame)(k) {
            Some(frame) => {
                lemma_maps_only_after(rest, pages, frame, true);
                lemma_maps_only_after(unlinked(frame), pages, frame, false);
                lemma_linked_is_orderly(rest, world, pages[0], frame);
                lemma_unlinked_is_orderly(world, pages[0], frame);
            },
            None => {
                lemma_maps_only_after(aborted(ProcError::OutOfMemory), pages, 0, false);
            },
        }
    }
}

proof fn lemma_linked_is_orderly(rest: Life, world: World, page: PageMap, frame: u64)
    requires
        is_orderly(rest, world),
    ensures
        is_orderly(rest.after_map(page, frame, true).after_allocate(Some(frame)), world),
{
    let life = rest.after_map(page, frame, true).after_allocate(Some(frame));
    if rest.frames.len() > 0 {
        assert(life.frames.last() == rest.frames.last());
    }
}

proof fn lemma_unlinked_is_orderly(world: World, page: PageMap, frame: u64)
    ensures
        is_orderly(unlinked(frame).after_map(page, frame, false).after_allocate(Some(frame)), world),
{
    let life = unlinked(frame).after_map(page, frame, false).after_allocate(Some(frame));
    assert(life.frames =~= seq![frame]);
    assert(life.returned =~= seq![frame]);
}

/// Nothing is allocated for a program before its headers have been found in
/// order, and everything is given back: an address space is asked for at most
/// once, only for an image without fault; each one that is made is torn down
/// exactly once, whatever happens. A program is entered at most once, in its own
/// address space, and then the one before is made active again and its exit is
/// noted under the number that it was given.
pub proof fn law_lives_are_orderly(
    active: bool,
    mounted: Option<Volume>,
    path: Seq<u8>,
    world: World,
)
    ensures
        ({
            let life = life(active, mounted, path, world);
            let file = crate::fat::file::contents(mounted, path, world.first);
            &&& life.creates <= 1
            &&& life.creates == 1 <==> !active && file.result is Ok && (crate::elf::parsed(
                header_of(file.data),
            ) matches Ok(image) && crate::process::fault(image) is None)
            &&& life.destroys == (if life.creates == 1 && world.created {
                1nat
            } else {
                0nat
            })
            &&& life.destroys == 0 ==> life.probed.len() == 0 && life.mapped.len() == 0
                && life.allocates == 0 && life.frames.len() == 0 && life.returned.len() == 0
                && life.copied.len() == 0 && life.entered.len() == 0 && life.activations == 0
                && life.restores == 0 && life.result is Err
            &&& life.destroys == 1 ==> is_orderly((Life { creates: 0, ..life }), world)
            &&& active ==> life == Life::ended(Err(ProcError::Busy))
        }),
{
    let file = crate::fat::file::contents(mounted, path, world.first);
    if !active && file.result is Ok {
        if let Ok(image) = crate::elf::parsed(header_of(file.data)) {
            lemma_mapping_is_orderly(
                mounted,
                path,
                image,
                image_pages(image.segments, 0),
                world,
                0,
            );
        }
    }
}

pub(crate) proof fn lemma_image_pages_are_user_pages(
    segments: Seq<crate::elf::Segment>,
    i: int,
    page: PageMap,
)
    requires
        0 <= i,
        image_pages(segments, i).contains(page),
        forall|s: int|
            0 <= s < segments.len() ==> crate::process::in_user_region(#[trigger] segments[s]),
    ensures
        page.addr % 4096 == 0,
        USER_REGION_START <= page.addr && page.addr + 4096 <= USER_REGION_END,
    decreases segments.len() - i,
{
    let pages = image_pages(segments, i);
    let j = choose|j: int| 0 <= j < pages.len() && pages[j] == page;
    if i < segments.len() {
        let mine = segment_pages(segments[i]);
        assert(crate::process::in_user_region(segments[i]));
        if j < mine.len() {
            assert(page == mine[j]);
        } else {
            assert(image_pages(segments, i + 1)[j - mine.len()] == page);
            lemma_image_pages_are_user_pages(segments, i + 1, page);
        }
    }
}

/// A program is given pages of the user region only.
pub proof fn law_only_user_pages_are_mapped(
    active: bool,
    mounted: Option<Volume>,
    path: Seq<u8>,
    world: World,
)
    ensures
        forall|i: int|
            0 <= i < life(active, mounted, path, world).mapped.len() ==> {
                let page = #[trigger] life(active, mounted, path, world).mapped[i];
                &&& page.addr % 4096 == 0
                &&& USER_REGION_START <= page.addr
                &&& page.addr + 4096 <= USER_REGION_END
            },
{
    let all = life(active, mounted, path, world);
    let file = crate::fat::file::contents(mounted, path, world.first);
    assert forall|i: int| 0 <= i < all.mapped.len() implies {
        let page = #[trigger] all.mapped[i];
        &&& page.addr % 4096 == 0
        &&& USER_REGION_START <= page.addr
        &&& page.addr + 4096 <= USER_REGION_END
    } by {
        if let Ok(image) = crate::elf::parsed(header_of(file.data)) {
            let pages = image_pages(image.segments, 0);
            lemma_mapping_is_orderly(mounted, path, image, pages, world, 0);
            crate::process::law_faultless_images_are_confined(image);
            assert(pages.contains(all.mapped[i]));
            lemma_image_pages_are_user_pages(image.segments, 0, all.mapped[i]);
        }
    }
}

} // verus!
