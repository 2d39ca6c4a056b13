//! Minimal ELF64 parser for statically linked executables.
//!
//! Reads just enough of the format to load a program: validate the identity
//! bytes and machine type, then collect the `PT_LOAD` program headers that say
//! "map this range of the file at this virtual address."
//!
//! Everything here treats the file as untrusted input. A program header is a
//! request to map memory at an address of the file's choosing, so sizes are
//! checked for overflow, and [`crate::process`] additionally confirms that
//! every segment lands inside the user region.

use vstd::prelude::*;

use crate::bytes::{u16_at, u32_at, u64_at};

verus! {

/// Program headers must live within the first chunk of the file that the
/// loader buffers. Real linkers place them immediately after the ELF header,
/// so this is generous.
pub const HEADER_BUFFER: usize = 2048;

/// Enough for a conventional code/rodata/data/bss layout.
pub const MAX_SEGMENTS: usize = 8;

const ELFCLASS64: u8 = 2;
const ELFDATA2LSB: u8 = 1;
const EV_CURRENT: u8 = 1;
const ET_EXEC: u16 = 2;
const EM_X86_64: u16 = 0x3E;
const PT_LOAD: u32 = 1;
const PF_X: u32 = 1;
const PF_W: u32 = 2;

const EHDR_SIZE: usize = 64;
const PHDR_SIZE: usize = 56;


/// Why a file was refused.
#[derive(Debug, Clone, Copy, PartialEq, Eq, Structural)]
pub enum ElfError {
    /// Too short to even contain a header.
    Truncated,
    NotAnElf,
    /// 32-bit, big-endian, or an unexpected ELF version.
    UnsupportedFormat,
    /// Not a statically linked x86-64 executable (e.g. a shared object).
    UnsupportedType,
    /// Program headers are absent, malformed, or outside the buffered prefix.
    BadProgramHeaders,
    /// More loadable segments than [`MAX_SEGMENTS`].
    TooManySegments,
    /// A segment's file range or memory range is nonsensical.
    BadSegment,
}

/// One `PT_LOAD` segment: bytes `[file_offset, file_offset + file_size)` of the
/// file belong at `vaddr`, and the memory range extends to `mem_size` with the
/// remainder zero-filled (this is how `.bss` is expressed).
#[derive(Debug, Clone, Copy, PartialEq, Eq, Structural)]
pub struct Segment {
    pub vaddr: u64,
    pub mem_size: u64,
    pub file_offset: u64,
    pub file_size: u64,
    pub writable: bool,
    pub executable: bool,
}

impl Segment {
    /// The segment occupies memory, holds no more file bytes than memory, and
    /// neither of its ranges runs past the end of a 64-bit number.
    pub open spec fn wf(self) -> bool {
        &&& 0 < self.mem_size
        &&& self.file_size <= self.mem_size
        &&& self.vaddr + self.mem_size <= u64::MAX
        &&& self.file_offset + self.file_size <= u64::MAX
    }

    /// Exclusive end of the memory this segment occupies.
    pub fn mem_end(&self) -> (end: u64)
        requires
            self.vaddr + self.mem_size <= u64::MAX,
        ensures
            end == self.vaddr + self.mem_size,
    {
        self.vaddr + self.mem_size
    }
}

/// A parsed executable: where to start, and what to map.
#[derive(Debug, Clone, Copy, PartialEq, Eq)]
pub struct Image {
    pub entry: u64,
    /// The segments fill the first `count` places.
    pub segments: [Segment; MAX_SEGMENTS],
    pub count: usize,
}

/// What an [`Image`] stands for.
pub ghost struct ImageModel {
    pub entry: u64,
    pub segments: Seq<Segment>,
}

impl View for Image {
    type V = ImageModel;

    open spec fn view(&self) -> ImageModel {
        ImageModel { entry: self.entry, segments: self.segments@.take(self.count as int) }
    }
}

impl Image {
    /// Between one and [`MAX_SEGMENTS`] segments, each of them well formed.
    pub open spec fn wf(&self) -> bool {
        &&& 0 < self.count <= MAX_SEGMENTS
        &&& forall|i: int| 0 <= i < self.count ==> (#[trigger] self@.segments[i]).wf()
    }

    /// The loadable segments, in file order.
    pub fn segments(&self) -> (segments: &[Segment])
        requires
            self.wf(),
        ensures
            segments@ == self@.segments,
    {
        vstd::slice::slice_subrange(self.segments.as_slice(), 0, self.count)
    }

    /// How many loadable segments there are.
    pub fn segment_count(&self) -> (count: usize)
        requires
            self.wf(),
        ensures
            count == self@.segments.len(),
    {
        self.count
    }
}

/// The program header at byte `at`: its type, and the segment it describes.
pub open spec fn header_type(buf: Seq<u8>, at: int) -> nat {
    crate::bytes::le32(buf, at)
}

/// The segment that the program header at byte `at` describes.
pub open spec fn header_segment(buf: Seq<u8>, at: int) -> Segment {
    let flags: u32 = crate::bytes::le32(buf, at + 4) as u32;
    Segment {
        vaddr: crate::bytes::le64(buf, at + 16) as u64,
        mem_size: crate::bytes::le64(buf, at + 40) as u64,
        file_offset: crate::bytes::le64(buf, at + 8) as u64,
        file_size: crate::bytes::le64(buf, at + 32) as u64,
        writable: flags & 2 != 0,
        executable: flags & 1 != 0,
    }
}

/// The segments of the first `n` entries of the program header table at byte
/// `table`: `PT_LOAD` entries in order, those of no memory size left out. The
/// first entry that cannot be accepted decides the error.
pub open spec fn collect_segments(buf: Seq<u8>, table: int, n: nat) -> Result<Seq<Segment>, ElfError>
    decreases n,
{
    if n == 0 {
        Ok(Seq::empty())
    } else {
        let at = table + (n - 1) * 56;
        let segment = header_segment(buf, at);
        match collect_segments(buf, table, (n - 1) as nat) {
            Err(error) => Err(error),
            Ok(before) => if header_type(buf, at) != 1 {
                Ok(before)
            } else if before.len() == MAX_SEGMENTS {
                Err(ElfError::TooManySegments)
            } else if segment.mem_size < segment.file_size
                || segment.vaddr + segment.mem_size > u64::MAX
                || segment.file_offset + segment.file_size > u64::MAX {
                Err(ElfError::BadSegment)
            } else if segment.mem_size == 0 {
                Ok(before)
            } else {
                Ok(before.push(segment))
            },
        }
    }
}

/// What a file prefix means: the executable it describes, or the reason that
/// it is refused. The checks are in the order in which they take effect.
pub open spec fn parsed(buf: Seq<u8>) -> Result<ImageModel, ElfError> {
    let table = crate::bytes::le64(buf, 32);
    let entries = crate::bytes::le16(buf, 56);
    if buf.len() < 64 {
        Err(ElfError::Truncated)
    } else if buf.take(4) != seq![0x7Fu8, 0x45u8, 0x4Cu8, 0x46u8] {
        Err(ElfError::NotAnElf)
    } else if buf[4] != 2 || buf[5] != 1 || buf[6] != 1 {
        Err(ElfError::UnsupportedFormat)
    } else if crate::bytes::le16(buf, 16) != 2 || crate::bytes::le16(buf, 18) != 0x3E {
        Err(ElfError::UnsupportedType)
    } else if entries == 0 || crate::bytes::le16(buf, 54) != 56 || table + entries * 56 > buf.len() {
        Err(ElfError::BadProgramHeaders)
    } else {
        match collect_segments(buf, table as int, entries) {
            Err(error) => Err(error),
            Ok(segments) => if segments.len() == 0 {
                Err(ElfError::BadProgramHeaders)
            } else {
                Ok(ImageModel { entry: crate::bytes::le64(buf, 24) as u64, segments })
            },
        }
    }
}

/// An entry that fails decides the whole table, whatever follows it.
proof fn lemma_collect_error_sticks(buf: Seq<u8>, table: int, n: nat, m: nat)
    requires
        n <= m,
        collect_segments(buf, table, n) is Err,
    ensures
        collect_segments(buf, table, m) == collect_segments(buf, table, n),
    decreases m,
{
    if n < m {
        lemma_collect_error_sticks(buf, table, n, (m - 1) as nat);
    }
}

/// The program header table as (type, segment) pairs.
pub open spec fn headers(buf: Seq<u8>, table: int, n: nat) -> Seq<(nat, Segment)> {
    Seq::new(n, |i: int| (header_type(buf, table + i * 56), header_segment(buf, table + i * 56)))
}

/// A table that is accepted yields exactly its `PT_LOAD` entries that occupy
/// memory, in table order, at most [`MAX_SEGMENTS`] of them, each well formed.
pub proof fn law_segments_are_the_loadable_headers(buf: Seq<u8>, table: int, n: nat)
    ensures
        collect_segments(buf, table, n) matches Ok(segments) ==> {
            &&& segments == headers(buf, table, n).filter(
                |h: (nat, Segment)| h.0 == 1 && h.1.mem_size > 0,
            ).map_values(|h: (nat, Segment)| h.1)
            &&& segments.len() <= MAX_SEGMENTS
            &&& forall|i: int| 0 <= i < segments.len() ==> (#[trigger] segments[i]).wf()
        },
    decreases n,
{
    let loadable = |h: (nat, Segment)| h.0 == 1 && h.1.mem_size > 0;
    let segment_of = |h: (nat, Segment)| h.1;
    reveal(Seq::filter);
    if n > 0 {
        law_segments_are_the_loadable_headers(buf, table, (n - 1) as nat);
        let all = headers(buf, table, n);
        assert(all.drop_last() =~= headers(buf, table, (n - 1) as nat));
        if collect_segments(buf, table, n) matches Ok(segments) {
            let before = all.drop_last().filter(loadable);
            if loadable(all.last()) {
                assert(before.push(all.last()).map_values(segment_of) =~= before.map_values(
                    segment_of,
                ).push(all.last().1));
            }
        }
    } else {
        assert(headers(buf, table, 0).filter(loadable).map_values(segment_of) =~= Seq::empty());
    }
}

proof fn lemma_collect_prefix(buf: Seq<u8>, more: Seq<u8>, table: int, n: nat)
    requires
        0 <= table,
        table + n * 56 <= buf.len(),
    ensures
        collect_segments(buf + more, table, n) == collect_segments(buf, table, n),
    decreases n,
{
    if n > 0 {
        lemma_collect_prefix(buf, more, table, (n - 1) as nat);
        let at = table + (n - 1) * 56;
        assert(at + 56 <= buf.len());
        assert(forall|k: int| 0 <= k < buf.len() ==> (buf + more)[k] == buf[k]);
    }
}

/// A file that is accepted stays accepted, with the same meaning, however many
/// bytes follow the buffered prefix: the padding of a short file and the body
/// of a long one are never looked at.
pub proof fn law_parse_ignores_what_follows(buf: Seq<u8>, more: Seq<u8>)
    requires
        parsed(buf) is Ok,
    ensures
        parsed(buf + more) == parsed(buf),
{
    assert((buf + more).take(4) =~= buf.take(4));
    assert(forall|k: int| 0 <= k < buf.len() ==> (buf + more)[k] == buf[k]);
    lemma_collect_prefix(
        buf,
        more,
        crate::bytes::le64(buf, 32) as int,
        crate::bytes::le16(buf, 56),
    );
}

/// Parses the ELF header and program headers out of a buffered file prefix.
pub fn parse(buf: &[u8]) -> (result: Result<Image, ElfError>)
    ensures
        match parsed(buf@) {
            Ok(model) => result matches Ok(image) && image.wf() && image@ == model,
            Err(error) => result == Err::<Image, ElfError>(error),
        },
{
    if buf.len() < EHDR_SIZE {
        return Err(ElfError::Truncated);
    }
    if buf[0] != 0x7F || buf[1] != 0x45 || buf[2] != 0x4C || buf[3] != 0x46 {
        assert(buf@.take(4)[0] == buf@[0] && buf@.take(4)[1] == buf@[1] && buf@.take(4)[2] == buf@[2]
            && buf@.take(4)[3] == buf@[3]);
        return Err(ElfError::NotAnElf);
    }
    assert(buf@.take(4) =~= seq![0x7Fu8, 0x45u8, 0x4Cu8, 0x46u8]);
    if buf[4] != ELFCLASS64 || buf[5] != ELFDATA2LSB || buf[6] != EV_CURRENT {
        return Err(ElfError::UnsupportedFormat);
    }

    let e_type: u16 = u16_at(buf, 16);
    let e_machine: u16 = u16_at(buf, 18);
    // ET_DYN would need relocation processing; only fixed-address executables
    // are supported.
    if e_type != ET_EXEC || e_machine != EM_X86_64 {
        return Err(ElfError::UnsupportedType);
    }

    let entry: u64 = u64_at(buf, 24);
    let e_phoff: u64 = u64_at(buf, 32);
    let e_phentsize: u16 = u16_at(buf, 54);
    let e_phnum: u16 = u16_at(buf, 56);

    if e_phnum == 0 || e_phentsize as usize != PHDR_SIZE {
        return Err(ElfError::BadProgramHeaders);
    }
    let table_size: u64 = e_phnum as u64 * PHDR_SIZE as u64;
    if table_size > buf.len() as u64 || e_phoff > buf.len() as u64 - table_size {
        return Err(ElfError::BadProgramHeaders);
    }
    let table: usize = e_phoff as usize;

    let mut segments: [Segment; MAX_SEGMENTS] = [Segment {
        vaddr: 0,
        mem_size: 0,
        file_offset: 0,
        file_size: 0,
        writable: false,
        executable: false,
    }; MAX_SEGMENTS];
    let mut count: usize = 0;

    let mut i: usize = 0;
    assert(segments@.take(0) =~= Seq::empty());
    while i < e_phnum as usize
        invariant
            i <= e_phnum,
            count <= MAX_SEGMENTS,
            table + e_phnum * 56 <= buf.len(),
            collect_segments(buf@, table as int, i as nat) == Ok::<Seq<Segment>, ElfError>(
                segments@.take(count as int),
            ),
            forall|k: int| 0 <= k < count ==> (#[trigger] segments@[k]).wf(),
            parsed(buf@) == (match collect_segments(buf@, table as int, e_phnum as nat) {
                Err(error) => Err::<ImageModel, ElfError>(error),
                Ok(all) => if all.len() == 0 {
                    Err(ElfError::BadProgramHeaders)
                } else {
                    Ok(ImageModel { entry, segments: all })
                },
            }),
        decreases e_phnum - i,
    {
        let at: usize = table + i * PHDR_SIZE;
        proof {
            assert(at == table + ((i + 1) - 1) * 56);
            if collect_segments(buf@, table as int, (i + 1) as nat) is Err {
                lemma_collect_error_sticks(buf@, table as int, (i + 1) as nat, e_phnum as nat);
            }
        }
        i = i + 1;
        if u32_at(buf, at) != PT_LOAD {
            continue; // PT_PHDR, PT_NOTE, PT_GNU_STACK, ... not needed here
        }
        if count == MAX_SEGMENTS {
            return Err(ElfError::TooManySegments);
        }
        let flags: u32 = u32_at(buf, at + 4);
        let file_offset: u64 = u64_at(buf, at + 8);
        let vaddr: u64 = u64_at(buf, at + 16);
        let file_size: u64 = u64_at(buf, at + 32);
        let mem_size: u64 = u64_at(buf, at + 40);

        // `mem_size < file_size` would mean "more bytes in the file than in
        // memory", which is meaningless; the overflow checks keep later
        // page-range arithmetic honest.
        if mem_size < file_size || vaddr.checked_add(mem_size).is_none() || file_offset.checked_add(
            file_size,
        ).is_none() {
            return Err(ElfError::BadSegment);
        }
        if mem_size == 0 {
            continue; // nothing to map
        }
        let ghost before = segments@.take(count as int);
        segments[count] = Segment {
            vaddr,
            mem_size,
            file_offset,
            file_size,
            writable: flags & PF_W != 0,
            executable: flags & PF_X != 0,
        };
        count = count + 1;
        assert(segments@.take(count as int) =~= before.push(segments@[count - 1]));
    }

    if count == 0 {
        return Err(ElfError::BadProgramHeaders);
    }
    Ok(Image { entry, segments, count })
}

/// Where program header number `i` of the table at byte `table` lies.
pub open spec fn header_at(table: int, i: int) -> int {
    table + 56 * i
}

/// The program header at byte `at` asks for something to be loaded: its type is
/// the number 1.
pub open spec fn is_load(buf: Seq<u8>, at: int) -> bool {
    crate::bytes::stores32(buf, at, 1)
}

/// The program header at byte `at` asks for this segment. It may be written to
/// if bit 1 of the flags is set, and executed if bit 0 is, whatever the other
/// bits are.
pub open spec fn asks_for(buf: Seq<u8>, at: int, segment: Segment) -> bool {
    &&& crate::bytes::stores64(buf, at + 8, segment.file_offset)
    &&& crate::bytes::stores64(buf, at + 16, segment.vaddr)
    &&& crate::bytes::stores64(buf, at + 32, segment.file_size)
    &&& crate::bytes::stores64(buf, at + 40, segment.mem_size)
    &&& segment.writable <==> buf[at + 4] / 2 % 2 == 1
    &&& segment.executable <==> buf[at + 4] % 2 == 1
}

/// What the header asks for makes sense: no more bytes of the file than of
/// memory, and no range that runs past the end of a 64-bit number.
pub open spec fn makes_sense(buf: Seq<u8>, at: int) -> bool {
    forall|segment: Segment| #[trigger]
        asks_for(buf, at, segment) ==> segment.file_size <= segment.mem_size && segment.vaddr
            + segment.mem_size < 0x1_0000_0000_0000_0000 && segment.file_offset + segment.file_size
            < 0x1_0000_0000_0000_0000
}

/// How many of the first `n` headers ask for memory to be loaded.
pub open spec fn loads(buf: Seq<u8>, table: int, n: int) -> nat
    decreases n,
{
    if n <= 0 {
        0
    } else {
        let at = header_at(table, n - 1);
        loads(buf, table, n - 1) + (if is_load(buf, at) && !crate::bytes::stores64(
            buf,
            at + 40,
            0,
        ) {
            1nat
        } else {
            0nat
        })
    }
}

/// The segments are those that the headers numbered `which` ask for, in their
/// order, and no other header of the table asks for memory to be loaded.
pub open spec fn are_picked(
    buf: Seq<u8>,
    table: int,
    n: int,
    which: Seq<int>,
    segments: Seq<Segment>,
) -> bool {
    &&& which.len() == segments.len()
    &&& forall|i: int, j: int| 0 <= i < j < which.len() ==> which[i] < which[j]
    &&& forall|j: int|
        0 <= j < which.len() ==> {
            &&& 0 <= #[trigger] which[j] < n
            &&& is_load(buf, header_at(table, which[j]))
            &&& asks_for(buf, header_at(table, which[j]), segments[j])
            &&& segments[j].mem_size > 0
        }
    &&& forall|i: int|
        0 <= i < n && #[trigger] is_load(buf, header_at(table, i)) && !crate::bytes::stores64(
            buf,
            header_at(table, i) + 40,
            0,
        ) ==> which.contains(i)
}

/// Header number `i` is one that a table is refused for, and no header before it
/// is.
pub open spec fn is_first_refused(buf: Seq<u8>, table: int, i: int) -> bool {
    &&& is_load(buf, header_at(table, i))
    &&& loads(buf, table, i) >= 8 || !makes_sense(buf, header_at(table, i))
    &&& all_sound(buf, table, i)
}

/// Every one of the first `n` headers that asks for something to be loaded makes
/// sense, and comes before the ninth that asks for memory.
pub open spec fn all_sound(buf: Seq<u8>, table: int, n: int) -> bool {
    forall|i: int|
        0 <= i < n && #[trigger] is_load(buf, header_at(table, i)) ==> loads(buf, table, i) < 8
            && makes_sense(buf, header_at(table, i))
}

/// The flags of a header are bits of one byte.
proof fn lemma_flag_bits(buf: Seq<u8>, at: int)
    ensures
        ({
            let flags: u32 = crate::bytes::le32(buf, at) as u32;
            &&& flags & 2 != 0 <==> buf[at] / 2 % 2 == 1
            &&& flags & 1 != 0 <==> buf[at] % 2 == 1
        }),
{
    let flags: u32 = crate::bytes::le32(buf, at) as u32;
    crate::bytes::law_numbers_are_read_as_stored(buf, at, 0, flags, 0);
    assert(flags & 2 != 0 <==> flags / 2 % 2 == 1) by (bit_vector);
    assert(flags & 1 != 0 <==> flags % 2 == 1) by (bit_vector);
    assert(flags % 256 == buf[at]);
    assert(flags / 2 % 2 == flags % 256 / 2 % 2);
}

/// A header asks for exactly one segment.
proof fn lemma_header_asks(buf: Seq<u8>, at: int)
    ensures
        asks_for(buf, at, header_segment(buf, at)),
        forall|segment: Segment| #[trigger]
            asks_for(buf, at, segment) ==> segment == header_segment(buf, at),
        is_load(buf, at) <==> header_type(buf, at) == 1,
        crate::bytes::stores64(buf, at + 40, 0) <==> header_segment(buf, at).mem_size == 0,
{
    let here = header_segment(buf, at);
    lemma_flag_bits(buf, at + 4);
    crate::bytes::law_numbers_are_read_as_stored(buf, at, 0, 1, 0);
    crate::bytes::law_numbers_are_read_as_stored(buf, at + 8, 0, 0, here.file_offset);
    crate::bytes::law_numbers_are_read_as_stored(buf, at + 16, 0, 0, here.vaddr);
    crate::bytes::law_numbers_are_read_as_stored(buf, at + 32, 0, 0, here.file_size);
    crate::bytes::law_numbers_are_read_as_stored(buf, at + 40, 0, 0, here.mem_size);
    crate::bytes::law_numbers_are_read_as_stored(buf, at + 40, 0, 0, 0);
    assert forall|segment: Segment| #[trigger] asks_for(buf, at, segment) implies segment
        == here by {
        crate::bytes::law_numbers_are_read_as_stored(buf, at + 8, 0, 0, segment.file_offset);
        crate::bytes::law_numbers_are_read_as_stored(buf, at + 16, 0, 0, segment.vaddr);
        crate::bytes::law_numbers_are_read_as_stored(buf, at + 32, 0, 0, segment.file_size);
        crate::bytes::law_numbers_are_read_as_stored(buf, at + 40, 0, 0, segment.mem_size);
    }
}

/// Header number `n` makes a table that was sound so far fail, or adds at most
/// one segment.
proof fn lemma_collect_step(buf: Seq<u8>, table: int, n: nat)
    ensures
        collect_segments(buf, table, n) matches Ok(before) ==> {
            let at = header_at(table, n as int);
            let segment = header_segment(buf, at);
            collect_segments(buf, table, n + 1) == (if !is_load(buf, at) {
                Ok::<Seq<Segment>, ElfError>(before)
            } else if before.len() == 8 {
                Err(ElfError::TooManySegments)
            } else if !makes_sense(buf, at) {
                Err(ElfError::BadSegment)
            } else if crate::bytes::stores64(buf, at + 40, 0) {
                Ok(before)
            } else {
                Ok(before.push(segment))
            })
        },
        collect_segments(buf, table, n) matches Err(error) ==> collect_segments(buf, table, n + 1)
            == Err::<Seq<Segment>, ElfError>(error),
{
    let at = header_at(table, n as int);
    let segment = header_segment(buf, at);
    lemma_header_asks(buf, at);
    assert(at == table + ((n + 1) - 1) * 56);
    assert(makes_sense(buf, at) <==> !(segment.mem_size < segment.file_size || segment.vaddr
        + segment.mem_size > u64::MAX || segment.file_offset + segment.file_size > u64::MAX)) by {
        assert(asks_for(buf, at, segment));
    }
}

proof fn lemma_sound_tables(buf: Seq<u8>, table: int, n: nat)
    ensures
        collect_segments(buf, table, n) matches Ok(segments) ==> {
            &&& segments.len() == loads(buf, table, n as int)
            &&& segments.len() <= 8
            &&& all_sound(buf, table, n as int)
        },
        collect_segments(buf, table, n) matches Err(error) ==> exists|i: int|
            0 <= i < n && #[trigger] is_first_refused(buf, table, i) && error == (if loads(
                buf,
                table,
                i,
            ) >= 8 {
                ElfError::TooManySegments
            } else {
                ElfError::BadSegment
            }),
    decreases n,
{
    if n > 0 {
        let last = n - 1;
        lemma_sound_tables(buf, table, last as nat);
        lemma_collect_step(buf, table, last as nat);
        match collect_segments(buf, table, last as nat) {
            Err(error) => {
                let i = choose|i: int|
                    0 <= i < last && #[trigger] is_first_refused(buf, table, i) && error == (
                    if loads(buf, table, i) >= 8 {
                        ElfError::TooManySegments
                    } else {
                        ElfError::BadSegment
                    });
                assert(is_first_refused(buf, table, i));
            },
            Ok(before) => {
                if collect_segments(buf, table, n) is Err {
                    assert(is_first_refused(buf, table, last));
                }
            },
        }
    }
}

proof fn lemma_picked(buf: Seq<u8>, table: int, n: nat) -> (which: Seq<int>)
    ensures
        collect_segments(buf, table, n) matches Ok(segments) ==> are_picked(
            buf,
            table,
            n as int,
            which,
            segments,
        ),
    decreases n,
{
    if n == 0 {
        Seq::empty()
    } else {
        let last = n - 1;
        let at = header_at(table, last);
        let earlier = lemma_picked(buf, table, last as nat);
        lemma_collect_step(buf, table, last as nat);
        lemma_header_asks(buf, at);
        let segment = header_segment(buf, at);
        if is_load(buf, at) && segment.mem_size > 0 {
            let which = earlier.push(last);
            if let Ok(segments) = collect_segments(buf, table, n) {
                assert forall|i: int|
                    0 <= i < n && #[trigger] is_load(buf, header_at(table, i))
                        && !crate::bytes::stores64(
                        buf,
                        header_at(table, i) + 40,
                        0,
                    ) implies which.contains(i) by {
                    if i == last {
                        assert(which[which.len() - 1] == i);
                    } else {
                        let j = choose|j: int| 0 <= j < earlier.len() && earlier[j] == i;
                        assert(which[j] == i);
                    }
                }
                assert(segments == collect_segments(buf, table, last as nat)->Ok_0.push(segment));
            }
            which
        } else {
            earlier
        }
    }
}

/// A file that is accepted yields the segments that its headers ask for. Each
/// header of type 1 that asks for memory gives one, in the order of the table,
/// with the addresses and sizes that are stored in the header and with the rights
/// that its flags give; the entry point is the one that is stored in the file.
pub proof fn law_segments_are_what_the_headers_ask_for(buf: Seq<u8>, table: u64, n: u16)
    requires
        crate::bytes::stores64(buf, 32, table),
        crate::bytes::stores16(buf, 56, n),
    ensures
        parsed(buf) matches Ok(image) ==> {
            &&& crate::bytes::stores64(buf, 24, image.entry)
            &&& 1 <= image.segments.len() <= 8
            &&& exists|which: Seq<int>| #[trigger]
                are_picked(buf, table as int, n as int, which, image.segments)
        },
{
    crate::bytes::law_numbers_are_read_as_stored(buf, 32, 0, 0, table);
    crate::bytes::law_numbers_are_read_as_stored(buf, 56, n, 0, 0);
    let which = lemma_picked(buf, table as int, n as nat);
    if let Ok(image) = parsed(buf) {
        crate::bytes::law_numbers_are_read_as_stored(buf, 24, 0, 0, image.entry);
        law_segments_are_the_loadable_headers(buf, table as int, n as nat);
        assert(are_picked(buf, table as int, n as int, which, image.segments));
    }
}

/// The first 64 bytes are the header of a static 64-bit little-endian x86-64
/// executable, up to the program headers.
pub open spec fn is_executable_header(buf: Seq<u8>) -> bool {
    &&& buf.len() >= 64
    &&& buf[0] == 0x7F && buf[1] == 0x45 && buf[2] == 0x4C && buf[3] == 0x46
    &&& buf[4] == 2 && buf[5] == 1 && buf[6] == 1
    &&& buf[16] == 2 && buf[17] == 0 && buf[18] == 0x3E && buf[19] == 0
}

/// Which files are accepted: those with the header of an executable, a program
/// header table that lies in the buffer, and headers that make sense, of which
/// between one and eight ask for memory to be loaded, and none to be loaded comes
/// behind the eighth.
pub proof fn law_sound_files_are_accepted(buf: Seq<u8>, table: u64, n: u16)
    requires
        crate::bytes::stores64(buf, 32, table),
        crate::bytes::stores16(buf, 56, n),
    ensures
        parsed(buf) is Ok <==> {
            &&& is_executable_header(buf)
            &&& crate::bytes::stores16(buf, 54, 56)
            &&& table + 56 * n <= buf.len()
            &&& 1 <= loads(buf, table as int, n as int)
            &&& all_sound(buf, table as int, n as int)
        },
{
    lemma_header_numbers(buf, table, n);
    lemma_sound_tables(buf, table as int, n as nat);
    if let Err(error) = collect_segments(buf, table as int, n as nat) {
        let i = choose|i: int|
            0 <= i < n && #[trigger] is_first_refused(buf, table as int, i) && error == (if loads(
                buf,
                table as int,
                i,
            ) >= 8 {
                ElfError::TooManySegments
            } else {
                ElfError::BadSegment
            });
        assert(is_load(buf, header_at(table as int, i)));
    }
}

proof fn lemma_header_numbers(buf: Seq<u8>, table: u64, n: u16)
    requires
        crate::bytes::stores64(buf, 32, table),
        crate::bytes::stores16(buf, 56, n),
    ensures
        crate::bytes::le64(buf, 32) == table,
        crate::bytes::le16(buf, 56) == n,
        crate::bytes::le16(buf, 16) == 2 <==> buf[16] == 2 && buf[17] == 0,
        crate::bytes::le16(buf, 18) == 0x3E <==> buf[18] == 0x3E && buf[19] == 0,
        crate::bytes::le16(buf, 54) == 56 <==> crate::bytes::stores16(buf, 54, 56),
        buf.len() >= 64 ==> (buf.take(4) == seq![0x7Fu8, 0x45u8, 0x4Cu8, 0x46u8] <==> buf[0] == 0x7F
            && buf[1] == 0x45 && buf[2] == 0x4C && buf[3] == 0x46),
{
    crate::bytes::law_numbers_are_read_as_stored(buf, 32, 0, 0, table);
    crate::bytes::law_numbers_are_read_as_stored(buf, 56, n, 0, 0);
    if buf.len() >= 64 {
        let first = buf.take(4);
        assert(first[0] == buf[0] && first[1] == buf[1] && first[2] == buf[2] && first[3]
            == buf[3]);
        if buf[0] == 0x7F && buf[1] == 0x45 && buf[2] == 0x4C && buf[3] == 0x46 {
            assert(first =~= seq![0x7Fu8, 0x45u8, 0x4Cu8, 0x46u8]);
        }
    }
}

/// A refusal says what is wrong, and what comes first in the file counts for more.
pub proof fn law_refusals_say_what_is_wrong(buf: Seq<u8>, table: u64, n: u16)
    requires
        crate::bytes::stores64(buf, 32, table),
        crate::bytes::stores16(buf, 56, n),
    ensures
        buf.len() < 64 <==> parsed(buf) == Err::<ImageModel, ElfError>(ElfError::Truncated),
        buf.len() >= 64 ==> {
            let magic = buf[0] == 0x7F && buf[1] == 0x45 && buf[2] == 0x4C && buf[3] == 0x46;
            let format = buf[4] == 2 && buf[5] == 1 && buf[6] == 1;
            let kind = buf[16] == 2 && buf[17] == 0 && buf[18] == 0x3E && buf[19] == 0;
            let headers = n > 0 && crate::bytes::stores16(buf, 54, 56) && table + 56 * n
                <= buf.len();
            &&& !magic <==> parsed(buf) == Err::<ImageModel, ElfError>(ElfError::NotAnElf)
            &&& magic && !format <==> parsed(buf) == Err::<ImageModel, ElfError>(
                ElfError::UnsupportedFormat,
            )
            &&& magic && format && !kind <==> parsed(buf) == Err::<ImageModel, ElfError>(
                ElfError::UnsupportedType,
            )
            &&& magic && format && kind && !headers ==> parsed(buf) == Err::<ImageModel, ElfError>(
                ElfError::BadProgramHeaders,
            )
            &&& magic && format && kind && headers ==> forall|i: int|
                0 <= i < n && #[trigger] is_first_refused(buf, table as int, i) ==> parsed(buf)
                    == Err::<ImageModel, ElfError>(
                    if loads(buf, table as int, i) >= 8 {
                        ElfError::TooManySegments
                    } else {
                        ElfError::BadSegment
                    },
                )
            &&& magic && format && kind && headers && loads(buf, table as int, n as int) == 0 && (
            forall|i: int|
                0 <= i < n && #[trigger] is_load(buf, header_at(table as int, i)) ==> makes_sense(
                    buf,
                    header_at(table as int, i),
                )) ==> parsed(buf) == Err::<ImageModel, ElfError>(ElfError::BadProgramHeaders)
        },
{
    lemma_header_numbers(buf, table, n);
    lemma_sound_tables(buf, table as int, n as nat);
    if let Err(error) = collect_segments(buf, table as int, n as nat) {
        let i = choose|i: int|
            0 <= i < n && #[trigger] is_first_refused(buf, table as int, i) && error == (if loads(
                buf,
                table as int,
                i,
            ) >= 8 {
                ElfError::TooManySegments
            } else {
                ElfError::BadSegment
            });
        assert(is_load(buf, header_at(table as int, i)));
        lemma_loads_grow(buf, table as int, i, n as int);
        assert forall|j: int|
            0 <= j < n && #[trigger] is_first_refused(buf, table as int, j) implies i == j by {
            assert(is_load(buf, header_at(table as int, j)));
        }
    } else {
        assert forall|j: int|
            0 <= j < n && #[trigger] is_first_refused(buf, table as int, j) implies false by {
            assert(is_load(buf, header_at(table as int, j)));
        }
    }
}

proof fn lemma_loads_grow(buf: Seq<u8>, table: int, i: int, j: int)
    requires
        i <= j,
    ensures
        loads(buf, table, i) <= loads(buf, table, j),
    decreases j - i,
{
    if i < j {
        lemma_loads_grow(buf, table, i, j - 1);
    }
}

} // verus!
