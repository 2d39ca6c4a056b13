//! Copying a program's bytes to where its segments want them.
//!
//! The file is streamed a chunk at a time. From each chunk every segment takes
//! what is its own, page by page, because neighbouring pages need not lie in
//! neighbouring frames.

use vstd::prelude::*;

use crate::elf::Segment;
use crate::memory::PAGE_SIZE;

verus! {

/// Bytes that are to be copied to an address; all of them go to one page.
#[verifier::ext_equal]
pub ghost struct Copied {
    pub vaddr: int,
    pub bytes: Seq<u8>,
}

/// Bytes at `vaddr` that share its page.
pub open spec fn page_left(vaddr: int) -> int {
    4096 - vaddr % 4096
}

/// Copying `bytes` to `vaddr`, page by page.
pub open spec fn page_pieces(vaddr: int, bytes: Seq<u8>) -> Seq<Copied>
    decreases bytes.len(),
{
    if bytes.len() == 0 {
        Seq::empty()
    } else if bytes.len() <= page_left(vaddr) {
        seq![Copied { vaddr, bytes }]
    } else {
        let here = page_left(vaddr);
        seq![Copied { vaddr, bytes: bytes.take(here) }] + page_pieces(
            vaddr + here,
            bytes.skip(here),
        )
    }
}

/// Where in the file a segment's share of a chunk begins; the chunk holds `len`
/// bytes from position `pos` on.
pub open spec fn share_start(segment: Segment, pos: int) -> int {
    if pos < segment.file_offset {
        segment.file_offset as int
    } else {
        pos
    }
}

/// Where in the file a segment's share of a chunk ends.
pub open spec fn share_end(segment: Segment, pos: int, len: int) -> int {
    if segment.file_offset + segment.file_size < pos + len {
        segment.file_offset + segment.file_size
    } else {
        pos + len
    }
}

/// A segment's share of a chunk, without its first `done` bytes.
pub open spec fn share_bytes(segment: Segment, pos: int, chunk: Seq<u8>, done: int) -> Seq<u8> {
    let start = share_start(segment, pos) + done;
    let end = share_end(segment, pos, chunk.len() as int);
    if start < end {
        chunk.subrange(start - pos, end - pos)
    } else {
        Seq::empty()
    }
}

/// Copying a segment's share of a chunk, without its first `done` bytes.
pub open spec fn segment_pieces(segment: Segment, pos: int, chunk: Seq<u8>, done: int) -> Seq<
    Copied,
> {
    page_pieces(
        segment.vaddr + (share_start(segment, pos) - segment.file_offset) + done,
        share_bytes(segment, pos, chunk, done),
    )
}

/// Copying a chunk for the segments from number `i` on, the first of which has
/// had `done` bytes of its share.
pub open spec fn chunk_pieces(
    segments: Seq<Segment>,
    i: int,
    done: int,
    pos: int,
    chunk: Seq<u8>,
) -> Seq<Copied>
    decreases segments.len() - i,
{
    if i < 0 || i >= segments.len() {
        Seq::empty()
    } else {
        segment_pieces(segments[i], pos, chunk, done) + chunk_pieces(
            segments,
            i + 1,
            0,
            pos,
            chunk,
        )
    }
}

/// Copying all the data of a file, from position `pos` on, in chunks of one
/// sector.
pub open spec fn data_pieces(segments: Seq<Segment>, pos: int, data: Seq<u8>) -> Seq<Copied>
    decreases data.len(),
{
    if data.len() == 0 {
        Seq::empty()
    } else if data.len() <= 512 {
        chunk_pieces(segments, 0, 0, pos, data)
    } else {
        chunk_pieces(segments, 0, 0, pos, data.take(512)) + data_pieces(
            segments,
            pos + 512,
            data.skip(512),
        )
    }
}

/// One piece of a chunk that is to be copied to one page.
#[derive(Debug, Clone, Copy, PartialEq, Eq, Structural)]
pub struct Piece {
    pub vaddr: u64,
    /// Where in the chunk the piece begins.
    pub from: usize,
    pub len: usize,
    /// The segment that it is for.
    pub segment: usize,
    /// How much of its share the segment has had, this piece counted.
    pub done: usize,
}

impl Piece {
    /// What the piece copies, given the chunk.
    pub open spec fn of(self, chunk: Seq<u8>) -> Copied {
        Copied {
            vaddr: self.vaddr as int,
            bytes: chunk.subrange(self.from as int, self.from + self.len),
        }
    }
}

/// The next piece of a chunk, from segment number `segment` on, which has had
/// `done` bytes of its share.
pub fn next_piece(segments: &[Segment], segment: usize, done: usize, pos: u64, len: usize) -> (piece:
    Option<Piece>)
    requires
        segment <= segments@.len(),
        segment < segments@.len() ==> done <= len,
        len <= 512,
        pos + len <= u64::MAX,
        forall|i: int| 0 <= i < segments@.len() ==> (#[trigger] segments@[i]).wf(),
    ensures
        piece matches Some(next) ==> {
            &&& next.segment < segments@.len()
            &&& next.done <= len
            &&& 0 < next.len
            &&& next.from + next.len <= len
            &&& next.vaddr % 4096 + next.len <= 4096
            &&& next.vaddr + next.len <= u64::MAX
        },
        forall|chunk: Seq<u8>|
            chunk.len() == len ==> #[trigger] chunk_pieces(
                segments@,
                segment as int,
                done as int,
                pos as int,
                chunk,
            ) == (match piece {
                None => Seq::<Copied>::empty(),
                Some(next) => seq![next.of(chunk)] + chunk_pieces(
                    segments@,
                    next.segment as int,
                    next.done as int,
                    pos as int,
                    chunk,
                ),
            }),
{
    let mut i: usize = segment;
    let mut had: usize = done;
    while i < segments.len()
        invariant
            segment <= i <= segments@.len(),
            i < segments@.len() ==> had <= len,
            len <= 512,
            pos + len <= u64::MAX,
            forall|k: int| 0 <= k < segments@.len() ==> (#[trigger] segments@[k]).wf(),
            forall|chunk: Seq<u8>|
                chunk.len() == len ==> #[trigger] chunk_pieces(
                    segments@,
                    segment as int,
                    done as int,
                    pos as int,
                    chunk,
                ) == chunk_pieces(segments@, i as int, had as int, pos as int, chunk),
        decreases segments@.len() - i,
    {
        let this = segments[i];
        assert(segments@[i as int].wf());
        let seg_end: u64 = this.file_offset + this.file_size;
        let chunk_end: u64 = pos + len as u64;
        let start: u64 = if pos < this.file_offset {
            this.file_offset
        } else {
            pos
        };
        let end: u64 = if seg_end < chunk_end {
            seg_end
        } else {
            chunk_end
        };
        assert(start == share_start(this, pos as int));
        assert(end == share_end(this, pos as int, len as int));
        if start < end && (had as u64) < end - start {
            let vaddr: u64 = this.vaddr + (start - this.file_offset) + had as u64;
            let from: usize = (start - pos) as usize + had;
            let left: usize = (end - start) as usize - had;
            let page_room: usize = (PAGE_SIZE - vaddr % PAGE_SIZE) as usize;
            let take: usize = if page_room < left {
                page_room
            } else {
                left
            };
            let next = Piece { vaddr, from, len: take, segment: i, done: had + take };
            proof {
                assert forall|chunk: Seq<u8>| chunk.len() == len implies #[trigger] chunk_pieces(
                    segments@,
                    segment as int,
                    done as int,
                    pos as int,
                    chunk,
                ) == seq![
                    Copied {
                        vaddr: vaddr as int,
                        bytes: chunk.subrange(from as int, from + take),
                    },
                ] + chunk_pieces(
                    segments@,
                    i as int,
                    had + take,
                    pos as int,
                    chunk,
                ) by {
                    let bytes = share_bytes(this, pos as int, chunk, had as int);
                    let after = share_bytes(this, pos as int, chunk, had + take);
                    let tail = chunk_pieces(segments@, i + 1, 0, pos as int, chunk);
                    assert(bytes.take(take as int) =~= chunk.subrange(from as int, from + take));
                    assert(bytes.skip(take as int) =~= after);
                    assert(page_left(vaddr as int) == page_room);
                    let first = Copied {
                        vaddr: vaddr as int,
                        bytes: chunk.subrange(from as int, from + take),
                    };
                    let rest = segment_pieces(this, pos as int, chunk, had + take);
                    if left <= page_room {
                        assert(bytes.take(take as int) =~= bytes);
                        assert(after.len() == 0);
                    }
                    assert(segment_pieces(this, pos as int, chunk, had as int) =~= seq![first]
                        + rest);
                    assert((seq![first] + rest) + tail =~= seq![first] + (rest + tail));
                }
            }
            return Some(next);
        }
        proof {
            assert forall|chunk: Seq<u8>| chunk.len() == len implies #[trigger] chunk_pieces(
                segments@,
                i as int,
                had as int,
                pos as int,
                chunk,
            ) == chunk_pieces(segments@, i + 1, 0, pos as int, chunk) by {
                let bytes = share_bytes(this, pos as int, chunk, had as int);
                assert(bytes.len() == 0);
                let tail = chunk_pieces(segments@, i + 1, 0, pos as int, chunk);
                assert(Seq::<Copied>::empty() + tail =~= tail);
            }
        }
        i = i + 1;
        had = 0;
    }
    None
}

/// One of the pieces puts `byte` at `addr`.
pub open spec fn puts(pieces: Seq<Copied>, addr: int, byte: u8) -> bool {
    exists|j: int|
        0 <= j < pieces.len() && (#[trigger] pieces[j]).vaddr <= addr < pieces[j].vaddr
            + pieces[j].bytes.len() && pieces[j].bytes[addr - pieces[j].vaddr] == byte
}

/// The file byte that a segment wants at `addr` lies in `data`, which begins at
/// position `pos` of the file, and is `byte`.
pub open spec fn wants(segment: Segment, pos: int, data: Seq<u8>, addr: int, byte: u8) -> bool {
    let at = segment.file_offset + (addr - segment.vaddr);
    &&& segment.vaddr <= addr < segment.vaddr + segment.file_size
    &&& pos <= at < pos + data.len()
    &&& data[at - pos] == byte
}

/// One of the segments from number `i` on wants `byte` at `addr`.
pub open spec fn some_wants(
    segments: Seq<Segment>,
    i: int,
    pos: int,
    data: Seq<u8>,
    addr: int,
    byte: u8,
) -> bool {
    exists|s: int| i <= s < segments.len() && wants(#[trigger] segments[s], pos, data, addr, byte)
}

proof fn lemma_puts_of_both(a: Seq<Copied>, b: Seq<Copied>, addr: int, byte: u8)
    ensures
        puts(a + b, addr, byte) == (puts(a, addr, byte) || puts(b, addr, byte)),
{
    let all = a + b;
    if puts(a, addr, byte) {
        let j = choose|j: int|
            0 <= j < a.len() && (#[trigger] a[j]).vaddr <= addr < a[j].vaddr + a[j].bytes.len()
                && a[j].bytes[addr - a[j].vaddr] == byte;
        assert(all[j] == a[j]);
    }
    if puts(b, addr, byte) {
        let j = choose|j: int|
            0 <= j < b.len() && (#[trigger] b[j]).vaddr <= addr < b[j].vaddr + b[j].bytes.len()
                && b[j].bytes[addr - b[j].vaddr] == byte;
        assert(all[j + a.len()] == b[j]);
    }
    if puts(all, addr, byte) {
        let j = choose|j: int|
            0 <= j < all.len() && (#[trigger] all[j]).vaddr <= addr < all[j].vaddr
                + all[j].bytes.len() && all[j].bytes[addr - all[j].vaddr] == byte;
        if j < a.len() {
            assert(a[j] == all[j]);
        } else {
            assert(b[j - a.len()] == all[j]);
        }
    }
}

proof fn lemma_puts_of_one(piece: Copied, addr: int, byte: u8)
    ensures
        puts(seq![piece], addr, byte) == (piece.vaddr <= addr < piece.vaddr + piece.bytes.len()
            && piece.bytes[addr - piece.vaddr] == byte),
{
    assert(seq![piece][0] == piece);
}

proof fn lemma_page_pieces(vaddr: int, bytes: Seq<u8>, addr: int, byte: u8)
    ensures
        puts(page_pieces(vaddr, bytes), addr, byte) == (vaddr <= addr < vaddr + bytes.len()
            && bytes[addr - vaddr] == byte),
    decreases bytes.len(),
{
    if bytes.len() == 0 {
    } else if bytes.len() <= page_left(vaddr) {
        lemma_puts_of_one(Copied { vaddr, bytes }, addr, byte);
    } else {
        let here = page_left(vaddr);
        let first = Copied { vaddr, bytes: bytes.take(here) };
        lemma_puts_of_one(first, addr, byte);
        lemma_page_pieces(vaddr + here, bytes.skip(here), addr, byte);
        lemma_puts_of_both(
            seq![first],
            page_pieces(vaddr + here, bytes.skip(here)),
            addr,
            byte,
        );
    }
}

proof fn lemma_chunk_pieces(
    segments: Seq<Segment>,
    i: int,
    pos: int,
    chunk: Seq<u8>,
    addr: int,
    byte: u8,
)
    requires
        0 <= i <= segments.len(),
        0 <= pos,
    ensures
        puts(chunk_pieces(segments, i, 0, pos, chunk), addr, byte) == some_wants(
            segments,
            i,
            pos,
            chunk,
            addr,
            byte,
        ),
    decreases segments.len() - i,
{
    if i < segments.len() {
        let this = segments[i];
        let mine = segment_pieces(this, pos, chunk, 0);
        let rest = chunk_pieces(segments, i + 1, 0, pos, chunk);
        lemma_chunk_pieces(segments, i + 1, pos, chunk, addr, byte);
        lemma_puts_of_both(mine, rest, addr, byte);
        lemma_page_pieces(
            this.vaddr + (share_start(this, pos) - this.file_offset),
            share_bytes(this, pos, chunk, 0),
            addr,
            byte,
        );
        assert(puts(mine, addr, byte) == wants(this, pos, chunk, addr, byte));
        if some_wants(segments, i, pos, chunk, addr, byte) && !wants(this, pos, chunk, addr, byte) {
            let s = choose|s: int|
                i <= s < segments.len() && wants(#[trigger] segments[s], pos, chunk, addr, byte);
            assert(i + 1 <= s);
        }
    }
}

/// Loading puts every byte in its place, and nothing anywhere else: the pieces
/// put a byte at an address exactly where some segment wants that byte of the
/// file there.
pub proof fn law_loading_puts_bytes_in_place(
    segments: Seq<Segment>,
    pos: int,
    data: Seq<u8>,
    addr: int,
    byte: u8,
)
    requires
        0 <= pos,
    ensures
        puts(data_pieces(segments, pos, data), addr, byte) == some_wants(
            segments,
            0,
            pos,
            data,
            addr,
            byte,
        ),
    decreases data.len(),
{
    if data.len() == 0 {
    } else if data.len() <= 512 {
        lemma_chunk_pieces(segments, 0, pos, data, addr, byte);
    } else {
        let first = data.take(512);
        let rest = data.skip(512);
        lemma_chunk_pieces(segments, 0, pos, first, addr, byte);
        law_loading_puts_bytes_in_place(segments, pos + 512, rest, addr, byte);
        lemma_puts_of_both(
            chunk_pieces(segments, 0, 0, pos, first),
            data_pieces(segments, pos + 512, rest),
            addr,
            byte,
        );
        if some_wants(segments, 0, pos, data, addr, byte) {
            let s = choose|s: int|
                0 <= s < segments.len() && wants(#[trigger] segments[s], pos, data, addr, byte);
            assert(wants(segments[s], pos, first, addr, byte) || wants(
                segments[s],
                pos + 512,
                rest,
                addr,
                byte,
            ));
        }
        if some_wants(segments, 0, pos, first, addr, byte) {
            let s = choose|s: int|
                0 <= s < segments.len() && wants(#[trigger] segments[s], pos, first, addr, byte);
            assert(wants(segments[s], pos, data, addr, byte));
        }
        if some_wants(segments, 0, pos + 512, rest, addr, byte) {
            let s = choose|s: int|
                0 <= s < segments.len() && wants(
                    #[trigger] segments[s],
                    pos + 512,
                    rest,
                    addr,
                    byte,
                );
            assert(wants(segments[s], pos, data, addr, byte));
        }
    }
}

} // verus!
