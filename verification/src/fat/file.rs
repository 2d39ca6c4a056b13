//! Reading a file.

use vstd::prelude::*;
use vstd::string::StringSliceAdditionalSpecFns;

use crate::ata::{AtaError, SECTOR_SIZE};
use crate::fat::chain::{start_chain, Cursor, Next};
use crate::fat::dir::Entry;
use crate::fat::lookup::{cursor_read, resolve, Read, Replies, Resolve, ResolveStage};
use crate::fat::{FsError, Volume};

verus! {

/// The reads that reading a file makes, the bytes it delivers in order, and
/// what it comes to: the number of bytes delivered, or an error.
#[verifier::ext_equal]
pub ghost struct Contents {
    pub reads: Seq<Read>,
    pub data: Seq<u8>,
    pub result: Result<u32, FsError>,
}

impl Contents {
    /// The same, one read and the bytes that it delivered later.
    pub open spec fn after(self, read: Read, delivered: Seq<u8>) -> Contents {
        Contents {
            reads: seq![read] + self.reads,
            data: delivered + self.data,
            result: self.result,
        }
    }

    /// Nothing more is read or delivered.
    pub open spec fn ended(result: Result<u32, FsError>) -> Contents {
        Contents { reads: Seq::empty(), data: Seq::empty(), result }
    }
}

/// How many bytes of a sector belong to a file that has `remaining` to come.
pub open spec fn share(remaining: nat) -> nat {
    if remaining < SECTOR_SIZE {
        remaining
    } else {
        SECTOR_SIZE as nat
    }
}

/// Reading a file of `size` bytes from `cursor` on, when `remaining` of them
/// are still to be delivered.
pub open spec fn contents_from(
    volume: Volume,
    cursor: Cursor,
    remaining: nat,
    size: u32,
    replies: Replies,
    n: nat,
) -> Contents
    decreases cursor.reads_left(volume),
{
    let read = crate::fat::lookup::read_at(volume, cursor);
    if !volume.wf() || !cursor.wf(volume) {
        Contents::ended(Err(FsError::CorruptChain))
    } else {
        match replies(n) {
            Err(error) => Contents::ended(Err(FsError::Io(error))).after(read, Seq::empty()),
            Ok(sector) => {
                proof {
                    crate::fat::chain::law_walk_is_bounded(volume, cursor, sector);
                }
                if cursor is Link {
                    match cursor.past_link(volume, sector) {
                        Next::At(next) => contents_from(
                            volume,
                            next,
                            remaining,
                            size,
                            replies,
                            n + 1,
                        ).after(read, Seq::empty()),
                        Next::End(Ok(_)) => Contents::ended(Err(FsError::CorruptChain)).after(
                            read,
                            Seq::empty(),
                        ),
                        Next::End(Err(error)) => Contents::ended(Err(error)).after(
                            read,
                            Seq::empty(),
                        ),
                    }
                } else {
                    let taken = share(remaining);
                    let delivered = sector.take(taken as int);
                    if taken == remaining {
                        Contents::ended(Ok(size)).after(read, delivered)
                    } else {
                        match cursor.past_data(volume) {
                            Next::At(next) => contents_from(
                                volume,
                                next,
                                (remaining - taken) as nat,
                                size,
                                replies,
                                n + 1,
                            ).after(read, delivered),
                            Next::End(_) => Contents::ended(Err(FsError::CorruptChain)).after(
                                read,
                                delivered,
                            ),
                        }
                    }
                }
            },
        }
    }
}

/// Reading the file that a resolved path denotes. The root and any other
/// directory is no file; an empty file takes no read.
pub open spec fn contents_of(
    volume: Volume,
    found: Option<crate::fat::dir::EntryModel>,
    replies: Replies,
    n: nat,
) -> Contents {
    match found {
        None => Contents::ended(Err(FsError::IsADirectory)),
        Some(entry) => if entry.is_dir() {
            Contents::ended(Err(FsError::IsADirectory))
        } else if entry.size == 0 {
            Contents::ended(Ok(0))
        } else {
            match crate::fat::chain::chain_start(volume, entry.cluster) {
                Next::At(cursor) => contents_from(
                    volume,
                    cursor,
                    entry.size as nat,
                    entry.size,
                    replies,
                    n,
                ),
                Next::End(_) => Contents::ended(Err(FsError::CorruptChain)),
            }
        },
    }
}

/// Reads the file that a resolution leads to.
pub open spec fn then_read(
    resolution: crate::fat::lookup::Resolution,
    volume: Volume,
    replies: Replies,
    n: nat,
) -> Contents {
    match resolution.result {
        Err(error) => Contents { reads: resolution.reads, data: Seq::empty(), result: Err(error) },
        Ok(found) => {
            let rest = contents_of(volume, found, replies, n + resolution.reads.len());
            Contents { reads: resolution.reads + rest.reads, data: rest.data, result: rest.result }
        },
    }
}

/// All that reading the file at `path` does, given the disk's answers.
pub open spec fn contents(mounted: Option<Volume>, path: Seq<u8>, replies: Replies) -> Contents {
    match mounted {
        None => Contents::ended(Err(FsError::NoFilesystem)),
        Some(volume) => then_read(
            crate::fat::lookup::resolution(
                volume,
                crate::fat::path::components(path, 0),
                None,
                replies,
                0,
            ),
            volume,
            replies,
            0,
        ),
    }
}

/// How far the reading of a file has come.
#[derive(Debug, Clone, Copy, PartialEq, Eq)]
pub enum ReadStage<'a> {
    /// Finding the file.
    Resolving(Resolve<'a>),
    /// Reading it; `remaining` of its `size` bytes are still to come.
    Reading { volume: Volume, cursor: Cursor, remaining: u32, size: u32 },
    /// Done, with the number of bytes delivered.
    Done(Result<u32, FsError>),
}

/// The reading of a file, under way.
#[derive(Debug, Clone, Copy, PartialEq, Eq)]
pub struct ReadFile<'a> {
    pub stage: ReadStage<'a>,
}

impl<'a> ReadFile<'a> {
    /// The file, or the walk that leads to it, is sound.
    pub open spec fn wf(&self) -> bool {
        match self.stage {
            ReadStage::Resolving(resolve) => resolve.wf() && resolve.stage is Looking,
            ReadStage::Reading { volume, cursor, remaining, size } => {
                &&& volume.wf()
                &&& cursor.wf(volume)
                &&& cursor !is Root
                &&& 0 < remaining <= size
            },
            ReadStage::Done(_) => true,
        }
    }

    /// What is still to come, the next answer being number `n`.
    pub open spec fn rest(&self, replies: Replies, n: nat) -> Contents {
        match self.stage {
            ReadStage::Resolving(resolve) => then_read(
                resolve.rest(replies, n),
                resolve.volume,
                replies,
                n,
            ),
            ReadStage::Reading { volume, cursor, remaining, size } => contents_from(
                volume,
                cursor,
                remaining as nat,
                size,
                replies,
                n,
            ),
            ReadStage::Done(result) => Contents::ended(result),
        }
    }

    /// The sector to read next; nothing once the file is read.
    pub open spec fn pending(&self) -> Option<Read> {
        match self.stage {
            ReadStage::Resolving(resolve) => resolve.pending(),
            ReadStage::Reading { volume, cursor, .. } => Some(
                crate::fat::lookup::read_at(volume, cursor),
            ),
            ReadStage::Done(_) => None,
        }
    }

    /// The reading is done.
    pub open spec fn is_done(&self) -> bool {
        self.stage is Done
    }

    /// No more bytes than this are still to come.
    pub open spec fn at_most(&self) -> nat {
        match self.stage {
            ReadStage::Resolving(_) => u32::MAX as nat,
            ReadStage::Reading { remaining, .. } => remaining as nat,
            ReadStage::Done(_) => 0,
        }
    }
}

/// The bytes of a sector that a step delivers.
pub open spec fn delivered(reply: Result<&[u8; SECTOR_SIZE], AtaError>, taken: usize) -> Seq<u8> {
    match reply {
        Ok(sector) => sector@.take(taken as int),
        Err(_) => Seq::empty(),
    }
}

/// The stage that follows once a path is resolved.
fn opened<'a>(volume: Volume, found: &Option<Entry>) -> (stage: ReadStage<'a>)
    requires
        volume.wf(),
    ensures
        ({
            let file = ReadFile { stage };
            &&& file.wf()
            &&& forall|replies: Replies, n: nat| #[trigger]
                file.rest(replies, n) == contents_of(
                    volume,
                    crate::fat::lookup::entry_view(*found),
                    replies,
                    n,
                )
        }),
{
    match found {
        None => ReadStage::Done(Err(FsError::IsADirectory)),
        Some(entry) => {
            if entry.is_dir() {
                ReadStage::Done(Err(FsError::IsADirectory))
            } else if entry.size == 0 {
                ReadStage::Done(Ok(0))
            } else {
                match start_chain(&volume, entry.cluster) {
                    Next::At(cursor) => ReadStage::Reading {
                        volume,
                        cursor,
                        remaining: entry.size,
                        size: entry.size,
                    },
                    Next::End(_) => ReadStage::Done(Err(FsError::CorruptChain)),
                }
            }
        },
    }
}

/// The stage that a resolution is in, seen as the reading of a file.
fn followed<'a>(resolve: Resolve<'a>) -> (stage: ReadStage<'a>)
    requires
        resolve.wf(),
    ensures
        ({
            let file = ReadFile { stage };
            &&& file.wf()
            &&& forall|replies: Replies, n: nat| #[trigger]
                file.rest(replies, n) == then_read(
                    resolve.rest(replies, n),
                    resolve.volume,
                    replies,
                    n,
                )
        }),
{
    let stage = match resolve.stage {
        ResolveStage::Looking { .. } => ReadStage::Resolving(resolve),
        ResolveStage::Done(Err(error)) => ReadStage::Done(Err(error)),
        ResolveStage::Done(Ok(found)) => opened(resolve.volume, &found),
    };
    proof {
        let file = ReadFile { stage };
        assert forall|replies: Replies, n: nat| #[trigger]
            file.rest(replies, n) == then_read(
                resolve.rest(replies, n),
                resolve.volume,
                replies,
                n,
            ) by {
            let done = resolve.rest(replies, n);
            if resolve.stage is Done {
                assert(done.reads.len() == 0);
                assert(done.reads + file.rest(replies, n).reads =~= file.rest(replies, n).reads);
                assert(n + done.reads.len() == n);
            }
        }
    }
    stage
}

/// Begins to read a file. Each [`ReadFile::resume`] says how many leading
/// bytes of the sector it was given are the file's next; nothing is buffered,
/// so file size is irrelevant to memory use. The result is the number of bytes
/// delivered.
pub fn read_file<'a>(mounted: Option<Volume>, path: &'a str) -> (file: ReadFile<'a>)
    requires
        mounted matches Some(volume) ==> volume.wf(),
    ensures
        file.wf(),
        forall|replies: Replies|
            #![trigger file.rest(replies, 0)]
            file.rest(replies, 0) == contents(mounted, path.spec_bytes(), replies),
{
    match mounted {
        None => ReadFile { stage: ReadStage::Done(Err(FsError::NoFilesystem)) },
        Some(volume) => ReadFile { stage: followed(resolve(volume, path.as_bytes())) },
    }
}

impl<'a> ReadFile<'a> {
    /// The sector to read next; nothing once the file is read.
    pub fn request(&self) -> (request: Option<Read>)
        requires
            self.wf(),
        ensures
            request == self.pending(),
            request is None <==> self.is_done(),
    {
        match &self.stage {
            ReadStage::Resolving(resolve) => resolve.request(),
            ReadStage::Reading { volume, cursor, .. } => Some(cursor_read(volume, *cursor)),
            ReadStage::Done(_) => None,
        }
    }

    /// The number of bytes delivered, or why reading failed; nothing while it
    /// is under way.
    pub fn result(&self) -> (result: Option<Result<u32, FsError>>)
        ensures
            result == (match self.stage {
                ReadStage::Done(result) => Some(result),
                _ => None,
            }),
    {
        match self.stage {
            ReadStage::Done(result) => Some(result),
            _ => None,
        }
    }

    /// Goes on with the answer to the read that was asked for. The first
    /// `taken` bytes of the sector are the next bytes of the file.
    pub fn resume(&mut self, reply: Result<&[u8; SECTOR_SIZE], AtaError>) -> (taken: usize)
        requires
            old(self).wf(),
            !old(self).is_done(),
        ensures
            final(self).wf(),
            taken <= SECTOR_SIZE,
            reply is Err ==> taken == 0,
            0 < taken < SECTOR_SIZE ==> final(self).is_done(),
            final(self).at_most() + taken <= old(self).at_most(),
            forall|replies: Replies, n: nat|
                replies(n) == crate::fat::lookup::reply_view(reply) ==> #[trigger] old(self).rest(
                    replies,
                    n,
                ) == final(self).rest(replies, n + 1).after(
                    old(self).pending()->0,
                    delivered(reply, taken),
                ),
    {
        match self.stage {
            ReadStage::Resolving(resolve) => {
                let mut resolve = resolve;
                let ghost before = resolve;
                resolve.resume(reply);
                self.stage = followed(resolve);
                proof {
                    let read = before.pending()->0;
                    let after = *self;
                    assert(delivered(reply, 0) =~= Seq::<u8>::empty());
                    assert forall|replies: Replies, n: nat|
                        replies(n) == crate::fat::lookup::reply_view(reply) implies #[trigger] old(
                        self,
                    ).rest(replies, n) == after.rest(replies, n + 1).after(
                        read,
                        delivered(reply, 0),
                    ) by {
                        let whole = before.rest(replies, n);
                        let tail = resolve.rest(replies, n + 1);
                        assert(whole == tail.after(read));
                        assert(n + whole.reads.len() == n + 1 + tail.reads.len());
                        assert(old(self).rest(replies, n) =~= after.rest(replies, n + 1).after(
                            read,
                            delivered(reply, 0),
                        ));
                    }
                }
                0
            },
            ReadStage::Reading { volume, cursor, remaining, size } => {
                match reply {
                    Err(error) => {
                        self.stage = ReadStage::Done(Err(FsError::Io(error)));
                        0
                    },
                    Ok(sector) => match cursor {
                        Cursor::Link { .. } => {
                            assert(sector@.take(0) =~= Seq::<u8>::empty());
                            self.stage = match cursor.after_link(&volume, sector) {
                                Next::At(cursor) => ReadStage::Reading {
                                    volume,
                                    cursor,
                                    remaining,
                                    size,
                                },
                                // The chain ended before the file's recorded
                                // size was delivered.
                                Next::End(Ok(_)) => ReadStage::Done(Err(FsError::CorruptChain)),
                                Next::End(Err(error)) => ReadStage::Done(Err(error)),
                            };
                            0
                        },
                        _ => {
                            let taken: u32 = if remaining < 512 {
                                remaining
                            } else {
                                512
                            };
                            let left: u32 = remaining - taken;
                            self.stage = if left == 0 {
                                ReadStage::Done(Ok(size))
                            } else {
                                match cursor.after_data(&volume) {
                                    Next::At(cursor) => ReadStage::Reading {
                                        volume,
                                        cursor,
                                        remaining: left,
                                        size,
                                    },
                                    Next::End(_) => ReadStage::Done(Err(FsError::CorruptChain)),
                                }
                            };
                            taken as usize
                        },
                    },
                }
            },
            ReadStage::Done(_) => 0,
        }
    }
}

} // verus!
