//! Finding a name in a directory, and resolving a path to its entry.
//!
//! An operation on the disk is a dialogue: it asks for a sector, is given the
//! answer, and asks for the next. What it does is stated over the answers,
//! numbered in the order in which they come (`Replies`), and holds whatever
//! they are: the same sector may read differently twice, and any read may fail.

use vstd::prelude::*;

use crate::ata::{AtaError, SECTOR_SIZE};
use crate::fat::chain::{start_dir, Cursor, Dir, Next};
use crate::fat::dir::{find_in_sector, Entry};
use crate::fat::path::next_component;
use crate::fat::{FsError, Volume};

verus! {

/// One sector that is to be read, of a drive that has `sectors` of them.
#[derive(Debug, Clone, Copy, PartialEq, Eq, Structural)]
pub struct Read {
    pub drive: u8,
    pub lba: u32,
    pub sectors: u32,
}

/// The disk's answer to each read, in the order of the reads.
pub type Replies = spec_fn(nat) -> Result<Seq<u8>, AtaError>;

/// An answer as a value.
pub open spec fn reply_view(reply: Result<&[u8; SECTOR_SIZE], AtaError>) -> Result<
    Seq<u8>,
    AtaError,
> {
    match reply {
        Ok(sector) => Ok(sector@),
        Err(error) => Err(error),
    }
}

/// The read that a cursor stands for.
pub open spec fn read_at(volume: Volume, cursor: Cursor) -> Read {
    Read { drive: volume.drive, lba: cursor.lba(volume) as u32, sectors: volume.sectors }
}

/// The read that a cursor stands for.
pub fn cursor_read(volume: &Volume, cursor: Cursor) -> (read: Read)
    requires
        volume.wf(),
        cursor.wf(*volume),
    ensures
        read == read_at(*volume, cursor),
{
    Read { drive: volume.drive, lba: cursor.sector_number(volume), sectors: volume.sectors }
}

/// The reads that a search makes, and what it comes to.
#[verifier::ext_equal]
pub ghost struct Search {
    pub reads: Seq<Read>,
    pub result: Result<crate::fat::dir::EntryModel, FsError>,
}

/// A search for `name` from `cursor` on, the first answer being number `n`.
///
/// It reads sector after sector, stops at the first entry that goes by `name`,
/// and fails at the first read that fails. The end of the directory, be it
/// marked or be it the end of its sectors, means that there is no such entry.
pub open spec fn search_from(
    volume: Volume,
    cursor: Cursor,
    name: Seq<u8>,
    replies: Replies,
    n: nat,
) -> Search
    decreases cursor.reads_left(volume),
{
    let here = seq![read_at(volume, cursor)];
    if !volume.wf() || !cursor.wf(volume) {
        Search { reads: Seq::empty(), result: Err(FsError::CorruptChain) }
    } else {
        match replies(n) {
            Err(error) => Search { reads: here, result: Err(FsError::Io(error)) },
            Ok(sector) => {
                proof {
                    crate::fat::chain::law_walk_is_bounded(volume, cursor, sector);
                }
                let entries = crate::fat::dir::entries_from(sector, 0);
                if cursor is Link {
                    match cursor.past_link(volume, sector) {
                        Next::At(next) => {
                            let rest = search_from(volume, next, name, replies, n + 1);
                            Search { reads: here + rest.reads, result: rest.result }
                        },
                        Next::End(Ok(_)) => Search { reads: here, result: Err(FsError::NotFound) },
                        Next::End(Err(error)) => Search { reads: here, result: Err(error) },
                    }
                } else {
                    match crate::fat::dir::first_named(entries, name) {
                        Some(entry) => Search { reads: here, result: Ok(entry) },
                        None => if crate::fat::dir::ends_from(sector, 0) {
                            Search { reads: here, result: Err(FsError::NotFound) }
                        } else {
                            match cursor.past_data(volume) {
                                Next::At(next) => {
                                    let rest = search_from(volume, next, name, replies, n + 1);
                                    Search { reads: here + rest.reads, result: rest.result }
                                },
                                Next::End(_) => Search {
                                    reads: here,
                                    result: Err(FsError::NotFound),
                                },
                            }
                        },
                    }
                }
            },
        }
    }
}

/// A search of a whole directory.
pub open spec fn search(
    volume: Volume,
    dir: Dir,
    name: Seq<u8>,
    replies: Replies,
    n: nat,
) -> Search {
    match crate::fat::chain::dir_start(volume, dir) {
        Next::At(cursor) => search_from(volume, cursor, name, replies, n),
        Next::End(Err(error)) => Search { reads: Seq::empty(), result: Err(error) },
        Next::End(Ok(_)) => Search { reads: Seq::empty(), result: Err(FsError::NotFound) },
    }
}

/// The directory that a path prefix leads to: the root before any name has
/// been resolved, else the directory that the last entry is.
pub open spec fn directory_of(current: Option<crate::fat::dir::EntryModel>) -> Result<
    Dir,
    FsError,
> {
    match current {
        None => Ok(Dir::Root),
        Some(entry) => crate::fat::dir::location(entry),
    }
}

/// The directory that a path prefix leads to.
pub fn directory(current: &Option<Entry>) -> (result: Result<Dir, FsError>)
    ensures
        result == directory_of(entry_view(*current)),
{
    match current {
        None => Ok(Dir::Root),
        Some(entry) => entry.location(),
    }
}

/// An optional entry as a value.
pub open spec fn entry_view(entry: Option<Entry>) -> Option<crate::fat::dir::EntryModel> {
    match entry {
        None => None,
        Some(entry) => Some(entry@),
    }
}

/// The reads that resolving a path makes, and the entry it leads to; the root
/// has no entry of its own.
#[verifier::ext_equal]
pub ghost struct Resolution {
    pub reads: Seq<Read>,
    pub result: Result<Option<crate::fat::dir::EntryModel>, FsError>,
}

/// Resolves `names` one after another, from the directory that `current` is.
pub open spec fn resolution(
    volume: Volume,
    names: Seq<Seq<u8>>,
    current: Option<crate::fat::dir::EntryModel>,
    replies: Replies,
    n: nat,
) -> Resolution
    decreases names.len(), 0nat,
{
    if names.len() == 0 {
        Resolution { reads: Seq::empty(), result: Ok(current) }
    } else {
        match directory_of(current) {
            Err(error) => Resolution { reads: Seq::empty(), result: Err(error) },
            Ok(dir) => {
                let found = search(volume, dir, names[0], replies, n);
                found.then_resolve(volume, names.drop_first(), replies, n)
            },
        }
    }
}

impl Search {
    /// Goes on with `names` in the entry that was found.
    pub open spec fn then_resolve(
        self,
        volume: Volume,
        names: Seq<Seq<u8>>,
        replies: Replies,
        n: nat,
    ) -> Resolution
        decreases names.len(), 1nat,
    {
        match self.result {
            Err(error) => Resolution { reads: self.reads, result: Err(error) },
            Ok(entry) => {
                let rest = resolution(
                    volume,
                    names,
                    Some(entry),
                    replies,
                    n + self.reads.len(),
                );
                Resolution { reads: self.reads + rest.reads, result: rest.result }
            },
        }
    }
}

impl Resolution {
    /// The same, one read later.
    pub open spec fn after(self, read: Read) -> Resolution {
        Resolution { reads: seq![read] + self.reads, result: self.result }
    }
}

/// The names agree one by one, up to ASCII case.
pub open spec fn same_names(a: Seq<Seq<u8>>, b: Seq<Seq<u8>>) -> bool {
    &&& a.len() == b.len()
    &&& forall|i: int|
        0 <= i < a.len() ==> crate::fat::dir::same_but_for_case(#[trigger] a[i], b[i])
}

/// Case does not matter in a path: names that agree up to ASCII case resolve
/// alike, by the same reads, to the same entry or the same error.
pub proof fn law_case_does_not_matter(
    volume: Volume,
    a: Seq<Seq<u8>>,
    b: Seq<Seq<u8>>,
    current: Option<crate::fat::dir::EntryModel>,
    replies: Replies,
    n: nat,
)
    requires
        same_names(a, b),
    ensures
        resolution(volume, a, current, replies, n) == resolution(volume, b, current, replies, n),
    decreases a.len(),
{
    if a.len() > 0 {
        if let Ok(dir) = directory_of(current) {
            assert(crate::fat::dir::same_but_for_case(a[0], b[0]));
            if let Next::At(cursor) = crate::fat::chain::dir_start(volume, dir) {
                lemma_same_search(volume, cursor, a[0], b[0], replies, n);
            }
            let found = search(volume, dir, a[0], replies, n);
            assert(found == search(volume, dir, b[0], replies, n));
            let rest_a = a.drop_first();
            let rest_b = b.drop_first();
            assert forall|i: int| 0 <= i < rest_a.len() implies crate::fat::dir::same_but_for_case(
                #[trigger] rest_a[i],
                rest_b[i],
            ) by {
                assert(crate::fat::dir::same_but_for_case(a[i + 1], b[i + 1]));
            }
            if let Ok(entry) = found.result {
                law_case_does_not_matter(
                    volume,
                    rest_a,
                    rest_b,
                    Some(entry),
                    replies,
                    n + found.reads.len(),
                );
            }
            reveal_with_fuel(Search::then_resolve, 2);
        }
    }
}

proof fn lemma_same_search(
    volume: Volume,
    cursor: Cursor,
    a: Seq<u8>,
    b: Seq<u8>,
    replies: Replies,
    n: nat,
)
    requires
        crate::fat::dir::same_but_for_case(a, b),
    ensures
        search_from(volume, cursor, a, replies, n) == search_from(volume, cursor, b, replies, n),
    decreases cursor.reads_left(volume),
{
    if volume.wf() && cursor.wf(volume) {
        if let Ok(sector) = replies(n) {
            crate::fat::chain::law_walk_is_bounded(volume, cursor, sector);
            lemma_same_named(crate::fat::dir::entries_from(sector, 0), a, b);
            let next = if cursor is Link {
                cursor.past_link(volume, sector)
            } else {
                cursor.past_data(volume)
            };
            if let Next::At(next) = next {
                lemma_same_search(volume, next, a, b, replies, n + 1);
            }
        }
    }
}

proof fn lemma_same_named(
    entries: Seq<crate::fat::dir::EntryModel>,
    a: Seq<u8>,
    b: Seq<u8>,
)
    requires
        crate::fat::dir::same_but_for_case(a, b),
    ensures
        crate::fat::dir::first_named(entries, a) == crate::fat::dir::first_named(entries, b),
    decreases entries.len(),
{
    if entries.len() > 0 {
        let shown = crate::text::shown(entries[0].name);
        assert(crate::fat::dir::same_but_for_case(shown, a) == crate::fat::dir::same_but_for_case(
            shown,
            b,
        )) by {
            if shown.len() == a.len() {
                assert forall|i: int| 0 <= i < a.len() implies crate::fat::dir::lower(a[i])
                    == #[trigger] crate::fat::dir::lower(b[i]) by {
                    assert(crate::fat::dir::lower(a[i]) == crate::fat::dir::lower(b[i]));
                }
                if crate::fat::dir::same_but_for_case(shown, a) {
                    assert forall|i: int| 0 <= i < shown.len() implies crate::fat::dir::lower(
                        #[trigger] shown[i],
                    ) == crate::fat::dir::lower(b[i]) by {
                        assert(crate::fat::dir::lower(a[i]) == crate::fat::dir::lower(b[i]));
                    }
                }
                if crate::fat::dir::same_but_for_case(shown, b) {
                    assert forall|i: int| 0 <= i < shown.len() implies crate::fat::dir::lower(
                        #[trigger] shown[i],
                    ) == crate::fat::dir::lower(a[i]) by {
                        assert(crate::fat::dir::lower(a[i]) == crate::fat::dir::lower(b[i]));
                    }
                }
            }
        }
        lemma_same_named(entries.drop_first(), a, b);
    }
}

/// How far the resolution of a path has come.
#[derive(Debug, Clone, Copy, PartialEq, Eq)]
pub enum ResolveStage {
    /// Looking for the name that lies at `start..end` in the path.
    Looking { cursor: Cursor, start: usize, end: usize },
    /// Done; the root has no entry of its own.
    Done(Result<Option<Entry>, FsError>),
}

/// The resolution of a path, under way.
#[derive(Debug, Clone, Copy, PartialEq, Eq)]
pub struct Resolve<'a> {
    pub volume: Volume,
    pub path: &'a [u8],
    pub stage: ResolveStage,
}

impl<'a> Resolve<'a> {
    /// The volume is sound, and a search points into it.
    pub open spec fn wf(&self) -> bool {
        &&& self.volume.wf()
        &&& match self.stage {
            ResolveStage::Looking { cursor, start, end } => cursor.wf(self.volume) && start < end
                <= self.path.len(),
            ResolveStage::Done(Ok(Some(entry))) => entry.wf(),
            ResolveStage::Done(_) => true,
        }
    }

    /// What is still to come, the next answer being number `n`.
    pub open spec fn rest(&self, replies: Replies, n: nat) -> Resolution {
        match self.stage {
            ResolveStage::Looking { cursor, start, end } => search_from(
                self.volume,
                cursor,
                self.path@.subrange(start as int, end as int),
                replies,
                n,
            ).then_resolve(
                self.volume,
                crate::fat::path::components(self.path@, end as int),
                replies,
                n,
            ),
            ResolveStage::Done(result) => Resolution {
                reads: Seq::empty(),
                result: match result {
                    Ok(entry) => Ok(entry_view(entry)),
                    Err(error) => Err(error),
                },
            },
        }
    }

    /// The sector to read next; nothing once the path is resolved.
    pub open spec fn pending(&self) -> Option<Read> {
        match self.stage {
            ResolveStage::Looking { cursor, .. } => Some(read_at(self.volume, cursor)),
            ResolveStage::Done(_) => None,
        }
    }
}

/// Looks for the name at or after byte `at` in the directory that `current` is.
fn next_stage(volume: &Volume, path: &[u8], at: usize, current: Option<Entry>) -> (stage:
    ResolveStage)
    requires
        volume.wf(),
        at <= path.len(),
        current matches Some(entry) ==> entry.wf(),
    ensures
        ({
            let next = Resolve { volume: *volume, path, stage };
            &&& next.wf()
            &&& forall|replies: Replies, n: nat| #[trigger]
                next.rest(replies, n) == resolution(
                    *volume,
                    crate::fat::path::components(path@, at as int),
                    entry_view(current),
                    replies,
                    n,
                )
        }),
{
    match next_component(path, at) {
        None => ResolveStage::Done(Ok(current)),
        Some((start, end)) => {
            let ghost name = path@.subrange(start as int, end as int);
            let ghost names = crate::fat::path::components(path@, end as int);
            assert((seq![name] + names).drop_first() =~= names);
            assert((seq![name] + names)[0] == name);
            match directory(&current) {
                Err(error) => ResolveStage::Done(Err(error)),
                Ok(dir) => match start_dir(volume, dir) {
                    Next::At(cursor) => ResolveStage::Looking { cursor, start, end },
                    Next::End(Err(error)) => ResolveStage::Done(Err(error)),
                    Next::End(Ok(_)) => ResolveStage::Done(Err(FsError::NotFound)),
                },
            }
        },
    }
}

/// Begins to resolve `path`.
pub fn resolve<'a>(volume: Volume, path: &'a [u8]) -> (resolve: Resolve<'a>)
    requires
        volume.wf(),
    ensures
        resolve.wf(),
        resolve.volume == volume,
        resolve.path == path,
        forall|replies: Replies, n: nat| #[trigger]
            resolve.rest(replies, n) == resolution(
                volume,
                crate::fat::path::components(path@, 0),
                None,
                replies,
                n,
            ),
{
    let stage = next_stage(&volume, path, 0, None);
    Resolve { volume, path, stage }
}

impl<'a> Resolve<'a> {
    /// The sector to read next; nothing once the path is resolved.
    pub fn request(&self) -> (request: Option<Read>)
        requires
            self.wf(),
        ensures
            request == self.pending(),
    {
        match self.stage {
            ResolveStage::Looking { cursor, .. } => Some(cursor_read(&self.volume, cursor)),
            ResolveStage::Done(_) => None,
        }
    }

    /// Goes on with the answer to the read that was asked for.
    pub fn resume(&mut self, reply: Result<&[u8; SECTOR_SIZE], AtaError>)
        requires
            old(self).wf(),
            old(self).stage is Looking,
        ensures
            final(self).wf(),
            final(self).volume == old(self).volume,
            final(self).path == old(self).path,
            forall|replies: Replies, n: nat|
                replies(n) == reply_view(reply) ==> #[trigger] old(self).rest(replies, n)
                    == final(self).rest(replies, n + 1).after(old(self).pending()->0),
    {
        let volume = self.volume;
        let path = self.path;
        if let ResolveStage::Looking { cursor, start, end } = self.stage {
            let ghost read = read_at(volume, cursor);
            let ghost name = path@.subrange(start as int, end as int);
            let ghost names = crate::fat::path::components(path@, end as int);
            match reply {
                Err(error) => {
                    self.stage = ResolveStage::Done(Err(FsError::Io(error)));
                },
                Ok(sector) => {
                    let next: Next;
                    match cursor {
                        Cursor::Link { .. } => {
                            next = cursor.after_link(&volume, sector);
                        },
                        _ => {
                            let (found, ended) = find_in_sector(
                                sector,
                                vstd::slice::slice_subrange(path, start, end),
                            );
                            if let Some(entry) = found {
                                self.stage = next_stage(&volume, path, end, Some(entry));
                                proof {
                                    let after = *self;
                                    assert forall|replies: Replies, n: nat|
                                        replies(n) == reply_view(reply) implies #[trigger] old(
                                        self,
                                    ).rest(replies, n) == after.rest(replies, n + 1).after(read) by {
                                        let here = search_from(volume, cursor, name, replies, n);
                                        assert(here.reads =~= seq![read]);
                                        assert(here.result == Ok::<
                                            crate::fat::dir::EntryModel,
                                            FsError,
                                        >(entry@));
                                    }
                                }
                                return ;
                            }
                            next = if ended {
                                Next::End(Ok(()))
                            } else {
                                cursor.after_data(&volume)
                            };
                        },
                    }
                    self.stage = match next {
                        Next::At(cursor) => ResolveStage::Looking { cursor, start, end },
                        Next::End(Err(error)) => ResolveStage::Done(Err(error)),
                        Next::End(Ok(_)) => ResolveStage::Done(Err(FsError::NotFound)),
                    };
                },
            }
            proof {
                let after = *self;
                assert forall|replies: Replies, n: nat|
                    replies(n) == reply_view(reply) implies #[trigger] old(self).rest(replies, n)
                    == after.rest(replies, n + 1).after(read) by {
                    let here = search_from(volume, cursor, name, replies, n);
                    if let ResolveStage::Looking { cursor: next, .. } = after.stage {
                        let there = search_from(volume, next, name, replies, n + 1);
                        assert(here.reads =~= seq![read] + there.reads);
                        assert(here.result == there.result);
                        assert(n + here.reads.len() == n + 1 + there.reads.len());
                        let tail = there.then_resolve(volume, names, replies, n + 1);
                        assert(here.then_resolve(volume, names, replies, n).reads =~= seq![read]
                            + tail.reads);
                    } else {
                        assert(here.reads =~= seq![read]);
                        assert(here.reads + Seq::<Read>::empty() =~= here.reads);
                        assert(seq![read] + Seq::<Read>::empty() =~= seq![read]);
                    }
                }
            }
        }
    }
}

} // verus!
