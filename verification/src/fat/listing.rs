//! Listing a directory.

use vstd::prelude::*;
use vstd::string::StringSliceAdditionalSpecFns;

use crate::ata::{AtaError, SECTOR_SIZE};
use crate::fat::chain::{start_dir, Cursor, Next};
use crate::fat::dir::{scan_sector, Entry, Found, ENTRIES_PER_SECTOR};
use crate::fat::lookup::{cursor_read, directory, resolve, Read, Replies, Resolve, ResolveStage};
use crate::fat::{FsError, Volume};

verus! {

/// The reads that a listing makes, the entries it shows in order, and what it
/// comes to: the number of entries shown, or an error.
#[verifier::ext_equal]
pub ghost struct Listing {
    pub reads: Seq<Read>,
    pub entries: Seq<crate::fat::dir::EntryModel>,
    pub result: Result<nat, FsError>,
}

impl Listing {
    /// The same, one read and the entries that it showed later.
    pub open spec fn after(self, read: Read, shown: Seq<crate::fat::dir::EntryModel>) -> Listing {
        Listing {
            reads: seq![read] + self.reads,
            entries: shown + self.entries,
            result: self.result,
        }
    }

    /// A listing that ends at once.
    pub open spec fn ended(result: Result<nat, FsError>) -> Listing {
        Listing { reads: Seq::empty(), entries: Seq::empty(), result }
    }
}

/// The entries that a listing shows: all but `.` and `..`.
pub open spec fn visible(entries: Seq<crate::fat::dir::EntryModel>) -> Seq<
    crate::fat::dir::EntryModel,
>
    decreases entries.len(),
{
    if entries.len() == 0 {
        Seq::empty()
    } else if is_dot_name(entries[0].name) {
        visible(entries.drop_first())
    } else {
        seq![entries[0]] + visible(entries.drop_first())
    }
}

/// `.` or `..`.
pub open spec fn is_dot_name(name: Seq<u8>) -> bool {
    name == seq![0x2Eu8] || name == seq![0x2Eu8, 0x2Eu8]
}

/// A listing from `cursor` on, when `count` entries were shown already.
pub open spec fn listing_from(
    volume: Volume,
    cursor: Cursor,
    count: nat,
    replies: Replies,
    n: nat,
) -> Listing
    decreases cursor.reads_left(volume),
{
    let read = crate::fat::lookup::read_at(volume, cursor);
    if !volume.wf() || !cursor.wf(volume) {
        Listing::ended(Err(FsError::CorruptChain))
    } else {
        match replies(n) {
            Err(error) => Listing::ended(Err(FsError::Io(error))).after(read, Seq::empty()),
            Ok(sector) => {
                proof {
                    crate::fat::chain::law_walk_is_bounded(volume, cursor, sector);
                }
                let shown = if cursor is Link {
                    Seq::empty()
                } else {
                    visible(crate::fat::dir::entries_from(sector, 0))
                };
                let next = if cursor is Link {
                    cursor.past_link(volume, sector)
                } else if crate::fat::dir::ends_from(sector, 0) {
                    Next::End(Ok(()))
                } else {
                    cursor.past_data(volume)
                };
                match next {
                    Next::At(next) => listing_from(
                        volume,
                        next,
                        count + shown.len(),
                        replies,
                        n + 1,
                    ).after(read, shown),
                    Next::End(Ok(_)) => Listing::ended(Ok(count + shown.len())).after(read, shown),
                    Next::End(Err(error)) => Listing::ended(Err(error)).after(read, shown),
                }
            },
        }
    }
}

/// The listing of the directory that a resolved path denotes.
pub open spec fn listing_of(
    volume: Volume,
    found: Option<crate::fat::dir::EntryModel>,
    replies: Replies,
    n: nat,
) -> Listing {
    match crate::fat::lookup::directory_of(found) {
        Err(error) => Listing::ended(Err(error)),
        Ok(dir) => match crate::fat::chain::dir_start(volume, dir) {
            Next::At(cursor) => listing_from(volume, cursor, 0, replies, n),
            Next::End(Ok(_)) => Listing::ended(Ok(0)),
            Next::End(Err(error)) => Listing::ended(Err(error)),
        },
    }
}

/// Lists the directory that a resolution leads to.
pub open spec fn then_list(
    resolution: crate::fat::lookup::Resolution,
    volume: Volume,
    replies: Replies,
    n: nat,
) -> Listing {
    match resolution.result {
        Err(error) => Listing { reads: resolution.reads, entries: Seq::empty(), result: Err(error) },
        Ok(found) => {
            let rest = listing_of(volume, found, replies, n + resolution.reads.len());
            Listing {
                reads: resolution.reads + rest.reads,
                entries: rest.entries,
                result: rest.result,
            }
        },
    }
}

/// All that a listing of `path` does, given the disk's answers.
pub open spec fn listing(mounted: Option<Volume>, path: Seq<u8>, replies: Replies) -> Listing {
    match mounted {
        None => Listing::ended(Err(FsError::NoFilesystem)),
        Some(volume) => then_list(
            crate::fat::lookup::resolution(
                volume,
                crate::fat::path::components(path, 0),
                None,
                replies,
                0,
            ),
            volume,
            replies,
            0,
        ),
    }
}

/// The entries that one sector contributes to a listing.
#[derive(Debug, Clone, Copy, PartialEq, Eq)]
pub struct Batch {
    pub entries: [Entry; 16],
    pub len: usize,
}

impl View for Batch {
    type V = Seq<crate::fat::dir::EntryModel>;

    open spec fn view(&self) -> Seq<crate::fat::dir::EntryModel> {
        Seq::new(self.len as nat, |i: int| self.entries[i]@)
    }
}

impl Batch {
    /// No more entries than a sector holds, each of them sound.
    pub open spec fn wf(&self) -> bool {
        &&& self.len <= ENTRIES_PER_SECTOR
        &&& forall|i: int| 0 <= i < self.len ==> (#[trigger] self.entries[i]).wf()
    }

    fn new() -> (batch: Batch)
        ensures
            batch.wf(),
            batch@ == Seq::<crate::fat::dir::EntryModel>::empty(),
    {
        let blank = Entry { name: [0u8; 12], name_len: 0, attr: 0, cluster: 0, size: 0 };
        Batch { entries: [blank; 16], len: 0 }
    }

    fn push(&mut self, entry: Entry)
        requires
            old(self).wf(),
            old(self).len < ENTRIES_PER_SECTOR,
            entry.wf(),
        ensures
            final(self).wf(),
            final(self).len == old(self).len + 1,
            final(self)@ == old(self)@.push(entry@),
    {
        let at: usize = self.len;
        self.entries[at] = entry;
        self.len = at + 1;
        assert(self@ =~= old(self)@.push(entry@));
    }

    /// The entries, in the order of the directory.
    pub fn entries(&self) -> (entries: &[Entry])
        requires
            self.wf(),
        ensures
            entries@ == self.entries@.take(self.len as int),
    {
        vstd::slice::slice_subrange(self.entries.as_slice(), 0, self.len)
    }
}

proof fn lemma_visible_of_pair(
    first: crate::fat::dir::EntryModel,
    rest: Seq<crate::fat::dir::EntryModel>,
)
    ensures
        visible(seq![first] + rest) == (if is_dot_name(first.name) {
            visible(rest)
        } else {
            seq![first] + visible(rest)
        }),
{
    assert((seq![first] + rest).drop_first() =~= rest);
}

proof fn lemma_visible_len(entries: Seq<crate::fat::dir::EntryModel>)
    ensures
        visible(entries).len() <= entries.len(),
    decreases entries.len(),
{
    if entries.len() > 0 {
        lemma_visible_len(entries.drop_first());
    }
}

proof fn lemma_entries_len(sector: Seq<u8>, i: int)
    requires
        0 <= i <= 16,
    ensures
        crate::fat::dir::entries_from(sector, i).len() <= 16 - i,
    decreases 16 - i,
{
    if i < 16 {
        lemma_entries_len(sector, i + 1);
    }
}

fn is_dot(entry: &Entry) -> (answer: bool)
    requires
        entry.wf(),
    ensures
        answer == is_dot_name(entry@.name),
{
    let ghost name = entry@.name;
    let answer = (entry.name_len == 1 && entry.name[0] == 0x2E) || (entry.name_len == 2
        && entry.name[0] == 0x2E && entry.name[1] == 0x2E);
    proof {
        assert(name.len() == entry.name_len);
        if name.len() == 1 {
            assert(name[0] == entry.name@[0]);
        } else if name.len() == 2 {
            assert(name[0] == entry.name@[0] && name[1] == entry.name@[1]);
        }
        if answer {
            assert(name =~= seq![0x2Eu8] || name =~= seq![0x2Eu8, 0x2Eu8]);
        }
    }
    answer
}

/// Collects the entries of one sector that a listing shows. The flag tells
/// whether the directory ends there.
pub fn collect_sector(sector: &[u8; SECTOR_SIZE]) -> (result: (Batch, bool))
    ensures
        result.0.wf(),
        result.0@ == visible(crate::fat::dir::entries_from(sector@, 0)),
        result.1 == crate::fat::dir::ends_from(sector@, 0),
{
    let mut batch = Batch::new();
    let mut from: usize = 0;
    proof {
        assert(batch@ + visible(crate::fat::dir::entries_from(sector@, 0)) =~= visible(
            crate::fat::dir::entries_from(sector@, 0),
        ));
    }
    loop
        invariant
            from <= 16,
            batch.wf(),
            batch.len <= from,
            visible(crate::fat::dir::entries_from(sector@, 0)) == batch@ + visible(
                crate::fat::dir::entries_from(sector@, from as int),
            ),
            crate::fat::dir::ends_from(sector@, 0) == crate::fat::dir::ends_from(
                sector@,
                from as int,
            ),
        decreases 16 - from,
    {
        let found = scan_sector(sector, from);
        match found {
            Found::Entry { entry, next } => {
                let ghost before = batch@;
                let ghost tail = crate::fat::dir::entries_from(sector@, next as int);
                proof {
                    lemma_visible_of_pair(entry@, tail);
                }
                if !is_dot(&entry) {
                    batch.push(entry);
                    assert(before + (seq![entry@] + visible(tail)) =~= batch@ + visible(tail));
                }
                from = next;
            },
            _ => {
                assert(batch@ + Seq::<crate::fat::dir::EntryModel>::empty() =~= batch@);
                let ended = matches!(found, Found::DirectoryEnd);
                return (batch, ended);
            },
        }
    }
}

/// How far a listing has come.
#[derive(Debug, Clone, Copy, PartialEq, Eq)]
pub enum ListStage<'a> {
    /// Finding the directory.
    Resolving(Resolve<'a>),
    /// Reading it; `count` entries were shown so far.
    Listing { volume: Volume, cursor: Cursor, count: u32 },
    /// Done, with the number of entries shown.
    Done(Result<u32, FsError>),
}

/// The listing of a directory, under way.
#[derive(Debug, Clone, Copy, PartialEq, Eq)]
pub struct List<'a> {
    pub stage: ListStage<'a>,
}

impl<'a> List<'a> {
    /// The directory, or the walk that leads to it, is sound, and the count
    /// cannot outgrow its type before the walk ends.
    pub open spec fn wf(&self) -> bool {
        match self.stage {
            ListStage::Resolving(resolve) => resolve.wf() && resolve.stage is Looking,
            ListStage::Listing { volume, cursor, count } => {
                &&& volume.wf()
                &&& cursor.wf(volume)
                &&& count + 16 * cursor.reads_left(volume) <= u32::MAX
            },
            ListStage::Done(_) => true,
        }
    }

    /// What is still to come, the next answer being number `n`.
    pub open spec fn rest(&self, replies: Replies, n: nat) -> Listing {
        match self.stage {
            ListStage::Resolving(resolve) => then_list(
                resolve.rest(replies, n),
                resolve.volume,
                replies,
                n,
            ),
            ListStage::Listing { volume, cursor, count } => listing_from(
                volume,
                cursor,
                count as nat,
                replies,
                n,
            ),
            ListStage::Done(Ok(count)) => Listing::ended(Ok(count as nat)),
            ListStage::Done(Err(error)) => Listing::ended(Err(error)),
        }
    }

    /// The sector to read next; nothing once the listing is done.
    pub open spec fn pending(&self) -> Option<Read> {
        match self.stage {
            ListStage::Resolving(resolve) => resolve.pending(),
            ListStage::Listing { volume, cursor, count } => Some(
                crate::fat::lookup::read_at(volume, cursor),
            ),
            ListStage::Done(_) => None,
        }
    }

    /// The listing is done.
    pub open spec fn is_done(&self) -> bool {
        self.stage is Done
    }
}

proof fn lemma_reads_left_bound(volume: Volume, cursor: Cursor)
    requires
        volume.wf(),
        cursor.wf(volume),
    ensures
        16 * cursor.reads_left(volume) <= 0x1000_0000,
{
    let per = (volume.sectors_per_cluster + 1) as nat;
    let hops = cursor.hops();
    assert(hops * per <= 65524 * 129) by (nonlinear_arith)
        requires
            hops <= 65524,
            per <= 129,
    ;
    if let Cursor::Root { index } = cursor {
        assert(0 * per == 0) by (nonlinear_arith);
    }
}

/// The stage that follows once a path is resolved.
fn opened<'a>(volume: Volume, found: &Option<Entry>) -> (stage: ListStage<'a>)
    requires
        volume.wf(),
    ensures
        ({
            let list = List { stage };
            &&& list.wf()
            &&& forall|replies: Replies, n: nat| #[trigger]
                list.rest(replies, n) == listing_of(
                    volume,
                    crate::fat::lookup::entry_view(*found),
                    replies,
                    n,
                )
        }),
{
    match directory(found) {
        Err(error) => ListStage::Done(Err(error)),
        Ok(dir) => match start_dir(&volume, dir) {
            Next::At(cursor) => {
                proof {
                    lemma_reads_left_bound(volume, cursor);
                }
                ListStage::Listing { volume, cursor, count: 0 }
            },
            Next::End(Ok(_)) => ListStage::Done(Ok(0)),
            Next::End(Err(error)) => ListStage::Done(Err(error)),
        },
    }
}

/// The stage that a resolution is in, seen as a listing.
fn followed<'a>(resolve: Resolve<'a>) -> (stage: ListStage<'a>)
    requires
        resolve.wf(),
    ensures
        ({
            let list = List { stage };
            &&& list.wf()
            &&& forall|replies: Replies, n: nat| #[trigger]
                list.rest(replies, n) == then_list(
                    resolve.rest(replies, n),
                    resolve.volume,
                    replies,
                    n,
                )
        }),
{
    let stage = match resolve.stage {
        ResolveStage::Looking { .. } => ListStage::Resolving(resolve),
        ResolveStage::Done(Err(error)) => ListStage::Done(Err(error)),
        ResolveStage::Done(Ok(found)) => opened(resolve.volume, &found),
    };
    proof {
        let list = List { stage };
        assert forall|replies: Replies, n: nat| #[trigger]
            list.rest(replies, n) == then_list(
                resolve.rest(replies, n),
                resolve.volume,
                replies,
                n,
            ) by {
            let done = resolve.rest(replies, n);
            if resolve.stage is Done {
                assert(done.reads.len() == 0);
                assert(done.reads + list.rest(replies, n).reads =~= list.rest(replies, n).reads);
                assert(n + done.reads.len() == n);
            }
        }
    }
    stage
}

/// Begins to list a directory. Each [`List::resume`] hands out the entries of
/// one sector, `.` and `..` left out; the result is the number of entries.
pub fn list<'a>(mounted: Option<Volume>, path: &'a str) -> (list: List<'a>)
    requires
        mounted matches Some(volume) ==> volume.wf(),
    ensures
        list.wf(),
        forall|replies: Replies|
            #![trigger list.rest(replies, 0)]
            list.rest(replies, 0) == listing(mounted, path.spec_bytes(), replies),
{
    match mounted {
        None => List { stage: ListStage::Done(Err(FsError::NoFilesystem)) },
        Some(volume) => List { stage: followed(resolve(volume, path.as_bytes())) },
    }
}

impl<'a> List<'a> {
    /// The sector to read next; nothing once the listing is done.
    pub fn request(&self) -> (request: Option<Read>)
        requires
            self.wf(),
        ensures
            request == self.pending(),
            request is None <==> self.is_done(),
    {
        match &self.stage {
            ListStage::Resolving(resolve) => resolve.request(),
            ListStage::Listing { volume, cursor, .. } => Some(cursor_read(volume, *cursor)),
            ListStage::Done(_) => None,
        }
    }

    /// The number of entries shown, or why the listing failed; nothing while
    /// it is under way.
    pub fn result(&self) -> (result: Option<Result<u32, FsError>>)
        ensures
            result == (match self.stage {
                ListStage::Done(result) => Some(result),
                _ => None,
            }),
    {
        match self.stage {
            ListStage::Done(result) => Some(result),
            _ => None,
        }
    }

    /// Goes on with the answer to the read that was asked for, and hands out
    /// the entries that it showed.
    pub fn resume(&mut self, reply: Result<&[u8; SECTOR_SIZE], AtaError>) -> (batch: Batch)
        requires
            old(self).wf(),
            !old(self).is_done(),
        ensures
            final(self).wf(),
            batch.wf(),
            forall|replies: Replies, n: nat|
                replies(n) == crate::fat::lookup::reply_view(reply) ==> #[trigger] old(self).rest(
                    replies,
                    n,
                ) == final(self).rest(replies, n + 1).after(old(self).pending()->0, batch@),
    {
        match self.stage {
            ListStage::Resolving(resolve) => {
                let mut resolve = resolve;
                let ghost before = resolve;
                resolve.resume(reply);
                self.stage = followed(resolve);
                let batch = Batch::new();
                proof {
                    let read = before.pending()->0;
                    let after = *self;
                    assert forall|replies: Replies, n: nat|
                        replies(n) == crate::fat::lookup::reply_view(reply) implies #[trigger] old(
                        self,
                    ).rest(replies, n) == after.rest(replies, n + 1).after(read, batch@) by {
                        let whole = before.rest(replies, n);
                        let tail = resolve.rest(replies, n + 1);
                        assert(whole == tail.after(read));
                        assert(n + whole.reads.len() == n + 1 + tail.reads.len());
                        assert(old(self).rest(replies, n) =~= after.rest(replies, n + 1).after(
                            read,
                            batch@,
                        ));
                    }
                }
                batch
            },
            ListStage::Listing { volume, cursor, count } => {
                let ghost read = crate::fat::lookup::read_at(volume, cursor);
                let mut batch = Batch::new();
                match reply {
                    Err(error) => {
                        self.stage = ListStage::Done(Err(FsError::Io(error)));
                    },
                    Ok(sector) => {
                        proof {
                            crate::fat::chain::law_walk_is_bounded(volume, cursor, sector@);
                            lemma_entries_len(sector@, 0);
                            lemma_visible_len(crate::fat::dir::entries_from(sector@, 0));
                        }
                        let next: Next;
                        match cursor {
                            Cursor::Link { .. } => {
                                next = cursor.after_link(&volume, sector);
                            },
                            _ => {
                                let (found, ended) = collect_sector(sector);
                                batch = found;
                                next = if ended {
                                    Next::End(Ok(()))
                                } else {
                                    cursor.after_data(&volume)
                                };
                            },
                        }
                        assert(batch@.len() == batch.len);
                        let count: u32 = count + batch.len as u32;
                        self.stage = match next {
                            Next::At(cursor) => ListStage::Listing { volume, cursor, count },
                            Next::End(Ok(_)) => ListStage::Done(Ok(count)),
                            Next::End(Err(error)) => ListStage::Done(Err(error)),
                        };
                    },
                }
                batch
            },
            ListStage::Done(_) => Batch::new(),
        }
    }
}

/// The name is a dot, or two.
pub open spec fn is_dots(name: Seq<u8>) -> bool {
    &&& 1 <= name.len() <= 2
    &&& forall|i: int| 0 <= i < name.len() ==> #[trigger] name[i] == 0x2E
}

/// A listing shows every entry of a directory but the ones for the directory
/// itself and for the one above it, which go by a dot and by two, and it shows
/// them in their order.
pub proof fn law_all_but_dots_are_shown(entries: Seq<crate::fat::dir::EntryModel>)
    ensures
        visible(entries) == entries.filter(|entry: crate::fat::dir::EntryModel| !is_dots(entry.name)),
    decreases entries.len(),
{
    let shown = |entry: crate::fat::dir::EntryModel| !is_dots(entry.name);
    reveal(Seq::filter);
    if entries.len() > 0 {
        let first = entries[0];
        let rest = entries.drop_first();
        law_all_but_dots_are_shown(rest);
        lemma_dots(first.name);
        let one = seq![first];
        assert(entries =~= one + rest);
        Seq::filter_distributes_over_add(one, rest, shown);
        assert(one.drop_last() =~= Seq::<crate::fat::dir::EntryModel>::empty());
        assert(one.drop_last().filter(shown) =~= Seq::<crate::fat::dir::EntryModel>::empty());
        if shown(first) {
            assert(one.filter(shown) =~= one);
        } else {
            assert(one.filter(shown) =~= Seq::<crate::fat::dir::EntryModel>::empty());
        }
        assert(visible(entries) =~= entries.filter(shown));
    } else {
        assert(visible(entries) =~= entries.filter(shown));
    }
}

proof fn lemma_dots(name: Seq<u8>)
    ensures
        is_dot_name(name) <==> is_dots(name),
{
    if is_dots(name) {
        if name.len() == 1 {
            assert(name =~= seq![0x2Eu8]);
        } else {
            assert(name =~= seq![0x2Eu8, 0x2Eu8]);
        }
    }
    if name == seq![0x2Eu8] {
        assert(name.len() == 1 && name[0] == 0x2E);
    }
    if name == seq![0x2Eu8, 0x2Eu8] {
        assert(name.len() == 2 && name[0] == 0x2E && name[1] == 0x2E);
    }
}

} // verus!
