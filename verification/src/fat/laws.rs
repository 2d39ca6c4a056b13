//! What the filesystem operations guarantee as a whole.
//!
//! Two kinds of disk are considered. Of an arbitrary one, whose every answer
//! may be anything at all: operations stay inside the volume, end, and report
//! what they delivered. Of one that holds still: operations give exactly what
//! is stored on it.

use vstd::prelude::*;

use crate::ata::SECTOR_SIZE;
use crate::fat::chain::{Cursor, Dir, Next};
use crate::fat::lookup::{Read, Replies};
use crate::fat::{FsError, Volume};

verus! {

/// The read stays between the start of the FAT and the end of the last cluster
/// of the volume.
pub open spec fn in_volume(volume: Volume, read: Read) -> bool {
    &&& read.drive == volume.drive
    &&& read.sectors == volume.sectors
    &&& volume.fat_start <= read.lba < volume.data_start + volume.cluster_count
        * volume.sectors_per_cluster
}

/// All the reads stay in the volume.
pub open spec fn all_in_volume(volume: Volume, reads: Seq<Read>) -> bool {
    forall|i: int| 0 <= i < reads.len() ==> in_volume(volume, #[trigger] reads[i])
}

/// The most reads that one walk over a directory or a file can make.
pub open spec fn walk_limit(volume: Volume) -> nat {
    volume.cluster_count as nat * (volume.sectors_per_cluster + 1) as nat
        + volume.root_sectors as nat
}

/// Every answer that holds a sector holds a whole one.
pub open spec fn whole_sectors(replies: Replies) -> bool {
    forall|n: nat| (#[trigger] replies(n)) matches Ok(sector) ==> sector.len() == SECTOR_SIZE
}

proof fn lemma_walk_limit(volume: Volume, cursor: Cursor)
    requires
        volume.wf(),
        cursor.wf(volume),
    ensures
        cursor.reads_left(volume) <= walk_limit(volume),
{
    let per = (volume.sectors_per_cluster + 1) as nat;
    let hops = cursor.hops();
    let count = volume.cluster_count as nat;
    assert(cursor !is Root ==> hops * per + per <= count * per) by {
        if cursor !is Root {
            assert(hops * per + per <= count * per) by (nonlinear_arith)
                requires
                    hops + 1 <= count,
            ;
        }
    }
    assert(0 * per == 0) by (nonlinear_arith);
}

proof fn lemma_prepend_in_volume(volume: Volume, cursor: Cursor, rest: Seq<Read>)
    requires
        volume.wf(),
        cursor.wf(volume),
        all_in_volume(volume, rest),
    ensures
        all_in_volume(volume, seq![crate::fat::lookup::read_at(volume, cursor)] + rest),
{
    crate::fat::chain::law_cursor_stays_in_the_volume(volume, cursor);
    let read = crate::fat::lookup::read_at(volume, cursor);
    let all = seq![read] + rest;
    assert forall|i: int| 0 <= i < all.len() implies in_volume(volume, #[trigger] all[i]) by {
        if i > 0 {
            assert(all[i] == rest[i - 1]);
        }
    }
}

proof fn lemma_search_is_confined(
    volume: Volume,
    cursor: Cursor,
    name: Seq<u8>,
    replies: Replies,
    n: nat,
)
    requires
        volume.wf(),
        cursor.wf(volume),
    ensures
        all_in_volume(
            volume,
            crate::fat::lookup::search_from(volume, cursor, name, replies, n).reads,
        ),
        crate::fat::lookup::search_from(volume, cursor, name, replies, n).reads.len()
            <= cursor.reads_left(volume),
    decreases cursor.reads_left(volume),
{
    let whole = crate::fat::lookup::search_from(volume, cursor, name, replies, n);
    let here = seq![crate::fat::lookup::read_at(volume, cursor)];
    lemma_prepend_in_volume(volume, cursor, Seq::empty());
    assert(here + Seq::<Read>::empty() =~= here);
    match replies(n) {
        Err(_) => {
            crate::fat::chain::law_walk_is_bounded(volume, cursor, Seq::empty());
        },
        Ok(sector) => {
            crate::fat::chain::law_walk_is_bounded(volume, cursor, sector);
            let next = if cursor is Link {
                cursor.past_link(volume, sector)
            } else {
                cursor.past_data(volume)
            };
            if let Next::At(next) = next {
                lemma_search_is_confined(volume, next, name, replies, n + 1);
                let rest = crate::fat::lookup::search_from(volume, next, name, replies, n + 1);
                lemma_prepend_in_volume(volume, cursor, rest.reads);
            }
        },
    }
}

/// Resolving a path reads only inside the volume, and makes at most one walk
/// for each name in it, whatever the disk answers.
pub proof fn law_resolution_is_confined(
    volume: Volume,
    names: Seq<Seq<u8>>,
    current: Option<crate::fat::dir::EntryModel>,
    replies: Replies,
    n: nat,
)
    requires
        volume.wf(),
    ensures
        all_in_volume(
            volume,
            crate::fat::lookup::resolution(volume, names, current, replies, n).reads,
        ),
        crate::fat::lookup::resolution(volume, names, current, replies, n).reads.len()
            <= names.len() * walk_limit(volume),
    decreases names.len(),
{
    reveal_with_fuel(crate::fat::lookup::resolution, 2);
    let limit = walk_limit(volume);
    if names.len() == 0 {
        assert(0 * limit == 0) by (nonlinear_arith);
    } else {
        assert(0 <= (names.len() - 1) * limit && (names.len() - 1) * limit + limit == names.len()
            * limit) by (nonlinear_arith)
            requires
                names.len() > 0,
        ;
        if let Ok(dir) = crate::fat::lookup::directory_of(current) {
            let found = crate::fat::lookup::search(volume, dir, names[0], replies, n);
            if let Next::At(cursor) = crate::fat::chain::dir_start(volume, dir) {
                lemma_search_is_confined(volume, cursor, names[0], replies, n);
                lemma_walk_limit(volume, cursor);
            }
            if let Ok(entry) = found.result {
                let m = n + found.reads.len();
                law_resolution_is_confined(
                    volume,
                    names.drop_first(),
                    Some(entry),
                    replies,
                    m,
                );
                let rest = crate::fat::lookup::resolution(
                    volume,
                    names.drop_first(),
                    Some(entry),
                    replies,
                    m,
                );
                lemma_concat_in_volume(volume, found.reads, rest.reads);
            }
        }
    }
}

proof fn lemma_concat_in_volume(volume: Volume, a: Seq<Read>, b: Seq<Read>)
    requires
        all_in_volume(volume, a),
        all_in_volume(volume, b),
    ensures
        all_in_volume(volume, a + b),
{
    assert forall|i: int| 0 <= i < (a + b).len() implies in_volume(volume, #[trigger] (a + b)[i]) by {
        if i < a.len() {
            assert((a + b)[i] == a[i]);
        } else {
            assert((a + b)[i] == b[i - a.len()]);
        }
    }
}

proof fn lemma_listing_is_confined(
    volume: Volume,
    cursor: Cursor,
    count: nat,
    replies: Replies,
    n: nat,
)
    requires
        volume.wf(),
        cursor.wf(volume),
    ensures
        ({
            let listing = crate::fat::listing::listing_from(volume, cursor, count, replies, n);
            &&& all_in_volume(volume, listing.reads)
            &&& listing.reads.len() <= cursor.reads_left(volume)
            &&& listing.result matches Ok(total) ==> total == count + listing.entries.len()
        }),
    decreases cursor.reads_left(volume),
{
    let here = seq![crate::fat::lookup::read_at(volume, cursor)];
    lemma_prepend_in_volume(volume, cursor, Seq::empty());
    assert(here + Seq::<Read>::empty() =~= here);
    match replies(n) {
        Err(_) => {
            crate::fat::chain::law_walk_is_bounded(volume, cursor, Seq::empty());
        },
        Ok(sector) => {
            crate::fat::chain::law_walk_is_bounded(volume, cursor, sector);
            let shown = if cursor is Link {
                Seq::empty()
            } else {
                crate::fat::listing::visible(crate::fat::dir::entries_from(sector, 0))
            };
            let next = if cursor is Link {
                cursor.past_link(volume, sector)
            } else {
                cursor.past_data(volume)
            };
            if let Next::At(next) = next {
                let so_far = count + shown.len();
                lemma_listing_is_confined(volume, next, so_far, replies, n + 1);
                let rest = crate::fat::listing::listing_from(volume, next, so_far, replies, n + 1);
                lemma_prepend_in_volume(volume, cursor, rest.reads);
            }
        },
    }
}

/// A listing reads only inside the mounted volume, makes at most one walk for
/// each name in the path and one for the directory itself, and a successful
/// one reports the number of entries that it showed.
pub proof fn law_listing_is_confined(volume: Volume, path: Seq<u8>, replies: Replies)
    requires
        volume.wf(),
    ensures
        ({
            let listing = crate::fat::listing::listing(Some(volume), path, replies);
            let names = crate::fat::path::components(path, 0);
            &&& all_in_volume(volume, listing.reads)
            &&& listing.reads.len() <= (names.len() + 1) * walk_limit(volume)
            &&& listing.result matches Ok(total) ==> total == listing.entries.len()
        }),
{
    let names = crate::fat::path::components(path, 0);
    let limit = walk_limit(volume);
    let resolved = crate::fat::lookup::resolution(volume, names, None, replies, 0);
    law_resolution_is_confined(volume, names, None, replies, 0);
    assert((names.len() + 1) * limit == names.len() * limit + limit) by (nonlinear_arith);
    if let Ok(found) = resolved.result {
        let m = resolved.reads.len();
        let rest = crate::fat::listing::listing_of(volume, found, replies, m);
        if let Ok(dir) = crate::fat::lookup::directory_of(found) {
            if let Next::At(cursor) = crate::fat::chain::dir_start(volume, dir) {
                lemma_listing_is_confined(volume, cursor, 0, replies, m);
                lemma_walk_limit(volume, cursor);
            }
        }
        assert(0 + m == m);
        lemma_concat_in_volume(volume, resolved.reads, rest.reads);
    }
}

proof fn lemma_contents_is_confined(
    volume: Volume,
    cursor: Cursor,
    remaining: nat,
    size: u32,
    replies: Replies,
    n: nat,
)
    requires
        volume.wf(),
        cursor.wf(volume),
        whole_sectors(replies),
    ensures
        ({
            let file = crate::fat::file::contents_from(volume, cursor, remaining, size, replies, n);
            &&& all_in_volume(volume, file.reads)
            &&& file.reads.len() <= cursor.reads_left(volume)
            &&& file.data.len() <= remaining
            &&& file.result matches Ok(total) ==> total == size && file.data.len() == remaining
        }),
    decreases cursor.reads_left(volume),
{
    let here = seq![crate::fat::lookup::read_at(volume, cursor)];
    lemma_prepend_in_volume(volume, cursor, Seq::empty());
    assert(here + Seq::<Read>::empty() =~= here);
    match replies(n) {
        Err(_) => {
            crate::fat::chain::law_walk_is_bounded(volume, cursor, Seq::empty());
        },
        Ok(sector) => {
            crate::fat::chain::law_walk_is_bounded(volume, cursor, sector);
            let left = if cursor is Link {
                remaining
            } else {
                (remaining - crate::fat::file::share(remaining)) as nat
            };
            let next = if cursor is Link {
                cursor.past_link(volume, sector)
            } else {
                cursor.past_data(volume)
            };
            if let Next::At(next) = next {
                lemma_contents_is_confined(volume, next, left, size, replies, n + 1);
                let rest = crate::fat::file::contents_from(
                    volume,
                    next,
                    left,
                    size,
                    replies,
                    n + 1,
                );
                lemma_prepend_in_volume(volume, cursor, rest.reads);
            }
        },
    }
}

/// Reading a file reads only inside the mounted volume, makes at most one walk
/// for each name in the path and one for the file itself, and reports success
/// only when it delivered as many bytes as it reports.
pub proof fn law_reading_is_confined(volume: Volume, path: Seq<u8>, replies: Replies)
    requires
        volume.wf(),
        whole_sectors(replies),
    ensures
        ({
            let file = crate::fat::file::contents(Some(volume), path, replies);
            let names = crate::fat::path::components(path, 0);
            &&& all_in_volume(volume, file.reads)
            &&& file.reads.len() <= (names.len() + 1) * walk_limit(volume)
            &&& file.result matches Ok(total) ==> total == file.data.len()
        }),
{
    let names = crate::fat::path::components(path, 0);
    let limit = walk_limit(volume);
    let resolved = crate::fat::lookup::resolution(volume, names, None, replies, 0);
    law_resolution_is_confined(volume, names, None, replies, 0);
    assert((names.len() + 1) * limit == names.len() * limit + limit) by (nonlinear_arith);
    if let Ok(found) = resolved.result {
        let m = resolved.reads.len();
        let rest = crate::fat::file::contents_of(volume, found, replies, m);
        if let Some(entry) = found {
            if let Next::At(cursor) = crate::fat::chain::chain_start(volume, entry.cluster) {
                lemma_contents_is_confined(
                    volume,
                    cursor,
                    entry.size as nat,
                    entry.size,
                    replies,
                    m,
                );
                lemma_walk_limit(volume, cursor);
            }
        }
        assert(0 + m == m);
        lemma_concat_in_volume(volume, resolved.reads, rest.reads);
    }
}

/// Case does not matter to the operations either: paths whose names agree up to
/// ASCII case list the same directory and read the same file, or fail alike.
pub proof fn law_operations_ignore_case(volume: Volume, a: Seq<u8>, b: Seq<u8>, replies: Replies)
    requires
        crate::fat::lookup::same_names(
            crate::fat::path::components(a, 0),
            crate::fat::path::components(b, 0),
        ),
    ensures
        crate::fat::listing::listing(Some(volume), a, replies) == crate::fat::listing::listing(
            Some(volume),
            b,
            replies,
        ),
        crate::fat::file::contents(Some(volume), a, replies) == crate::fat::file::contents(
            Some(volume),
            b,
            replies,
        ),
{
    crate::fat::lookup::law_case_does_not_matter(
        volume,
        crate::fat::path::components(a, 0),
        crate::fat::path::components(b, 0),
        None,
        replies,
        0,
    );
}

/// What the disk failed with, where that is the result.
pub open spec fn failure<T>(result: Result<T, FsError>) -> Option<crate::ata::AtaError> {
    match result {
        Err(FsError::Io(error)) => Some(error),
        _ => None,
    }
}

/// What the disk answers instead of a sector.
pub open spec fn failure_at(replies: Replies, n: int) -> Option<crate::ata::AtaError> {
    match replies(n as nat) {
        Err(error) => Some(error),
        Ok(_) => None,
    }
}

/// Failures of the disk are reported. Every answer before the last one that was
/// asked for was a sector; and the disk is said to have failed, in this way, exactly
/// where the last answer says so.
pub open spec fn is_reported(
    reads: Seq<Read>,
    replies: Replies,
    n: nat,
    failure: Option<crate::ata::AtaError>,
) -> bool {
    &&& forall|k: int|
        n <= k < n + reads.len() - 1 ==> #[trigger] failure_at(replies, k) is None
    &&& failure == (if reads.len() == 0 {
        None
    } else {
        failure_at(replies, n + reads.len() - 1)
    })
}

/// One read that was answered comes before the others.
proof fn lemma_reported_later(
    read: Read,
    rest: Seq<Read>,
    replies: Replies,
    n: nat,
    failure: Option<crate::ata::AtaError>,
)
    requires
        replies(n) is Ok,
        is_reported(rest, replies, n + 1, failure),
    ensures
        is_reported(seq![read] + rest, replies, n, failure),
{
    assert(failure_at(replies, n as int) is None);
    assert((seq![read] + rest).len() == rest.len() + 1);
}

/// Reads that were all answered come before the others.
proof fn lemma_reported_after(
    first: Seq<Read>,
    rest: Seq<Read>,
    replies: Replies,
    n: nat,
    failure: Option<crate::ata::AtaError>,
)
    requires
        is_reported(first, replies, n, None),
        is_reported(rest, replies, n + first.len(), failure),
    ensures
        is_reported(first + rest, replies, n, failure),
{
    assert((first + rest).len() == first.len() + rest.len());
}

proof fn lemma_search_reports(
    volume: Volume,
    cursor: Cursor,
    name: Seq<u8>,
    replies: Replies,
    n: nat,
)
    requires
        volume.wf(),
        cursor.wf(volume),
    ensures
        ({
            let found = crate::fat::lookup::search_from(volume, cursor, name, replies, n);
            is_reported(found.reads, replies, n, failure(found.result))
        }),
    decreases cursor.reads_left(volume),
{
    let here = crate::fat::lookup::read_at(volume, cursor);
    if let Ok(sector) = replies(n) {
        crate::fat::chain::law_walk_is_bounded(volume, cursor, sector);
        let next = if cursor is Link {
            cursor.past_link(volume, sector)
        } else {
            cursor.past_data(volume)
        };
        if let Next::At(next) = next {
            lemma_search_reports(volume, next, name, replies, n + 1);
            let rest = crate::fat::lookup::search_from(volume, next, name, replies, n + 1);
            lemma_reported_later(here, rest.reads, replies, n, failure(rest.result));
        }
    }
}

/// Finding a path reports what the disk fails with, and nothing else for it.
pub proof fn law_resolution_reports_failures(
    volume: Volume,
    names: Seq<Seq<u8>>,
    current: Option<crate::fat::dir::EntryModel>,
    replies: Replies,
    n: nat,
)
    requires
        volume.wf(),
    ensures
        ({
            let resolved = crate::fat::lookup::resolution(volume, names, current, replies, n);
            is_reported(resolved.reads, replies, n, failure(resolved.result))
        }),
    decreases names.len(),
{
    reveal_with_fuel(crate::fat::lookup::resolution, 2);
    if names.len() > 0 {
        if let Ok(dir) = crate::fat::lookup::directory_of(current) {
            let found = crate::fat::lookup::search(volume, dir, names[0], replies, n);
            if let Next::At(cursor) = crate::fat::chain::dir_start(volume, dir) {
                lemma_search_reports(volume, cursor, names[0], replies, n);
            }
            if let Ok(entry) = found.result {
                let m = n + found.reads.len();
                let others = names.drop_first();
                law_resolution_reports_failures(volume, others, Some(entry), replies, m);
                let rest = crate::fat::lookup::resolution(
                    volume,
                    others,
                    Some(entry),
                    replies,
                    m,
                );
                lemma_reported_after(
                    found.reads,
                    rest.reads,
                    replies,
                    n,
                    failure(rest.result),
                );
            }
        }
    }
}

proof fn lemma_listing_reports(
    volume: Volume,
    cursor: Cursor,
    count: nat,
    replies: Replies,
    n: nat,
)
    requires
        volume.wf(),
        cursor.wf(volume),
    ensures
        ({
            let listing = crate::fat::listing::listing_from(volume, cursor, count, replies, n);
            is_reported(listing.reads, replies, n, failure(listing.result))
        }),
    decreases cursor.reads_left(volume),
{
    let here = crate::fat::lookup::read_at(volume, cursor);
    let whole = crate::fat::listing::listing_from(volume, cursor, count, replies, n);
    if let Ok(sector) = replies(n) {
        crate::fat::chain::law_walk_is_bounded(volume, cursor, sector);
        let shown = if cursor is Link {
            Seq::empty()
        } else {
            crate::fat::listing::visible(crate::fat::dir::entries_from(sector, 0))
        };
        let next = if cursor is Link {
            cursor.past_link(volume, sector)
        } else {
            cursor.past_data(volume)
        };
        if let Next::At(next) = next {
            let so_far = count + shown.len();
            lemma_listing_reports(volume, next, so_far, replies, n + 1);
            let rest = crate::fat::listing::listing_from(volume, next, so_far, replies, n + 1);
            lemma_reported_later(here, rest.reads, replies, n, failure(rest.result));
        }
    }
    assert(seq![here] + Seq::<Read>::empty() =~= seq![here]);
}

/// A listing reports what the disk fails with, and nothing else for it.
pub proof fn law_listing_reports_failures(volume: Volume, path: Seq<u8>, replies: Replies)
    requires
        volume.wf(),
    ensures
        ({
            let listing = crate::fat::listing::listing(Some(volume), path, replies);
            is_reported(listing.reads, replies, 0, failure(listing.result))
        }),
{
    let names = crate::fat::path::components(path, 0);
    let resolved = crate::fat::lookup::resolution(volume, names, None, replies, 0);
    law_resolution_reports_failures(volume, names, None, replies, 0);
    if let Ok(found) = resolved.result {
        let m = resolved.reads.len();
        assert(0 + m == m);
        let rest = crate::fat::listing::listing_of(volume, found, replies, m);
        if let Ok(dir) = crate::fat::lookup::directory_of(found) {
            if let Next::At(cursor) = crate::fat::chain::dir_start(volume, dir) {
                lemma_listing_reports(volume, cursor, 0, replies, m);
            }
        }
        lemma_reported_after(
            resolved.reads,
            rest.reads,
            replies,
            0,
            failure(rest.result),
        );
    }
}

proof fn lemma_contents_reports(
    volume: Volume,
    cursor: Cursor,
    remaining: nat,
    size: u32,
    replies: Replies,
    n: nat,
)
    requires
        volume.wf(),
        cursor.wf(volume),
    ensures
        ({
            let file = crate::fat::file::contents_from(volume, cursor, remaining, size, replies, n);
            is_reported(file.reads, replies, n, failure(file.result))
        }),
    decreases cursor.reads_left(volume),
{
    let here = crate::fat::lookup::read_at(volume, cursor);
    if let Ok(sector) = replies(n) {
        crate::fat::chain::law_walk_is_bounded(volume, cursor, sector);
        let left = if cursor is Link {
            remaining
        } else {
            (remaining - crate::fat::file::share(remaining)) as nat
        };
        let next = if cursor is Link {
            cursor.past_link(volume, sector)
        } else {
            cursor.past_data(volume)
        };
        if let Next::At(next) = next {
            lemma_contents_reports(volume, next, left, size, replies, n + 1);
            let rest = crate::fat::file::contents_from(volume, next, left, size, replies, n + 1);
            lemma_reported_later(here, rest.reads, replies, n, failure(rest.result));
        }
    }
    assert(seq![here] + Seq::<Read>::empty() =~= seq![here]);
}

/// Reading a file reports what the disk fails with, and nothing else for it.
pub proof fn law_reading_reports_failures(volume: Volume, path: Seq<u8>, replies: Replies)
    requires
        volume.wf(),
    ensures
        ({
            let file = crate::fat::file::contents(Some(volume), path, replies);
            is_reported(file.reads, replies, 0, failure(file.result))
        }),
{
    let names = crate::fat::path::components(path, 0);
    let resolved = crate::fat::lookup::resolution(volume, names, None, replies, 0);
    law_resolution_reports_failures(volume, names, None, replies, 0);
    if let Ok(found) = resolved.result {
        let m = resolved.reads.len();
        assert(0 + m == m);
        let rest = crate::fat::file::contents_of(volume, found, replies, m);
        if let Some(entry) = found {
            if let Next::At(cursor) = crate::fat::chain::chain_start(volume, entry.cluster) {
                lemma_contents_reports(
                    volume,
                    cursor,
                    entry.size as nat,
                    entry.size,
                    replies,
                    m,
                );
            }
        }
        lemma_reported_after(
            resolved.reads,
            rest.reads,
            replies,
            0,
            failure(rest.result),
        );
    }
}

/// Without a volume there is nothing to list or to read, and the disk is not asked.
/// The root is a directory: it can be listed and not read; and what cannot be found
/// is neither listed nor read, for the same reason.
pub proof fn law_operations_need_something_to_work_on(
    volume: Volume,
    path: Seq<u8>,
    replies: Replies,
)
    ensures
        crate::fat::listing::listing(None, path, replies).result == Err::<nat, FsError>(
            FsError::NoFilesystem,
        ),
        crate::fat::listing::listing(None, path, replies).reads.len() == 0,
        crate::fat::file::contents(None, path, replies).result == Err::<u32, FsError>(
            FsError::NoFilesystem,
        ),
        crate::fat::file::contents(None, path, replies).reads.len() == 0,
        crate::fat::path::components(path, 0).len() == 0 ==> crate::fat::file::contents(
            Some(volume),
            path,
            replies,
        ).result == Err::<u32, FsError>(FsError::IsADirectory),
        ({
            let names = crate::fat::path::components(path, 0);
            let found = crate::fat::lookup::resolution(volume, names, None, replies, 0);
            found.result matches Err(error) ==> {
                &&& crate::fat::listing::listing(Some(volume), path, replies).result == Err::<
                    nat,
                    FsError,
                >(error)
                &&& crate::fat::file::contents(Some(volume), path, replies).result == Err::<
                    u32,
                    FsError,
                >(error)
            }
        }),
{
    reveal_with_fuel(crate::fat::lookup::resolution, 2);
}

/// An empty file is read at once, whatever its first cluster is said to be; a
/// directory is not read at all.
pub proof fn law_empty_files_take_no_reading(
    volume: Volume,
    entry: crate::fat::dir::EntryModel,
    replies: Replies,
    n: nat,
)
    ensures
        entry.attr / 16 % 2 == 0 && entry.size == 0 ==> crate::fat::file::contents_of(
            volume,
            Some(entry),
            replies,
            n,
        ) == crate::fat::file::Contents::ended(Ok(0)),
        entry.attr / 16 % 2 == 1 ==> crate::fat::file::contents_of(volume, Some(entry), replies, n)
            == crate::fat::file::Contents::ended(Err(FsError::IsADirectory)),
{
    crate::fat::dir::law_directories_are_marked(entry);
}

} // verus!
