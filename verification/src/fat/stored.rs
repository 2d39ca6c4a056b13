//! What is stored on a disk that holds still, and that the operations give it
//! back.

use vstd::prelude::*;

use crate::ata::SECTOR_SIZE;
use crate::fat::chain::{Cursor, Dir, Next};
use crate::fat::dir::EntryModel;
use crate::fat::lookup::{Read, Replies};
use crate::fat::{FsError, Volume};

verus! {

/// The sectors of the drive that a volume lies on, by number.
pub type Disk = spec_fn(u32) -> Seq<u8>;

/// Every sector is a whole one.
pub open spec fn whole_disk(disk: Disk) -> bool {
    forall|lba: u32| (#[trigger] disk(lba)).len() == SECTOR_SIZE
}

/// The answers to `reads`, from number `n` on, are what the disk holds.
pub open spec fn answered_from(disk: Disk, reads: Seq<Read>, replies: Replies, n: nat) -> bool {
    forall|k: int| #![trigger reads[k]]
        0 <= k < reads.len() ==> replies((n + k) as nat) == Ok::<Seq<u8>, crate::ata::AtaError>(
            disk(reads[k].lba),
        )
}

/// The data sectors of a directory or a file, and how its chain ends.
#[verifier::ext_equal]
pub ghost struct Extent {
    pub sectors: Seq<Seq<u8>>,
    pub end: Result<(), FsError>,
}

/// The sectors of `cluster` from number `from` on.
pub open spec fn cluster_sectors(volume: Volume, disk: Disk, cluster: u16, from: int) -> Seq<
    Seq<u8>,
> {
    Seq::new(
        (volume.sectors_per_cluster - from) as nat,
        |i: int| disk((crate::fat::chain::cluster_start(volume, cluster) + from + i) as u32),
    )
}

/// The FAT's word on what comes after `cluster`.
pub open spec fn link_on(volume: Volume, disk: Disk, cluster: u16) -> Result<Option<u16>, FsError> {
    crate::fat::chain::link(
        volume,
        cluster,
        disk((volume.fat_start + cluster * 2 / 512) as u32),
    )
}

/// The extent of the chain that starts at `cluster`, when `hops` more clusters
/// may follow it. A chain with more is cyclic.
pub open spec fn chain_extent(volume: Volume, disk: Disk, cluster: u16, hops: nat) -> Extent
    decreases hops, 1nat,
{
    let rest = beyond(volume, disk, cluster, hops);
    Extent { sectors: cluster_sectors(volume, disk, cluster, 0) + rest.sectors, end: rest.end }
}

/// The extent of what follows `cluster`.
pub open spec fn beyond(volume: Volume, disk: Disk, cluster: u16, hops: nat) -> Extent
    decreases hops, 0nat,
{
    match link_on(volume, disk, cluster) {
        Err(error) => Extent { sectors: Seq::empty(), end: Err(error) },
        Ok(None) => Extent { sectors: Seq::empty(), end: Ok(()) },
        Ok(Some(next)) => if hops == 0 {
            Extent { sectors: Seq::empty(), end: Err(FsError::CorruptChain) }
        } else {
            chain_extent(volume, disk, next, (hops - 1) as nat)
        },
    }
}

/// The extent of the chain that starts at `first`.
pub open spec fn extent(volume: Volume, disk: Disk, first: u16) -> Extent {
    if volume.holds(first) {
        chain_extent(volume, disk, first, (volume.cluster_count - 1) as nat)
    } else {
        Extent { sectors: Seq::empty(), end: Err(FsError::CorruptChain) }
    }
}

/// The clusters that a walk over the chain at `cluster` enters, when `hops` more
/// may follow it.
pub open spec fn clusters_entered(volume: Volume, disk: Disk, cluster: u16, hops: nat) -> Seq<u16>
    decreases hops,
{
    match link_on(volume, disk, cluster) {
        Ok(Some(next)) if hops > 0 => seq![cluster] + clusters_entered(
            volume,
            disk,
            next,
            (hops - 1) as nat,
        ),
        _ => seq![cluster],
    }
}

/// The sectors of clusters, one cluster after the other.
pub open spec fn sectors_of(volume: Volume, disk: Disk, clusters: Seq<u16>) -> Seq<Seq<u8>>
    decreases clusters.len(),
{
    if clusters.len() == 0 {
        Seq::empty()
    } else {
        cluster_sectors(volume, disk, clusters[0], 0) + sectors_of(
            volume,
            disk,
            clusters.drop_first(),
        )
    }
}

/// The clusters are a chain of the volume, from its first to its last.
pub open spec fn is_chain(volume: Volume, disk: Disk, clusters: Seq<u16>) -> bool {
    &&& clusters.len() > 0
    &&& forall|i: int| 0 <= i < clusters.len() ==> volume.holds(#[trigger] clusters[i])
    &&& forall|i: int|
        0 <= i < clusters.len() - 1 ==> link_on(volume, disk, #[trigger] clusters[i]) == Ok::<
            Option<u16>,
            FsError,
        >(Some(clusters[i + 1]))
    &&& link_on(volume, disk, clusters.last()) == Ok::<Option<u16>, FsError>(None)
}

/// A chain that names no cluster twice is walked to its end: its extent is the
/// sectors of all its clusters.
pub proof fn law_sound_chains_are_walked(volume: Volume, disk: Disk, clusters: Seq<u16>)
    requires
        volume.wf(),
        is_chain(volume, disk, clusters),
        clusters.no_duplicates(),
    ensures
        clusters.len() <= volume.cluster_count,
        extent(volume, disk, clusters[0]) == (Extent {
            sectors: sectors_of(volume, disk, clusters),
            end: Ok(()),
        }),
{
    lemma_distinct_clusters(volume, clusters);
    lemma_chain_walked(volume, disk, clusters, (volume.cluster_count - 1) as nat);
}

/// A chain whose walk would go on past the volume's cluster count, as that of a
/// loop does, is found corrupt once it is walked so far; no more clusters are
/// entered than the volume has. A file whose recorded size ends earlier is
/// delivered all the same: see [`law_reading_gives_the_file`].
pub proof fn law_looping_chains_are_corrupt(
    volume: Volume,
    disk: Disk,
    chain: spec_fn(nat) -> u16,
)
    requires
        volume.wf(),
        forall|i: nat|
            volume.holds(#[trigger] chain(i)) && link_on(volume, disk, chain(i)) == Ok::<
                Option<u16>,
                FsError,
            >(Some(chain(i + 1))),
    ensures
        extent(volume, disk, chain(0)).end == Err::<(), FsError>(FsError::CorruptChain),
        clusters_entered(
            volume,
            disk,
            chain(0),
            (volume.cluster_count - 1) as nat,
        ).len() == volume.cluster_count,
        extent(volume, disk, chain(0)).sectors == sectors_of(
            volume,
            disk,
            clusters_entered(volume, disk, chain(0), (volume.cluster_count - 1) as nat),
        ),
{
    assert(volume.holds(chain(0)));
    lemma_loop_walked(volume, disk, chain, 0, (volume.cluster_count - 1) as nat);
    lemma_extent_is_entered(volume, disk, chain(0), (volume.cluster_count - 1) as nat);
}

proof fn lemma_distinct_clusters(volume: Volume, clusters: Seq<u16>)
    requires
        forall|i: int| 0 <= i < clusters.len() ==> volume.holds(#[trigger] clusters[i]),
        clusters.no_duplicates(),
    ensures
        clusters.len() <= volume.cluster_count,
{
    let numbers = clusters.map_values(|cluster: u16| cluster as int);
    assert(numbers.no_duplicates()) by {
        assert forall|i: int, j: int|
            0 <= i < numbers.len() && 0 <= j < numbers.len() && i != j implies numbers[i]
            != numbers[j] by {
            assert(clusters[i] != clusters[j]);
        }
    }
    numbers.unique_seq_to_set();
    let all = vstd::set_lib::set_int_range(2, volume.cluster_count + 2);
    vstd::set_lib::lemma_int_range(2, volume.cluster_count + 2);
    assert(numbers.to_set().subset_of(all)) by {
        assert forall|n: int| numbers.to_set().contains(n) implies all.contains(n) by {
            let i = choose|i: int| 0 <= i < numbers.len() && numbers[i] == n;
            assert(volume.holds(clusters[i]));
        }
    }
    vstd::set_lib::lemma_len_subset(numbers.to_set(), all);
}

proof fn lemma_chain_walked(volume: Volume, disk: Disk, clusters: Seq<u16>, hops: nat)
    requires
        is_chain(volume, disk, clusters),
        clusters.len() <= hops + 1,
    ensures
        chain_extent(volume, disk, clusters[0], hops) == (Extent {
            sectors: sectors_of(volume, disk, clusters),
            end: Ok(()),
        }),
    decreases clusters.len(),
{
    let first = clusters[0];
    let rest = clusters.drop_first();
    reveal_with_fuel(chain_extent, 2);
    reveal_with_fuel(beyond, 2);
    if rest.len() == 0 {
        assert(clusters.last() == first);
        assert(sectors_of(volume, disk, rest) =~= Seq::<Seq<u8>>::empty());
    } else {
        assert(link_on(volume, disk, clusters[0]) == Ok::<Option<u16>, FsError>(
            Some(clusters[1]),
        ));
        assert(is_chain(volume, disk, rest)) by {
            assert forall|i: int| 0 <= i < rest.len() implies volume.holds(#[trigger] rest[i]) by {
                assert(rest[i] == clusters[i + 1]);
            }
            assert forall|i: int| 0 <= i < rest.len() - 1 implies link_on(
                volume,
                disk,
                #[trigger] rest[i],
            ) == Ok::<Option<u16>, FsError>(Some(rest[i + 1])) by {
                assert(rest[i] == clusters[i + 1]);
            }
            assert(rest.last() == clusters.last());
        }
        lemma_chain_walked(volume, disk, rest, (hops - 1) as nat);
    }
}

proof fn lemma_loop_walked(
    volume: Volume,
    disk: Disk,
    chain: spec_fn(nat) -> u16,
    i: nat,
    hops: nat,
)
    requires
        forall|i: nat|
            volume.holds(#[trigger] chain(i)) && link_on(volume, disk, chain(i)) == Ok::<
                Option<u16>,
                FsError,
            >(Some(chain(i + 1))),
    ensures
        chain_extent(volume, disk, chain(i), hops).end == Err::<(), FsError>(
            FsError::CorruptChain,
        ),
        clusters_entered(volume, disk, chain(i), hops).len() == hops + 1,
    decreases hops,
{
    reveal_with_fuel(chain_extent, 2);
    reveal_with_fuel(beyond, 2);
    assert(link_on(volume, disk, chain(i)) == Ok::<Option<u16>, FsError>(Some(chain(i + 1))));
    if hops > 0 {
        lemma_loop_walked(volume, disk, chain, i + 1, (hops - 1) as nat);
    }
}

proof fn lemma_extent_is_entered(volume: Volume, disk: Disk, cluster: u16, hops: nat)
    ensures
        chain_extent(volume, disk, cluster, hops).sectors == sectors_of(
            volume,
            disk,
            clusters_entered(volume, disk, cluster, hops),
        ),
    decreases hops,
{
    reveal_with_fuel(chain_extent, 2);
    reveal_with_fuel(beyond, 2);
    let all = clusters_entered(volume, disk, cluster, hops);
    let here = cluster_sectors(volume, disk, cluster, 0);
    match link_on(volume, disk, cluster) {
        Ok(Some(next)) if hops > 0 => {
            lemma_extent_is_entered(volume, disk, next, (hops - 1) as nat);
            assert(all.drop_first() =~= clusters_entered(volume, disk, next, (hops - 1) as nat));
        },
        _ => {
            assert(all.drop_first() =~= Seq::<u16>::empty());
            assert(chain_extent(volume, disk, cluster, hops).sectors =~= here);
            assert(sectors_of(volume, disk, all.drop_first()) =~= Seq::<Seq<u8>>::empty());
            assert(sectors_of(volume, disk, all) =~= here);
        },
    }
}

/// The extent of a directory.
pub open spec fn dir_extent(volume: Volume, disk: Disk, dir: Dir) -> Extent {
    match dir {
        Dir::Root => Extent {
            sectors: Seq::new(
                volume.root_sectors as nat,
                |i: int| disk((volume.root_start + i) as u32),
            ),
            end: Ok(()),
        },
        Dir::Cluster(first) => extent(volume, disk, first),
    }
}

/// The bytes of an extent.
pub open spec fn bytes_of(sectors: Seq<Seq<u8>>) -> Seq<u8>
    decreases sectors.len(),
{
    if sectors.len() == 0 {
        Seq::empty()
    } else {
        sectors[0] + bytes_of(sectors.drop_first())
    }
}

/// The entries in the sectors of a directory, up to its end marker.
pub open spec fn entries_of(sectors: Seq<Seq<u8>>) -> Seq<EntryModel>
    decreases sectors.len(),
{
    if sectors.len() == 0 {
        Seq::empty()
    } else if crate::fat::dir::ends_from(sectors[0], 0) {
        crate::fat::dir::entries_from(sectors[0], 0)
    } else {
        crate::fat::dir::entries_from(sectors[0], 0) + entries_of(sectors.drop_first())
    }
}

/// One of the sectors holds the end marker of a directory.
pub open spec fn marked(sectors: Seq<Seq<u8>>) -> bool {
    exists|i: int| 0 <= i < sectors.len() && crate::fat::dir::ends_from(#[trigger] sectors[i], 0)
}

/// How a directory ends: at its marker where it has one, else where its chain
/// does.
pub open spec fn dir_end(extent: Extent) -> Result<(), FsError> {
    if marked(extent.sectors) {
        Ok(())
    } else {
        extent.end
    }
}

/// The entry of a directory that goes by `name`.
pub open spec fn entry_in(extent: Extent, name: Seq<u8>) -> Result<EntryModel, FsError> {
    match crate::fat::dir::first_named(entries_of(extent.sectors), name) {
        Some(entry) => Ok(entry),
        None => match dir_end(extent) {
            Ok(_) => Err(FsError::NotFound),
            Err(error) => Err(error),
        },
    }
}

/// The entry that `names` lead to from the directory that `current` is; the
/// root has none.
pub open spec fn entry_at(
    volume: Volume,
    disk: Disk,
    names: Seq<Seq<u8>>,
    current: Option<EntryModel>,
) -> Result<Option<EntryModel>, FsError>
    decreases names.len(),
{
    if names.len() == 0 {
        Ok(current)
    } else {
        match crate::fat::lookup::directory_of(current) {
            Err(error) => Err(error),
            Ok(dir) => match entry_in(dir_extent(volume, disk, dir), names[0]) {
                Err(error) => Err(error),
                Ok(entry) => entry_at(volume, disk, names.drop_first(), Some(entry)),
            },
        }
    }
}

/// The extent that lies ahead of a cursor.
pub open spec fn ahead(volume: Volume, disk: Disk, cursor: Cursor) -> Extent {
    match cursor {
        Cursor::Root { index } => Extent {
            sectors: dir_extent(volume, disk, Dir::Root).sectors.skip(index as int),
            end: Ok(()),
        },
        Cursor::Data { cluster, sector, hops } => {
            let rest = beyond(volume, disk, cluster, hops as nat);
            Extent {
                sectors: cluster_sectors(volume, disk, cluster, sector as int) + rest.sectors,
                end: rest.end,
            }
        },
        Cursor::Link { cluster, hops } => beyond(volume, disk, cluster, hops as nat),
    }
}

/// The extent that lies ahead of the next step of a walk.
pub open spec fn next_ahead(volume: Volume, disk: Disk, next: Next) -> Extent {
    match next {
        Next::At(cursor) => ahead(volume, disk, cursor),
        Next::End(end) => Extent { sectors: Seq::empty(), end },
    }
}

proof fn lemma_start_is_whole(volume: Volume, disk: Disk, dir: Dir)
    requires
        volume.wf(),
    ensures
        next_ahead(volume, disk, crate::fat::chain::dir_start(volume, dir)) == dir_extent(
            volume,
            disk,
            dir,
        ),
{
    match dir {
        Dir::Root => {
            let sectors = dir_extent(volume, disk, dir).sectors;
            assert(sectors.skip(0) =~= sectors);
        },
        Dir::Cluster(first) => {},
    }
}

proof fn lemma_step(volume: Volume, disk: Disk, cursor: Cursor)
    requires
        volume.wf(),
        cursor.wf(volume),
    ensures
        ({
            let here = disk(crate::fat::lookup::read_at(volume, cursor).lba);
            let now = ahead(volume, disk, cursor);
            &&& cursor is Link ==> now == next_ahead(volume, disk, cursor.past_link(volume, here))
            &&& cursor !is Link ==> {
                let later = next_ahead(volume, disk, cursor.past_data(volume));
                now.sectors == seq![here] + later.sectors && now.end == later.end
            }
        }),
{
    crate::fat::chain::law_cursor_stays_in_the_volume(volume, cursor);
    let now = ahead(volume, disk, cursor);
    match cursor {
        Cursor::Root { index } => {
            let here = disk(crate::fat::lookup::read_at(volume, cursor).lba);
            let later = next_ahead(volume, disk, cursor.past_data(volume));
            assert(now.sectors =~= seq![here] + later.sectors);
        },
        Cursor::Data { cluster, sector, hops } => {
            let here = disk(crate::fat::lookup::read_at(volume, cursor).lba);
            let later = next_ahead(volume, disk, cursor.past_data(volume));
            let s = sector as int;
            let mine = cluster_sectors(volume, disk, cluster, s);
            let after = cluster_sectors(volume, disk, cluster, s + 1);
            assert(mine =~= seq![here] + after);
            assert(now.sectors =~= seq![here] + later.sectors);
        },
        Cursor::Link { cluster, hops } => {
            reveal_with_fuel(chain_extent, 2);
        },
    }
}

proof fn lemma_answered_tail(disk: Disk, read: Read, rest: Seq<Read>, replies: Replies, n: nat)
    requires
        answered_from(disk, seq![read] + rest, replies, n),
    ensures
        replies(n) == Ok::<Seq<u8>, crate::ata::AtaError>(disk(read.lba)),
        answered_from(disk, rest, replies, n + 1),
{
    let all = seq![read] + rest;
    assert(all[0] == read);
    assert((n + 0) as nat == n);
    assert forall|k: int| #![trigger rest[k]] 0 <= k < rest.len() implies replies(
        (n + 1 + k) as nat,
    ) == Ok::<Seq<u8>, crate::ata::AtaError>(disk(rest[k].lba)) by {
        assert(all[k + 1] == rest[k]);
        assert((n + (k + 1)) as nat == (n + 1 + k) as nat);
    }
}

proof fn lemma_answered_parts(
    disk: Disk,
    a: Seq<Read>,
    b: Seq<Read>,
    replies: Replies,
    n: nat,
)
    requires
        answered_from(disk, a + b, replies, n),
    ensures
        answered_from(disk, a, replies, n),
        answered_from(disk, b, replies, n + a.len()),
{
    let all = a + b;
    assert forall|k: int| #![trigger a[k]] 0 <= k < a.len() implies replies((n + k) as nat) == Ok::<
        Seq<u8>,
        crate::ata::AtaError,
    >(disk(a[k].lba)) by {
        assert(all[k] == a[k]);
    }
    assert forall|k: int| #![trigger b[k]] 0 <= k < b.len() implies replies(
        (n + a.len() + k) as nat,
    ) == Ok::<Seq<u8>, crate::ata::AtaError>(disk(b[k].lba)) by {
        assert(all[k + a.len()] == b[k]);
        assert((n + (k + a.len())) as nat == (n + a.len() + k) as nat);
    }
}

proof fn lemma_contents_on(
    volume: Volume,
    disk: Disk,
    cursor: Cursor,
    remaining: nat,
    size: u32,
    replies: Replies,
    n: nat,
)
    requires
        volume.wf(),
        cursor.wf(volume),
        cursor !is Root,
        remaining > 0,
        whole_disk(disk),
        answered_from(
            disk,
            crate::fat::file::contents_from(volume, cursor, remaining, size, replies, n).reads,
            replies,
            n,
        ),
    ensures
        ({
            let file = crate::fat::file::contents_from(volume, cursor, remaining, size, replies, n);
            let bytes = bytes_of(ahead(volume, disk, cursor).sectors);
            if remaining <= bytes.len() {
                file.data == bytes.take(remaining as int) && file.result == Ok::<u32, FsError>(size)
            } else {
                file.data == bytes && file.result == Err::<u32, FsError>(FsError::CorruptChain)
            }
        }),
    decreases cursor.reads_left(volume),
{
    let file = crate::fat::file::contents_from(volume, cursor, remaining, size, replies, n);
    let read = crate::fat::lookup::read_at(volume, cursor);
    let here = disk(read.lba);
    let now = ahead(volume, disk, cursor);
    let bytes = bytes_of(now.sectors);
    lemma_step(volume, disk, cursor);
    assert(file.reads[0] == read);
    assert((n + 0) as nat == n);
    assert(replies(n) == Ok::<Seq<u8>, crate::ata::AtaError>(here));
    crate::fat::chain::law_walk_is_bounded(volume, cursor, here);
    if cursor is Link {
        let next = cursor.past_link(volume, here);
        if let Next::At(next) = next {
            let rest = crate::fat::file::contents_from(volume, next, remaining, size, replies, n + 1);
            lemma_answered_tail(disk, read, rest.reads, replies, n);
            lemma_contents_on(volume, disk, next, remaining, size, replies, n + 1);
            assert(file.data =~= rest.data);
        } else {
            if let Next::End(Err(error)) = next {
                assert(error == FsError::CorruptChain);
            }
            assert(file.data =~= Seq::<u8>::empty());
        }
    } else {
        let taken = crate::fat::file::share(remaining);
        let later = next_ahead(volume, disk, cursor.past_data(volume));
        assert((seq![here] + later.sectors).drop_first() =~= later.sectors);
        assert(bytes == here + bytes_of(later.sectors));
        if taken == remaining {
            assert(file.data =~= here.take(taken as int));
            assert(bytes.take(remaining as int) =~= here.take(taken as int));
        } else {
            assert(here.take(taken as int) =~= here);
            let left = (remaining - taken) as nat;
            if let Next::At(next) = cursor.past_data(volume) {
                let rest = crate::fat::file::contents_from(
                    volume,
                    next,
                    left,
                    size,
                    replies,
                    n + 1,
                );
                lemma_answered_tail(disk, read, rest.reads, replies, n);
                lemma_contents_on(volume, disk, next, left, size, replies, n + 1);
                assert(file.data =~= here + rest.data);
                if remaining <= bytes.len() {
                    assert(bytes.take(remaining as int) =~= here + bytes_of(later.sectors).take(
                        left as int,
                    ));
                }
            }
        }
    }
}

proof fn lemma_first_named_of_both(a: Seq<EntryModel>, b: Seq<EntryModel>, name: Seq<u8>)
    ensures
        crate::fat::dir::first_named(a + b, name) == (match crate::fat::dir::first_named(a, name) {
            Some(entry) => Some(entry),
            None => crate::fat::dir::first_named(b, name),
        }),
    decreases a.len(),
{
    if a.len() == 0 {
        assert(a + b =~= b);
    } else {
        assert((a + b).drop_first() =~= a.drop_first() + b);
        lemma_first_named_of_both(a.drop_first(), b, name);
    }
}

proof fn lemma_visible_of_both(a: Seq<EntryModel>, b: Seq<EntryModel>)
    ensures
        crate::fat::listing::visible(a + b) == crate::fat::listing::visible(a)
            + crate::fat::listing::visible(b),
    decreases a.len(),
{
    if a.len() == 0 {
        assert(a + b =~= b);
        assert(crate::fat::listing::visible(a + b) =~= crate::fat::listing::visible(a)
            + crate::fat::listing::visible(b));
    } else {
        assert((a + b).drop_first() =~= a.drop_first() + b);
        lemma_visible_of_both(a.drop_first(), b);
        assert(crate::fat::listing::visible(a + b) =~= crate::fat::listing::visible(a)
            + crate::fat::listing::visible(b));
    }
}

proof fn lemma_directory_step(here: Seq<u8>, later: Seq<Seq<u8>>)
    ensures
        crate::fat::dir::ends_from(here, 0) ==> marked(seq![here] + later) && entries_of(
            seq![here] + later,
        ) == crate::fat::dir::entries_from(here, 0),
        !crate::fat::dir::ends_from(here, 0) ==> marked(seq![here] + later) == marked(later)
            && entries_of(seq![here] + later) == crate::fat::dir::entries_from(here, 0)
            + entries_of(later),
{
    let all = seq![here] + later;
    assert(all[0] == here);
    assert(all.drop_first() =~= later);
    if !crate::fat::dir::ends_from(here, 0) {
        if marked(later) {
            let i = choose|i: int|
                0 <= i < later.len() && crate::fat::dir::ends_from(#[trigger] later[i], 0);
            assert(all[i + 1] == later[i]);
        }
        if marked(all) {
            let i = choose|i: int|
                0 <= i < all.len() && crate::fat::dir::ends_from(#[trigger] all[i], 0);
            assert(all[i] == later[i - 1]);
        }
    }
}

proof fn lemma_search_on(
    volume: Volume,
    disk: Disk,
    cursor: Cursor,
    name: Seq<u8>,
    replies: Replies,
    n: nat,
)
    requires
        volume.wf(),
        cursor.wf(volume),
        answered_from(
            disk,
            crate::fat::lookup::search_from(volume, cursor, name, replies, n).reads,
            replies,
            n,
        ),
    ensures
        crate::fat::lookup::search_from(volume, cursor, name, replies, n).result == entry_in(
            ahead(volume, disk, cursor),
            name,
        ),
    decreases cursor.reads_left(volume),
{
    let search = crate::fat::lookup::search_from(volume, cursor, name, replies, n);
    let read = crate::fat::lookup::read_at(volume, cursor);
    let here = disk(read.lba);
    lemma_step(volume, disk, cursor);
    assert(search.reads[0] == read);
    assert((n + 0) as nat == n);
    assert(replies(n) == Ok::<Seq<u8>, crate::ata::AtaError>(here));
    crate::fat::chain::law_walk_is_bounded(volume, cursor, here);
    assert(entries_of(Seq::empty()) =~= Seq::<EntryModel>::empty());
    if cursor is Link {
        if let Next::At(next) = cursor.past_link(volume, here) {
            let rest = crate::fat::lookup::search_from(volume, next, name, replies, n + 1);
            lemma_answered_tail(disk, read, rest.reads, replies, n);
            lemma_search_on(volume, disk, next, name, replies, n + 1);
        }
    } else {
        let entries = crate::fat::dir::entries_from(here, 0);
        let later = next_ahead(volume, disk, cursor.past_data(volume));
        lemma_directory_step(here, later.sectors);
        lemma_first_named_of_both(entries, entries_of(later.sectors), name);
        if crate::fat::dir::first_named(entries, name) is None && !crate::fat::dir::ends_from(
            here,
            0,
        ) {
            if let Next::At(next) = cursor.past_data(volume) {
                let rest = crate::fat::lookup::search_from(volume, next, name, replies, n + 1);
                lemma_answered_tail(disk, read, rest.reads, replies, n);
                lemma_search_on(volume, disk, next, name, replies, n + 1);
            }
        }
    }
}

proof fn lemma_listing_on(
    volume: Volume,
    disk: Disk,
    cursor: Cursor,
    count: nat,
    replies: Replies,
    n: nat,
)
    requires
        volume.wf(),
        cursor.wf(volume),
        answered_from(
            disk,
            crate::fat::listing::listing_from(volume, cursor, count, replies, n).reads,
            replies,
            n,
        ),
    ensures
        ({
            let listing = crate::fat::listing::listing_from(volume, cursor, count, replies, n);
            let extent = ahead(volume, disk, cursor);
            let shown = crate::fat::listing::visible(entries_of(extent.sectors));
            &&& listing.entries == shown
            &&& listing.result == (match dir_end(extent) {
                Ok(_) => Ok::<nat, FsError>(count + shown.len()),
                Err(error) => Err::<nat, FsError>(error),
            })
        }),
    decreases cursor.reads_left(volume),
{
    let listing = crate::fat::listing::listing_from(volume, cursor, count, replies, n);
    let read = crate::fat::lookup::read_at(volume, cursor);
    let here = disk(read.lba);
    lemma_step(volume, disk, cursor);
    assert(listing.reads[0] == read);
    assert((n + 0) as nat == n);
    assert(replies(n) == Ok::<Seq<u8>, crate::ata::AtaError>(here));
    crate::fat::chain::law_walk_is_bounded(volume, cursor, here);
    assert(entries_of(Seq::empty()) =~= Seq::<EntryModel>::empty());
    if cursor is Link {
        if let Next::At(next) = cursor.past_link(volume, here) {
            let rest = crate::fat::listing::listing_from(volume, next, count, replies, n + 1);
            lemma_answered_tail(disk, read, rest.reads, replies, n);
            lemma_listing_on(volume, disk, next, count, replies, n + 1);
            assert(listing.entries =~= rest.entries);
        }
    } else {
        let entries = crate::fat::dir::entries_from(here, 0);
        let shown = crate::fat::listing::visible(entries);
        let later = next_ahead(volume, disk, cursor.past_data(volume));
        lemma_directory_step(here, later.sectors);
        lemma_visible_of_both(entries, entries_of(later.sectors));
        if crate::fat::dir::ends_from(here, 0) {
            assert(listing.entries =~= shown);
        } else {
            if let Next::At(next) = cursor.past_data(volume) {
                let so_far = count + shown.len();
                let rest = crate::fat::listing::listing_from(volume, next, so_far, replies, n + 1);
                lemma_answered_tail(disk, read, rest.reads, replies, n);
                lemma_listing_on(volume, disk, next, so_far, replies, n + 1);
                assert(listing.entries =~= shown + rest.entries);
            } else {
                assert(listing.entries =~= shown);
                assert(entries + Seq::<EntryModel>::empty() =~= entries);
            }
        }
    }
}

/// A path resolves to the entry that its names lead to on the disk.
pub proof fn law_resolution_finds_the_entry(
    volume: Volume,
    disk: Disk,
    names: Seq<Seq<u8>>,
    current: Option<EntryModel>,
    replies: Replies,
    n: nat,
)
    requires
        volume.wf(),
        answered_from(
            disk,
            crate::fat::lookup::resolution(volume, names, current, replies, n).reads,
            replies,
            n,
        ),
    ensures
        crate::fat::lookup::resolution(volume, names, current, replies, n).result == entry_at(
            volume,
            disk,
            names,
            current,
        ),
    decreases names.len(),
{
    reveal_with_fuel(crate::fat::lookup::resolution, 2);
    if names.len() > 0 {
        if let Ok(dir) = crate::fat::lookup::directory_of(current) {
            let found = crate::fat::lookup::search(volume, dir, names[0], replies, n);
            let m = n + found.reads.len();
            lemma_start_is_whole(volume, disk, dir);
            assert(entries_of(Seq::empty()) =~= Seq::<EntryModel>::empty());
            if let Ok(entry) = found.result {
                let rest = crate::fat::lookup::resolution(
                    volume,
                    names.drop_first(),
                    Some(entry),
                    replies,
                    m,
                );
                lemma_answered_parts(disk, found.reads, rest.reads, replies, n);
                law_resolution_finds_the_entry(
                    volume,
                    disk,
                    names.drop_first(),
                    Some(entry),
                    replies,
                    m,
                );
            }
            if let Next::At(cursor) = crate::fat::chain::dir_start(volume, dir) {
                lemma_search_on(volume, disk, cursor, names[0], replies, n);
            }
        }
    }
}

/// What reading the file at `path` comes to on a disk: the bytes of its chain,
/// as many as its entry records, or an error.
pub open spec fn file_at(volume: Volume, disk: Disk, path: Seq<u8>) -> Result<Seq<u8>, FsError> {
    match entry_at(volume, disk, crate::fat::path::components(path, 0), None) {
        Err(error) => Err(error),
        Ok(None) => Err(FsError::IsADirectory),
        Ok(Some(entry)) => {
            let bytes = bytes_of(extent(volume, disk, entry.cluster).sectors);
            if entry.is_dir() {
                Err(FsError::IsADirectory)
            } else if entry.size == 0 {
                Ok(Seq::empty())
            } else if entry.size <= bytes.len() {
                Ok(bytes.take(entry.size as int))
            } else {
                Err(FsError::CorruptChain)
            }
        },
    }
}

/// The bytes that the disk stores of the file at `path`: as many as its entry
/// says, or all that its chain holds where that is less.
pub open spec fn stored_at(volume: Volume, disk: Disk, path: Seq<u8>) -> Seq<u8> {
    match entry_at(volume, disk, crate::fat::path::components(path, 0), None) {
        Ok(Some(entry)) => {
            let bytes = bytes_of(extent(volume, disk, entry.cluster).sectors);
            if entry.is_dir() {
                Seq::empty()
            } else if entry.size <= bytes.len() {
                bytes.take(entry.size as int)
            } else {
                bytes
            }
        },
        _ => Seq::empty(),
    }
}

/// Reading a file gives back exactly what the disk stores of it: where it
/// succeeds, all the file's bytes in order; where the chain ends early, the
/// bytes up to its end. It succeeds exactly where the path leads to a file whose
/// chain is as long as its entry says.
pub proof fn law_reading_gives_the_file(
    volume: Volume,
    disk: Disk,
    path: Seq<u8>,
    replies: Replies,
)
    requires
        volume.wf(),
        whole_disk(disk),
        answered_from(
            disk,
            crate::fat::file::contents(Some(volume), path, replies).reads,
            replies,
            0,
        ),
    ensures
        ({
            let file = crate::fat::file::contents(Some(volume), path, replies);
            &&& file.data == stored_at(volume, disk, path)
            &&& match file_at(volume, disk, path) {
                Ok(bytes) => file.data == bytes && file.result == Ok::<u32, FsError>(
                    bytes.len() as u32,
                ),
                Err(error) => file.result == Err::<u32, FsError>(error),
            }
        }),
{
    let file = crate::fat::file::contents(Some(volume), path, replies);
    let names = crate::fat::path::components(path, 0);
    let resolved = crate::fat::lookup::resolution(volume, names, None, replies, 0);
    let m = resolved.reads.len();
    assert(0 + m == m);
    if let Ok(found) = resolved.result {
        let rest = crate::fat::file::contents_of(volume, found, replies, m);
        lemma_answered_parts(disk, resolved.reads, rest.reads, replies, 0);
        law_resolution_finds_the_entry(volume, disk, names, None, replies, 0);
        if let Some(entry) = found {
            if !entry.is_dir() && entry.size > 0 {
                lemma_start_is_whole(volume, disk, Dir::Cluster(entry.cluster));
                if let Next::At(cursor) = crate::fat::chain::chain_start(volume, entry.cluster) {
                    lemma_contents_on(
                        volume,
                        disk,
                        cursor,
                        entry.size as nat,
                        entry.size,
                        replies,
                        m,
                    );
                }
            }
        }
    } else {
        law_resolution_finds_the_entry(volume, disk, names, None, replies, 0);
    }
}

/// Listing a directory shows exactly the entries that the disk stores in it, in
/// their order, `.` and `..` left out, and counts them.
pub proof fn law_listing_shows_the_directory(
    volume: Volume,
    disk: Disk,
    path: Seq<u8>,
    replies: Replies,
)
    requires
        volume.wf(),
        answered_from(
            disk,
            crate::fat::listing::listing(Some(volume), path, replies).reads,
            replies,
            0,
        ),
    ensures
        ({
            let listing = crate::fat::listing::listing(Some(volume), path, replies);
            match entry_at(volume, disk, crate::fat::path::components(path, 0), None) {
                Err(error) => listing.result == Err::<nat, FsError>(error),
                Ok(found) => match crate::fat::lookup::directory_of(found) {
                    Err(error) => listing.result == Err::<nat, FsError>(error),
                    Ok(dir) => {
                        let extent = dir_extent(volume, disk, dir);
                        let shown = crate::fat::listing::visible(entries_of(extent.sectors));
                        &&& listing.entries == shown
                        &&& listing.result == (match dir_end(extent) {
                            Ok(_) => Ok::<nat, FsError>(shown.len()),
                            Err(error) => Err::<nat, FsError>(error),
                        })
                    },
                },
            }
        }),
{
    let names = crate::fat::path::components(path, 0);
    let resolved = crate::fat::lookup::resolution(volume, names, None, replies, 0);
    let m = resolved.reads.len();
    assert(0 + m == m);
    if let Ok(found) = resolved.result {
        let rest = crate::fat::listing::listing_of(volume, found, replies, m);
        lemma_answered_parts(disk, resolved.reads, rest.reads, replies, 0);
        law_resolution_finds_the_entry(volume, disk, names, None, replies, 0);
        if let Ok(dir) = crate::fat::lookup::directory_of(found) {
            lemma_start_is_whole(volume, disk, dir);
            assert(entries_of(Seq::empty()) =~= Seq::<EntryModel>::empty());
            if let Next::At(cursor) = crate::fat::chain::dir_start(volume, dir) {
                lemma_listing_on(volume, disk, cursor, 0, replies, m);
            }
        }
    } else {
        law_resolution_finds_the_entry(volume, disk, names, None, replies, 0);
    }
}

proof fn lemma_bytes_by_sector(sectors: Seq<Seq<u8>>, k: int)
    requires
        forall|i: int| 0 <= i < sectors.len() ==> (#[trigger] sectors[i]).len() == 512,
    ensures
        bytes_of(sectors).len() == 512 * sectors.len(),
        0 <= k < 512 * sectors.len() ==> bytes_of(sectors)[k] == sectors[k / 512][k % 512],
    decreases sectors.len(),
{
    if sectors.len() > 0 {
        let rest = sectors.drop_first();
        assert forall|i: int| 0 <= i < rest.len() implies (#[trigger] rest[i]).len() == 512 by {
            assert(rest[i] == sectors[i + 1]);
        }
        lemma_bytes_by_sector(rest, k - 512);
        assert(sectors[0].len() == 512);
        if 512 <= k < 512 * sectors.len() {
            assert((k - 512) / 512 == k / 512 - 1);
            assert((k - 512) % 512 == k % 512);
            assert(rest[k / 512 - 1] == sectors[k / 512]);
        }
    }
}

proof fn lemma_sectors_by_cluster(volume: Volume, disk: Disk, clusters: Seq<u16>, j: int)
    requires
        1 <= volume.sectors_per_cluster,
    ensures
        sectors_of(volume, disk, clusters).len() == volume.sectors_per_cluster * clusters.len(),
        0 <= j < volume.sectors_per_cluster * clusters.len() ==> {
            let spc = volume.sectors_per_cluster as int;
            &&& 0 <= j / spc < clusters.len()
            &&& sectors_of(volume, disk, clusters)[j] == disk(
                (crate::fat::chain::cluster_start(volume, clusters[j / spc]) + j % spc) as u32,
            )
        },
    decreases clusters.len(),
{
    let spc = volume.sectors_per_cluster as int;
    let count = clusters.len() as int;
    if count > 0 {
        let rest = clusters.drop_first();
        lemma_sectors_by_cluster(volume, disk, rest, j - spc);
        let here = cluster_sectors(volume, disk, clusters[0], 0);
        assert(spc * count == spc + spc * (count - 1)) by (nonlinear_arith);
        assert(here.len() == spc);
        if 0 <= j < spc * count {
            if j < spc {
                vstd::arithmetic::div_mod::lemma_fundamental_div_mod_converse(j, spc, 0, j);
                assert(sectors_of(volume, disk, clusters)[j] == here[j]);
            } else {
                let up = (j - spc) / spc;
                let over = (j - spc) % spc;
                vstd::arithmetic::div_mod::lemma_fundamental_div_mod(j - spc, spc);
                assert(j == (up + 1) * spc + over) by (nonlinear_arith)
                    requires
                        j - spc == spc * up + over,
                ;
                vstd::arithmetic::div_mod::lemma_fundamental_div_mod_converse(
                    j,
                    spc,
                    up + 1,
                    over,
                );
                assert(rest[up] == clusters[up + 1]);
                assert(sectors_of(volume, disk, clusters)[j] == sectors_of(volume, disk, rest)[j
                    - spc]);
            }
        }
    } else {
        assert(spc * count == 0) by (nonlinear_arith)
            requires
                count == 0,
        ;
    }
}

/// Where byte `k` of a chain lies on the disk: 512 bytes to a sector, the sectors
/// of a cluster in a row, cluster after cluster in the order of the chain, and
/// cluster 2 at the start of the data region.
pub open spec fn byte_in_chain(volume: Volume, disk: Disk, clusters: Seq<u16>, k: int) -> u8 {
    let per_cluster = volume.sectors_per_cluster as int;
    let sector = k / 512;
    let cluster = clusters[sector / per_cluster];
    disk(
        (volume.data_start + (cluster - 2) * per_cluster + sector % per_cluster) as u32,
    )[k % 512]
}

/// A file is read byte for byte from where it lies. If a path leads to a file, and
/// the links of the FAT chain its clusters from its first one to their end, then
/// reading it succeeds if they have room for as many bytes as its entry records,
/// and then delivers exactly that many, each from its own place in the chain.
pub proof fn law_files_are_read_byte_for_byte(
    volume: Volume,
    disk: Disk,
    path: Seq<u8>,
    replies: Replies,
    entry: EntryModel,
    clusters: Seq<u16>,
    k: int,
)
    requires
        volume.wf(),
        whole_disk(disk),
        answered_from(
            disk,
            crate::fat::file::contents(Some(volume), path, replies).reads,
            replies,
            0,
        ),
        entry_at(volume, disk, crate::fat::path::components(path, 0), None) == Ok::<
            Option<EntryModel>,
            FsError,
        >(Some(entry)),
        entry.attr / 16 % 2 == 0,
        is_chain(volume, disk, clusters),
        clusters.no_duplicates(),
        clusters[0] == entry.cluster,
        0 <= k < entry.size,
    ensures
        ({
            let file = crate::fat::file::contents(Some(volume), path, replies);
            let room = 512 * (volume.sectors_per_cluster * clusters.len());
            &&& entry.size <= room ==> file.result == Ok::<u32, FsError>(entry.size)
                && file.data.len() == entry.size && file.data[k] == byte_in_chain(
                volume,
                disk,
                clusters,
                k,
            )
            &&& entry.size > room ==> file.result == Err::<u32, FsError>(FsError::CorruptChain)
        }),
{
    law_reading_gives_the_file(volume, disk, path, replies);
    law_sound_chains_are_walked(volume, disk, clusters);
    crate::fat::dir::law_directories_are_marked(entry);
    let sectors = sectors_of(volume, disk, clusters);
    let spc = volume.sectors_per_cluster as int;
    lemma_sectors_by_cluster(volume, disk, clusters, k / 512);
    assert forall|i: int| 0 <= i < sectors.len() implies (#[trigger] sectors[i]).len() == 512 by {
        lemma_sectors_by_cluster(volume, disk, clusters, i);
    }
    lemma_bytes_by_sector(sectors, k);
    if entry.size <= 512 * sectors.len() {
        assert(0 <= k / 512 < sectors.len());
        let file = crate::fat::file::contents(Some(volume), path, replies);
        assert(file.data[k] == bytes_of(sectors)[k]);
    }
}

/// Names lead from directory to directory: a path is followed name by name, and
/// what its first names lead to is where the others are looked for.
pub proof fn law_names_lead_on(
    volume: Volume,
    disk: Disk,
    names: Seq<Seq<u8>>,
    more: Seq<Seq<u8>>,
    current: Option<EntryModel>,
)
    ensures
        entry_at(volume, disk, names + more, current) == (match entry_at(
            volume,
            disk,
            names,
            current,
        ) {
            Err(error) => Err::<Option<EntryModel>, FsError>(error),
            Ok(found) => entry_at(volume, disk, more, found),
        }),
    decreases names.len(),
{
    let all = names + more;
    if names.len() == 0 {
        assert(all =~= more);
    } else {
        assert(all.drop_first() =~= names.drop_first() + more);
        assert(all[0] == names[0]);
        if let Ok(dir) = crate::fat::lookup::directory_of(current) {
            if let Ok(entry) = entry_in(dir_extent(volume, disk, dir), names[0]) {
                law_names_lead_on(volume, disk, names.drop_first(), more, Some(entry));
            }
        }
    }
}

/// The entries of a directory are those of its sectors, one after the other, up to
/// and with the first that holds the end marker: here sector `m`, if it is one at
/// all.
pub proof fn law_directories_are_read_to_their_marker(sectors: Seq<Seq<u8>>, m: int)
    requires
        0 <= m <= sectors.len(),
        forall|i: int| 0 <= i < m ==> !crate::fat::dir::ends_from(#[trigger] sectors[i], 0),
        m < sectors.len() ==> crate::fat::dir::ends_from(sectors[m], 0),
    ensures
        ({
            let read = if m < sectors.len() {
                m + 1
            } else {
                m
            };
            entries_of(sectors) == sectors.take(read).map_values(
                |sector: Seq<u8>| crate::fat::dir::entries_from(sector, 0),
            ).flatten()
        }),
    decreases sectors.len(),
{
    let entries = |sector: Seq<u8>| crate::fat::dir::entries_from(sector, 0);
    let read = if m < sectors.len() {
        m + 1
    } else {
        m
    };
    let parts = sectors.take(read).map_values(entries);
    if sectors.len() == 0 {
        assert(parts.len() == 0);
        assert(entries_of(sectors) =~= parts.flatten());
    } else if m == 0 {
        assert(crate::fat::dir::ends_from(sectors[0], 0));
        assert(parts.drop_first() =~= Seq::<Seq<EntryModel>>::empty());
        assert(parts[0] == entries(sectors[0]));
        reveal_with_fuel(Seq::flatten, 2);
        assert(parts.flatten() =~= entries(sectors[0]));
    } else {
        let rest = sectors.drop_first();
        assert(!crate::fat::dir::ends_from(sectors[0], 0));
        assert forall|i: int| 0 <= i < m - 1 implies !crate::fat::dir::ends_from(
            #[trigger] rest[i],
            0,
        ) by {
            assert(rest[i] == sectors[i + 1]);
        }
        if m < sectors.len() {
            assert(rest[m - 1] == sectors[m]);
        }
        law_directories_are_read_to_their_marker(rest, m - 1);
        let others = rest.take(read - 1).map_values(entries);
        assert(parts.drop_first() =~= others);
        assert(parts[0] == entries(sectors[0]));
        assert(parts.flatten() =~= entries(sectors[0]) + others.flatten());
    }
}

/// A name is looked for in one directory: in the root at first, whose sectors
/// follow one another on the disk; in a file there is nothing to be found. The first
/// entry of that name is taken; where there is none, it is not found, unless the
/// directory's chain makes no sense and no end marker comes before that.
pub proof fn law_names_are_looked_up_in_their_directory(
    volume: Volume,
    disk: Disk,
    name: Seq<u8>,
    file: EntryModel,
    clusters: Seq<u16>,
)
    requires
        volume.wf(),
    ensures
        ({
            let root = Seq::new(
                volume.root_sectors as nat,
                |i: int| disk((volume.root_start + i) as u32),
            );
            entry_at(volume, disk, seq![name], None) == (match crate::fat::dir::first_named(
                entries_of(root),
                name,
            ) {
                Some(entry) => Ok::<Option<EntryModel>, FsError>(Some(entry)),
                None => Err(FsError::NotFound),
            })
        }),
        file.attr / 16 % 2 == 0 ==> entry_at(volume, disk, seq![name], Some(file)) == Err::<
            Option<EntryModel>,
            FsError,
        >(FsError::NotADirectory),
        file.attr / 16 % 2 == 1 && file.cluster != 0 && is_chain(volume, disk, clusters)
            && clusters.no_duplicates() && clusters[0] == file.cluster ==> entry_at(
            volume,
            disk,
            seq![name],
            Some(file),
        ) == (match crate::fat::dir::first_named(
            entries_of(sectors_of(volume, disk, clusters)),
            name,
        ) {
            Some(entry) => Ok::<Option<EntryModel>, FsError>(Some(entry)),
            None => Err(FsError::NotFound),
        }),
        file.attr / 16 % 2 == 1 && file.cluster == 0 ==> entry_at(
            volume,
            disk,
            seq![name],
            Some(file),
        ) == entry_at(volume, disk, seq![name], None),
{
    crate::fat::dir::law_directories_are_marked(file);
    let names = seq![name];
    assert(names.drop_first() =~= Seq::<Seq<u8>>::empty());
    let root = Seq::new(
        volume.root_sectors as nat,
        |i: int| disk((volume.root_start + i) as u32),
    );
    assert(dir_extent(volume, disk, Dir::Root).sectors =~= root);
    reveal_with_fuel(entry_at, 2);
    if is_chain(volume, disk, clusters) && clusters.no_duplicates() {
        law_sound_chains_are_walked(volume, disk, clusters);
    }
}

} // verus!
