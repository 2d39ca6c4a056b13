//! Walking the sectors of a directory or a file.
//!
//! A [`Cursor`] is a place on the disk that is about to be read: a sector of
//! the root directory, a sector of a cluster, or the FAT entry that says which
//! cluster comes next. Everything it ever points at lies inside the volume,
//! whatever the disk answers.

use vstd::prelude::*;

use crate::ata::SECTOR_SIZE;
use crate::bytes::u16_at;
use crate::fat::{FsError, Volume};

verus! {

/// Values at or above this in a FAT entry terminate the chain.
pub const CHAIN_END: u16 = 0xFFF8;

/// A sector that is about to be read.
#[derive(Debug, Clone, Copy, PartialEq, Eq, Structural)]
pub enum Cursor {
    /// Sector `index` of the fixed root directory region.
    Root { index: u32 },
    /// Sector `sector` of `cluster`; `hops` more clusters may follow it.
    Data { cluster: u16, sector: u32, hops: u32 },
    /// The FAT sector that holds the link out of `cluster`.
    Link { cluster: u16, hops: u32 },
}

/// Where a walk goes next: to another sector, or nowhere.
#[derive(Debug, Clone, Copy, PartialEq, Eq)]
pub enum Next {
    At(Cursor),
    End(Result<(), FsError>),
}

/// Where a directory's entries live: the fixed root region, or a cluster
/// chain (every directory except the root).
#[derive(Debug, Clone, Copy, PartialEq, Eq, Structural)]
pub enum Dir {
    Root,
    Cluster(u16),
}

/// First sector of a cluster.
pub open spec fn cluster_start(volume: Volume, cluster: u16) -> int {
    volume.data_start + (cluster - 2) * volume.sectors_per_cluster
}

/// What the FAT sector for `cluster` says comes after it: `None` at the end of
/// the chain, an error where the entry names no cluster of the volume.
pub open spec fn link(volume: Volume, cluster: u16, sector: Seq<u8>) -> Result<
    Option<u16>,
    FsError,
> {
    let value = crate::bytes::le16(sector, (cluster * 2) % 512) as u16;
    if value >= CHAIN_END {
        Ok(None)
    } else if volume.holds(value) {
        Ok(Some(value))
    } else {
        Err(FsError::CorruptChain)
    }
}

/// The start of a walk over the chain that begins at `first`. A chain that enters
/// no cluster twice has at most `cluster_count` clusters, the first among them.
pub open spec fn chain_start(volume: Volume, first: u16) -> Next {
    if volume.holds(first) {
        Next::At(
            Cursor::Data { cluster: first, sector: 0, hops: (volume.cluster_count - 1) as u32 },
        )
    } else {
        Next::End(Err(FsError::CorruptChain))
    }
}

/// The start of a walk over a directory.
pub open spec fn dir_start(volume: Volume, dir: Dir) -> Next {
    match dir {
        Dir::Root => Next::At(Cursor::Root { index: 0 }),
        Dir::Cluster(first) => chain_start(volume, first),
    }
}

impl Cursor {
    /// The cursor points into `volume`.
    pub open spec fn wf(self, volume: Volume) -> bool {
        match self {
            Cursor::Root { index } => index < volume.root_sectors,
            Cursor::Data { cluster, sector, hops } => volume.holds(cluster) && sector
                < volume.sectors_per_cluster && hops < volume.cluster_count,
            Cursor::Link { cluster, hops } => volume.holds(cluster) && hops < volume.cluster_count,
        }
    }

    /// The sector number it points at.
    pub open spec fn lba(self, volume: Volume) -> int {
        match self {
            Cursor::Root { index } => volume.root_start + index,
            Cursor::Data { cluster, sector, hops } => cluster_start(volume, cluster) + sector,
            Cursor::Link { cluster, hops } => volume.fat_start + cluster * 2 / 512,
        }
    }

    /// Clusters that may still be entered.
    pub open spec fn hops(self) -> nat {
        match self {
            Cursor::Root { index } => 0,
            Cursor::Data { cluster, sector, hops } => hops as nat,
            Cursor::Link { cluster, hops } => hops as nat,
        }
    }

    /// Reads that are left before the next cluster is entered.
    pub open spec fn reads_here(self, volume: Volume) -> nat {
        match self {
            Cursor::Root { index } => (volume.root_sectors - index) as nat,
            Cursor::Data { cluster, sector, hops } => (volume.sectors_per_cluster - sector
                + 1) as nat,
            Cursor::Link { cluster, hops } => 1,
        }
    }

    /// An upper bound on the reads that a walk from here can make.
    pub open spec fn reads_left(self, volume: Volume) -> nat {
        self.hops() * (volume.sectors_per_cluster + 1) as nat + self.reads_here(volume)
    }

    /// Where to go once the sector here has been read as data.
    pub open spec fn past_data(self, volume: Volume) -> Next {
        match self {
            Cursor::Root { index } => if index + 1 < volume.root_sectors {
                Next::At(Cursor::Root { index: (index + 1) as u32 })
            } else {
                Next::End(Ok(()))
            },
            Cursor::Data { cluster, sector, hops } => if sector + 1 < volume.sectors_per_cluster {
                Next::At(Cursor::Data { cluster, sector: (sector + 1) as u32, hops })
            } else {
                Next::At(Cursor::Link { cluster, hops })
            },
            Cursor::Link { cluster, hops } => Next::At(self),
        }
    }

    /// Where to go once the FAT sector here has been read. A chain that goes on
    /// when no hop is left is longer than the volume, so it loops.
    pub open spec fn past_link(self, volume: Volume, sector: Seq<u8>) -> Next {
        match self {
            Cursor::Link { cluster, hops } => match link(volume, cluster, sector) {
                Err(error) => Next::End(Err(error)),
                Ok(None) => Next::End(Ok(())),
                Ok(Some(next)) => if hops == 0 {
                    Next::End(Err(FsError::CorruptChain))
                } else {
                    Next::At(Cursor::Data { cluster: next, sector: 0, hops: (hops - 1) as u32 })
                },
            },
            _ => Next::At(self),
        }
    }
}

impl Next {
    /// Where there is a next sector, it is one of the volume.
    pub open spec fn wf(self, volume: Volume) -> bool {
        self matches Next::At(cursor) ==> cursor.wf(volume)
    }
}

/// Every sector that a cursor points at lies between the start of the FAT and
/// the end of the last cluster.
pub proof fn law_cursor_stays_in_the_volume(volume: Volume, cursor: Cursor)
    requires
        volume.wf(),
        cursor.wf(volume),
    ensures
        volume.fat_start <= cursor.lba(volume) < volume.data_start + volume.cluster_count
            * volume.sectors_per_cluster,
        cursor.lba(volume) <= u32::MAX,
{
    let spc = volume.sectors_per_cluster as int;
    let count = volume.cluster_count as int;
    assert(0 < count * spc) by (nonlinear_arith)
        requires
            0 < count,
            0 < spc,
    ;
    match cursor {
        Cursor::Data { cluster, sector, hops } => {
            assert(0 <= (cluster - 2) * spc && (cluster - 2) * spc + spc <= count * spc)
                by (nonlinear_arith)
                requires
                    2 <= cluster < count + 2,
                    0 < spc,
            ;
        },
        _ => {},
    }
}

/// Each step of a walk leaves fewer reads to make, so a walk ends whatever the
/// disk holds; in particular a cyclic FAT cannot keep it going.
pub proof fn law_walk_is_bounded(volume: Volume, cursor: Cursor, sector: Seq<u8>)
    requires
        volume.wf(),
        cursor.wf(volume),
    ensures
        1 <= cursor.reads_left(volume),
        cursor !is Link ==> (cursor.past_data(volume) matches Next::At(next) ==> next.wf(volume)
            && next.reads_left(volume) < cursor.reads_left(volume)),
        cursor is Link ==> (cursor.past_link(volume, sector) matches Next::At(next) ==> next.wf(
            volume,
        ) && next.reads_left(volume) < cursor.reads_left(volume)),
{
    let per = (volume.sectors_per_cluster + 1) as nat;
    match cursor {
        Cursor::Link { cluster, hops } => {
            if hops > 0 {
                assert((hops - 1) * per + per == hops * per) by (nonlinear_arith);
            }
        },
        _ => {},
    }
}

/// The steps of a walk over a chain: it begins at the start of the chain, and
/// goes on from each sector as the volume and what the FAT answers have it.
pub open spec fn is_walk(volume: Volume, first: u16, walk: Seq<Cursor>) -> bool {
    &&& walk.len() > 0 ==> chain_start(volume, first) == Next::At(walk[0])
    &&& forall|i: int| 0 <= i < walk.len() - 1 ==> goes_on(volume, #[trigger] walk[i], walk[i + 1])
}

/// A walk can go from one place to the other.
pub open spec fn goes_on(volume: Volume, here: Cursor, next: Cursor) -> bool {
    if here is Link {
        exists|sector: Seq<u8>| #[trigger] here.past_link(volume, sector) == Next::At(next)
    } else {
        here.past_data(volume) == Next::At(next)
    }
}

/// How many clusters a walk enters.
pub open spec fn entered(walk: Seq<Cursor>) -> nat
    decreases walk.len(),
{
    if walk.len() == 0 {
        0
    } else {
        entered(walk.drop_last()) + (match walk.last() {
            Cursor::Data { sector: 0, .. } => 1nat,
            _ => 0nat,
        })
    }
}

/// A walk over a chain enters no more clusters than the volume has, whatever the
/// disk answers.
pub proof fn law_clusters_entered_are_bounded(volume: Volume, first: u16, walk: Seq<Cursor>)
    requires
        volume.wf(),
        is_walk(volume, first, walk),
    ensures
        entered(walk) <= volume.cluster_count,
{
    if walk.len() > 0 {
        lemma_entered(volume, first, walk);
    }
}

proof fn lemma_entered(volume: Volume, first: u16, walk: Seq<Cursor>)
    requires
        volume.wf(),
        is_walk(volume, first, walk),
        walk.len() > 0,
    ensures
        walk.last() !is Root,
        entered(walk) + walk.last().hops() <= volume.cluster_count,
    decreases walk.len(),
{
    let earlier = walk.drop_last();
    if earlier.len() == 0 {
        assert(entered(earlier) == 0);
    } else {
        assert(is_walk(volume, first, earlier)) by {
            assert forall|i: int| 0 <= i < earlier.len() - 1 implies goes_on(
                volume,
                #[trigger] earlier[i],
                earlier[i + 1],
            ) by {
                assert(earlier[i] == walk[i] && earlier[i + 1] == walk[i + 1]);
                assert(goes_on(volume, walk[i], walk[i + 1]));
            }
        }
        lemma_entered(volume, first, earlier);
        let k = walk.len() - 2;
        assert(goes_on(volume, walk[k], walk[k + 1]));
        assert(earlier.last() == walk[k]);
    }
}

/// First sector of a cluster.
pub fn cluster_lba(volume: &Volume, cluster: u16) -> (lba: u32)
    requires
        volume.wf(),
        volume.holds(cluster),
    ensures
        lba == cluster_start(*volume, cluster),
        lba == data_sector(cluster as int, 0).lba(*volume),
{
    proof {
        law_cursor_stays_in_the_volume(*volume, Cursor::Data { cluster, sector: 0, hops: 0 });
        assert(0 <= (cluster - 2) * volume.sectors_per_cluster) by (nonlinear_arith)
            requires
                2 <= cluster,
        ;
    }
    volume.data_start + (cluster as u32 - 2) * volume.sectors_per_cluster
}

/// Follows one link of a cluster chain, given the FAT sector that holds it.
/// `Ok(None)` marks the end.
pub fn next_cluster(volume: &Volume, cluster: u16, sector: &[u8; SECTOR_SIZE]) -> (result: Result<
    Option<u16>,
    FsError,
>)
    requires
        volume.cluster_count <= 65524,
    ensures
        result == link(*volume, cluster, sector@),
{
    let offset: u32 = cluster as u32 * 2;
    let index: usize = (offset % 512) as usize;
    let value: u16 = u16_at(sector, index);
    if value >= CHAIN_END {
        return Ok(None);
    }
    if value < 2 || value as u32 >= volume.cluster_count + 2 {
        return Err(FsError::CorruptChain);
    }
    Ok(Some(value))
}

/// Begins a walk over the chain that starts at `first`.
pub fn start_chain(volume: &Volume, first: u16) -> (next: Next)
    requires
        volume.wf(),
    ensures
        next == chain_start(*volume, first),
        next.wf(*volume),
{
    if first < 2 || first as u32 >= volume.cluster_count + 2 {
        Next::End(Err(FsError::CorruptChain))
    } else {
        Next::At(Cursor::Data { cluster: first, sector: 0, hops: volume.cluster_count - 1 })
    }
}

/// Begins a walk over a directory.
pub fn start_dir(volume: &Volume, dir: Dir) -> (next: Next)
    requires
        volume.wf(),
    ensures
        next == dir_start(*volume, dir),
        next.wf(*volume),
{
    match dir {
        Dir::Root => Next::At(Cursor::Root { index: 0 }),
        Dir::Cluster(first) => start_chain(volume, first),
    }
}

impl Cursor {
    /// The sector number to read.
    pub fn sector_number(&self, volume: &Volume) -> (lba: u32)
        requires
            volume.wf(),
            self.wf(*volume),
        ensures
            lba == self.lba(*volume),
    {
        proof {
            law_cursor_stays_in_the_volume(*volume, *self);
        }
        match *self {
            Cursor::Root { index } => volume.root_start + index,
            Cursor::Data { cluster, sector, hops } => cluster_lba(volume, cluster) + sector,
            Cursor::Link { cluster, hops } => volume.fat_start + cluster as u32 * 2 / 512,
        }
    }

    /// Moves on from a sector of data.
    pub fn after_data(&self, volume: &Volume) -> (next: Next)
        requires
            volume.wf(),
            self.wf(*volume),
        ensures
            next == self.past_data(*volume),
            next.wf(*volume),
    {
        match *self {
            Cursor::Root { index } => if index + 1 < volume.root_sectors {
                Next::At(Cursor::Root { index: index + 1 })
            } else {
                Next::End(Ok(()))
            },
            Cursor::Data { cluster, sector, hops } => if sector + 1 < volume.sectors_per_cluster {
                Next::At(Cursor::Data { cluster, sector: sector + 1, hops })
            } else {
                Next::At(Cursor::Link { cluster, hops })
            },
            Cursor::Link { cluster, hops } => Next::At(*self),
        }
    }

    /// Moves on from a sector of the FAT.
    pub fn after_link(&self, volume: &Volume, sector: &[u8; SECTOR_SIZE]) -> (next: Next)
        requires
            volume.wf(),
            self.wf(*volume),
        ensures
            next == self.past_link(*volume, sector@),
            next.wf(*volume),
    {
        match *self {
            Cursor::Link { cluster, hops } => match next_cluster(volume, cluster, sector) {
                Err(error) => Next::End(Err(error)),
                Ok(None) => Next::End(Ok(())),
                Ok(Some(next)) => if hops == 0 {
                    Next::End(Err(FsError::CorruptChain)) // chain longer than the volume
                } else {
                    Next::At(Cursor::Data { cluster: next, sector: 0, hops: hops - 1 })
                },
            },
            _ => Next::At(*self),
        }
    }
}

/// Sector `sector` of `cluster`, as a place to be read.
pub open spec fn data_sector(cluster: int, sector: int) -> Cursor {
    Cursor::Data { cluster: cluster as u16, sector: sector as u32, hops: 0 }
}

/// The clusters of a volume tile its data region: cluster 2 starts where the
/// region does, the sectors of a cluster follow one another, and behind the last
/// one lies the first of the next cluster, so that clusters start as many sectors
/// apart as a cluster has.
pub proof fn law_clusters_tile_the_data_region(volume: Volume, cluster: u16, sector: u32)
    requires
        volume.wf(),
        2 <= cluster < volume.cluster_count + 2,
        sector < volume.sectors_per_cluster,
    ensures
        data_sector(2, 0).lba(volume) == volume.data_start,
        data_sector(cluster as int, sector as int).lba(volume) == data_sector(
            cluster as int,
            0,
        ).lba(volume) + sector,
        cluster + 1 < volume.cluster_count + 2 ==> data_sector(cluster + 1, 0).lba(volume)
            == data_sector(cluster as int, 0).lba(volume) + volume.sectors_per_cluster,
        cluster + 1 < volume.cluster_count + 2 ==> data_sector(cluster + 1, 0).lba(volume)
            == data_sector(cluster as int, volume.sectors_per_cluster - 1).lba(volume) + 1,
        cluster_start(volume, cluster) == data_sector(cluster as int, 0).lba(volume),
        cluster == volume.cluster_count + 1 ==> data_sector(cluster as int, 0).lba(volume)
            + volume.sectors_per_cluster == volume.data_start + volume.cluster_count
            * volume.sectors_per_cluster,
{
    let spc = volume.sectors_per_cluster as int;
    let c = cluster as int;
    assert((c + 1 - 2) * spc == (c - 2) * spc + spc) by (nonlinear_arith);
    assert((2 - 2) * spc == 0) by (nonlinear_arith);
}

/// Each sector of the data region belongs to one cluster, at one place: no two
/// clusters share a sector, and none lies between them.
pub proof fn law_clusters_are_disjoint(volume: Volume, lba: int)
    requires
        volume.wf(),
        volume.data_start <= lba < volume.data_start + volume.cluster_count
            * volume.sectors_per_cluster,
    ensures
        ({
            let at = lba - volume.data_start;
            let cluster = at / (volume.sectors_per_cluster as int) + 2;
            let sector = at % (volume.sectors_per_cluster as int);
            &&& 2 <= cluster < volume.cluster_count + 2
            &&& 0 <= sector < volume.sectors_per_cluster
            &&& data_sector(cluster, sector).lba(volume) == lba
            &&& forall|other: u16, place: u32|
                2 <= other < volume.cluster_count + 2 && place < volume.sectors_per_cluster
                    && #[trigger] data_sector(other as int, place as int).lba(volume) == lba
                    ==> other == cluster && place == sector
        }),
{
    let at = lba - volume.data_start;
    let spc = volume.sectors_per_cluster as int;
    let count = volume.cluster_count as int;
    let quotient = at / spc;
    vstd::arithmetic::div_mod::lemma_fundamental_div_mod(at, spc);
    vstd::arithmetic::mul::lemma_mul_is_commutative(spc, quotient);
    assert(0 <= quotient < count) by (nonlinear_arith)
        requires
            0 <= at < count * spc,
            at == quotient * spc + at % spc,
            0 <= at % spc < spc,
            0 < spc,
    ;
    assert forall|other: u16, place: u32|
        2 <= other < volume.cluster_count + 2 && place < volume.sectors_per_cluster
            && #[trigger] data_sector(other as int, place as int).lba(volume) == lba implies other
        == quotient + 2 && place == at % spc by {
        vstd::arithmetic::div_mod::lemma_fundamental_div_mod_converse(
            at,
            spc,
            other - 2,
            place as int,
        );
    }
}

/// The table of links has two bytes for each cluster, in the order of the
/// clusters, from the start of the FAT on. What they say comes after the cluster:
/// numbers from 0xFFF8 on say that nothing does; the number of a cluster of the
/// volume says that this one does; any other number makes no sense. No other byte
/// of the table counts.
pub proof fn law_links_lie_in_the_table(volume: Volume, cluster: u16, sector: Seq<u8>, at: int)
    requires
        volume.wf(),
        0 <= at < 512,
        512 * ((Cursor::Link { cluster, hops: 0 }).lba(volume) - volume.fat_start) + at == 2
            * cluster,
    ensures
        ({
            let value = sector[at] + 256 * sector[at + 1];
            &&& value >= 0xFFF8 ==> link(volume, cluster, sector) == Ok::<Option<u16>, FsError>(
                None,
            )
            &&& 2 <= value < volume.cluster_count + 2 ==> link(volume, cluster, sector) == Ok::<
                Option<u16>,
                FsError,
            >(Some(value as u16))
            &&& value < 2 || volume.cluster_count + 2 <= value < 0xFFF8 ==> link(
                volume,
                cluster,
                sector,
            ) == Err::<Option<u16>, FsError>(FsError::CorruptChain)
        }),
        at < 511,
{
}

/// Where the link of a cluster lies is where the law above looks for it.
pub proof fn law_every_link_has_its_place(volume: Volume, cluster: u16)
    requires
        volume.wf(),
        2 <= cluster < volume.cluster_count + 2,
    ensures
        ({
            let lba = (Cursor::Link { cluster, hops: 0 }).lba(volume);
            &&& 0 <= 2 * cluster - 512 * (lba - volume.fat_start) < 512
            &&& volume.fat_start <= lba < volume.root_start
        }),
{
}

/// The root directory is read sector by sector, from its first to its last; a
/// cluster is read sector by sector, and then its link; and a chain that goes on
/// is read on at the first sector of the cluster that the link names.
pub proof fn law_walks_go_on_where_they_should(volume: Volume, cursor: Cursor, sector: Seq<u8>)
    requires
        volume.wf(),
        cursor.wf(volume),
    ensures
        dir_start(volume, Dir::Root) matches Next::At(first) && first.lba(volume)
            == volume.root_start && first is Root,
        cursor is Root ==> match cursor.past_data(volume) {
            Next::At(next) => next is Root && next.lba(volume) == cursor.lba(volume) + 1
                && next.lba(volume) < volume.data_start,
            Next::End(end) => cursor.lba(volume) == volume.data_start - 1 && end == Ok::<
                (),
                FsError,
            >(()),
        },
        cursor matches Cursor::Data { cluster, sector: place, hops } ==> (cursor.past_data(volume)
            matches Next::At(next) && (if place + 1 < volume.sectors_per_cluster {
            next is Data && next->Data_cluster == cluster && next.lba(volume) == cursor.lba(volume)
                + 1
        } else {
            next is Link && next->Link_cluster == cluster
        }) && next.hops() == hops),
        cursor matches Cursor::Link { cluster, hops } ==> match cursor.past_link(volume, sector) {
            Next::At(next) => hops > 0 && next is Data && next->sector == 0 && link(
                volume,
                cluster,
                sector,
            ) == Ok::<Option<u16>, FsError>(Some(next->Data_cluster)) && next.hops() == hops - 1,
            Next::End(Ok(_)) => link(volume, cluster, sector) == Ok::<Option<u16>, FsError>(None),
            Next::End(Err(error)) => error == FsError::CorruptChain && (link(
                volume,
                cluster,
                sector,
            ) is Err || hops == 0),
        },
{
}

/// A chain or a directory in clusters is read from the first sector of its first
/// cluster on, which has to be one of the volume.
pub proof fn law_chains_start_at_their_first_cluster(volume: Volume, first: u16)
    requires
        volume.wf(),
    ensures
        2 <= first < volume.cluster_count + 2 <==> chain_start(volume, first) is At,
        chain_start(volume, first) matches Next::At(cursor) ==> cursor is Data
            && cursor->Data_cluster == first && cursor->sector == 0 && cursor.hops() + 1
            == volume.cluster_count,
        chain_start(volume, first) matches Next::End(end) ==> end == Err::<(), FsError>(
            FsError::CorruptChain,
        ),
        dir_start(volume, Dir::Cluster(first)) == chain_start(volume, first),
{
}

} // verus!
