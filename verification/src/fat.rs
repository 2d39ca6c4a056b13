//! Read-only FAT16 filesystem.
//!
//! Enough of FAT16 to list directories and read files: BPB parsing, the fixed
//! root directory region, subdirectory cluster chains, 8.3 short names, and
//! FAT chain walking.
//!
//! ## No allocation, anywhere
//!
//! The kernel heap is 100 KiB, and `cat` on a large file must not consume it.
//! [`list`] and [`read_file`] start an operation that asks for one sector at a
//! time and hands on what that sector holds, so listing a directory or reading
//! a file of any size allocates nothing.
//!
//! ## Untrusted input
//!
//! Everything read from disk is attacker-controlled as far as the kernel is
//! concerned: the BPB is validated before use, cluster numbers are
//! range-checked against the volume's cluster count, and every chain walk is
//! bounded by the total cluster count so a cyclic FAT cannot spin forever.

use vstd::prelude::*;

use crate::ata::{AtaError, SECTOR_SIZE};
use crate::bytes::{u16_at, u32_at};

pub mod chain;
pub mod dir;
pub mod file;
pub mod laws;
pub mod listing;
pub mod lookup;
pub mod mount;
pub mod path;
pub mod stored;

pub use crate::fat::file::{read_file, ReadFile};
pub use crate::fat::listing::{list, Batch, List};
pub use crate::fat::mount::{info, mount, Mount, MountRequest};

verus! {

/// Why a filesystem operation failed.
#[derive(Debug, Clone, Copy, PartialEq, Eq, Structural)]
pub enum FsError {
    /// No attached drive holds a FAT16 volume.
    NoFilesystem,
    /// The disk driver failed.
    Io(AtaError),
    NotFound,
    NotADirectory,
    IsADirectory,
    /// A cluster number was out of range, a chain ended before the recorded size
    /// of its file, or its walk went on past the volume's cluster count: such a
    /// chain loops. A file whose recorded size ends before that is delivered.
    CorruptChain,
}

/// A mounted volume: everything needed to translate clusters to sector
/// numbers, and the size of the disk that it is on.
#[derive(Debug, Clone, Copy, PartialEq, Eq, Structural)]
pub struct Volume {
    pub drive: u8,
    /// Sectors of the drive, as it identified itself.
    pub sectors: u32,
    pub sectors_per_cluster: u32,
    pub fat_start: u32,
    pub root_start: u32,
    pub root_sectors: u32,
    pub data_start: u32,
    pub cluster_count: u32,
}

impl Volume {
    /// The three regions follow one another, the FAT describes every cluster,
    /// and the last cluster ends at a sector number that fits.
    pub open spec fn wf(self) -> bool {
        &&& 1 <= self.sectors_per_cluster <= 128
        &&& 4085 <= self.cluster_count <= 65524
        &&& 1 <= self.fat_start
        &&& self.fat_start + (self.cluster_count + 1) / 256 < self.root_start
        &&& 1 <= self.root_sectors <= 4095
        &&& self.data_start == self.root_start + self.root_sectors
        &&& self.data_start + self.cluster_count * self.sectors_per_cluster <= u32::MAX
    }

    /// `cluster` names a cluster of this volume.
    pub open spec fn holds(self, cluster: u16) -> bool {
        2 <= cluster < self.cluster_count + 2
    }
}

/// Summary of the mounted volume, for the shell's `disk` command.
#[derive(Debug, Clone, Copy, PartialEq, Eq, Structural)]
pub struct Info {
    pub drive: u8,
    pub cluster_count: u32,
    pub bytes_per_cluster: u32,
}

/// The fields of a boot sector that describe a FAT volume.
pub ghost struct Bpb {
    pub bytes_per_sector: nat,
    pub sectors_per_cluster: nat,
    pub reserved_sectors: nat,
    pub num_fats: nat,
    pub root_entries: nat,
    pub total_sectors: nat,
    pub sectors_per_fat: nat,
}

/// The BPB of a boot sector.
pub open spec fn bpb(boot: Seq<u8>) -> Bpb {
    let total_16 = crate::bytes::le16(boot, 19);
    Bpb {
        bytes_per_sector: crate::bytes::le16(boot, 11),
        sectors_per_cluster: boot[13] as nat,
        reserved_sectors: crate::bytes::le16(boot, 14),
        num_fats: boot[16] as nat,
        root_entries: crate::bytes::le16(boot, 17),
        total_sectors: if total_16 != 0 { total_16 } else { crate::bytes::le32(boot, 32) },
        sectors_per_fat: crate::bytes::le16(boot, 22),
    }
}

impl Bpb {
    /// Sectors of the fixed root directory region.
    pub open spec fn root_sectors(self) -> nat {
        self.root_entries * 32 / 512
    }

    /// First sector of the root directory region.
    pub open spec fn root_start(self) -> nat {
        self.reserved_sectors + self.num_fats * self.sectors_per_fat
    }

    /// First sector of the data region.
    pub open spec fn data_start(self) -> nat {
        self.root_start() + self.root_sectors()
    }

    /// Whole clusters that fit behind the root directory.
    pub open spec fn cluster_count(self) -> int {
        (self.total_sectors - self.data_start()) / (self.sectors_per_cluster as int)
    }

    /// The fields describe a FAT16 volume: a sector and cluster size that can
    /// be, one or two FATs, a root region of whole sectors, a cluster count
    /// that makes it FAT16, and a FAT long enough for every cluster.
    pub open spec fn is_fat16(self) -> bool {
        &&& self.bytes_per_sector == 512
        &&& power_of_two_to_128(self.sectors_per_cluster as int)
        &&& self.reserved_sectors != 0
        &&& 1 <= self.num_fats <= 2
        &&& self.sectors_per_fat != 0
        &&& self.root_entries != 0
        &&& self.root_entries * 32 % 512 == 0
        &&& self.data_start() < self.total_sectors
        &&& 4085 <= self.cluster_count() <= 65524
        &&& (self.cluster_count() + 2) * 2 <= self.sectors_per_fat * 512
    }
}

/// One of the powers of two from 1 to 128.
pub open spec fn power_of_two_to_128(n: int) -> bool {
    n == 1 || n == 2 || n == 4 || n == 8 || n == 16 || n == 32 || n == 64 || n == 128
}

/// The volume that a boot sector describes, if it is the boot sector of a
/// FAT16 volume: signed, labelled as FAT, and with a BPB that makes sense.
pub open spec fn layout(drive: u8, sectors: u32, boot: Seq<u8>) -> Option<Volume> {
    let b = bpb(boot);
    if boot[510] == 0x55 && boot[511] == 0xAA && boot.subrange(54, 58) == seq![
        0x46u8,
        0x41u8,
        0x54u8,
        0x31u8,
    ] && b.is_fat16() {
        Some(
            Volume {
                drive,
                sectors,
                sectors_per_cluster: b.sectors_per_cluster as u32,
                fat_start: b.reserved_sectors as u32,
                root_start: b.root_start() as u32,
                root_sectors: b.root_sectors() as u32,
                data_start: b.data_start() as u32,
                cluster_count: b.cluster_count() as u32,
            },
        )
    } else {
        None
    }
}

/// A volume read off a boot sector is well formed.
pub proof fn law_layout_is_well_formed(drive: u8, sectors: u32, boot: Seq<u8>)
    requires
        boot.len() == SECTOR_SIZE,
    ensures
        layout(drive, sectors, boot) matches Some(volume) ==> volume.wf() && volume.drive == drive
            && volume.sectors == sectors,
{
    let b = bpb(boot);
    if b.is_fat16() {
        let spc = b.sectors_per_cluster as int;
        let room = b.total_sectors - b.data_start();
        assert(b.cluster_count() * spc <= room) by (nonlinear_arith)
            requires
                spc > 0,
                b.cluster_count() == room / spc,
        ;
        assert(b.num_fats * b.sectors_per_fat <= 2 * 65535) by (nonlinear_arith)
            requires
                b.num_fats <= 2,
                b.sectors_per_fat <= 65535,
        ;
        assert(b.sectors_per_fat <= b.num_fats * b.sectors_per_fat) by (nonlinear_arith)
            requires
                1 <= b.num_fats,
        ;
    }
}

/// Validates the boot sector of a drive that has `sectors` of them, deriving the
/// volume layout.
///
/// The validation is strict on purpose: this same routine is pointed at the
/// boot disk, whose sector 0 also ends in 0x55AA, and must reject it.
pub fn probe(drive: u8, sectors: u32, boot: &[u8; SECTOR_SIZE]) -> (result: Result<
    Volume,
    FsError,
>)
    ensures
        match layout(drive, sectors, boot@) {
            Some(volume) => result == Ok::<Volume, FsError>(volume) && volume.wf(),
            None => result == Err::<Volume, FsError>(FsError::NoFilesystem),
        },
{
    proof {
        law_layout_is_well_formed(drive, sectors, boot@);
    }
    if boot[510] != 0x55 || boot[511] != 0xAA {
        return Err(FsError::NoFilesystem);
    }
    // The filesystem-type string is advisory per the spec, but it is what
    // distinguishes a FAT boot sector from any other bootable sector.
    let ghost label = boot@.subrange(54, 58);
    assert(label[0] == boot@[54] && label[1] == boot@[55] && label[2] == boot@[56] && label[3]
        == boot@[57]);
    if boot[54] != 0x46 || boot[55] != 0x41 || boot[56] != 0x54 || boot[57] != 0x31 {
        return Err(FsError::NoFilesystem);
    }
    assert(label =~= seq![0x46u8, 0x41u8, 0x54u8, 0x31u8]);

    let bytes_per_sector: u32 = u16_at(boot, 11) as u32;
    let sectors_per_cluster: u32 = boot[13] as u32;
    let reserved_sectors: u32 = u16_at(boot, 14) as u32;
    let num_fats: u32 = boot[16] as u32;
    let root_entries: u32 = u16_at(boot, 17) as u32;
    let total_sectors_16: u32 = u16_at(boot, 19) as u32;
    let sectors_per_fat: u32 = u16_at(boot, 22) as u32;
    let total_sectors_32: u32 = u32_at(boot, 32);

    if bytes_per_sector as usize != SECTOR_SIZE || !is_power_of_two_to_128(sectors_per_cluster)
        || reserved_sectors == 0 || num_fats == 0 || num_fats > 2 || sectors_per_fat == 0 {
        return Err(FsError::NoFilesystem);
    }
    // A zero root-entry count means FAT32, which lays out its root directory
    // as a cluster chain and is not supported here.
    if root_entries == 0 || root_entries * 32 % 512 != 0 {
        return Err(FsError::NoFilesystem);
    }
    let total_sectors: u32 = if total_sectors_16 != 0 {
        total_sectors_16
    } else {
        total_sectors_32
    };
    let root_sectors: u32 = root_entries * 32 / 512;
    assert(num_fats * sectors_per_fat <= 2 * 65535) by (nonlinear_arith)
        requires
            num_fats <= 2,
            sectors_per_fat <= 65535,
    ;
    let root_start: u32 = reserved_sectors + num_fats * sectors_per_fat;
    let data_start: u32 = root_start + root_sectors;
    if total_sectors <= data_start {
        return Err(FsError::NoFilesystem);
    }
    let cluster_count: u32 = (total_sectors - data_start) / sectors_per_cluster;
    if cluster_count < 4085 || cluster_count > 65524 {
        return Err(FsError::NoFilesystem); // FAT12 or FAT32
    }
    // The FAT must be large enough to describe every cluster.
    if (cluster_count + 2) * 2 > sectors_per_fat * 512 {
        return Err(FsError::NoFilesystem);
    }
    Ok(
        Volume {
            drive,
            sectors,
            sectors_per_cluster,
            fat_start: reserved_sectors,
            root_start,
            root_sectors,
            data_start,
            cluster_count,
        },
    )
}

fn is_power_of_two_to_128(n: u32) -> (answer: bool)
    ensures
        answer == power_of_two_to_128(n as int),
{
    n == 1 || n == 2 || n == 4 || n == 8 || n == 16 || n == 32 || n == 64 || n == 128
}

/// Numbers that a boot sector stores: reserved sectors, entries of the root
/// directory, sectors in all (in 16 bits, or in 32 where that is 0), and sectors of
/// each FAT.
pub ghost struct Stored {
    pub reserved: u16,
    pub root_entries: u16,
    pub total_16: u16,
    pub total_32: u32,
    pub per_fat: u16,
}

impl Stored {
    /// They are stored in `boot`, each at its place.
    pub open spec fn lie_in(self, boot: Seq<u8>) -> bool {
        &&& crate::bytes::stores16(boot, 14, self.reserved)
        &&& crate::bytes::stores16(boot, 17, self.root_entries)
        &&& crate::bytes::stores16(boot, 19, self.total_16)
        &&& crate::bytes::stores16(boot, 22, self.per_fat)
        &&& crate::bytes::stores32(boot, 32, self.total_32)
    }

    /// Sectors in all.
    pub open spec fn total(self) -> int {
        if self.total_16 != 0 {
            self.total_16 as int
        } else {
            self.total_32 as int
        }
    }
}

proof fn lemma_stored(boot: Seq<u8>, stored: Stored)
    requires
        stored.lie_in(boot),
    ensures
        ({
            let b = bpb(boot);
            &&& b.reserved_sectors == stored.reserved
            &&& b.root_entries == stored.root_entries
            &&& b.total_sectors == stored.total()
            &&& b.sectors_per_fat == stored.per_fat
            &&& b.sectors_per_cluster == boot[13]
            &&& b.num_fats == boot[16]
            &&& b.bytes_per_sector == 512 <==> boot[11] == 0 && boot[12] == 2
            &&& power_of_two_to_128(boot[13] as int) <==> boot[13] != 0 && 128u8 % boot[13]
                == 0
        }),
{
    crate::bytes::law_numbers_are_read_as_stored(boot, 14, stored.reserved, 0, 0);
    crate::bytes::law_numbers_are_read_as_stored(boot, 17, stored.root_entries, 0, 0);
    crate::bytes::law_numbers_are_read_as_stored(boot, 19, stored.total_16, 0, 0);
    crate::bytes::law_numbers_are_read_as_stored(boot, 22, stored.per_fat, 0, 0);
    crate::bytes::law_numbers_are_read_as_stored(boot, 32, 0, stored.total_32, 0);
    let n = boot[13];
    assert(n != 0 ==> (128u8 % n == 0 <==> n == 1 || n == 2 || n == 4 || n == 8 || n == 16 || n == 32
        || n == 64 || n == 128)) by (bit_vector);
}

/// A volume is laid out as its boot sector says: the reserved sectors, the FATs,
/// the root directory, sixteen entries to a sector, and then the clusters, as many
/// whole ones as there is room for.
pub proof fn law_volumes_are_laid_out_as_stored(
    drive: u8,
    sectors: u32,
    boot: Seq<u8>,
    stored: Stored,
)
    requires
        boot.len() == 512,
        stored.lie_in(boot),
    ensures
        layout(drive, sectors, boot) matches Some(volume) ==> {
            &&& volume.drive == drive
            &&& volume.sectors == sectors
            &&& volume.sectors_per_cluster == boot[13]
            &&& volume.fat_start == stored.reserved
            &&& volume.root_start == volume.fat_start + boot[16] * stored.per_fat
            &&& 16 * volume.root_sectors == stored.root_entries
            &&& volume.data_start == volume.root_start + volume.root_sectors
            &&& volume.data_start + volume.cluster_count * volume.sectors_per_cluster
                <= stored.total()
            &&& stored.total() < volume.data_start + (volume.cluster_count + 1)
                * volume.sectors_per_cluster
        },
{
    lemma_stored(boot, stored);
    law_layout_is_well_formed(drive, sectors, boot);
    if let Some(volume) = layout(drive, sectors, boot) {
        let b = bpb(boot);
        let room = b.total_sectors - b.data_start();
        let spc = b.sectors_per_cluster as int;
        let count = b.cluster_count();
        vstd::arithmetic::div_mod::lemma_fundamental_div_mod(room, spc);
        assert(count * spc <= room < (count + 1) * spc) by (nonlinear_arith)
            requires
                spc > 0,
                room == spc * count + room % spc,
                0 <= room % spc < spc,
        ;
        assert(b.num_fats * b.sectors_per_fat <= 2 * 65535) by (nonlinear_arith)
            requires
                b.num_fats <= 2,
                b.sectors_per_fat <= 65535,
        ;
        assert(count * spc >= 0) by (nonlinear_arith)
            requires
                count >= 0,
                spc > 0,
        ;
        assert(volume.root_start == b.root_start());
        assert(volume.cluster_count == count);
    }
}

/// Which boot sectors are taken for those of a FAT16 volume: those that are signed
/// and labelled so, with sectors of 512 bytes, clusters of a power of two of them,
/// at least one reserved sector, one FAT or two, a root directory of whole sectors,
/// 4085 to 65524 clusters, and FATs that have room for the link of each.
pub proof fn law_fat16_volumes_are_recognised(
    drive: u8,
    sectors: u32,
    boot: Seq<u8>,
    stored: Stored,
)
    requires
        boot.len() == 512,
        stored.lie_in(boot),
    ensures
        layout(drive, sectors, boot) is Some <==> {
            let data = stored.reserved + boot[16] * stored.per_fat + stored.root_entries as int
                / 16;
            let count = (stored.total() - data) / (boot[13] as int);
            &&& boot[510] == 0x55 && boot[511] == 0xAA
            &&& boot[54] == 0x46 && boot[55] == 0x41 && boot[56] == 0x54 && boot[57] == 0x31
            &&& boot[11] == 0 && boot[12] == 2
            &&& boot[13] != 0 && 128u8 % boot[13] == 0
            &&& stored.reserved != 0
            &&& boot[16] == 1 || boot[16] == 2
            &&& stored.per_fat != 0
            &&& stored.root_entries != 0 && stored.root_entries % 16 == 0
            &&& data < stored.total()
            &&& 4085 <= count <= 65524
            &&& count + 2 <= 256 * stored.per_fat
        },
{
    lemma_stored(boot, stored);
    let label = boot.subrange(54, 58);
    assert(label[0] == boot[54] && label[1] == boot[55] && label[2] == boot[56] && label[3]
        == boot[57]);
    if boot[54] == 0x46 && boot[55] == 0x41 && boot[56] == 0x54 && boot[57] == 0x31 {
        assert(label =~= seq![0x46u8, 0x41u8, 0x54u8, 0x31u8]);
    }
    let b = bpb(boot);
    assert(b.root_entries * 32 % 512 == 0 <==> stored.root_entries % 16 == 0);
    assert(b.root_sectors() == stored.root_entries as int / 16);
}

} // verus!
