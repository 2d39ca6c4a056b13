//! Finding the volume to mount.

use vstd::prelude::*;

use crate::ata::{AtaError, SECTOR_SIZE};
use crate::fat::{probe, FsError, Info, Volume};

verus! {

/// Drives that are looked at, from number 0 on.
pub const DRIVES: u8 = 2;

/// What a search for a volume asks of the disk driver.
#[derive(Debug, Clone, Copy, PartialEq, Eq, Structural)]
pub enum MountRequest {
    /// Identify this drive.
    Identify(u8),
    /// Read the first sector of this drive, which has so many.
    ReadBoot { drive: u8, sectors: u32 },
}

/// What the drives answer: to being identified, and to a read of their first
/// sector.
pub ghost struct Drives {
    pub identity: spec_fn(u8) -> Result<u32, AtaError>,
    pub boot: spec_fn(u8) -> Result<Seq<u8>, AtaError>,
}

impl Drives {
    /// The volume on `drive`: there is one where the drive answers and its
    /// first sector describes a FAT16 volume.
    pub open spec fn volume_on(self, drive: u8) -> Option<Volume> {
        match ((self.identity)(drive), (self.boot)(drive)) {
            (Ok(sectors), Ok(boot)) => crate::fat::layout(drive, sectors, boot),
            _ => None,
        }
    }
}

/// What a search for a volume asks, and the volume that it finds.
#[verifier::ext_equal]
pub ghost struct Mounting {
    pub requests: Seq<MountRequest>,
    pub volume: Option<Volume>,
}

impl Mounting {
    /// The same, one request later.
    pub open spec fn after(self, request: MountRequest) -> Mounting {
        Mounting { requests: seq![request] + self.requests, volume: self.volume }
    }
}

/// The search from `drive` on.
pub open spec fn mounting_from(drives: Drives, drive: u8) -> Mounting
    decreases DRIVES - drive, 1nat,
{
    if drive >= DRIVES {
        Mounting { requests: Seq::empty(), volume: None }
    } else {
        let rest = match (drives.identity)(drive) {
            Err(_) => mounting_from(drives, (drive + 1) as u8),
            Ok(sectors) => probing(drives, drive, sectors),
        };
        rest.after(MountRequest::Identify(drive))
    }
}

/// The search once `drive` has identified itself, with so many sectors.
pub open spec fn probing(drives: Drives, drive: u8, sectors: u32) -> Mounting
    decreases DRIVES - drive, 0nat,
{
    if drive >= DRIVES {
        Mounting { requests: Seq::empty(), volume: None }
    } else {
        let found = match (drives.boot)(drive) {
            Ok(boot) => crate::fat::layout(drive, sectors, boot),
            Err(_) => None,
        };
        let rest = match found {
            Some(volume) => Mounting { requests: Seq::empty(), volume: Some(volume) },
            None => mounting_from(drives, (drive + 1) as u8),
        };
        rest.after(MountRequest::ReadBoot { drive, sectors })
    }
}

/// All that mounting does. Where a volume is mounted already, it asks nothing.
pub open spec fn mounting(mounted: Option<Volume>, drives: Drives) -> Mounting {
    match mounted {
        Some(volume) => Mounting { requests: Seq::empty(), volume: Some(volume) },
        None => mounting_from(drives, 0),
    }
}

/// The volume that is mounted is the one on the first drive that holds one.
pub proof fn law_first_volume_is_mounted(drives: Drives)
    ensures
        mounting(None, drives).volume == (match drives.volume_on(0) {
            Some(volume) => Some(volume),
            None => drives.volume_on(1),
        }),
{
    reveal_with_fuel(mounting_from, 4);
    reveal_with_fuel(probing, 3);
}

/// Once a volume is mounted, mounting again asks nothing and changes nothing.
pub proof fn law_mounting_is_idempotent(drives: Drives, again: Drives)
    ensures
        mounting(None, drives).volume matches Some(volume) ==> mounting(Some(volume), again) == (
        Mounting { requests: Seq::empty(), volume: Some(volume) }),
{
}

/// How far the search for a volume has come.
#[derive(Debug, Clone, Copy, PartialEq, Eq)]
pub enum MountStage {
    /// Waiting for the drive to identify itself.
    Identifying(u8),
    /// Waiting for its first sector.
    Probing { drive: u8, sectors: u32 },
    /// Done, with the volume that was found.
    Done(Option<Volume>),
}

/// The search for a volume to mount, under way.
#[derive(Debug, Clone, Copy, PartialEq, Eq)]
pub struct Mount {
    pub stage: MountStage,
}

impl Mount {
    /// A drive that is looked at exists, a volume that was found is sound.
    pub open spec fn wf(&self) -> bool {
        match self.stage {
            MountStage::Identifying(drive) => drive < DRIVES,
            MountStage::Probing { drive, .. } => drive < DRIVES,
            MountStage::Done(Some(volume)) => volume.wf(),
            MountStage::Done(None) => true,
        }
    }

    /// What to ask of the disk driver next; nothing once the search is done.
    pub open spec fn pending(&self) -> Option<MountRequest> {
        match self.stage {
            MountStage::Identifying(drive) => Some(MountRequest::Identify(drive)),
            MountStage::Probing { drive, sectors } => Some(
                MountRequest::ReadBoot { drive, sectors },
            ),
            MountStage::Done(_) => None,
        }
    }

    /// What is still to come.
    pub open spec fn rest(&self, drives: Drives) -> Mounting {
        match self.stage {
            MountStage::Identifying(drive) => mounting_from(drives, drive),
            MountStage::Probing { drive, sectors } => probing(drives, drive, sectors),
            MountStage::Done(volume) => Mounting { requests: Seq::empty(), volume },
        }
    }
}

/// The stage that looks at `drive`, if there is such a drive.
fn look_at(drive: u8) -> (stage: MountStage)
    requires
        drive <= DRIVES,
    ensures
        ({
            let mount = Mount { stage };
            &&& mount.wf()
            &&& forall|drives: Drives| #[trigger]
                mount.rest(drives) == mounting_from(drives, drive)
        }),
{
    if drive < DRIVES {
        MountStage::Identifying(drive)
    } else {
        MountStage::Done(None)
    }
}

/// Begins to mount the first attached drive holding a FAT16 volume. Idempotent,
/// so callers can simply mount before each operation.
pub fn mount(mounted: Option<Volume>) -> (mount: Mount)
    requires
        mounted matches Some(volume) ==> volume.wf(),
    ensures
        mount.wf(),
        forall|drives: Drives| #[trigger] mount.rest(drives) == mounting(mounted, drives),
{
    match mounted {
        Some(volume) => Mount { stage: MountStage::Done(Some(volume)) },
        // Drive 0 is normally the boot disk (the kernel image, not a
        // filesystem); `probe` rejects it and the search falls through to the
        // data disk on drive 1.
        None => Mount { stage: look_at(0) },
    }
}

impl Mount {
    /// What to ask of the disk driver next; nothing once the search is done.
    pub fn request(&self) -> (request: Option<MountRequest>)
        ensures
            request == (match self.stage {
                MountStage::Identifying(drive) => Some(MountRequest::Identify(drive)),
                MountStage::Probing { drive, sectors } => Some(
                    MountRequest::ReadBoot { drive, sectors },
                ),
                MountStage::Done(_) => None,
            }),
            request == self.pending(),
    {
        match self.stage {
            MountStage::Identifying(drive) => Some(MountRequest::Identify(drive)),
            MountStage::Probing { drive, sectors } => Some(MountRequest::ReadBoot { drive, sectors }),
            MountStage::Done(_) => None,
        }
    }

    /// Goes on with what the drive answered to being identified.
    pub fn identified(&mut self, reply: Result<u32, AtaError>)
        requires
            old(self).wf(),
            old(self).stage is Identifying,
        ensures
            final(self).wf(),
            forall|drives: Drives|
                (drives.identity)(old(self).stage->Identifying_0) == reply ==> #[trigger] old(
                    self,
                ).rest(drives) == final(self).rest(drives).after(
                    MountRequest::Identify(old(self).stage->Identifying_0),
                ),
    {
        if let MountStage::Identifying(drive) = self.stage {
            self.stage = match reply {
                Err(_) => look_at(drive + 1),
                Ok(sectors) => MountStage::Probing { drive, sectors },
            };
        }
    }

    /// Goes on with the first sector of the drive.
    pub fn probed(&mut self, reply: Result<&[u8; SECTOR_SIZE], AtaError>)
        requires
            old(self).wf(),
            old(self).stage is Probing,
        ensures
            final(self).wf(),
            forall|drives: Drives|
                (drives.boot)(old(self).stage->drive) == crate::fat::lookup::reply_view(reply)
                    ==> #[trigger] old(self).rest(drives) == final(self).rest(drives).after(
                    MountRequest::ReadBoot {
                        drive: old(self).stage->drive,
                        sectors: old(self).stage->sectors,
                    },
                ),
    {
        if let MountStage::Probing { drive, sectors } = self.stage {
            let found = match reply {
                Ok(boot) => probe(drive, sectors, boot),
                Err(error) => Err(FsError::Io(error)),
            };
            self.stage = match found {
                Ok(volume) => MountStage::Done(Some(volume)),
                Err(_) => look_at(drive + 1),
            };
        }
    }

    /// The volume that was found, or why there is none; nothing while the
    /// search is under way.
    pub fn result(&self) -> (result: Option<Result<Volume, FsError>>)
        ensures
            result == (match self.stage {
                MountStage::Done(Some(volume)) => Some(Ok::<Volume, FsError>(volume)),
                MountStage::Done(None) => Some(Err::<Volume, FsError>(FsError::NoFilesystem)),
                _ => None,
            }),
    {
        match self.stage {
            MountStage::Done(Some(volume)) => Some(Ok(volume)),
            MountStage::Done(None) => Some(Err(FsError::NoFilesystem)),
            _ => None,
        }
    }
}

/// A summary of a volume.
pub open spec fn summary(volume: Volume) -> Info {
    Info {
        drive: volume.drive,
        cluster_count: volume.cluster_count,
        bytes_per_cluster: (volume.sectors_per_cluster * 512) as u32,
    }
}

/// The summary tells the volume's own drive, how many clusters fill its data
/// region, and how many bytes lie between the starts of two clusters.
pub proof fn law_the_summary_fits_the_volume(volume: Volume, cluster: int)
    requires
        volume.wf(),
        2 <= cluster < volume.cluster_count + 1,
    ensures
        ({
            let info = summary(volume);
            let here = crate::fat::chain::data_sector(cluster, 0).lba(volume);
            let next = crate::fat::chain::data_sector(cluster + 1, 0).lba(volume);
            let last = crate::fat::chain::data_sector(info.cluster_count + 1, 0).lba(volume);
            &&& info.drive == volume.drive
            &&& info.bytes_per_cluster == 512 * (next - here)
            &&& last + (next - here) == volume.data_start + volume.cluster_count
                * volume.sectors_per_cluster
        }),
{
    crate::fat::chain::law_clusters_tile_the_data_region(volume, cluster as u16, 0);
    crate::fat::chain::law_clusters_tile_the_data_region(
        volume,
        (volume.cluster_count + 1) as u16,
        0,
    );
}

/// A search for a volume asks the drives in turn: each to identify itself, and
/// those that do for their first sector; it asks no more once it has found one, and
/// no drive but the first two.
pub proof fn law_drives_are_asked_in_turn(drives: Drives)
    ensures
        ({
            let asked = mounting(None, drives).requests;
            let first = match (drives.identity)(0) {
                Ok(sectors) => seq![
                    MountRequest::Identify(0),
                    MountRequest::ReadBoot { drive: 0, sectors },
                ],
                Err(_) => seq![MountRequest::Identify(0)],
            };
            let second = match (drives.identity)(1) {
                Ok(sectors) => seq![
                    MountRequest::Identify(1),
                    MountRequest::ReadBoot { drive: 1, sectors },
                ],
                Err(_) => seq![MountRequest::Identify(1)],
            };
            asked == (if drives.volume_on(0) is Some {
                first
            } else {
                first + second
            })
        }),
{
    reveal_with_fuel(mounting_from, 4);
    reveal_with_fuel(probing, 3);
    let asked = mounting(None, drives).requests;
    let second = match (drives.identity)(1) {
        Ok(sectors) => seq![
            MountRequest::Identify(1),
            MountRequest::ReadBoot { drive: 1, sectors },
        ],
        Err(_) => seq![MountRequest::Identify(1)],
    };
    assert(mounting_from(drives, 2).requests =~= Seq::<MountRequest>::empty());
    assert(mounting_from(drives, 1).requests =~= second);
    match (drives.identity)(0) {
        Ok(sectors) => {
            let first = seq![
                MountRequest::Identify(0),
                MountRequest::ReadBoot { drive: 0, sectors },
            ];
            if drives.volume_on(0) is Some {
                assert(asked =~= first);
            } else {
                assert(asked =~= first + second);
            }
        },
        Err(_) => {
            assert(asked =~= seq![MountRequest::Identify(0)] + second);
        },
    }
}

/// A summary of the mounted volume.
pub fn info(mounted: Option<Volume>) -> (result: Result<Info, FsError>)
    requires
        mounted matches Some(volume) ==> volume.wf(),
    ensures
        match mounted {
            None => result == Err::<Info, FsError>(FsError::NoFilesystem),
            Some(volume) => result matches Ok(info) && info.drive == volume.drive
                && info.cluster_count == volume.cluster_count && info.bytes_per_cluster
                == volume.sectors_per_cluster * 512 && info == summary(volume),
        },
{
    match mounted {
        None => Err(FsError::NoFilesystem),
        Some(volume) => Ok(
            Info {
                drive: volume.drive,
                cluster_count: volume.cluster_count,
                bytes_per_cluster: volume.sectors_per_cluster * SECTOR_SIZE as u32,
            },
        ),
    }
}

/// What a search asks next is the first of what it has still to ask; once it asks
/// nothing more, it is over.
pub proof fn law_searches_ask_what_comes_next(mount: Mount, drives: Drives)
    requires
        mount.wf(),
    ensures
        match mount.pending() {
            Some(request) => mount.rest(drives).requests.len() > 0 && mount.rest(drives).requests[0]
                == request,
            None => mount.rest(drives).requests.len() == 0,
        },
{
    reveal_with_fuel(mounting_from, 2);
    reveal_with_fuel(probing, 2);
}

} // verus!
