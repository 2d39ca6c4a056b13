//! The filesystem against a small FAT16 image built here.

use rust_os::ata::{AtaError, SECTOR_SIZE};
use rust_os::fat::lookup::Read;
use rust_os::fat::{self, FsError, MountRequest, Volume};

const DRIVE: u8 = 1;
const RESERVED: u32 = 1;
const SECTORS_PER_FAT: u32 = 32;
const ROOT_ENTRIES: u32 = 512;
const TOTAL: u32 = 8192;
const ROOT_START: u32 = RESERVED + 2 * SECTORS_PER_FAT;
const DATA_START: u32 = ROOT_START + ROOT_ENTRIES * 32 / 512;

struct Disk {
    bytes: Vec<u8>,
    next_cluster: u16,
    /// A sector that cannot be read.
    bad: Option<u32>,
    reads: u32,
}

impl Disk {
    /// An empty volume.
    fn blank() -> Disk {
        let mut bytes = vec![0u8; TOTAL as usize * 512];
        bytes[11..13].copy_from_slice(&512u16.to_le_bytes());
        bytes[13] = 1;
        bytes[14..16].copy_from_slice(&(RESERVED as u16).to_le_bytes());
        bytes[16] = 2;
        bytes[17..19].copy_from_slice(&(ROOT_ENTRIES as u16).to_le_bytes());
        bytes[19..21].copy_from_slice(&(TOTAL as u16).to_le_bytes());
        bytes[22..24].copy_from_slice(&(SECTORS_PER_FAT as u16).to_le_bytes());
        bytes[54..62].copy_from_slice(b"FAT16   ");
        bytes[510] = 0x55;
        bytes[511] = 0xAA;
        Disk { bytes, next_cluster: 2, bad: None, reads: 0 }
    }

    fn set_link(&mut self, cluster: u16, value: u16) {
        let at = RESERVED as usize * 512 + cluster as usize * 2;
        self.bytes[at..at + 2].copy_from_slice(&value.to_le_bytes());
    }

    fn cluster_at(cluster: u16) -> usize {
        (DATA_START as usize + cluster as usize - 2) * 512
    }

    /// Stores data in a chain of clusters that lie backwards on the disk, and
    /// gives the first.
    fn store(&mut self, data: &[u8]) -> u16 {
        let count = data.len().div_ceil(512).max(1) as u16;
        let base = self.next_cluster;
        self.next_cluster += count;
        for (i, chunk) in data.chunks(512).enumerate() {
            let cluster = base + count - 1 - i as u16;
            let at = Disk::cluster_at(cluster);
            self.bytes[at..at + chunk.len()].copy_from_slice(chunk);
            let link = if i as u16 + 1 == count { 0xFFFF } else { cluster - 1 };
            self.set_link(cluster, link);
        }
        if data.is_empty() {
            self.set_link(base, 0xFFFF);
        }
        base + count - 1
    }

    fn entry(name: &[u8; 11], attr: u8, cluster: u16, size: u32) -> [u8; 32] {
        let mut raw = [0u8; 32];
        raw[0..11].copy_from_slice(name);
        raw[11] = attr;
        raw[26..28].copy_from_slice(&cluster.to_le_bytes());
        raw[28..32].copy_from_slice(&size.to_le_bytes());
        raw
    }

    fn root(&mut self, entries: &[[u8; 32]]) {
        for (i, raw) in entries.iter().enumerate() {
            let at = ROOT_START as usize * 512 + i * 32;
            self.bytes[at..at + 32].copy_from_slice(raw);
        }
    }

    fn read(&mut self, read: Read) -> Result<[u8; SECTOR_SIZE], AtaError> {
        assert_eq!(read.drive, DRIVE);
        assert_eq!(read.sectors, TOTAL);
        assert!(read.lba >= RESERVED && read.lba < TOTAL);
        self.reads += 1;
        if self.bad == Some(read.lba) {
            return Err(AtaError::DeviceError);
        }
        let at = read.lba as usize * 512;
        let mut sector = [0u8; SECTOR_SIZE];
        sector.copy_from_slice(&self.bytes[at..at + 512]);
        Ok(sector)
    }

    fn boot(&self) -> [u8; SECTOR_SIZE] {
        let mut sector = [0u8; SECTOR_SIZE];
        sector.copy_from_slice(&self.bytes[0..512]);
        sector
    }

    /// Mounts with a boot disk on drive 0 and this volume on drive 1.
    fn mount(&self) -> Volume {
        let mut boot_disk = [0u8; SECTOR_SIZE];
        boot_disk[510] = 0x55;
        boot_disk[511] = 0xAA;
        let mut mount = fat::mount(None);
        let mut asked = Vec::new();
        while let Some(request) = mount.request() {
            asked.push(request);
            match request {
                MountRequest::Identify(_) => mount.identified(Ok(TOTAL)),
                MountRequest::ReadBoot { drive: 0, .. } => mount.probed(Ok(&boot_disk)),
                MountRequest::ReadBoot { .. } => mount.probed(Ok(&self.boot())),
            }
        }
        assert_eq!(
            asked,
            [
                MountRequest::Identify(0),
                MountRequest::ReadBoot { drive: 0, sectors: TOTAL },
                MountRequest::Identify(1),
                MountRequest::ReadBoot { drive: 1, sectors: TOTAL },
            ]
        );
        mount.result().unwrap().expect("no FAT16 volume found")
    }

    fn list(&mut self, path: &str) -> (Result<u32, FsError>, Vec<(String, bool, u32)>) {
        let volume = self.mount();
        let mut list = fat::list(Some(volume), path);
        let mut seen = Vec::new();
        while let Some(read) = list.request() {
            let reply = self.read(read);
            let batch = list.resume(reply.as_ref().map_err(|error| *error));
            for entry in batch.entries() {
                seen.push((entry.name().to_string(), entry.is_dir(), entry.size));
            }
        }
        (list.result().unwrap(), seen)
    }

    fn cat(&mut self, path: &str) -> (Result<u32, FsError>, Vec<u8>) {
        let volume = self.mount();
        let mut file = fat::read_file(Some(volume), path);
        let mut data = Vec::new();
        while let Some(read) = file.request() {
            let reply = self.read(read);
            let taken = file.resume(reply.as_ref().map_err(|error| *error));
            if let Ok(sector) = reply {
                data.extend_from_slice(&sector[..taken]);
            }
        }
        (file.result().unwrap(), data)
    }
}

fn poem() -> String {
    (1..=40).map(|i| format!("{:03}: the quick brown fox jumps over the lazy dog\n", i)).collect()
}

const HELLO: &[u8] = b"Hello from the FAT16 filesystem!\n";

/// The volume that the tests look at.
fn sample() -> Disk {
    let mut disk = Disk::blank();
    let hello = disk.store(HELLO);
    let readme = disk.store(&[b'r'; 295]);
    let poem = disk.store(poem().as_bytes());
    let notes_text = b"Notes\n-----\nremember the milk\n";
    let notes = disk.store(notes_text);
    let mut docs = Vec::new();
    docs.extend_from_slice(&Disk::entry(b".          ", 0x10, 0, 0));
    docs.extend_from_slice(&Disk::entry(b"..         ", 0x10, 0, 0));
    docs.extend_from_slice(&Disk::entry(b"NOTES   TXT", 0x20, notes, notes_text.len() as u32));
    docs.resize(512, 0);
    let docs = disk.store(&docs);
    // A directory of two clusters, the first one full.
    let mut bin = Vec::new();
    bin.extend_from_slice(&Disk::entry(b".          ", 0x10, 0, 0));
    bin.extend_from_slice(&Disk::entry(b"..         ", 0x10, 0, 0));
    for i in 0..16u8 {
        let mut name = *b"PROG    ELF";
        name[4] = b'A' + i;
        bin.extend_from_slice(&Disk::entry(&name, 0x20, hello, 33));
    }
    bin.resize(1024, 0);
    let bin = disk.store(&bin);
    disk.root(&[
        Disk::entry(b"RUSTOS     ", 0x08, 0, 0),           // volume label
        Disk::entry(b"HELLO   TXT", 0x20, hello, 33),
        Disk::entry(b"\xE5ELETED TXT", 0x20, hello, 33),   // deleted
        Disk::entry(b"README  TXT", 0x20, readme, 295),
        Disk::entry(b"Alongnamefr", 0x0F, 0, 0),           // long-name fragment
        Disk::entry(b"POEM    TXT", 0x20, poem, 1960),
        Disk::entry(b"DOCS       ", 0x10, docs, 0),
        Disk::entry(b"BIN        ", 0x10, bin, 0),
    ]);
    disk
}

#[test]
fn mounts_the_fat16_volume() {
    let volume = sample().mount();
    let info = fat::info(Some(volume)).expect("info after mount");
    assert_eq!(info.drive, 1);
    assert_eq!(info.bytes_per_cluster, 512);
    // Below 4085 clusters it would be FAT12, above 65524 FAT32.
    assert!(info.cluster_count >= 4085 && info.cluster_count <= 65524);
    assert_eq!(info.cluster_count, TOTAL - DATA_START);
    assert_eq!(fat::info(None), Err(FsError::NoFilesystem));
}

#[test]
fn mounting_again_asks_nothing() {
    let volume = sample().mount();
    let mount = fat::mount(Some(volume));
    assert_eq!(mount.request(), None);
    assert_eq!(mount.result(), Some(Ok(volume)));
}

#[test]
fn without_a_volume_there_is_no_filesystem() {
    let mut mount = fat::mount(None);
    mount.identified(Err(AtaError::NoDevice));
    assert_eq!(mount.request(), Some(MountRequest::Identify(1)));
    mount.identified(Ok(100));
    mount.probed(Err(AtaError::Timeout));
    assert_eq!(mount.request(), None);
    assert_eq!(mount.result(), Some(Err(FsError::NoFilesystem)));
    assert_eq!(fat::list(None, "/").result(), Some(Err(FsError::NoFilesystem)));
    assert_eq!(fat::read_file(None, "/x").result(), Some(Err(FsError::NoFilesystem)));
}

#[test]
fn lists_the_root_directory() {
    let (count, seen) = sample().list("/");
    let mut seen_hello = false;
    let mut seen_docs_dir = false;
    for (name, is_dir, size) in &seen {
        if name == "HELLO.TXT" {
            seen_hello = true;
            assert!(!is_dir);
            assert_eq!(*size, 33);
        }
        if name == "DOCS" {
            seen_docs_dir = true;
            assert!(is_dir);
        }
    }
    assert!(seen_hello, "HELLO.TXT missing from the root directory");
    assert!(seen_docs_dir, "DOCS/ missing from the root directory");
    // HELLO.TXT, README.TXT, POEM.TXT, DOCS, BIN -- the volume label is not
    // a directory entry.
    assert_eq!(count, Ok(5));
    let names: Vec<&str> = seen.iter().map(|entry| entry.0.as_str()).collect();
    assert_eq!(names, ["HELLO.TXT", "README.TXT", "POEM.TXT", "DOCS", "BIN"]);
}

#[test]
fn reads_a_single_cluster_file() {
    let (size, data) = sample().cat("/HELLO.TXT");
    assert_eq!(size, Ok(33));
    assert_eq!(data.len(), 33);
    assert_eq!(data, b"Hello from the FAT16 filesystem!\n");
}

#[test]
fn reads_a_file_spanning_a_cluster_chain() {
    // POEM.TXT is 1960 bytes over four 512-byte clusters, so reading it
    // correctly requires following FAT links rather than reading one cluster.
    let (size, data) = sample().cat("/POEM.TXT");
    assert_eq!(size, Ok(1960));
    assert_eq!(data.len(), 1960);
    let text = String::from_utf8(data).unwrap();
    assert!(text.starts_with("001: the quick brown fox"));
    assert!(text.ends_with("040: the quick brown fox jumps over the lazy dog\n"));
    assert!(text.contains("021: the quick"));
    assert_eq!(text, poem());
}

#[test]
fn reads_through_a_subdirectory() {
    let mut disk = sample();
    let (count, seen) = disk.list("/DOCS");
    assert_eq!(count, Ok(1)); // `.` and `..` are hidden
    assert_eq!(seen[0].0, "NOTES.TXT");
    let (_, data) = disk.cat("docs/notes.txt");
    assert!(data.starts_with(b"Notes\n-----"));
    // `..` in a top-level directory names the root.
    assert_eq!(disk.cat("docs\\..//./hello.TXT").1, HELLO);
    assert_eq!(disk.list("docs/..").0, Ok(5));
}

#[test]
fn lists_a_directory_of_several_clusters() {
    let (count, seen) = sample().list("bin");
    assert_eq!(count, Ok(16));
    assert_eq!(seen[0].0, "PROGA.ELF");
    assert_eq!(seen[15].0, "PROGP.ELF");
    assert_eq!(sample().cat("bin/progp.elf").0, Ok(33));
}

#[test]
fn reports_missing_and_mistyped_paths() {
    let mut disk = sample();
    assert_eq!(disk.cat("/NOPE.TXT").0, Err(FsError::NotFound));
    assert_eq!(disk.list("/NOPE").0, Err(FsError::NotFound));
    // A file is not a directory, and a directory is not a file.
    assert_eq!(disk.list("/HELLO.TXT").0, Err(FsError::NotADirectory));
    assert_eq!(disk.cat("/DOCS").0, Err(FsError::IsADirectory));
    assert_eq!(disk.cat("/").0, Err(FsError::IsADirectory));
    assert_eq!(disk.cat("/HELLO.TXT/X").0, Err(FsError::NotADirectory));
    assert_eq!(disk.cat("bin/nope.elf").0, Err(FsError::NotFound));
}

#[test]
fn the_case_of_a_path_does_not_matter() {
    let mut disk = sample();
    for (one, other) in [
        ("/HELLO.TXT", "/hello.TxT"),
        ("bin/progp.elf", "/BIN/ProgP.Elf"),
        ("/NOPE.TXT", "/nope.txt"),
        ("/DOCS", "/docs"),
        ("/HELLO.TXT/X", "/hello.txt/x"),
    ] {
        assert_eq!(disk.cat(one), disk.cat(other));
        assert_eq!(disk.list(one), disk.list(other));
    }
    assert!(disk.cat("/hello.txt").0.is_ok());
    assert!(disk.list("/docs").0.is_ok());
}

#[test]
fn a_failing_disk_is_reported() {
    let mut disk = sample();
    disk.bad = Some(ROOT_START);
    assert_eq!(disk.list("/").0, Err(FsError::Io(AtaError::DeviceError)));
    // The FAT itself cannot be read: one sector arrives, then the error.
    disk.bad = Some(RESERVED);
    let (result, data) = disk.cat("poem.txt");
    assert_eq!(result, Err(FsError::Io(AtaError::DeviceError)));
    assert_eq!(data, &poem().as_bytes()[..512]);
}

#[test]
fn corrupt_chains_are_reported() {
    // The chain ends before the recorded size was delivered.
    let mut disk = Disk::blank();
    let cluster = disk.store(&[7u8; 600]);
    disk.root(&[Disk::entry(b"SHORT      ", 0x20, cluster, 5000)]);
    let (result, data) = disk.cat("short");
    assert_eq!(result, Err(FsError::CorruptChain));
    assert_eq!(data.len(), 1024);
    // A first cluster that does not exist.
    disk.root(&[Disk::entry(b"BADSTART   ", 0x20, 1, 5)]);
    assert_eq!(disk.cat("badstart").0, Err(FsError::CorruptChain));
    // A link to a cluster that does not exist.
    disk.set_link(cluster, 0xFFF0);
    disk.root(&[Disk::entry(b"BADLINK    ", 0x20, cluster, 600)]);
    assert_eq!(disk.cat("badlink").0, Err(FsError::CorruptChain));
    // An empty file takes no read of its own.
    disk.root(&[Disk::entry(b"EMPTY      ", 0x20, 0, 0)]);
    disk.reads = 0;
    assert_eq!(disk.cat("empty"), (Ok(0), Vec::new()));
    assert_eq!(disk.reads, 1);
}

#[test]
fn a_cyclic_fat_does_not_spin_forever() {
    let mut disk = Disk::blank();
    let cluster = disk.store(&[1u8; 512]);
    disk.set_link(cluster, cluster);
    disk.root(&[
        Disk::entry(b"LOOP       ", 0x20, cluster, u32::MAX),
        Disk::entry(b"LOOPDIR    ", 0x10, cluster, 0),
    ]);
    let clusters = TOTAL - DATA_START;
    disk.reads = 0;
    let (result, data) = disk.cat("loop");
    assert_eq!(result, Err(FsError::CorruptChain));
    assert_eq!(data.len(), clusters as usize * 512);
    assert_eq!(disk.reads, 1 + 2 * clusters);
    disk.reads = 0;
    assert_eq!(disk.list("loopdir").0, Err(FsError::CorruptChain));
    assert_eq!(disk.reads, 1 + 2 * clusters);
}

#[test]
fn the_boot_sector_is_validated() {
    let good = Disk::blank().boot();
    assert!(fat::probe(1, TOTAL, &good).is_ok());
    let spoil: [(usize, u8); 10] = [
        (510, 0),    // no signature
        (57, b'9'),  // not labelled FAT1x
        (12, 4),     // sector size
        (13, 3),     // sectors per cluster is no power of two
        (14, 0),     // no reserved sectors
        (16, 3),     // too many FATs
        (17, 1),     // root directory of no whole number of sectors
        (22, 31),    // FAT too short
        (20, 0x10),  // too few clusters
        (20, 0),     // no room at all
    ];
    for (at, value) in spoil {
        let mut boot = good;
        boot[at] = value;
        assert_eq!(fat::probe(1, TOTAL, &boot), Err(FsError::NoFilesystem), "byte {}", at);
    }
    // The 32-bit sector count is used where the 16-bit one is zero.
    let mut boot = good;
    boot[19..21].copy_from_slice(&0u16.to_le_bytes());
    boot[32..36].copy_from_slice(&TOTAL.to_le_bytes());
    assert_eq!(fat::probe(1, TOTAL, &boot), fat::probe(1, TOTAL, &good));
}

#[test]
fn names_that_are_not_text_show_as_a_question_mark() {
    let mut disk = Disk::blank();
    let cluster = disk.store(b"odd");
    disk.root(&[Disk::entry(b"\xFFODD       ", 0x20, cluster, 3)]);
    assert_eq!(disk.list("").1[0].0, "?");
    assert_eq!(disk.cat("?").1, b"odd");
}

#[test]
fn a_volume_that_sticks_out_of_its_disk_is_not_read_there() {
    let mut disk = Disk::blank();
    let cluster = disk.store(&[7u8; 512]);
    disk.root(&[Disk::entry(b"A          ", 0x20, cluster, 512)]);
    // The disk ends before the data region.
    let volume = fat::probe(DRIVE, DATA_START, &disk.boot()).unwrap();
    let mut file = fat::read_file(Some(volume), "a");
    while let Some(read) = file.request() {
        let command = rust_os::ata::read_sector(read.drive, read.lba, read.sectors);
        match command.result() {
            Some(Err(error)) => {
                assert!(read.lba >= DATA_START);
                file.resume(Err(error));
            }
            _ => {
                let sector = disk.read(Read { sectors: TOTAL, ..read }).unwrap();
                file.resume(Ok(&sector));
            }
        }
    }
    assert_eq!(file.result(), Some(Err(FsError::Io(AtaError::OutOfRange))));
}

#[test]
fn a_chain_over_the_whole_volume_is_walked_to_its_end() {
    let mut disk = Disk::blank();
    let clusters = (TOTAL - DATA_START) as u16;
    for cluster in 2..clusters + 1 {
        disk.set_link(cluster, cluster + 1);
    }
    disk.set_link(clusters + 1, 0xFFFF);
    disk.root(&[Disk::entry(b"ALL        ", 0x20, 2, u32::from(clusters) * 512)]);
    let (result, data) = disk.cat("all");
    assert_eq!(result, Ok(u32::from(clusters) * 512));
    assert_eq!(data.len(), usize::from(clusters) * 512);
}
