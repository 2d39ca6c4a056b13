//! Running programs from an in-memory volume, in a pretended machine.

use std::collections::HashMap;

use rust_os::ata::{AtaError, SECTOR_SIZE};
use rust_os::elf::{ElfError, Image, Segment, MAX_SEGMENTS};
use rust_os::fat::{probe, FsError, Volume};
use rust_os::process::exec::Request;
use rust_os::process::{
    exec, page_range, snapshot, validate, Entry, ProcError, ProcessTable, State, MAX_PROCESSES,
    USER_REGION_END, USER_REGION_START, USER_STACK_BOTTOM, USER_STACK_TOP,
};
use rust_os::usermode::{UserMode, FAULT_EXIT_CODE};

const SECTORS_PER_FAT: u32 = 32;
const ROOT_START: u32 = 1 + SECTORS_PER_FAT;
const DATA_START: u32 = ROOT_START + 1;
const TOTAL: u32 = 6000;

/// A volume with the given files in its root directory.
fn volume_with(files: &[(&[u8; 11], Vec<u8>)]) -> Vec<u8> {
    let mut bytes = vec![0u8; TOTAL as usize * 512];
    bytes[11..13].copy_from_slice(&512u16.to_le_bytes());
    bytes[13] = 1;
    bytes[14] = 1;
    bytes[16] = 1;
    bytes[17..19].copy_from_slice(&16u16.to_le_bytes());
    bytes[19..21].copy_from_slice(&(TOTAL as u16).to_le_bytes());
    bytes[22..24].copy_from_slice(&(SECTORS_PER_FAT as u16).to_le_bytes());
    bytes[54..58].copy_from_slice(b"FAT1");
    bytes[510] = 0x55;
    bytes[511] = 0xAA;
    let mut cluster = 2usize;
    for (i, (name, data)) in files.iter().enumerate() {
        let at = ROOT_START as usize * 512 + i * 32;
        bytes[at..at + 11].copy_from_slice(*name);
        bytes[at + 26..at + 28].copy_from_slice(&(cluster as u16).to_le_bytes());
        bytes[at + 28..at + 32].copy_from_slice(&(data.len() as u32).to_le_bytes());
        let count = data.len().div_ceil(512);
        for (k, chunk) in data.chunks(512).enumerate() {
            let here = (DATA_START as usize + cluster - 2 + k) * 512;
            bytes[here..here + chunk.len()].copy_from_slice(chunk);
            let link = if k + 1 == count { 0xFFFF } else { (cluster + k + 1) as u16 };
            let fat = 512 + (cluster + k) * 2;
            bytes[fat..fat + 2].copy_from_slice(&link.to_le_bytes());
        }
        cluster += count;
    }
    bytes
}

#[derive(Clone, Copy)]
struct Load {
    vaddr: u64,
    offset: u64,
    file_size: u64,
    mem_size: u64,
    flags: u32,
}

/// An executable with these segments; byte `i` of the file behind the headers
/// is `i % 251`.
fn program(entry: u64, loads: &[Load], len: usize) -> Vec<u8> {
    let mut buf: Vec<u8> = (0..len).map(|i| (i % 251) as u8).collect();
    for byte in buf[..0x400].iter_mut() {
        *byte = 0;
    }
    buf[0..4].copy_from_slice(&[0x7F, b'E', b'L', b'F']);
    buf[4] = 2;
    buf[5] = 1;
    buf[6] = 1;
    buf[16] = 2;
    buf[18] = 0x3E;
    buf[24..32].copy_from_slice(&entry.to_le_bytes());
    buf[32] = 64;
    buf[54] = 56;
    buf[56] = loads.len() as u8;
    for (i, load) in loads.iter().enumerate() {
        let at = 64 + 56 * i;
        buf[at] = 1;
        buf[at + 4..at + 8].copy_from_slice(&load.flags.to_le_bytes());
        buf[at + 8..at + 16].copy_from_slice(&load.offset.to_le_bytes());
        buf[at + 16..at + 24].copy_from_slice(&load.vaddr.to_le_bytes());
        buf[at + 32..at + 40].copy_from_slice(&load.file_size.to_le_bytes());
        buf[at + 40..at + 48].copy_from_slice(&load.mem_size.to_le_bytes());
    }
    buf
}

/// A machine that performs what running a program asks for.
struct Machine {
    disk: Vec<u8>,
    volume: Volume,
    user: UserMode,
    table: ProcessTable,
    /// Pages of the address space, with whether they are writable.
    pages: HashMap<u64, (bool, Vec<u8>)>,
    spaces: i32,
    log: Vec<&'static str>,
    /// Frames at hand.
    free: Vec<u64>,
    /// Frames that the address space owns.
    owned: Vec<u64>,
    active: bool,
    no_space: bool,
    /// The page that cannot be mapped.
    unmappable: Option<u64>,
    /// The read that fails, counted over both passes.
    bad_read: Option<usize>,
    reads: usize,
    /// A page whose mapping gets lost before it is copied to.
    lost: Option<u64>,
    code: u64,
    entered: Option<(u64, u64, u64)>,
    memory_at_entry: HashMap<u64, (bool, Vec<u8>)>,
}

impl Machine {
    fn new(files: &[(&[u8; 11], Vec<u8>)]) -> Machine {
        let disk = volume_with(files);
        let mut boot = [0u8; SECTOR_SIZE];
        boot.copy_from_slice(&disk[..512]);
        Machine {
            disk,
            volume: probe(1, TOTAL, &boot).expect("the volume is sound"),
            user: UserMode::new(),
            table: ProcessTable::new(),
            pages: HashMap::new(),
            spaces: 0,
            log: Vec::new(),
            free: (1..=1000).map(|n| n * 4096).collect(),
            owned: Vec::new(),
            active: false,
            no_space: false,
            unmappable: None,
            bad_read: None,
            reads: 0,
            lost: None,
            code: 3,
            entered: None,
            memory_at_entry: HashMap::new(),
        }
    }

    fn exec(&mut self, path: &str) -> Result<u64, ProcError> {
        let mut at_hand = self.free.clone();
        at_hand.sort();
        let mut run = exec(self.user.user_active(), Some(self.volume), path);
        let mut last = [0u8; SECTOR_SIZE];
        while let Some(request) = run.request() {
            match request {
                Request::Read(read) => {
                    self.reads += 1;
                    if self.bad_read == Some(self.reads) {
                        run.sector(Err(AtaError::DeviceError));
                    } else {
                        let at = read.lba as usize * 512;
                        last.copy_from_slice(&self.disk[at..at + 512]);
                        run.sector(Ok(&last));
                    }
                }
                Request::Create => {
                    self.log.push("create");
                    if !self.no_space {
                        self.spaces += 1;
                        self.owned.push(self.free.pop().unwrap());
                    }
                    run.answered(!self.no_space);
                }
                Request::Probe { addr } => {
                    let known = self.pages.contains_key(&addr);
                    run.answered(known);
                }
                Request::Allocate => run.allocated(self.free.pop()),
                Request::MapPage { page, frame } => {
                    assert_eq!(page.addr % 4096, 0);
                    assert!(page.addr >= USER_REGION_START && page.addr < USER_REGION_END);
                    if self.unmappable == Some(page.addr) {
                        run.answered(false);
                    } else {
                        self.owned.push(frame);
                        self.pages.insert(page.addr, (page.writable, vec![0; 4096]));
                        run.answered(true);
                    }
                }
                Request::GiveBack { frame } => {
                    self.log.push("give back");
                    self.free.push(frame);
                    run.done();
                }
                Request::Activate => {
                    assert!(!self.active);
                    self.active = true;
                    run.done();
                }
                Request::Restore => {
                    assert!(self.active);
                    self.active = false;
                    run.done();
                }
                Request::Copy { vaddr, from, len } => {
                    let page = vaddr / 4096 * 4096;
                    assert!(vaddr + len as u64 <= page + 4096);
                    if self.lost == Some(page) {
                        run.answered(false);
                    } else {
                        let (_, bytes) = self.pages.get_mut(&page).expect("the page is mapped");
                        let at = (vaddr - page) as usize;
                        bytes[at..at + len].copy_from_slice(&last[from..from + len]);
                        run.answered(true);
                    }
                }
                Request::Start => {
                    self.log.push("start");
                    let pid = self.table.start(path);
                    run.started(pid);
                }
                Request::Enter { entry, stack_top, pid, range_start, range_end } => {
                    self.log.push("enter");
                    assert!(self.active);
                    self.user.enter(pid, range_start, range_end);
                    self.entered = Some((entry, stack_top, pid));
                    self.memory_at_entry = self.pages.clone();
                    self.user.leave();
                    run.exited(self.code);
                }
                Request::Destroy => {
                    self.log.push("destroy");
                    self.spaces -= 1;
                    assert!(!self.active);
                    self.free.append(&mut self.owned);
                    self.pages.clear();
                    run.done();
                }
                Request::Finish { pid, code } => {
                    self.log.push("finish");
                    self.table.finish(pid, code);
                    run.done();
                }
            }
        }
        assert_eq!(self.spaces, 0, "every address space is torn down");
        assert!(!self.active);
        self.free.sort();
        assert_eq!(self.free, at_hand, "every frame is free again");
        run.result().unwrap()
    }
}

const CODE: u64 = USER_REGION_START + 0x1000;

fn two_segments() -> [Load; 2] {
    [
        Load { vaddr: CODE, offset: 0x400, file_size: 0x900, mem_size: 0x900, flags: 5 },
        // Data across a page boundary, and .bss behind it; it shares a page
        // with the code.
        Load {
            vaddr: CODE + 0x980,
            offset: 0xD10,
            file_size: 0x900,
            mem_size: 0x1800,
            flags: 6,
        },
    ]
}

fn machine() -> Machine {
    let good = program(CODE + 0x10, &two_segments(), 0x1700);
    let evil = program(
        0xFFFF_8000_0000_1000,
        &[Load {
            vaddr: 0xFFFF_8000_0000_0000,
            offset: 0x400,
            file_size: 0x10,
            mem_size: 0x2000,
            flags: 5,
        }],
        0x600,
    );
    Machine::new(&[
        (b"GOOD    ELF", good),
        (b"EVIL    ELF", evil),
        (b"README  TXT", b"This is no program.\n".repeat(40)),
    ])
}

#[test]
fn runs_a_program_and_tears_it_down() {
    let mut machine = machine();
    assert_eq!(machine.exec("/good.elf"), Ok(3));
    assert_eq!(machine.log, ["create", "start", "enter", "destroy", "finish"]);
    assert_eq!(machine.entered, Some((CODE + 0x10, USER_STACK_TOP, 1)));
    assert_eq!(machine.free.len(), 1000);
    let mut rows = [None; MAX_PROCESSES];
    assert_eq!(snapshot(&machine.table, &mut rows), 1);
    let row: Entry = rows[0].unwrap();
    assert_eq!((row.pid, row.name(), row.state), (1, "good.elf", State::Exited(3)));
}

#[test]
fn loads_every_byte_in_its_place() {
    let mut machine = machine();
    machine.exec("good.elf").unwrap();
    let byte = |addr: u64| machine.memory_at_entry[&(addr / 4096 * 4096)].1[(addr % 4096) as usize];
    let file = program(CODE + 0x10, &two_segments(), 0x1700);
    let segments = two_segments();
    for i in 0..0x900 {
        assert_eq!(byte(CODE + i), file[0x400 + i as usize]);
        assert_eq!(byte(segments[1].vaddr + i), file[0xD10 + i as usize]);
    }
    // .bss is zero.
    for i in 0x900..0x1800 {
        assert_eq!(byte(segments[1].vaddr + i), 0);
    }
    // The pages of both segments and the four of the stack, and no others; a
    // page that segments share keeps the flags of the first.
    let mut pages: Vec<(u64, bool)> =
        machine.memory_at_entry.iter().map(|(addr, page)| (*addr, page.0)).collect();
    pages.sort();
    assert_eq!(
        pages,
        [
            (CODE, false),
            (CODE + 0x1000, true),
            (CODE + 0x2000, true),
            (USER_STACK_BOTTOM, true),
            (USER_STACK_BOTTOM + 0x1000, true),
            (USER_STACK_BOTTOM + 0x2000, true),
            (USER_STACK_BOTTOM + 0x3000, true),
        ]
    );
}

#[test]
fn syscalls_see_the_newest_pid() {
    let mut machine = machine();
    for expected in 1..=10 {
        machine.exec("/good.elf").unwrap();
        assert_eq!(machine.entered.unwrap().2, expected);
        let mut rows = [None; MAX_PROCESSES];
        let count = snapshot(&machine.table, &mut rows);
        let newest = rows[..count].iter().flatten().map(|entry| entry.pid).max().unwrap();
        assert_eq!(newest, expected);
    }
    // The oldest rows were reused: 3 to 10 are left.
    let mut rows = [None; MAX_PROCESSES];
    snapshot(&machine.table, &mut rows);
    let pids: Vec<u64> = rows.iter().flatten().map(|entry| entry.pid).collect();
    assert_eq!(pids, [9, 10, 3, 4, 5, 6, 7, 8]);
}

#[test]
fn contains_a_crashing_process() {
    let mut machine = machine();
    machine.code = FAULT_EXIT_CODE;
    assert_eq!(machine.exec("good.elf"), Ok(FAULT_EXIT_CODE));
    machine.code = 3;
    assert_eq!(machine.exec("good.elf"), Ok(3));
}

#[test]
fn rejects_a_segment_outside_the_user_region() {
    let mut machine = machine();
    assert_eq!(machine.exec("/evil.elf"), Err(ProcError::SegmentOutOfRange));
    // Refused before a single frame is allocated.
    assert!(machine.log.is_empty());
}

#[test]
fn rejects_files_that_are_not_elf_binaries() {
    let mut machine = machine();
    match machine.exec("/README.TXT") {
        Err(ProcError::Elf(_)) => {}
        other => panic!("expected an ELF error, got {:?}", other),
    }
    match machine.exec("/bin/nope.elf") {
        Err(ProcError::Fs(_)) => {}
        other => panic!("expected a filesystem error, got {:?}", other),
    }
    assert_eq!(machine.exec("/README.TXT"), Err(ProcError::Elf(ElfError::NotAnElf)));
    assert_eq!(machine.exec("/"), Err(ProcError::Fs(FsError::IsADirectory)));
    assert!(machine.log.is_empty());
    let run = exec(false, None, "x");
    assert_eq!(run.result(), Some(Err(ProcError::Fs(FsError::NoFilesystem))));
}

#[test]
fn reuses_frames_across_many_processes() {
    let mut machine = machine();
    machine.free.truncate(8);
    for _ in 0..40 {
        assert_eq!(machine.exec("good.elf"), Ok(3));
    }
}

#[test]
fn only_one_program_runs_at_a_time() {
    let run = exec(true, None, "good.elf");
    assert_eq!(run.request(), None);
    assert_eq!(run.result(), Some(Err(ProcError::Busy)));
}

#[test]
fn running_out_of_memory_tears_down_what_there_is() {
    let mut machine = machine();
    machine.no_space = true;
    assert_eq!(machine.exec("good.elf"), Err(ProcError::OutOfMemory));
    assert_eq!(machine.log, ["create"]);
    machine.no_space = false;
    machine.log.clear();
    machine.free.truncate(5);
    assert_eq!(machine.exec("good.elf"), Err(ProcError::OutOfMemory));
    assert_eq!(machine.log, ["create", "destroy"]);
    assert_eq!(machine.free.len(), 5);
}

#[test]
fn a_frame_that_cannot_be_mapped_is_given_back() {
    let mut machine = machine();
    machine.unmappable = Some(CODE + 0x1000);
    assert_eq!(machine.exec("good.elf"), Err(ProcError::OutOfMemory));
    assert_eq!(machine.log, ["create", "give back", "destroy"]);
    machine.unmappable = Some(USER_STACK_BOTTOM);
    machine.log.clear();
    assert_eq!(machine.exec("good.elf"), Err(ProcError::OutOfMemory));
    assert_eq!(machine.log, ["create", "give back", "destroy"]);
    machine.unmappable = None;
    assert_eq!(machine.exec("good.elf"), Ok(3));
}

#[test]
fn failures_while_loading_tear_down() {
    // The directory and the 12 sectors of the file are read twice, with 11
    // links each time.
    let mut machine = machine();
    machine.exec("good.elf").unwrap();
    let reads = machine.reads;
    assert_eq!(reads, 2 * (1 + 12 + 11));

    let mut machine = self::machine();
    machine.lost = Some(CODE + 0x1000);
    assert_eq!(machine.exec("good.elf"), Err(ProcError::SegmentOutOfRange));
    assert_eq!(machine.log, ["create", "destroy"]);
    // The file is read to its end all the same.
    assert_eq!(machine.reads, reads);

    // A read that fails later counts for more.
    let mut machine = self::machine();
    machine.lost = Some(CODE + 0x1000);
    machine.bad_read = Some(reads);
    assert_eq!(
        machine.exec("good.elf"),
        Err(ProcError::Fs(FsError::Io(AtaError::DeviceError)))
    );
    assert_eq!(machine.log, ["create", "destroy"]);

    // In the first pass nothing is there to be torn down.
    let mut machine = self::machine();
    machine.bad_read = Some(5);
    assert_eq!(
        machine.exec("good.elf"),
        Err(ProcError::Fs(FsError::Io(AtaError::DeviceError)))
    );
    assert!(machine.log.is_empty());
}

fn image(entry: u64, segments: &[(u64, u64, bool)]) -> Image {
    let none = Segment {
        vaddr: 0,
        mem_size: 0,
        file_offset: 0,
        file_size: 0,
        writable: false,
        executable: false,
    };
    let mut all = [none; MAX_SEGMENTS];
    for (i, (vaddr, mem_size, executable)) in segments.iter().enumerate() {
        all[i] = Segment { vaddr: *vaddr, mem_size: *mem_size, executable: *executable, ..none };
    }
    Image { entry, segments: all, count: segments.len() }
}

#[test]
fn images_are_validated() {
    let ok = image(CODE, &[(CODE, 0x1000, true)]);
    assert_eq!(validate(&ok), Ok(()));
    let low = image(CODE, &[(USER_REGION_START - 1, 2, true)]);
    assert_eq!(validate(&low), Err(ProcError::SegmentOutOfRange));
    let high = image(CODE, &[(USER_REGION_END - 1, 2, true)]);
    assert_eq!(validate(&high), Err(ProcError::SegmentOutOfRange));
    let stack = image(CODE, &[(USER_STACK_BOTTOM - 1, 2, true)]);
    assert_eq!(validate(&stack), Err(ProcError::SegmentOverlapsStack));
    let below = image(USER_STACK_BOTTOM - 2, &[(USER_STACK_BOTTOM - 2, 2, true)]);
    assert_eq!(validate(&below), Ok(()));
    let above = image(USER_STACK_TOP, &[(USER_STACK_TOP, 2, true)]);
    assert_eq!(validate(&above), Ok(()));
    let full = image(CODE, &[(CODE, 128 * 4096, true), (CODE + 0x10_0000, 128 * 4096, false)]);
    assert_eq!(validate(&full), Ok(()));
    let large = image(CODE, &[(CODE, 128 * 4096, true), (CODE + 0x10_0000, 128 * 4096 + 1, false)]);
    assert_eq!(validate(&large), Err(ProcError::ImageTooLarge));
    let data = image(CODE, &[(CODE, 0x1000, false)]);
    assert_eq!(validate(&data), Err(ProcError::BadEntryPoint));
    let outside = image(CODE + 0x1000, &[(CODE, 0x1000, true)]);
    assert_eq!(validate(&outside), Err(ProcError::BadEntryPoint));
}

#[test]
fn page_ranges_cover_what_they_should() {
    assert_eq!(page_range(0x1000, 1), (0x1000, 1));
    assert_eq!(page_range(0x1000, 0x1000), (0x1000, 1));
    assert_eq!(page_range(0x1000, 0x1001), (0x1000, 2));
    assert_eq!(page_range(0x1FFF, 2), (0x1000, 2));
    assert_eq!(page_range(u64::MAX, 1), (u64::MAX - 4095, 1));
}

#[test]
fn processes_go_by_the_end_of_their_path() {
    let mut table = ProcessTable::new();
    table.start("/bin\\deep/ring3.elf");
    table.start("a_name_that_is_too_long.elf");
    table.start("dir/");
    table.start("cut_in_the_mid\u{e9}\u{e9}");
    let mut rows = [None; MAX_PROCESSES];
    assert_eq!(snapshot(&table, &mut rows), 4);
    let names: Vec<String> =
        rows.iter().flatten().map(|entry| entry.name().to_string()).collect();
    assert_eq!(names, ["ring3.elf", "a_name_that_is_t", "", "cut_in_the_mid\u{e9}"]);
    table.start("cut_in_the_midd\u{e9}");
    let mut rows = [None; MAX_PROCESSES];
    snapshot(&table, &mut rows);
    assert_eq!(rows[4].unwrap().name(), "?");
    assert_eq!(rows[4].unwrap().state, State::Running);
}

#[test]
fn the_table_keeps_the_latest_processes() {
    let mut table = ProcessTable::new();
    for pid in 1..=30u64 {
        assert_eq!(table.start(&format!("/bin/p{}.elf", pid)), pid);
        if pid % 2 == 0 {
            table.finish(pid, 100 + pid);
        }
        let mut rows = [None; MAX_PROCESSES];
        let count = snapshot(&table, &mut rows);
        let latest = (MAX_PROCESSES as u64).min(pid);
        assert_eq!(count as u64, latest);
        let mut seen: Vec<Entry> = rows.iter().flatten().copied().collect();
        seen.sort_by_key(|entry| entry.pid);
        for (entry, pid) in seen.iter().zip(pid - latest + 1..=pid) {
            assert_eq!(entry.pid, pid);
            assert_eq!(entry.name(), format!("p{}.elf", pid));
            let state = if pid % 2 == 0 { State::Exited(100 + pid) } else { State::Running };
            assert_eq!(entry.state, state);
        }
    }
}

#[test]
fn the_last_process_number_is_given_out() {
    let mut table = ProcessTable::new();
    table.next_pid = u64::MAX;
    assert_eq!(table.start("last.elf"), u64::MAX);
    assert_eq!(table.next_pid, 0);
    let mut rows = [None; MAX_PROCESSES];
    assert_eq!(snapshot(&table, &mut rows), 1);
    assert_eq!(rows[0].unwrap().pid, u64::MAX);
    assert_eq!(rows[0].unwrap().name(), "last.elf");
}
