use rust_os::ata::{identify, read_sector, AtaError, Transaction, MAX_SPINS};
use rust_os::port::PortOp;

/// A drive behind the task-file registers.
struct Device {
    /// Status answers in order; the last one is repeated.
    status: Vec<u8>,
    mid: u8,
    high: u8,
    data: Vec<u16>,
    log: Vec<PortOp>,
    polls: usize,
    words: usize,
}

impl Device {
    fn new(status: &[u8]) -> Device {
        Device {
            status: status.to_vec(),
            mid: 0,
            high: 0,
            data: (0..256).map(|i| (i as u16) << 8 | (255 - i as u16)).collect(),
            log: Vec::new(),
            polls: 0,
            words: 0,
        }
    }

    fn run(&mut self, mut command: Transaction) -> Transaction {
        while let Some(op) = command.op() {
            if self.log.len() < 300 {
                self.log.push(op);
            }
            let value = match op {
                PortOp::Write8 { .. } => 0,
                PortOp::Read8 { port: 0x1F7 } => {
                    let answer = self.status[self.polls.min(self.status.len() - 1)];
                    self.polls += 1;
                    answer as u16
                }
                PortOp::Read8 { port: 0x1F4 } => self.mid as u16,
                PortOp::Read8 { port: 0x1F5 } => self.high as u16,
                PortOp::Read8 { .. } => 0x50,
                PortOp::Read16 { port } => {
                    assert_eq!(port, 0x1F0);
                    self.words += 1;
                    self.data[self.words - 1]
                }
            };
            command.step(value);
        }
        command
    }
}

fn write(port: u16, value: u8) -> PortOp {
    PortOp::Write8 { port, value }
}

#[test]
fn a_sector_is_read_by_its_registers() {
    let mut device = Device::new(&[0x50, 0x80, 0x58]);
    let command = device.run(read_sector(1, 0x0ABC_DEF1, 0x0FFF_FFFF));
    assert_eq!(
        device.log[0..11],
        [
            write(0x1F6, 0xFA), // LBA mode, drive 1, top four bits
            write(0x3F6, 0x02), // nIEN
            PortOp::Read8 { port: 0x3F6 },
            PortOp::Read8 { port: 0x3F6 },
            PortOp::Read8 { port: 0x3F6 },
            PortOp::Read8 { port: 0x3F6 },
            write(0x1F2, 1),
            write(0x1F3, 0xF1),
            write(0x1F4, 0xDE),
            write(0x1F5, 0xBC),
            write(0x1F7, 0x20),
        ]
    );
    assert_eq!(device.polls, 3);
    assert_eq!(device.words, 256);
    let sector = command.result().unwrap().unwrap();
    for i in 0..256 {
        assert_eq!(sector[2 * i], 255 - i as u8);
        assert_eq!(sector[2 * i + 1], i as u8);
    }
}

#[test]
fn identify_gives_the_sector_count() {
    let mut device = Device::new(&[0x80, 0x80, 0x50, 0x58]);
    device.data[60] = 0x5678;
    device.data[61] = 0x1234;
    let command = device.run(identify(0));
    assert_eq!(device.log[0], write(0x1F6, 0xA0));
    assert_eq!(device.log[10], write(0x1F7, 0xEC));
    assert_eq!(command.sector_count(), Some(Ok(0x1234_5678)));
    let mut device = Device::new(&[0x58]);
    assert_eq!(device.run(identify(1)).request, rust_os::ata::Request::Identify { drive: 1 });
    assert_eq!(device.log[0], write(0x1F6, 0xB0));
}

#[test]
fn an_empty_bus_has_no_device() {
    for floating in [0x00, 0xFF] {
        let command = Device::new(&[floating]).run(identify(0));
        assert_eq!(command.sector_count(), Some(Err(AtaError::NoDevice)));
        let command = Device::new(&[floating]).run(read_sector(0, 0, 1));
        assert_eq!(command.result(), Some(Err(AtaError::NoDevice)));
    }
}

#[test]
fn a_cdrom_is_not_ata() {
    let mut device = Device::new(&[0x50]);
    device.mid = 0x14;
    device.high = 0xEB;
    let command = device.run(identify(1));
    assert_eq!(command.sector_count(), Some(Err(AtaError::NotAta)));
}

#[test]
fn device_errors_are_reported() {
    for status in [0x59, 0x70] {
        let command = Device::new(&[0x50, status]).run(read_sector(0, 7, 8));
        assert_eq!(command.result(), Some(Err(AtaError::DeviceError)));
    }
}

#[test]
fn a_wedged_device_times_out() {
    let mut device = Device::new(&[0x80]);
    let command = device.run(read_sector(0, 7, 8));
    assert_eq!(command.result(), Some(Err(AtaError::Timeout)));
    assert_eq!(device.polls, 1 + MAX_SPINS as usize);
    let mut device = Device::new(&[0x80]);
    let command = device.run(identify(0));
    assert_eq!(command.sector_count(), Some(Err(AtaError::Timeout)));
    assert_eq!(device.polls, 1 + MAX_SPINS as usize);
}

#[test]
fn sectors_beyond_lba28_are_refused_without_an_access() {
    let command = read_sector(0, 0x1000_0000, u32::MAX);
    assert_eq!(command.op(), None);
    assert_eq!(command.result(), Some(Err(AtaError::OutOfRange)));
    assert!(read_sector(0, 0x0FFF_FFFF, u32::MAX).op().is_some());
}

#[test]
fn sectors_past_the_end_of_the_disk_are_refused_without_an_access() {
    for (lba, sectors) in [(8192, 8192), (8193, 8192), (0, 0), (u32::MAX, u32::MAX)] {
        let command = read_sector(1, lba, sectors);
        assert_eq!(command.op(), None);
        assert_eq!(command.result(), Some(Err(AtaError::OutOfRange)));
    }
    assert!(read_sector(1, 8191, 8192).op().is_some());
}
