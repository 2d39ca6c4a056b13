use rust_os::rtc::{bcd_to_binary, decode, read, DateTime, Raw, Reading, MAX_SPINS};

/// A chip whose registers change with every full pass over them.
struct Chip {
    passes: Vec<[u8; 7]>,
    busy: u32,
    status_b: u8,
    at: usize,
    reads: u64,
}

impl Chip {
    fn answer(&mut self, register: u8) -> u8 {
        self.reads += 1;
        let index = match register {
            0x0A => {
                if self.busy > 0 {
                    self.busy -= 1;
                    return 0x80;
                }
                return 0x26;
            }
            0x0B => return self.status_b,
            0x00 => 0,
            0x02 => 1,
            0x04 => 2,
            0x07 => 3,
            0x08 => 4,
            0x09 => 5,
            0x32 => 6,
            other => panic!("unexpected register {}", other),
        };
        let pass = self.passes[self.at.min(self.passes.len() - 1)];
        if index == 6 {
            self.at += 1;
        }
        pass[index]
    }
}

fn run(chip: &mut Chip) -> DateTime {
    let mut reading: Reading = read();
    while let Some(register) = reading.register() {
        let value = chip.answer(register);
        reading.step(value);
    }
    reading.time().expect("the reading is done")
}

#[test]
fn bcd_is_decoded() {
    assert_eq!(bcd_to_binary(0x25), 25);
    assert_eq!(bcd_to_binary(0x00), 0);
    assert_eq!(bcd_to_binary(0x99), 99);
    assert_eq!(bcd_to_binary(0xFF), 165);
}

#[test]
fn reads_bcd_in_24_hour_mode() {
    let mut chip = Chip {
        passes: vec![[0x07, 0x33, 0x14, 0x19, 0x07, 0x26, 0x20]],
        busy: 3,
        status_b: 0x02,
        at: 0,
        reads: 0,
    };
    let time = run(&mut chip);
    assert_eq!(
        time,
        DateTime { year: 2026, month: 7, day: 19, hour: 14, minute: 33, second: 7 }
    );
    // Three busy answers, two passes of a status and seven registers, and B.
    assert_eq!(chip.reads, 3 + 2 * 8 + 1);
    let mut text = String::new();
    time.push_to(&mut text);
    assert_eq!(text, "2026-07-19 14:33:07");
}

#[test]
fn a_torn_timestamp_is_read_again() {
    let old = [0x59, 0x59, 0x23, 0x31, 0x12, 0x25, 0x20];
    let torn = [0x00, 0x59, 0x23, 0x31, 0x12, 0x25, 0x20];
    let new = [0x00, 0x00, 0x00, 0x01, 0x01, 0x26, 0x20];
    let mut chip =
        Chip { passes: vec![old, torn, new, new], busy: 0, status_b: 0x02, at: 0, reads: 0 };
    assert_eq!(
        run(&mut chip),
        DateTime { year: 2026, month: 1, day: 1, hour: 0, minute: 0, second: 0 }
    );
    assert_eq!(chip.at, 4);
}

#[test]
fn an_update_that_never_ends_is_not_waited_for() {
    let mut chip = Chip {
        passes: vec![[0, 0, 0, 1, 1, 1, 20]],
        busy: u32::MAX,
        status_b: 0x06,
        at: 0,
        reads: 0,
    };
    let time = run(&mut chip);
    assert_eq!(time.year, 2001);
    assert_eq!(chip.reads, 2 * (MAX_SPINS as u64 + 1 + 7) + 1);
}

#[test]
fn twelve_hour_mode_is_normalised() {
    let raw = |hour: u8| Raw {
        second: 0,
        minute: 0,
        hour,
        day: 1,
        month: 1,
        year: 0x24,
        century: 0x20,
    };
    assert_eq!(decode(raw(0x12), 0x00).hour, 0); // 12 AM
    assert_eq!(decode(raw(0x92), 0x00).hour, 12); // 12 PM
    assert_eq!(decode(raw(0x81), 0x00).hour, 13); // 1 PM
    assert_eq!(decode(raw(0x11), 0x00).hour, 11);
    // In 24-hour mode the bit means nothing.
    assert_eq!(decode(raw(0x92), 0x02).hour, 12);
    assert_eq!(decode(raw(0x23), 0x02).hour, 23);
}

#[test]
fn an_implausible_century_reads_as_this_one() {
    let raw = |century: u8| Raw {
        second: 1,
        minute: 2,
        hour: 3,
        day: 4,
        month: 5,
        year: 99,
        century,
    };
    assert_eq!(decode(raw(19), 0x06).year, 1999);
    assert_eq!(decode(raw(21), 0x06).year, 2199);
    assert_eq!(decode(raw(0), 0x06).year, 2099);
    assert_eq!(decode(raw(22), 0x06).year, 2099);
}
