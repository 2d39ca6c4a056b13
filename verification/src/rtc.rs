//! Wall-clock time from the CMOS real-time clock.
//!
//! The RTC is reached through the CMOS index/data port pair (0x70/0x71): write
//! a register number to 0x70, then read its value from 0x71. A [`Reading`] names
//! the register to read next and is given its value.
//!
//! Two quirks make this fiddlier than it looks:
//!
//! * The chip may be mid-update when read, yielding a torn timestamp. We wait
//!   for the "update in progress" flag to clear and then read twice, accepting
//!   the value only once two consecutive reads agree.
//! * Values may be BCD or binary, and hours may be 12- or 24-hour, depending on
//!   status register B. Both are handled below.

use vstd::prelude::*;

use crate::text::push_padded;


verus! {

// CMOS register numbers.
const REG_SECOND: u8 = 0x00;

const REG_MINUTE: u8 = 0x02;

const REG_HOUR: u8 = 0x04;

const REG_DAY: u8 = 0x07;

const REG_MONTH: u8 = 0x08;

const REG_YEAR: u8 = 0x09;

const REG_CENTURY: u8 = 0x32;

const REG_STATUS_A: u8 = 0x0A;

const REG_STATUS_B: u8 = 0x0B;

/// Upper bound on spin iterations, so a misbehaving RTC can't hang the kernel.
pub const MAX_SPINS: u32 = 1_000_000;

/// A wall-clock date and time, as reported by the RTC.
///
/// The RTC has no notion of time zone; on QEMU (and most systems) this is UTC.
#[derive(Debug, Clone, Copy, PartialEq, Eq, Structural)]
pub struct DateTime {
    pub year: u16,
    pub month: u8,
    pub day: u8,
    pub hour: u8,
    pub minute: u8,
    pub second: u8,
}

/// Raw register values, before BCD/12-hour normalisation.
#[derive(Debug, Clone, Copy, PartialEq, Eq, Structural)]
pub struct Raw {
    pub second: u8,
    pub minute: u8,
    pub hour: u8,
    pub day: u8,
    pub month: u8,
    pub year: u8,
    pub century: u8,
}

/// The time registers, in the order in which they are read.
pub open spec fn time_registers() -> Seq<u8> {
    seq![0x00u8, 0x02u8, 0x04u8, 0x07u8, 0x08u8, 0x09u8, 0x32u8]
}

/// The values of the time registers, in the order in which they are read.
pub open spec fn raw_of(values: Seq<u8>) -> Raw {
    Raw {
        second: values[0],
        minute: values[1],
        hour: values[2],
        day: values[3],
        month: values[4],
        year: values[5],
        century: values[6],
    }
}

/// What a binary-coded-decimal byte stands for: 0x25 is 25.
pub open spec fn bcd(value: u8) -> int {
    value % 16 + value / 16 * 10
}

/// What a register value stands for.
pub open spec fn number(value: u8, binary: bool) -> int {
    if binary {
        value as int
    } else {
        bcd(value)
    }
}

/// The time that raw register values stand for, given status register B.
///
/// In 12-hour mode the high bit of the hour register is the PM flag, which is
/// no part of the number; 12 PM is 12 and 12 AM is 0. The century register
/// isn't universally implemented: what is implausible there reads as 20.
pub open spec fn decoded(raw: Raw, status_b: u8) -> DateTime {
    let binary = status_b & 0x04 != 0;
    let full_day = status_b & 0x02 != 0;
    let hour = number((raw.hour % 128) as u8, binary);
    let century = number(raw.century, binary);
    DateTime {
        year: ((if 19 <= century <= 21 {
            century
        } else {
            20
        }) * 100 + number(raw.year, binary)) as u16,
        month: number(raw.month, binary) as u8,
        day: number(raw.day, binary) as u8,
        hour: (if full_day {
            hour
        } else if raw.hour >= 128 {
            hour % 12 + 12
        } else if hour == 12 {
            0
        } else {
            hour
        }) as u8,
        minute: number(raw.minute, binary) as u8,
        second: number(raw.second, binary) as u8,
    }
}

/// What each register read gives, in the order of the reads.
pub type Values = spec_fn(nat) -> u8;

/// The registers that a reading of the clock reads, the timestamps that it
/// sees, and the time that it comes to.
#[verifier::ext_equal]
pub ghost struct Trace {
    pub registers: Seq<u8>,
    pub seen: Seq<Raw>,
    pub time: DateTime,
}

impl Trace {
    /// The same, one register later.
    pub open spec fn after(self, register: u8) -> Trace {
        Trace { registers: seq![register] + self.registers, ..self }
    }

    /// The same, one timestamp later.
    pub open spec fn having_seen(self, raw: Raw) -> Trace {
        Trace { seen: seq![raw] + self.seen, ..self }
    }
}

/// Waiting out an update, `spins` more times at most; then the time registers
/// are read. `previous` is the timestamp that was seen last, and `tries` how
/// often it may still differ from the one before.
pub open spec fn settling(
    previous: Option<Raw>,
    tries: nat,
    spins: nat,
    values: Values,
    n: nat,
) -> Trace
    decreases
            tries + (if previous is None {
                1nat
            } else {
                0nat
            }),
            1nat,
            spins,
{
    let rest = if values(n) & 0x80 != 0 && spins > 0 {
        settling(previous, tries, (spins - 1) as nat, values, n + 1)
    } else {
        fetching(previous, tries, Seq::empty(), values, n + 1)
    };
    rest.after(0x0A)
}

/// Reading the time registers, of which `got` were read.
pub open spec fn fetching(
    previous: Option<Raw>,
    tries: nat,
    got: Seq<u8>,
    values: Values,
    n: nat,
) -> Trace
    decreases
            tries + (if previous is None {
                1nat
            } else {
                0nat
            }),
            0nat,
            if got.len() >= 7 {
                1int
            } else {
                8 - got.len()
            },
{
    if got.len() >= 7 {
        let raw = raw_of(got);
        compared(previous, tries, raw, values, n)
    } else {
        fetching(previous, tries, got.push(values(n)), values, n + 1).after(
            time_registers()[got.len() as int],
        )
    }
}

/// Once a timestamp is complete: it counts if it is the same as the one before,
/// or if there is no try left.
pub open spec fn compared(
    previous: Option<Raw>,
    tries: nat,
    raw: Raw,
    values: Values,
    n: nat,
) -> Trace
    decreases
            tries + (if previous is None {
                1nat
            } else {
                0nat
            }),
            0nat,
            0int,
{
    let rest = if previous == Some(raw) || (previous is Some && tries == 0) {
        finishing(raw, values, n)
    } else if previous is None {
        settling(Some(raw), tries, MAX_SPINS as nat, values, n)
    } else {
        settling(Some(raw), (tries - 1) as nat, MAX_SPINS as nat, values, n)
    };
    rest.having_seen(raw)
}

/// Reading status register B, which says what the values mean.
pub open spec fn finishing(raw: Raw, values: Values, n: nat) -> Trace {
    Trace { registers: seq![0x0Bu8], seen: Seq::empty(), time: decoded(raw, values(n)) }
}

/// All that a reading of the clock does, given what the registers read.
pub open spec fn reading(values: Values) -> Trace {
    settling(None, MAX_SPINS as nat, MAX_SPINS as nat, values, 0)
}

/// Converts a binary-coded-decimal byte to binary (e.g. 0x25 -> 25).
pub fn bcd_to_binary(value: u8) -> (number: u8)
    ensures
        number == bcd(value),
{
    value % 16 + value / 16 * 10
}

fn convert(value: u8, binary: bool) -> (converted: u8)
    ensures
        converted == number(value, binary),
{
    if binary {
        value
    } else {
        bcd_to_binary(value)
    }
}

/// Turns raw register values into a time, given status register B.
pub fn decode(raw: Raw, status_b: u8) -> (time: DateTime)
    ensures
        time == decoded(raw, status_b),
{
    let is_binary = status_b & 0x04 != 0;
    let is_24_hour = status_b & 0x02 != 0;

    // The high bit of the hour register is the PM flag in 12-hour mode;
    // strip it before any BCD conversion.
    let pm = raw.hour >= 0x80;
    let hour_bits: u8 = raw.hour % 0x80;

    let mut hour: u8 = convert(hour_bits, is_binary);
    if !is_24_hour {
        if pm {
            hour = hour % 12 + 12;  // 12 PM stays 12, 1 PM -> 13
        } else if hour == 12 {
            hour = 0;  // 12 AM -> 00
        }
    }
    // The century register isn't universally implemented; fall back to the
    // 21st century if it reports something implausible.

    let reported: u8 = convert(raw.century, is_binary);
    let century: u16 = if 19 <= reported && reported <= 21 {
        reported as u16
    } else {
        20
    };
    DateTime {
        year: century * 100 + convert(raw.year, is_binary) as u16,
        month: convert(raw.month, is_binary),
        day: convert(raw.day, is_binary),
        hour,
        minute: convert(raw.minute, is_binary),
        second: convert(raw.second, is_binary),
    }
}

/// How far a reading of the clock has come.
#[derive(Debug, Clone, Copy, PartialEq, Eq, Structural)]
pub enum Stage {
    /// Waiting out an update, `spins` more times at most.
    Settling { spins: u32 },
    /// Reading the time registers, of which `done` are read.
    Fetching { done: usize },
    /// About to read status register B.
    Finishing(Raw),
    Done(DateTime),
}

/// A reading of the clock, under way.
#[derive(Debug, Clone, Copy, PartialEq, Eq)]
pub struct Reading {
    /// The timestamp that was seen last.
    pub previous: Option<Raw>,
    /// How often a timestamp may still differ from the one before.
    pub tries: u32,
    /// The time registers as far as they are read.
    pub values: [u8; 7],
    pub stage: Stage,
}

impl Reading {
    /// There is a register left to read while registers are read.
    pub open spec fn wf(&self) -> bool {
        self.stage matches Stage::Fetching { done } ==> done < 7
    }

    /// What is still to come, the next value being number `n`.
    pub open spec fn rest(&self, values: Values, n: nat) -> Trace {
        match self.stage {
            Stage::Settling { spins } => settling(
                self.previous,
                self.tries as nat,
                spins as nat,
                values,
                n,
            ),
            Stage::Fetching { done } => fetching(
                self.previous,
                self.tries as nat,
                self.values@.take(done as int),
                values,
                n,
            ),
            Stage::Finishing(raw) => finishing(raw, values, n),
            Stage::Done(time) => Trace { registers: Seq::empty(), seen: Seq::empty(), time },
        }
    }

    /// The register to read next; nothing once the time is known.
    pub open spec fn pending(&self) -> Option<u8> {
        match self.stage {
            Stage::Settling { .. } => Some(0x0A),
            Stage::Fetching { done } => Some(time_registers()[done as int]),
            Stage::Finishing(_) => Some(0x0B),
            Stage::Done(_) => None,
        }
    }

    /// The timestamp that the next value completes.
    pub open spec fn completes(&self, value: u8) -> Option<Raw> {
        match self.stage {
            Stage::Fetching { done } => if done == 6 {
                Some(raw_of(self.values@.take(6).push(value)))
            } else {
                None
            },
            _ => None,
        }
    }

    /// What lies ahead, seen from before the next value.
    pub open spec fn followed_by(&self, value: u8, rest: Trace) -> Trace {
        match self.completes(value) {
            Some(raw) => rest.having_seen(raw).after(self.pending()->0),
            None => rest.after(self.pending()->0),
        }
    }
}

/// Begins to read the current wall-clock time.
pub fn read() -> (reading: Reading)
    ensures
        reading.wf(),
        forall|values: Values| #![trigger reading.rest(values, 0)]
            reading.rest(values, 0) == self::reading(values),
{
    Reading {
        previous: None,
        tries: MAX_SPINS,
        values: [0u8; 7],
        stage: Stage::Settling { spins: MAX_SPINS },
    }
}

impl Reading {
    /// The register to read next; nothing once the time is known.
    pub fn register(&self) -> (register: Option<u8>)
        requires
            self.wf(),
        ensures
            register == self.pending(),
    {
        match self.stage {
            Stage::Settling { .. } => Some(REG_STATUS_A),
            Stage::Fetching { done } => Some(
                if done == 0 {
                    REG_SECOND
                } else if done == 1 {
                    REG_MINUTE
                } else if done == 2 {
                    REG_HOUR
                } else if done == 3 {
                    REG_DAY
                } else if done == 4 {
                    REG_MONTH
                } else if done == 5 {
                    REG_YEAR
                } else {
                    REG_CENTURY
                },
            ),
            Stage::Finishing(_) => Some(REG_STATUS_B),
            Stage::Done(_) => None,
        }
    }

    /// Goes on with the value of the register.
    pub fn step(&mut self, value: u8)
        requires
            old(self).wf(),
            old(self).stage !is Done,
        ensures
            final(self).wf(),
            forall|values: Values, n: nat|
                values(n) == value ==> #[trigger] old(self).rest(values, n) == old(self).followed_by(
                    value,
                    final(self).rest(values, n + 1),
                ),
    {
        proof {
            reveal_with_fuel(fetching, 3);
            reveal_with_fuel(compared, 2);
        }
        match self.stage {
            Stage::Settling { spins } => {
                assert(self.values@.take(0) =~= Seq::<u8>::empty());
                self.stage = if value & 0x80 != 0 && spins > 0 {
                    Stage::Settling { spins: spins - 1 }
                } else {
                    Stage::Fetching { done: 0 }
                };
            },
            Stage::Fetching { done } => {
                let ghost before = self.values@;
                self.values[done] = value;
                assert(self.values@.take(done + 1) =~= before.take(done as int).push(value));
                if done < 6 {
                    self.stage = Stage::Fetching { done: done + 1 };
                } else {
                    let raw = Raw {
                        second: self.values[0],
                        minute: self.values[1],
                        hour: self.values[2],
                        day: self.values[3],
                        month: self.values[4],
                        year: self.values[5],
                        century: self.values[6],
                    };
                    assert(self.values@.take(7) =~= self.values@);
                    assert(raw == raw_of(self.values@));
                    match self.previous {
                        None => {
                            self.previous = Some(raw);
                            self.stage = Stage::Settling { spins: MAX_SPINS };
                        },
                        Some(previous) => {
                            if raw == previous || self.tries == 0 {
                                self.stage = Stage::Finishing(raw);
                            } else {
                                self.previous = Some(raw);
                                self.tries = self.tries - 1;
                                self.stage = Stage::Settling { spins: MAX_SPINS };
                            }
                        },
                    }
                }
            },
            Stage::Finishing(raw) => {
                self.stage = Stage::Done(decode(raw, value));
                assert(seq![0x0Bu8] + Seq::<u8>::empty() =~= seq![0x0Bu8]);
            },
            Stage::Done(_) => {},
        }
    }

    /// The time; nothing while it is being read.
    pub fn time(&self) -> (time: Option<DateTime>)
        ensures
            time == (match self.stage {
                Stage::Done(time) => Some(time),
                _ => None,
            }),
    {
        match self.stage {
            Stage::Done(time) => Some(time),
            _ => None,
        }
    }
}

/// The rounds that are left when `tries` differences are still allowed.
pub open spec fn rounds(previous: Option<Raw>, tries: nat) -> nat {
    tries + (if previous is None {
        1nat
    } else {
        0nat
    })
}

/// The trace ends within a bounded number of reads, and its time is that of the
/// last timestamp seen, as status register B has it. That timestamp is the same
/// as the one seen before it, unless all `left` further rounds were used up.
pub open spec fn is_sound(
    trace: Trace,
    previous: Option<Raw>,
    left: nat,
    reads: nat,
    values: Values,
    n: nat,
) -> bool {
    let seen = trace.seen;
    &&& 1 <= trace.registers.len() <= reads + left * (MAX_SPINS + 8) as nat
    &&& 1 <= seen.len() <= left + 1
    &&& previous is None ==> 2 <= seen.len()
    &&& trace.time == decoded(seen.last(), values((n + trace.registers.len() - 1) as nat))
    &&& seen.len() == left + 1 || (seen.len() == 1 && previous == Some(seen[0])) || (seen.len() >= 2
        && seen[seen.len() - 2] == seen.last())
}

proof fn lemma_settling_is_sound(
    previous: Option<Raw>,
    tries: nat,
    spins: nat,
    values: Values,
    n: nat,
)
    requires
        spins <= MAX_SPINS,
    ensures
        is_sound(
            settling(previous, tries, spins, values, n),
            previous,
            rounds(previous, tries),
            spins + 9,
            values,
            n,
        ),
    decreases rounds(previous, tries), 1nat, spins,
{
    reveal_with_fuel(settling, 2);
    if values(n) & 0x80 != 0 && spins > 0 {
        lemma_settling_is_sound(previous, tries, (spins - 1) as nat, values, n + 1);
    } else {
        lemma_fetching_is_sound(previous, tries, Seq::empty(), values, n + 1);
    }
}

proof fn lemma_fetching_is_sound(
    previous: Option<Raw>,
    tries: nat,
    got: Seq<u8>,
    values: Values,
    n: nat,
)
    requires
        got.len() <= 7,
    ensures
        is_sound(
            fetching(previous, tries, got, values, n),
            previous,
            rounds(previous, tries),
            (8 - got.len()) as nat,
            values,
            n,
        ),
    decreases
            rounds(previous, tries),
            0nat,
            if got.len() >= 7 {
                1int
            } else {
                8 - got.len()
            },
{
    reveal_with_fuel(fetching, 2);
    if got.len() >= 7 {
        lemma_compared_is_sound(previous, tries, raw_of(got), values, n);
    } else {
        lemma_fetching_is_sound(previous, tries, got.push(values(n)), values, n + 1);
    }
}

proof fn lemma_compared_is_sound(
    previous: Option<Raw>,
    tries: nat,
    raw: Raw,
    values: Values,
    n: nat,
)
    ensures
        is_sound(
            compared(previous, tries, raw, values, n),
            previous,
            rounds(previous, tries),
            1,
            values,
            n,
        ),
    decreases rounds(previous, tries), 0nat, 0int,
{
    reveal_with_fuel(compared, 2);
    let per = (MAX_SPINS + 8) as nat;
    let left = rounds(previous, tries);
    let trace = compared(previous, tries, raw, values, n);
    if previous == Some(raw) || (previous is Some && tries == 0) {
        let rest = finishing(raw, values, n);
        assert(trace.seen =~= seq![raw]);
        assert(0 <= left * per) by (nonlinear_arith);
    } else {
        let fewer = if previous is None {
            tries
        } else {
            (tries - 1) as nat
        };
        assert(rounds(Some(raw), fewer) == left - 1);
        assert((left - 1) * per + per == left * per) by (nonlinear_arith)
            requires
                left >= 1,
        ;
        lemma_settling_is_sound(Some(raw), fewer, MAX_SPINS as nat, values, n);
        let rest = settling(Some(raw), fewer, MAX_SPINS as nat, values, n);
        assert(trace.seen == seq![raw] + rest.seen);
        assert(trace.seen.last() == rest.seen.last());
        if rest.seen.len() == 1 {
            assert(trace.seen[0] == raw);
        } else {
            assert(trace.seen[trace.seen.len() - 2] == rest.seen[rest.seen.len() - 2]);
        }
    }
}

/// Whatever the chip answers, a reading ends within a bounded number of
/// register reads, and the time it gives is that of the last timestamp seen. It
/// is never torn across an update: the last two timestamps agree, unless the
/// chip gave so many different ones in a row that the ceiling was reached.
pub proof fn law_reading_is_not_torn(values: Values)
    ensures
        ({
            let trace = reading(values);
            let seen = trace.seen;
            &&& trace.registers.len() <= (MAX_SPINS + 2) * (MAX_SPINS + 8) + 1
            &&& 2 <= seen.len() <= MAX_SPINS + 2
            &&& trace.time == decoded(seen.last(), values((trace.registers.len() - 1) as nat))
            &&& seen[seen.len() - 2] == seen.last() || seen.len() == MAX_SPINS + 2
        }),
{
    lemma_settling_is_sound(None, MAX_SPINS as nat, MAX_SPINS as nat, values, 0);
    let left = rounds(None, MAX_SPINS as nat);
    let per = (MAX_SPINS + 8) as nat;
    assert(MAX_SPINS + 9 + left * per == (MAX_SPINS + 2) * (MAX_SPINS + 8) + 1) by (nonlinear_arith)
        requires
            left == MAX_SPINS + 1,
            per == MAX_SPINS + 8,
    ;
}

/// How a time is written: `YYYY-MM-DD hh:mm:ss`.
pub open spec fn time_text(dt: DateTime) -> Seq<char> {
    let two = |n: u8| crate::text::padded(n as nat, 2, '0');
    crate::text::padded(dt.year as nat, 4, '0') + seq!['-'] + two(dt.month) + seq!['-'] + two(
        dt.day,
    ) + seq![' '] + two(dt.hour) + seq![':'] + two(dt.minute) + seq![':'] + two(dt.second)
}

impl DateTime {
    /// Adds the time to a text, as `YYYY-MM-DD hh:mm:ss`.
    pub fn push_to(&self, text: &mut String)
        ensures
            final(text)@ == old(text)@ + time_text(*self),
    {
        push_padded(text, self.year as u64, 4, '0');
        text.push('-');
        push_padded(text, self.month as u64, 2, '0');
        text.push('-');
        push_padded(text, self.day as u64, 2, '0');
        text.push(' ');
        push_padded(text, self.hour as u64, 2, '0');
        text.push(':');
        push_padded(text, self.minute as u64, 2, '0');
        text.push(':');
        push_padded(text, self.second as u64, 2, '0');
        assert(text@ =~= old(text)@ + time_text(*self));
    }
}

/// A register holds `n`: as it is in binary mode, else as two decimal digits, the
/// tens in the high half. A ten takes 16 there, so it is 6 too many.
pub open spec fn holds(value: u8, binary: bool, n: int) -> bool {
    if binary {
        n == value
    } else {
        n + 6 * (value as int / 16) == value
    }
}

/// Every register counts, and counts for its own part of the time: seconds,
/// minutes, days and months are what their registers hold; the hour is what its
/// register holds without the top bit, which in 12-hour mode tells the second half
/// of the day; and the year is that of the century, which is taken for the
/// twentieth hundred where its register holds anything but 19, 20 or 21.
pub proof fn law_every_register_counts(
    raw: Raw,
    status_b: u8,
    hour: int,
    year: int,
    century: int,
)
    requires
        holds((raw.hour % 128) as u8, status_b / 4 % 2 == 1, hour),
        holds(raw.year, status_b / 4 % 2 == 1, year),
        holds(raw.century, status_b / 4 % 2 == 1, century),
    ensures
        ({
            let time = decoded(raw, status_b);
            let binary = status_b / 4 % 2 == 1;
            let full_day = status_b / 2 % 2 == 1;
            let pm = raw.hour >= 128;
            &&& holds(raw.second, binary, time.second as int)
            &&& holds(raw.minute, binary, time.minute as int)
            &&& holds(raw.day, binary, time.day as int)
            &&& holds(raw.month, binary, time.month as int)
            &&& time.year == year + 100 * (if century == 19 || century == 20 || century == 21 {
                century
            } else {
                20
            })
            &&& full_day ==> time.hour == hour
            &&& !full_day && !pm && hour != 12 ==> time.hour == hour
            &&& !full_day && !pm && hour == 12 ==> time.hour == 0
            &&& !full_day && pm ==> 12 <= time.hour < 24 && (time.hour - hour) % 12 == 0
        }),
{
    assert(status_b & 0x04 != 0 <==> status_b / 4 % 2 == 1) by (bit_vector);
    assert(status_b & 0x02 != 0 <==> status_b / 2 % 2 == 1) by (bit_vector);
}

/// What the chip puts into a register for `n`.
#[verifier::opaque]
pub open spec fn register_for(n: int, binary: bool) -> u8 {
    if binary {
        n as u8
    } else {
        (16 * (n / 10) + n % 10) as u8
    }
}

/// What the chip's registers hold at a time. In 12-hour mode hours go from 1 to
/// 12, twice a day, the second time with the top bit set.
pub open spec fn registers_at(dt: DateTime, binary: bool, full_day: bool) -> Raw {
    let twelve = (dt.hour + 11) % 12 + 1;
    let hour = if full_day {
        register_for(dt.hour as int, binary)
    } else if dt.hour < 12 {
        register_for(twelve, binary)
    } else {
        (register_for(twelve, binary) + 128) as u8
    };
    Raw {
        second: register_for(dt.second as int, binary),
        minute: register_for(dt.minute as int, binary),
        hour,
        day: register_for(dt.day as int, binary),
        month: register_for(dt.month as int, binary),
        year: register_for(dt.year as int % 100, binary),
        century: register_for(dt.year as int / 100, binary),
    }
}

/// Decoding gives back what the chip encoded: of every time of the years 1900 to
/// 2199, in both modes of numbers and in both modes of hours, as status register B
/// tells them.
pub proof fn law_decoding_undoes_encoding(dt: DateTime, status_b: u8)
    requires
        1900 <= dt.year < 2200,
        1 <= dt.month <= 12,
        1 <= dt.day <= 31,
        dt.hour < 24,
        dt.minute < 60,
        dt.second < 60,
    ensures
        decoded(registers_at(dt, status_b / 4 % 2 == 1, status_b / 2 % 2 == 1), status_b) == dt,
{
    let binary = status_b / 4 % 2 == 1;
    let full_day = status_b / 2 % 2 == 1;
    assert(status_b & 0x04 != 0 <==> status_b / 4 % 2 == 1) by (bit_vector);
    assert(status_b & 0x02 != 0 <==> status_b / 2 % 2 == 1) by (bit_vector);
    lemma_register(dt.second as int, binary);
    lemma_register(dt.minute as int, binary);
    lemma_register(dt.day as int, binary);
    lemma_register(dt.month as int, binary);
    lemma_register(dt.year as int % 100, binary);
    lemma_register(dt.year as int / 100, binary);
    lemma_register(dt.hour as int, binary);
    lemma_register((dt.hour + 11) % 12 + 1, binary);
    let raw = registers_at(dt, binary, full_day);
    let twelve = (dt.hour + 11) % 12 + 1;
    assert(raw.hour % 128 == register_for(
        if full_day {
            dt.hour as int
        } else {
            twelve
        },
        binary,
    ));
    lemma_parts(
        raw,
        status_b,
        dt,
        if full_day {
            dt.hour as int
        } else {
            twelve
        },
    );
}

/// The parts of a time make up the time.
proof fn lemma_parts(raw: Raw, status_b: u8, dt: DateTime, hour: int)
    requires
        ({
            let binary = status_b & 0x04 != 0;
            &&& number(raw.second, binary) == dt.second
            &&& number(raw.minute, binary) == dt.minute
            &&& number(raw.day, binary) == dt.day
            &&& number(raw.month, binary) == dt.month
            &&& number(raw.year, binary) == dt.year as int % 100
            &&& number(raw.century, binary) == dt.year as int / 100
            &&& number((raw.hour % 128) as u8, binary) == hour
        }),
        1900 <= dt.year < 2200,
        dt.hour < 24,
        status_b & 0x02 != 0 ==> hour == dt.hour,
        status_b & 0x02 == 0 ==> hour == (dt.hour + 11) % 12 + 1 && (raw.hour >= 128 <==> dt.hour
            >= 12),
    ensures
        decoded(raw, status_b) == dt,
{
}

proof fn lemma_register(n: int, binary: bool)
    requires
        0 <= n < 100,
    ensures
        number(register_for(n, binary), binary) == n,
        n < 80 ==> register_for(n, binary) < 128,
{
    reveal(register_for);
}

/// The trace ends with a complete timestamp and status register B: seconds,
/// minutes, hours, day, month, year and century, each from its own register, read
/// one right after the other; the last seen timestamp is what these reads gave.
pub open spec fn ends_in_a_timestamp(trace: Trace, values: Values, n: int) -> bool {
    let m = trace.registers.len();
    let raw = trace.seen.last();
    &&& m >= 1 && trace.registers[m - 1] == 0x0B
    &&& n + m >= 8
    &&& m >= 2 ==> trace.registers[m - 2] == 0x32
    &&& m >= 3 ==> trace.registers[m - 3] == 0x09
    &&& m >= 4 ==> trace.registers[m - 4] == 0x08
    &&& m >= 5 ==> trace.registers[m - 5] == 0x07
    &&& m >= 6 ==> trace.registers[m - 6] == 0x04
    &&& m >= 7 ==> trace.registers[m - 7] == 0x02
    &&& m >= 8 ==> trace.registers[m - 8] == 0x00
    &&& raw.century == values((n + m - 2) as nat)
    &&& raw.year == values((n + m - 3) as nat)
    &&& raw.month == values((n + m - 4) as nat)
    &&& raw.day == values((n + m - 5) as nat)
    &&& raw.hour == values((n + m - 6) as nat)
    &&& raw.minute == values((n + m - 7) as nat)
    &&& raw.second == values((n + m - 8) as nat)
}

/// The timestamp was read once the chip was not updating, or had been polled so
/// often that the wait was given up.
pub open spec fn was_settled(trace: Trace, values: Values, n: int, spins: int) -> bool {
    let m = trace.registers.len();
    &&& m >= 9 && trace.registers[m - 9] == 0x0A
    &&& values((n + m - 9) as nat) & 0x80 == 0 || m >= spins + 9
}

proof fn lemma_settling_ends(
    previous: Option<Raw>,
    tries: nat,
    spins: nat,
    values: Values,
    n: nat,
)
    requires
        spins <= MAX_SPINS,
    ensures
        ends_in_a_timestamp(settling(previous, tries, spins, values, n), values, n as int),
        was_settled(settling(previous, tries, spins, values, n), values, n as int, spins as int),
        settling(previous, tries, spins, values, n).seen.len() > 0,
    decreases rounds(previous, tries), 1nat, spins,
{
    reveal_with_fuel(settling, 2);
    if values(n) & 0x80 != 0 && spins > 0 {
        lemma_settling_ends(previous, tries, (spins - 1) as nat, values, n + 1);
    } else {
        lemma_fetching_ends(previous, tries, Seq::empty(), values, n + 1);
    }
}

proof fn lemma_fetching_ends(
    previous: Option<Raw>,
    tries: nat,
    got: Seq<u8>,
    values: Values,
    n: nat,
)
    requires
        got.len() <= 7,
        got.len() <= n,
        forall|i: int|
            0 <= i < got.len() ==> #[trigger] got[i] == values((n - got.len() + i) as nat),
    ensures
        ({
            let trace = fetching(previous, tries, got, values, n);
            let m = trace.registers.len();
            &&& ends_in_a_timestamp(trace, values, n as int)
            &&& m == 8 - got.len() || (m >= 16 - got.len() && was_settled(
                trace,
                values,
                n as int,
                MAX_SPINS as int,
            ))
            &&& trace.seen.len() > 0
        }),
    decreases
            rounds(previous, tries),
            0nat,
            if got.len() >= 7 {
                1int
            } else {
                8 - got.len()
            },
{
    reveal_with_fuel(fetching, 2);
    if got.len() >= 7 {
        assert(got[0] == values((n - 7) as nat) && got[1] == values((n - 6) as nat) && got[2]
            == values((n - 5) as nat) && got[3] == values((n - 4) as nat) && got[4] == values(
            (n - 3) as nat,
        ) && got[5] == values((n - 2) as nat) && got[6] == values((n - 1) as nat));
        lemma_compared_ends(previous, tries, raw_of(got), values, n);
    } else {
        let more = got.push(values(n));
        assert forall|i: int| 0 <= i < more.len() implies #[trigger] more[i] == values(
            (n + 1 - more.len() + i) as nat,
        ) by {
            if i < got.len() {
                assert(more[i] == got[i]);
            }
        }
        lemma_fetching_ends(previous, tries, more, values, n + 1);
    }
}

proof fn lemma_compared_ends(
    previous: Option<Raw>,
    tries: nat,
    raw: Raw,
    values: Values,
    n: nat,
)
    requires
        n >= 7,
        raw.century == values((n - 1) as nat),
        raw.year == values((n - 2) as nat),
        raw.month == values((n - 3) as nat),
        raw.day == values((n - 4) as nat),
        raw.hour == values((n - 5) as nat),
        raw.minute == values((n - 6) as nat),
        raw.second == values((n - 7) as nat),
    ensures
        ({
            let trace = compared(previous, tries, raw, values, n);
            let m = trace.registers.len();
            &&& ends_in_a_timestamp(trace, values, n as int)
            &&& m == 1 || (m >= 9 && was_settled(trace, values, n as int, MAX_SPINS as int))
            &&& trace.seen.len() > 0
        }),
    decreases rounds(previous, tries), 0nat, 0int,
{
    reveal_with_fuel(compared, 2);
    let trace = compared(previous, tries, raw, values, n);
    if previous == Some(raw) || (previous is Some && tries == 0) {
        assert(trace.seen =~= seq![raw]);
    } else {
        let fewer = if previous is None {
            tries
        } else {
            (tries - 1) as nat
        };
        lemma_settling_ends(Some(raw), fewer, MAX_SPINS as nat, values, n);
        let rest = settling(Some(raw), fewer, MAX_SPINS as nat, values, n);
        assert(trace.seen.last() == rest.seen.last());
    }
}

/// The time that a reading gives is what the chip's registers held: the seconds
/// register for the seconds, and so on, as status register B, which is read last,
/// has them. They are read in one go, right after the chip was seen not to be
/// updating; only a chip that is polled a million times in vain is read all the
/// same.
pub proof fn law_readings_come_from_the_registers(values: Values)
    ensures
        ({
            let trace = reading(values);
            let m = trace.registers.len();
            &&& ends_in_a_timestamp(trace, values, 0)
            &&& m >= 9 && trace.registers[m - 9] == 0x0A
            &&& values((m - 9) as nat) / 128 % 2 == 0 || m >= 1_000_009
            &&& trace.time == decoded(trace.seen.last(), values((m - 1) as nat))
        }),
{
    lemma_settling_ends(None, MAX_SPINS as nat, MAX_SPINS as nat, values, 0);
    law_reading_is_not_torn(values);
    let polled = values((reading(values).registers.len() - 9) as nat);
    assert(polled & 0x80 == 0 <==> polled / 128 % 2 == 0) by (bit_vector);
}

/// A time is written as its parts, each in as many digits as it always takes, the
/// year first: `YYYY-MM-DD hh:mm:ss`.
pub proof fn law_times_are_written_part_by_part(dt: DateTime)
    requires
        dt.year < 10_000,
        dt.month < 100,
        dt.day < 100,
        dt.hour < 100,
        dt.minute < 100,
        dt.second < 100,
    ensures
        ({
            let text = time_text(dt);
            &&& text.len() == 19
            &&& crate::text::digits_value(text.subrange(0, 4)) == dt.year
            &&& text[4] == '-'
            &&& crate::text::digits_value(text.subrange(5, 7)) == dt.month
            &&& text[7] == '-'
            &&& crate::text::digits_value(text.subrange(8, 10)) == dt.day
            &&& text[10] == ' '
            &&& crate::text::digits_value(text.subrange(11, 13)) == dt.hour
            &&& text[13] == ':'
            &&& crate::text::digits_value(text.subrange(14, 16)) == dt.minute
            &&& text[16] == ':'
            &&& crate::text::digits_value(text.subrange(17, 19)) == dt.second
            &&& crate::text::all_digits(text.subrange(0, 4))
            &&& crate::text::all_digits(text.subrange(5, 7))
            &&& crate::text::all_digits(text.subrange(8, 10))
            &&& crate::text::all_digits(text.subrange(11, 13))
            &&& crate::text::all_digits(text.subrange(14, 16))
            &&& crate::text::all_digits(text.subrange(17, 19))
        }),
{
    reveal_with_fuel(crate::text::ten_to, 5);
    crate::text::law_zeros_in_front_change_nothing(dt.year as nat, 4);
    crate::text::law_zeros_in_front_change_nothing(dt.month as nat, 2);
    crate::text::law_zeros_in_front_change_nothing(dt.day as nat, 2);
    crate::text::law_zeros_in_front_change_nothing(dt.hour as nat, 2);
    crate::text::law_zeros_in_front_change_nothing(dt.minute as nat, 2);
    crate::text::law_zeros_in_front_change_nothing(dt.second as nat, 2);
    let text = time_text(dt);
    assert(text.subrange(0, 4) =~= crate::text::padded(dt.year as nat, 4, '0'));
    assert(text.subrange(5, 7) =~= crate::text::padded(dt.month as nat, 2, '0'));
    assert(text.subrange(8, 10) =~= crate::text::padded(dt.day as nat, 2, '0'));
    assert(text.subrange(11, 13) =~= crate::text::padded(dt.hour as nat, 2, '0'));
    assert(text.subrange(14, 16) =~= crate::text::padded(dt.minute as nat, 2, '0'));
    assert(text.subrange(17, 19) =~= crate::text::padded(dt.second as nat, 2, '0'));
}

} // verus!
