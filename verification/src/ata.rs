//! ATA PIO disk driver (primary bus), polling mode.
//!
//! Reads sectors by writing an LBA and a command to the task-file registers,
//! then polling the status port and pulling 256 16-bit words out of the data
//! port. Polling rather than IRQ 14 keeps the driver synchronous and simple.
//!
//! A [`Transaction`] is one command from its first register write to its last
//! data word. It names one port access at a time; whoever runs it performs the
//! access and hands back what a read gave. The accesses of one transaction must
//! not be interleaved with those of another: that is what the bus lock around
//! it is for. What a transaction does is stated over the answers to its
//! accesses, in order, and holds whatever the device answers.

use vstd::prelude::*;

use crate::bytes::u32_at;
use crate::port::PortOp;

verus! {

/// Bytes in a disk sector.
pub const SECTOR_SIZE: usize = 512;

/// 16-bit words in a disk sector.
pub const SECTOR_WORDS: usize = 256;

const DATA: u16 = 0x1F0;

const SECTOR_COUNT: u16 = 0x1F2;

const LBA_LOW: u16 = 0x1F3;

const LBA_MID: u16 = 0x1F4;

const LBA_HIGH: u16 = 0x1F5;

const DRIVE_HEAD: u16 = 0x1F6;

const STATUS_COMMAND: u16 = 0x1F7;

/// Reading this port yields the alternate status, which (unlike 0x1F7) has no
/// side effects, so it is the correct port for timing delays. Writing it
/// targets the device control register.
const ALT_STATUS: u16 = 0x3F6;

/// Device control bit 1 (nIEN): stop the device asserting its IRQ line. This
/// driver polls, so completion interrupts are pure noise, and an unhandled one
/// escalates into a double fault.
const CTRL_NIEN: u8 = 0x02;

const ST_ERR: u8 = 0x01;

const ST_DRQ: u8 = 0x08;

const ST_DF: u8 = 0x20;

const ST_BSY: u8 = 0x80;

const CMD_READ_SECTORS: u8 = 0x20;

const CMD_IDENTIFY: u8 = 0xEC;

/// Ceiling on any hardware wait, so a wedged or absent device degrades into
/// an error instead of hanging the kernel.
pub const MAX_SPINS: u32 = 1_000_000;

/// LBA28 addressing tops out here; beyond it a real driver needs LBA48.
pub const MAX_LBA28: u32 = 0x0FFF_FFFF;

/// Why the disk did not answer a request.
#[derive(Debug, Clone, Copy, PartialEq, Eq, Structural)]
pub enum AtaError {
    /// Nothing responded on this drive number.
    NoDevice,
    /// Something responded, but it is not an ATA disk (e.g. an ATAPI CD-ROM).
    NotAta,
    /// The device never became ready.
    Timeout,
    /// The device reported ERR or a device fault.
    DeviceError,
    /// Sector past the end of the disk, or beyond LBA28's reach.
    OutOfRange,
}

/// A command and its parameters.
#[derive(Debug, Clone, Copy, PartialEq, Eq, Structural)]
pub enum Request {
    /// Have the drive describe itself.
    Identify { drive: u8 },
    /// Read one sector.
    Read { drive: u8, lba: u32 },
}

/// What each access answers, in the order of the accesses. An 8-bit read
/// answers in the low byte; what a write answers means nothing.
pub type Inputs = spec_fn(nat) -> u16;

/// The accesses that a transaction makes, and what it comes to: the sector
/// that the device transferred, or an error.
#[verifier::ext_equal]
pub ghost struct Trace {
    pub ops: Seq<PortOp>,
    pub result: Result<Seq<u8>, AtaError>,
}

impl Trace {
    /// The same, one access later.
    pub open spec fn after(self, op: PortOp) -> Trace {
        Trace { ops: seq![op] + self.ops, result: self.result }
    }

    /// Nothing more happens.
    pub open spec fn ended(result: Result<Seq<u8>, AtaError>) -> Trace {
        Trace { ops: Seq::empty(), result }
    }
}

/// The register writes that issue a command: select the drive and silence its
/// interrupt line, spend 400 ns on four reads of the alternate status, set the
/// parameters, and write the command.
pub open spec fn issue(head: u8, count: u8, low: u8, mid: u8, high: u8, command: u8) -> Seq<
    PortOp,
> {
    seq![
        PortOp::Write8 { port: 0x1F6, value: head },
        PortOp::Write8 { port: 0x3F6, value: 0x02 },
        PortOp::Read8 { port: 0x3F6 },
        PortOp::Read8 { port: 0x3F6 },
        PortOp::Read8 { port: 0x3F6 },
        PortOp::Read8 { port: 0x3F6 },
        PortOp::Write8 { port: 0x1F2, value: count },
        PortOp::Write8 { port: 0x1F3, value: low },
        PortOp::Write8 { port: 0x1F4, value: mid },
        PortOp::Write8 { port: 0x1F5, value: high },
        PortOp::Write8 { port: 0x1F7, value: command },
    ]
}

/// Accesses that issue a command.
pub const ISSUE_OPS: usize = 11;

impl Request {
    /// The accesses that issue the command. The drive/head register holds the
    /// addressing mode, the drive number, and the top four address bits.
    pub open spec fn preamble(self) -> Seq<PortOp> {
        match self {
            Request::Identify { drive } => issue(
                (0xA0 + 16 * (drive % 2)) as u8,
                0,
                0,
                0,
                0,
                0xEC,
            ),
            Request::Read { drive, lba } => issue(
                (0xE0 + 16 * (drive % 2) + lba / 0x100_0000) as u8,
                1,
                (lba % 256) as u8,
                (lba / 256 % 256) as u8,
                (lba / 65536 % 256) as u8,
                0x20,
            ),
        }
    }
}

/// Once a command is issued. Status 0 means nothing is attached; 0xFF is the
/// "floating bus" a pull-up resistor produces when no device drives the lines.
pub open spec fn issued(request: Request, inputs: Inputs, n: nat) -> Trace {
    let status = inputs(n) as u8;
    let rest = if status == 0 || status == 0xFF {
        Trace::ended(Err(AtaError::NoDevice))
    } else if request is Identify {
        settling(MAX_SPINS as nat, inputs, n + 1)
    } else {
        waiting(MAX_SPINS as nat, inputs, n + 1)
    };
    rest.after(PortOp::Read8 { port: 0x1F7 })
}

/// Polling until the device is no longer busy, `spins` more times at most.
pub open spec fn settling(spins: nat, inputs: Inputs, n: nat) -> Trace
    decreases spins,
{
    if spins == 0 {
        Trace::ended(Err(AtaError::Timeout))
    } else {
        let rest = if (inputs(n) as u8) & 0x80 == 0 {
            signature(inputs, n + 1)
        } else {
            settling((spins - 1) as nat, inputs, n + 1)
        };
        rest.after(PortOp::Read8 { port: 0x1F7 })
    }
}

/// A non-zero LBA mid/high after IDENTIFY is the device signalling that it
/// speaks ATAPI (or SATA), not ATA.
pub open spec fn signature(inputs: Inputs, n: nat) -> Trace {
    signature_high(inputs(n) as u8, inputs, n + 1).after(PortOp::Read8 { port: 0x1F4 })
}

/// The second half of the signature, once the first read `mid`.
pub open spec fn signature_high(mid: u8, inputs: Inputs, n: nat) -> Trace {
    let rest = if mid != 0 || inputs(n) as u8 != 0 {
        Trace::ended(Err(AtaError::NotAta))
    } else {
        waiting(MAX_SPINS as nat, inputs, n + 1)
    };
    rest.after(PortOp::Read8 { port: 0x1F5 })
}

/// Polling until the device has data, `spins` more times at most, failing fast
/// on errors.
pub open spec fn waiting(spins: nat, inputs: Inputs, n: nat) -> Trace
    decreases spins,
{
    if spins == 0 {
        Trace::ended(Err(AtaError::Timeout))
    } else {
        let status = inputs(n) as u8;
        let rest = if status & 0x01 != 0 || status & 0x20 != 0 {
            Trace::ended(Err(AtaError::DeviceError))
        } else if status & 0x80 == 0 && status & 0x08 != 0 {
            transfer(Seq::empty(), 256, inputs, n + 1)
        } else {
            waiting((spins - 1) as nat, inputs, n + 1)
        };
        rest.after(PortOp::Read8 { port: 0x1F7 })
    }
}

/// Pulling `words` more words out of the data port, each low byte first.
pub open spec fn transfer(data: Seq<u8>, words: nat, inputs: Inputs, n: nat) -> Trace
    decreases words,
{
    if words == 0 {
        Trace::ended(Ok(data))
    } else {
        let word = inputs(n);
        transfer(
            data.push((word % 256) as u8).push((word / 256) as u8),
            (words - 1) as nat,
            inputs,
            n + 1,
        ).after(PortOp::Read16 { port: 0x1F0 })
    }
}

/// All that a command does, given what its accesses answer. A sector number
/// beyond LBA28 is refused before any access.
pub open spec fn transaction(request: Request, inputs: Inputs) -> Trace {
    if request matches Request::Read { lba, .. } && lba > MAX_LBA28 {
        Trace::ended(Err(AtaError::OutOfRange))
    } else {
        let rest = issued(request, inputs, 11);
        Trace { ops: request.preamble() + rest.ops, result: rest.result }
    }
}

/// How far a transaction has come.
#[derive(Debug, Clone, Copy, PartialEq, Eq, Structural)]
pub enum Stage {
    /// Issuing the command; `done` of its accesses are made.
    Issuing { done: usize },
    /// About to see whether a device is there at all.
    Issued,
    /// Polling until the device is no longer busy.
    Settling { spins: u32 },
    /// About to read the first half of the signature.
    SignatureMid,
    /// About to read the second half of the signature.
    SignatureHigh { mid: u8 },
    /// Polling until the device has data.
    Waiting { spins: u32 },
    /// Pulling the data out; `done` words are read.
    Transferring { done: usize },
    /// The sector is complete.
    Complete,
    /// The command failed.
    Failed(AtaError),
}

/// One command to the disk, under way.
#[derive(Debug, Clone, Copy, PartialEq, Eq)]
pub struct Transaction {
    pub request: Request,
    pub stage: Stage,
    pub sector: [u8; SECTOR_SIZE],
}

impl Transaction {
    /// The counters are within their bounds, and a sector that is read is one
    /// that LBA28 reaches.
    pub open spec fn wf(&self) -> bool {
        &&& self.stage is Failed || (self.request matches Request::Read { lba, .. } ==> lba
            <= MAX_LBA28)
        &&& match self.stage {
            Stage::Issuing { done } => done < ISSUE_OPS,
            Stage::Settling { spins } => 0 < spins <= MAX_SPINS,
            Stage::Waiting { spins } => 0 < spins <= MAX_SPINS,
            Stage::Transferring { done } => done < SECTOR_WORDS,
            _ => true,
        }
    }

    /// What is still to come, the next answer being number `n`.
    pub open spec fn rest(&self, inputs: Inputs, n: nat) -> Trace {
        match self.stage {
            Stage::Issuing { done } => {
                let rest = issued(self.request, inputs, (n + ISSUE_OPS - done) as nat);
                Trace {
                    ops: self.request.preamble().skip(done as int) + rest.ops,
                    result: rest.result,
                }
            },
            Stage::Issued => issued(self.request, inputs, n),
            Stage::Settling { spins } => settling(spins as nat, inputs, n),
            Stage::SignatureMid => signature(inputs, n),
            Stage::SignatureHigh { mid } => signature_high(mid, inputs, n),
            Stage::Waiting { spins } => waiting(spins as nat, inputs, n),
            Stage::Transferring { done } => transfer(
                self.sector@.take(2 * done),
                (SECTOR_WORDS - done) as nat,
                inputs,
                n,
            ),
            Stage::Complete => Trace::ended(Ok(self.sector@)),
            Stage::Failed(error) => Trace::ended(Err(error)),
        }
    }

    /// The transaction is over.
    pub open spec fn is_over(&self) -> bool {
        self.stage is Complete || self.stage is Failed
    }

    /// The access to make next.
    pub open spec fn pending(&self) -> PortOp {
        match self.stage {
            Stage::Issuing { done } => self.request.preamble()[done as int],
            Stage::SignatureMid => PortOp::Read8 { port: 0x1F4 },
            Stage::SignatureHigh { mid } => PortOp::Read8 { port: 0x1F5 },
            Stage::Transferring { done } => PortOp::Read16 { port: 0x1F0 },
            _ => PortOp::Read8 { port: 0x1F7 },
        }
    }
}

/// Begins to probe `drive` (0 = master, 1 = slave). Its sector count is
/// [`Transaction::sector_count`].
pub fn identify(drive: u8) -> (command: Transaction)
    ensures
        command.wf(),
        command.request == (Request::Identify { drive }),
        forall|inputs: Inputs| #![trigger command.rest(inputs, 0)]
            command.rest(inputs, 0) == transaction(Request::Identify { drive }, inputs),
{
    let command = Transaction {
        request: Request::Identify { drive },
        stage: Stage::Issuing { done: 0 },
        sector: [0u8; SECTOR_SIZE],
    };
    assert(command.request.preamble().skip(0) =~= command.request.preamble());
    command
}

/// All that reading a sector of a drive that has `sectors` of them does.
pub open spec fn sector_read(drive: u8, lba: u32, sectors: u32, inputs: Inputs) -> Trace {
    if lba >= sectors || lba > MAX_LBA28 {
        Trace::ended(Err(AtaError::OutOfRange))
    } else {
        transaction(Request::Read { drive, lba }, inputs)
    }
}

/// The sectors of a disk that can be read are those that it has, from number 0 on,
/// and that 28 bits can number: the device is asked for each of them, and never for
/// another.
pub proof fn law_the_sectors_of_a_disk_are_read(
    drive: u8,
    lba: u32,
    sectors: u32,
    inputs: Inputs,
)
    ensures
        lba < sectors && lba < 0x1000_0000 ==> sector_read(drive, lba, sectors, inputs)
            == transaction(Request::Read { drive, lba }, inputs) && sector_read(
            drive,
            lba,
            sectors,
            inputs,
        ).ops.len() > 11,
        !(lba < sectors && lba < 0x1000_0000) ==> sector_read(drive, lba, sectors, inputs).ops.len()
            == 0 && sector_read(drive, lba, sectors, inputs).result == Err::<Seq<u8>, AtaError>(
            AtaError::OutOfRange,
        ),
{
    if lba < sectors && lba < 0x1000_0000 {
        law_the_sector_number_is_sent(drive, lba, inputs);
    }
}

/// Begins to read a single 512-byte sector of a drive that has `sectors` of
/// them, as [`identify`] found. A sector past the end of the disk, or beyond
/// LBA28's reach, is refused before any access.
pub fn read_sector(drive: u8, lba: u32, sectors: u32) -> (command: Transaction)
    ensures
        command.wf(),
        command.request == (Request::Read { drive, lba }),
        lba >= sectors || lba > MAX_LBA28 ==> forall|inputs: Inputs|
            #![trigger command.rest(inputs, 0)]
            command.rest(inputs, 0) == Trace::ended(Err(AtaError::OutOfRange)),
        !(lba >= sectors || lba > MAX_LBA28) ==> forall|inputs: Inputs|
            #![trigger command.rest(inputs, 0)]
            command.rest(inputs, 0) == transaction(Request::Read { drive, lba }, inputs),
        forall|inputs: Inputs|
            #![trigger command.rest(inputs, 0)]
            command.rest(inputs, 0) == sector_read(drive, lba, sectors, inputs),
{
    let command = Transaction {
        request: Request::Read { drive, lba },
        stage: if lba >= sectors || lba > MAX_LBA28 {
            Stage::Failed(AtaError::OutOfRange)
        } else {
            Stage::Issuing { done: 0 }
        },
        sector: [0u8; SECTOR_SIZE],
    };
    assert(command.request.preamble().skip(0) =~= command.request.preamble());
    command
}

impl Request {
    /// The value of the drive/head register.
    fn head(&self) -> (head: u8)
        requires
            self matches Request::Read { lba, .. } ==> lba <= MAX_LBA28,
        ensures
            self.preamble()[0] == (PortOp::Write8 { port: 0x1F6, value: head }),
    {
        match *self {
            Request::Identify { drive } => 0xA0 + 16 * (drive % 2),
            Request::Read { drive, lba } => 0xE0 + 16 * (drive % 2) + (lba / 0x100_0000) as u8,
        }
    }

    /// Access `i` of those that issue the command.
    fn issue_op(&self, i: usize) -> (op: PortOp)
        requires
            i < ISSUE_OPS,
            self matches Request::Read { lba, .. } ==> lba <= MAX_LBA28,
        ensures
            op == self.preamble()[i as int],
    {
        let (count, low, mid, high, command): (u8, u8, u8, u8, u8) = match *self {
            Request::Identify { .. } => (0, 0, 0, 0, CMD_IDENTIFY),
            Request::Read { lba, .. } => (
                1,
                (lba % 256) as u8,
                (lba / 256 % 256) as u8,
                (lba / 65536 % 256) as u8,
                CMD_READ_SECTORS,
            ),
        };
        if i == 0 {
            PortOp::Write8 { port: DRIVE_HEAD, value: self.head() }
        } else if i == 1 {
            PortOp::Write8 { port: ALT_STATUS, value: CTRL_NIEN }
        } else if i < 6 {
            PortOp::Read8 { port: ALT_STATUS }
        } else if i == 6 {
            PortOp::Write8 { port: SECTOR_COUNT, value: count }
        } else if i == 7 {
            PortOp::Write8 { port: LBA_LOW, value: low }
        } else if i == 8 {
            PortOp::Write8 { port: LBA_MID, value: mid }
        } else if i == 9 {
            PortOp::Write8 { port: LBA_HIGH, value: high }
        } else {
            PortOp::Write8 { port: STATUS_COMMAND, value: command }
        }
    }
}

impl Transaction {
    /// The access to make next; nothing once the transaction is over.
    pub fn op(&self) -> (op: Option<PortOp>)
        requires
            self.wf(),
        ensures
            op == (if self.is_over() {
                None
            } else {
                Some(self.pending())
            }),
    {
        match self.stage {
            Stage::Issuing { done } => Some(self.request.issue_op(done)),
            Stage::SignatureMid => Some(PortOp::Read8 { port: LBA_MID }),
            Stage::SignatureHigh { .. } => Some(PortOp::Read8 { port: LBA_HIGH }),
            Stage::Transferring { .. } => Some(PortOp::Read16 { port: DATA }),
            Stage::Complete => None,
            Stage::Failed(_) => None,
            _ => Some(PortOp::Read8 { port: STATUS_COMMAND }),
        }
    }

    /// Goes on once the access is made; `value` is what a read gave.
    pub fn step(&mut self, value: u16)
        requires
            old(self).wf(),
            !old(self).is_over(),
        ensures
            final(self).wf(),
            final(self).request == old(self).request,
            forall|inputs: Inputs, n: nat|
                inputs(n) == value ==> #[trigger] old(self).rest(inputs, n) == final(self).rest(
                    inputs,
                    n + 1,
                ).after(old(self).pending()),
    {
        let status: u8 = #[verifier::truncate] (value as u8);
        proof {
            reveal_with_fuel(settling, 2);
            reveal_with_fuel(waiting, 2);
            reveal_with_fuel(transfer, 2);
        }
        match self.stage {
            Stage::Issuing { done } => {
                let ghost preamble = self.request.preamble();
                assert(preamble.skip(done as int) =~= seq![preamble[done as int]] + preamble.skip(
                    done + 1,
                ));
                assert(preamble.skip(ISSUE_OPS as int) =~= Seq::<PortOp>::empty());
                self.stage = if done + 1 < ISSUE_OPS {
                    Stage::Issuing { done: done + 1 }
                } else {
                    Stage::Issued
                };
                proof {
                    let after = *self;
                    assert forall|inputs: Inputs, n: nat| inputs(n) == value implies #[trigger] old(
                        self,
                    ).rest(inputs, n) == after.rest(inputs, n + 1).after(
                        preamble[done as int],
                    ) by {
                        let m = (n + ISSUE_OPS - done) as nat;
                        assert(done + 1 == ISSUE_OPS ==> m == n + 1);
                        assert((n + 1 + ISSUE_OPS - (done + 1)) as nat == m);
                        assert(old(self).rest(inputs, n) =~= after.rest(inputs, n + 1).after(
                            preamble[done as int],
                        ));
                    }
                }
            },
            Stage::Issued => {
                self.stage = if status == 0 || status == 0xFF {
                    Stage::Failed(AtaError::NoDevice)
                } else if let Request::Identify { .. } = self.request {
                    Stage::Settling { spins: MAX_SPINS }
                } else {
                    Stage::Waiting { spins: MAX_SPINS }
                };
            },
            Stage::Settling { spins } => {
                self.stage = if status & ST_BSY == 0 {
                    Stage::SignatureMid
                } else if spins > 1 {
                    Stage::Settling { spins: spins - 1 }
                } else {
                    Stage::Failed(AtaError::Timeout)
                };
            },
            Stage::SignatureMid => {
                self.stage = Stage::SignatureHigh { mid: status };
            },
            Stage::SignatureHigh { mid } => {
                self.stage = if mid != 0 || status != 0 {
                    Stage::Failed(AtaError::NotAta)
                } else {
                    Stage::Waiting { spins: MAX_SPINS }
                };
            },
            Stage::Waiting { spins } => {
                assert(self.sector@.take(0) =~= Seq::<u8>::empty());
                self.stage = if status & ST_ERR != 0 || status & ST_DF != 0 {
                    Stage::Failed(AtaError::DeviceError)
                } else if status & ST_BSY == 0 && status & ST_DRQ != 0 {
                    Stage::Transferring { done: 0 }
                } else if spins > 1 {
                    Stage::Waiting { spins: spins - 1 }
                } else {
                    Stage::Failed(AtaError::Timeout)
                };
            },
            Stage::Transferring { done } => {
                let ghost before = self.sector@;
                self.sector[2 * done] = (value % 256) as u8;
                self.sector[2 * done + 1] = (value / 256) as u8;
                assert(self.sector@.take(2 * (done + 1)) =~= before.take(2 * done).push(
                    (value % 256) as u8,
                ).push((value / 256) as u8));
                assert(self.sector@.take(512) =~= self.sector@);
                self.stage = if done + 1 < SECTOR_WORDS {
                    Stage::Transferring { done: done + 1 }
                } else {
                    Stage::Complete
                };
            },
            _ => {},
        }
    }

    /// The sector that was transferred, or why there is none; nothing while the
    /// transaction is under way.
    pub fn result(&self) -> (result: Option<Result<&[u8; SECTOR_SIZE], AtaError>>)
        ensures
            match self.stage {
                Stage::Complete => result == Some(
                    Ok::<&[u8; SECTOR_SIZE], AtaError>(&self.sector),
                ),
                Stage::Failed(error) => result == Some(
                    Err::<&[u8; SECTOR_SIZE], AtaError>(error),
                ),
                _ => result is None,
            },
    {
        match self.stage {
            Stage::Complete => Some(Ok(&self.sector)),
            Stage::Failed(error) => Some(Err(error)),
            _ => None,
        }
    }

    /// The drive's LBA28 sector count, once it has identified itself.
    pub fn sector_count(&self) -> (result: Option<Result<u32, AtaError>>)
        ensures
            match self.stage {
                Stage::Complete => result == Some(
                    Ok::<u32, AtaError>(crate::bytes::le32(self.sector@, 120) as u32),
                ) && result == Some(Ok::<u32, AtaError>(sectors_told(self.sector@))),
                Stage::Failed(error) => result == Some(Err::<u32, AtaError>(error)),
                _ => result is None,
            },
    {
        match self.stage {
            // Words 60..61 hold the total addressable sectors in LBA28 mode.
            Stage::Complete => Some(Ok(u32_at(&self.sector, 120))),
            Stage::Failed(error) => Some(Err(error)),
            _ => None,
        }
    }
}

/// Every wait on the device is bounded: whatever it answers, a transaction ends
/// within a fixed number of accesses, and where it succeeds it transferred
/// exactly one sector.
pub proof fn law_transaction_is_bounded(request: Request, inputs: Inputs)
    ensures
        ({
            let trace = transaction(request, inputs);
            &&& trace.ops.len() <= 2 * MAX_SPINS + 270
            &&& trace.result matches Ok(sector) ==> sector.len() == SECTOR_SIZE
        }),
{
    assert(request.preamble().len() == 11);
    if request is Identify {
        lemma_settling_is_bounded(MAX_SPINS as nat, inputs, 12);
    }
    lemma_waiting_is_bounded(MAX_SPINS as nat, inputs, 12);
}

proof fn lemma_transfer_is_bounded(data: Seq<u8>, words: nat, inputs: Inputs, n: nat)
    ensures
        transfer(data, words, inputs, n).ops.len() == words,
        transfer(data, words, inputs, n).result matches Ok(sector) && sector.len() == data.len() + 2
            * words,
    decreases words,
{
    if words > 0 {
        let word = inputs(n);
        lemma_transfer_is_bounded(
            data.push((word % 256) as u8).push((word / 256) as u8),
            (words - 1) as nat,
            inputs,
            n + 1,
        );
    }
}

proof fn lemma_waiting_is_bounded(spins: nat, inputs: Inputs, n: nat)
    ensures
        waiting(spins, inputs, n).ops.len() <= spins + 256,
        waiting(spins, inputs, n).result matches Ok(sector) ==> sector.len() == SECTOR_SIZE,
    decreases spins,
{
    if spins > 0 {
        lemma_transfer_is_bounded(Seq::empty(), 256, inputs, n + 1);
        lemma_waiting_is_bounded((spins - 1) as nat, inputs, n + 1);
    }
}

proof fn lemma_settling_is_bounded(spins: nat, inputs: Inputs, n: nat)
    ensures
        settling(spins, inputs, n).ops.len() <= spins + MAX_SPINS + 258,
        settling(spins, inputs, n).result matches Ok(sector) ==> sector.len() == SECTOR_SIZE,
    decreases spins,
{
    if spins > 0 {
        lemma_waiting_is_bounded(MAX_SPINS as nat, inputs, n + 3);
        lemma_settling_is_bounded((spins - 1) as nat, inputs, n + 1);
    }
}

/// Before a command reaches a device, the device has been selected and told not
/// to raise its interrupt line.
pub proof fn law_interrupts_are_silenced(request: Request, inputs: Inputs)
    ensures
        ({
            let ops = transaction(request, inputs).ops;
            ops.len() > 0 ==> {
                &&& ops.len() > 10
                &&& ops[0] is Write8 && ops[0]->Write8_port == 0x1F6
                &&& ops[1] == (PortOp::Write8 { port: 0x3F6, value: 0x02 })
                &&& forall|i: int|
                    0 <= i < ops.len() && (#[trigger] ops[i]) is Write8 && ops[i]->Write8_port
                        == 0x1F7 ==> i == 10
            }
        }),
{
    let ops = transaction(request, inputs).ops;
    if ops.len() > 0 {
        let rest = issued(request, inputs, 11);
        lemma_polling_writes_nothing(request, inputs);
        assert(ops =~= request.preamble() + rest.ops);
        assert forall|i: int|
            0 <= i < ops.len() && (#[trigger] ops[i]) is Write8 && ops[i]->Write8_port
                == 0x1F7 implies i == 10 by {
            if i >= 11 {
                assert(ops[i] == rest.ops[i - 11]);
            }
        }
    }
}

/// No access of the trace is a write.
spec fn only_reads(trace: Trace) -> bool {
    forall|i: int| 0 <= i < trace.ops.len() ==> (#[trigger] trace.ops[i]) !is Write8
}

proof fn lemma_reads_after(trace: Trace, op: PortOp)
    requires
        only_reads(trace),
        op !is Write8,
    ensures
        only_reads(trace.after(op)),
{
    let all = trace.after(op);
    assert forall|i: int| 0 <= i < all.ops.len() implies (#[trigger] all.ops[i]) !is Write8 by {
        if i > 0 {
            assert(all.ops[i] == trace.ops[i - 1]);
        }
    }
}

proof fn lemma_transfer_reads(data: Seq<u8>, words: nat, inputs: Inputs, n: nat)
    ensures
        only_reads(transfer(data, words, inputs, n)),
    decreases words,
{
    if words > 0 {
        let word = inputs(n);
        let more = data.push((word % 256) as u8).push((word / 256) as u8);
        lemma_transfer_reads(more, (words - 1) as nat, inputs, n + 1);
        lemma_reads_after(
            transfer(more, (words - 1) as nat, inputs, n + 1),
            PortOp::Read16 { port: 0x1F0 },
        );
    }
}

proof fn lemma_waiting_reads(spins: nat, inputs: Inputs, n: nat)
    ensures
        only_reads(waiting(spins, inputs, n)),
    decreases spins,
{
    if spins > 0 {
        let op = PortOp::Read8 { port: 0x1F7 };
        lemma_transfer_reads(Seq::empty(), 256, inputs, n + 1);
        lemma_waiting_reads((spins - 1) as nat, inputs, n + 1);
        lemma_reads_after(transfer(Seq::empty(), 256, inputs, n + 1), op);
        lemma_reads_after(waiting((spins - 1) as nat, inputs, n + 1), op);
    }
}

proof fn lemma_settling_reads(spins: nat, inputs: Inputs, n: nat)
    ensures
        only_reads(settling(spins, inputs, n)),
    decreases spins,
{
    if spins > 0 {
        let op = PortOp::Read8 { port: 0x1F7 };
        let mid = inputs(n + 1) as u8;
        lemma_waiting_reads(MAX_SPINS as nat, inputs, n + 3);
        lemma_reads_after(
            waiting(MAX_SPINS as nat, inputs, n + 3),
            PortOp::Read8 { port: 0x1F5 },
        );
        lemma_reads_after(signature_high(mid, inputs, n + 2), PortOp::Read8 { port: 0x1F4 });
        lemma_reads_after(signature(inputs, n + 1), op);
        lemma_settling_reads((spins - 1) as nat, inputs, n + 1);
        lemma_reads_after(settling((spins - 1) as nat, inputs, n + 1), op);
    }
}

proof fn lemma_polling_writes_nothing(request: Request, inputs: Inputs)
    ensures
        only_reads(issued(request, inputs, 11)),
{
    let op = PortOp::Read8 { port: 0x1F7 };
    lemma_settling_reads(MAX_SPINS as nat, inputs, 12);
    lemma_waiting_reads(MAX_SPINS as nat, inputs, 12);
    lemma_reads_after(settling(MAX_SPINS as nat, inputs, 12), op);
    lemma_reads_after(waiting(MAX_SPINS as nat, inputs, 12), op);
}

/// The value that an access writes.
pub open spec fn value_written(op: PortOp) -> int {
    match op {
        PortOp::Write8 { value, .. } => value as int,
        _ => 0,
    }
}

/// The access writes to this port.
pub open spec fn writes_to(op: PortOp, port: int) -> bool {
    op matches PortOp::Write8 { port: there, .. } && there == port
}

/// A read is issued as one: the drive is selected, LBA addressing is on, one
/// sector is asked for, and its number goes out in four parts, eight bits each
/// through three registers and the top four bits along with the drive; the command
/// comes last.
pub proof fn law_the_sector_number_is_sent(drive: u8, lba: u32, inputs: Inputs)
    requires
        lba <= 0x0FFF_FFFF,
    ensures
        ({
            let ops = transaction(Request::Read { drive, lba }, inputs).ops;
            let head = value_written(ops[0]);
            &&& ops.len() > 11
            &&& writes_to(ops[0], 0x1F6)
            &&& forall|i: int|
                2 <= i < 6 ==> #[trigger] ops[i] == (PortOp::Read8 { port: 0x3F6 })
            &&& head / 32 == 7
            &&& head / 16 % 2 == drive % 2
            &&& writes_to(ops[6], 0x1F2) && value_written(ops[6]) == 1
            &&& writes_to(ops[7], 0x1F3)
            &&& writes_to(ops[8], 0x1F4)
            &&& writes_to(ops[9], 0x1F5)
            &&& value_written(ops[7]) + 0x100 * value_written(ops[8]) + 0x1_0000 * value_written(
                ops[9],
            ) + 0x100_0000 * (head % 16) == lba
            &&& writes_to(ops[10], 0x1F7) && value_written(ops[10]) == 0x20
            &&& ops[11] == (PortOp::Read8 { port: 0x1F7 })
        }),
{
    let request = Request::Read { drive, lba };
    let ops = transaction(request, inputs).ops;
    let rest = issued(request, inputs, 11);
    assert(ops =~= request.preamble() + rest.ops);
    assert(ops[11] == rest.ops[0]);
    assert(lba / 0x100_0000 < 16);
    assert(lba == lba % 256 + 0x100 * (lba / 256 % 256) + 0x1_0000 * (lba / 65536 % 256)
        + 0x100_0000 * (lba / 0x100_0000));
}

/// An identification is issued as one: the drive is selected, every parameter is 0,
/// and the command comes last.
pub proof fn law_identification_is_asked_for(drive: u8, inputs: Inputs)
    ensures
        ({
            let ops = transaction(Request::Identify { drive }, inputs).ops;
            let head = value_written(ops[0]);
            &&& ops.len() > 11
            &&& writes_to(ops[0], 0x1F6)
            &&& head == 0xA0 || head == 0xB0
            &&& head / 16 % 2 == drive % 2
            &&& writes_to(ops[6], 0x1F2) && value_written(ops[6]) == 0
            &&& writes_to(ops[7], 0x1F3) && value_written(ops[7]) == 0
            &&& writes_to(ops[8], 0x1F4) && value_written(ops[8]) == 0
            &&& writes_to(ops[9], 0x1F5) && value_written(ops[9]) == 0
            &&& writes_to(ops[10], 0x1F7) && value_written(ops[10]) == 0xEC
            &&& ops[11] == (PortOp::Read8 { port: 0x1F7 })
        }),
{
    let request = Request::Identify { drive };
    let ops = transaction(request, inputs).ops;
    let rest = issued(request, inputs, 11);
    assert(ops =~= request.preamble() + rest.ops);
    assert(ops[11] == rest.ops[0]);
}

/// The status says that the command failed: its bit 0 or its bit 5 is set.
pub open spec fn reports_failure(answer: u16) -> bool {
    answer % 2 == 1 || answer / 32 % 2 == 1
}

/// The status says that data are there: its bit 3 is set, and bit 7, which says
/// that the device is busy, is not.
pub open spec fn reports_data(answer: u16) -> bool {
    !reports_failure(answer) && answer / 8 % 2 == 1 && answer / 128 % 2 == 0
}

/// The status says that the device is busy.
pub open spec fn reports_busy(answer: u16) -> bool {
    answer / 128 % 2 == 1
}

proof fn lemma_status_bits(answer: u16)
    ensures
        ({
            let status = answer as u8;
            &&& status & 0x01 != 0 || status & 0x20 != 0 <==> reports_failure(answer)
            &&& status & 0x80 == 0 <==> !reports_busy(answer)
            &&& status & 0x08 != 0 <==> answer / 8 % 2 == 1
            &&& status == 0 <==> answer % 256 == 0
            &&& status == 0xFF <==> answer % 256 == 255
            &&& status == answer % 256
        }),
{
    assert(((answer as u8) & 0x01 != 0 <==> answer % 2 == 1) && ((answer as u8) & 0x20 != 0 <==> answer
        / 32 % 2 == 1) && ((answer as u8) & 0x80 == 0 <==> answer / 128 % 2 == 0) && ((answer as u8)
        & 0x08 != 0 <==> answer / 8 % 2 == 1) && (answer as u8 == answer % 256)) by (bit_vector);
}

/// The words that were transferred, from access number `n` on, lie in the sector in
/// their order, each low byte first.
pub open spec fn holds_words(sector: Seq<u8>, from: int, words: int, inputs: Inputs, n: int) -> bool {
    forall|k: int| #![trigger sector[from + 2 * k]]
        0 <= k < words ==> sector[from + 2 * k] + 256 * sector[from + 2 * k + 1] == inputs(
            (n + k) as nat,
        )
}

proof fn lemma_words(data: Seq<u8>, words: nat, inputs: Inputs, n: nat)
    ensures
        ({
            let trace = transfer(data, words, inputs, n);
            &&& trace.ops.len() == words
            &&& trace.result matches Ok(sector) && sector.len() == data.len() + 2 * words
                && sector.take(data.len() as int) == data && holds_words(
                sector,
                data.len() as int,
                words as int,
                inputs,
                n as int,
            )
            &&& forall|i: int|
                0 <= i < words ==> #[trigger] trace.ops[i] == (PortOp::Read16 { port: 0x1F0 })
        }),
    decreases words,
{
    if words == 0 {
        assert(data.take(data.len() as int) =~= data);
    } else {
        let word = inputs(n);
        let more = data.push((word % 256) as u8).push((word / 256) as u8);
        lemma_words(more, (words - 1) as nat, inputs, n + 1);
        let trace = transfer(data, words, inputs, n);
        let rest = transfer(more, (words - 1) as nat, inputs, n + 1);
        let sector = trace.result->Ok_0;
        let from = data.len() as int;
        assert(sector.take(from) =~= data) by {
            assert forall|i: int| 0 <= i < from implies sector[i] == data[i] by {
                assert(sector.take(more.len() as int)[i] == more[i]);
            }
        }
        assert(sector[from] == word % 256 && sector[from + 1] == word / 256) by {
            assert(sector.take(more.len() as int)[from] == more[from]);
            assert(sector.take(more.len() as int)[from + 1] == more[from + 1]);
        }
        assert forall|k: int| #![trigger sector[from + 2 * k]] 0 <= k < words implies sector[from + 2
            * k] + 256 * sector[from + 2 * k + 1] == inputs((n + k) as nat) by {
            if k > 0 {
                let j = k - 1;
                assert(sector[more.len() + 2 * j] + 256 * sector[more.len() + 2 * j + 1] == inputs(
                    (n + 1 + j) as nat,
                ));
            }
        }
        assert forall|i: int| 0 <= i < words implies #[trigger] trace.ops[i] == (PortOp::Read16 {
            port: 0x1F0,
        }) by {
            if i > 0 {
                assert(trace.ops[i] == rest.ops[i - 1]);
            }
        }
    }
}

/// What waiting for data comes to, by the first answer that decides. Before it come
/// `k` answers that do not.
pub proof fn law_the_first_word_on_data_counts(spins: nat, inputs: Inputs, n: nat, k: nat)
    requires
        k <= spins,
        forall|i: int|
            0 <= i < k ==> !reports_failure(#[trigger] inputs((n + i) as nat)) && !reports_data(
                inputs((n + i) as nat),
            ),
    ensures
        ({
            let trace = waiting(spins, inputs, n);
            &&& k == spins ==> trace.result == Err::<Seq<u8>, AtaError>(AtaError::Timeout)
                && trace.ops.len() == spins
            &&& k < spins && reports_failure(inputs(n + k)) ==> trace.result == Err::<
                Seq<u8>,
                AtaError,
            >(AtaError::DeviceError) && trace.ops.len() == k + 1
            &&& k < spins && reports_data(inputs(n + k)) ==> trace.ops.len() == k + 1 + 256 && (
            trace.result matches Ok(sector) && sector.len() == 512 && holds_words(
                sector,
                0,
                256,
                inputs,
                (n + k + 1) as int,
            ))
        }),
    decreases k,
{
    if spins > 0 {
        lemma_status_bits(inputs(n));
        if k == 0 {
            lemma_words(Seq::empty(), 256, inputs, n + 1);
        } else {
            assert(inputs((n + 0) as nat) == inputs(n));
            assert forall|i: int| 0 <= i < k - 1 implies !reports_failure(
                #[trigger] inputs((n + 1 + i) as nat),
            ) && !reports_data(inputs((n + 1 + i) as nat)) by {
                assert((n + (i + 1)) as nat == (n + 1 + i) as nat);
                assert(!reports_failure(inputs((n + (i + 1)) as nat)));
            }
            law_the_first_word_on_data_counts(
                (spins - 1) as nat,
                inputs,
                n + 1,
                (k - 1) as nat,
            );
            assert(n + 1 + (k - 1) == n + k);
        }
    }
}

/// What a read comes to: nothing is there where the first status is 0 or 255;
/// otherwise what waiting for data comes to, a million times at the most. A sector
/// beyond 2^28 is not asked for at all.
pub proof fn law_reads_end_by_what_the_device_says(drive: u8, lba: u32, inputs: Inputs)
    ensures
        ({
            let trace = transaction(Request::Read { drive, lba }, inputs);
            let status = inputs(11) % 256;
            &&& lba >= 0x1000_0000 ==> trace == Trace::ended(Err(AtaError::OutOfRange))
            &&& lba < 0x1000_0000 && (status == 0 || status == 255) ==> trace.result == Err::<
                Seq<u8>,
                AtaError,
            >(AtaError::NoDevice) && trace.ops.len() == 12
            &&& lba < 0x1000_0000 && status != 0 && status != 255 ==> trace.result == waiting(
                1_000_000,
                inputs,
                12,
            ).result
        }),
{
    lemma_status_bits(inputs(11));
}

/// What an identification comes to: as for a read, but that once the device is no
/// longer busy, after `k` answers, it tells by a signature of two zeros that it is
/// a disk at all.
pub proof fn law_disks_identify_themselves(drive: u8, inputs: Inputs, k: nat)
    requires
        k <= 1_000_000,
        forall|i: int| 0 <= i < k ==> reports_busy(#[trigger] inputs((12 + i) as nat)),
    ensures
        ({
            let trace = transaction(Request::Identify { drive }, inputs);
            let status = inputs(11) % 256;
            &&& status == 0 || status == 255 ==> trace.result == Err::<Seq<u8>, AtaError>(
                AtaError::NoDevice,
            )
            &&& status != 0 && status != 255 && k == 1_000_000 ==> trace.result == Err::<
                Seq<u8>,
                AtaError,
            >(AtaError::Timeout)
            &&& status != 0 && status != 255 && k < 1_000_000 && !reports_busy(inputs(12 + k))
                ==> trace.result == (if inputs(13 + k) % 256 == 0 && inputs(14 + k) % 256 == 0 {
                waiting(1_000_000, inputs, 15 + k).result
            } else {
                Err::<Seq<u8>, AtaError>(AtaError::NotAta)
            })
        }),
{
    lemma_status_bits(inputs(11));
    lemma_settled(1_000_000, inputs, 12, k);
}

proof fn lemma_settled(spins: nat, inputs: Inputs, n: nat, k: nat)
    requires
        k <= spins,
        forall|i: int| 0 <= i < k ==> reports_busy(#[trigger] inputs((n + i) as nat)),
    ensures
        k == spins ==> settling(spins, inputs, n).result == Err::<Seq<u8>, AtaError>(
            AtaError::Timeout,
        ),
        k < spins && !reports_busy(inputs(n + k)) ==> settling(spins, inputs, n).result == (
        if inputs(n + k + 1) % 256 == 0 && inputs(n + k + 2) % 256 == 0 {
            waiting(1_000_000, inputs, n + k + 3).result
        } else {
            Err::<Seq<u8>, AtaError>(AtaError::NotAta)
        }),
    decreases k,
{
    if spins > 0 {
        lemma_status_bits(inputs(n));
        if k == 0 {
            lemma_status_bits(inputs(n + 1));
            lemma_status_bits(inputs(n + 2));
        } else {
            assert(inputs((n + 0) as nat) == inputs(n));
            assert forall|i: int| 0 <= i < k - 1 implies reports_busy(
                #[trigger] inputs((n + 1 + i) as nat),
            ) by {
                assert((n + (i + 1)) as nat == (n + 1 + i) as nat);
                assert(reports_busy(inputs((n + (i + 1)) as nat)));
            }
            lemma_settled((spins - 1) as nat, inputs, n + 1, (k - 1) as nat);
            assert(n + 1 + (k - 1) == n + k);
        }
    }
}

/// How many sectors a drive has, by the data that it identified itself with: words
/// 60 and 61 of them hold the number, the low half first.
pub open spec fn sectors_told(data: Seq<u8>) -> u32 {
    crate::bytes::le32(data, 120) as u32
}

/// The number of sectors is what the device said in two words of its answer, number
/// 60 and number 61 of those that were transferred.
pub proof fn law_drives_tell_their_size(data: Seq<u8>, inputs: Inputs, n: int)
    requires
        data.len() == 512,
        holds_words(data, 0, 256, inputs, n),
    ensures
        sectors_told(data) == inputs((n + 60) as nat) + 0x1_0000 * inputs((n + 61) as nat),
{
    let at: int = 60;
    assert(data[0 + 2 * at] + 256 * data[0 + 2 * at + 1] == inputs((n + at) as nat));
    assert(data[0 + 2 * (at + 1)] + 256 * data[0 + 2 * (at + 1) + 1] == inputs(
        (n + (at + 1)) as nat,
    ));
}

} // verus!
