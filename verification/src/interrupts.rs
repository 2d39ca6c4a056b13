//! Interrupt vectors, the gates of the interrupt descriptor table, and what the
//! fault handlers decide.

use vstd::prelude::*;

use crate::usermode::FAULT_EXIT_CODE;

verus! {

/// Software interrupt vector for system calls, reachable from ring 3.
pub const SYSCALL_VECTOR: u8 = 0x80;

/// First vector of the primary interrupt controller.
pub const PIC_1_OFFSET: u8 = 32;

/// First vector of the secondary interrupt controller.
pub const PIC_2_OFFSET: u8 = 40;

/// Interrupt stack that double faults switch to.
pub const DOUBLE_FAULT_IST_INDEX: u16 = 0;

/// Page-fault error code bit: the fault came from ring 3.
pub const USER_MODE_FAULT: u64 = 4;

/// The hardware interrupts.
#[derive(Debug, Clone, Copy, PartialEq, Eq, Structural)]
pub enum InterruptIndex {
    Timer,
    Keyboard,
    /// Primary ATA bus. The disk driver polls rather than waiting on this, but
    /// the device still asserts it on command completion, and an IRQ with no
    /// IDT entry escalates into a double fault, so it must be handled.
    PrimaryAta,
    /// Secondary ATA bus, same reasoning.
    SecondaryAta,
}

impl InterruptIndex {
    /// The vector of an interrupt.
    pub open spec fn vector(self) -> u8 {
        match self {
            InterruptIndex::Timer => 32,
            InterruptIndex::Keyboard => 33,
            InterruptIndex::PrimaryAta => 46,
            InterruptIndex::SecondaryAta => 47,
        }
    }

    /// The vector of this interrupt.
    pub fn as_u8(self) -> (vector: u8)
        ensures
            vector == self.vector(),
    {
        match self {
            InterruptIndex::Timer => PIC_1_OFFSET,
            InterruptIndex::Keyboard => PIC_1_OFFSET + 1,
            InterruptIndex::PrimaryAta => PIC_2_OFFSET + 6,
            InterruptIndex::SecondaryAta => PIC_2_OFFSET + 7,
        }
    }

    /// The vector of this interrupt.
    pub fn as_usize(self) -> (vector: usize)
        ensures
            vector == self.vector(),
    {
        self.as_u8() as usize
    }
}

/// What handles an interrupt.
#[derive(Debug, Clone, Copy, PartialEq, Eq, Structural)]
pub enum Handler {
    Breakpoint,
    DoubleFault,
    GeneralProtectionFault,
    PageFault,
    Irq(InterruptIndex),
    /// A raw assembly entry stub: it must read the user's registers.
    Syscall,
}

/// One gate of the interrupt descriptor table.
#[derive(Debug, Clone, Copy, PartialEq, Eq, Structural)]
pub struct Gate {
    pub vector: u8,
    pub handler: Handler,
    /// The interrupt stack to switch to, if any.
    pub stack: Option<u16>,
    /// The least privileged ring that may raise this vector by an instruction.
    pub ring: u8,
}

/// The gates of the interrupt descriptor table: an interrupt whose gate is
/// missing escalates into a double fault.
pub open spec fn gates() -> Seq<Gate> {
    seq![
        Gate { vector: 3, handler: Handler::Breakpoint, stack: None, ring: 0 },
        Gate { vector: 8, handler: Handler::DoubleFault, stack: Some(0), ring: 0 },
        Gate { vector: 32, handler: Handler::Irq(InterruptIndex::Timer), stack: None, ring: 0 },
        Gate { vector: 33, handler: Handler::Irq(InterruptIndex::Keyboard), stack: None, ring: 0 },
        Gate { vector: 46, handler: Handler::Irq(InterruptIndex::PrimaryAta), stack: None, ring: 0 },
        Gate {
            vector: 47,
            handler: Handler::Irq(InterruptIndex::SecondaryAta),
            stack: None,
            ring: 0,
        },
        Gate { vector: 14, handler: Handler::PageFault, stack: None, ring: 0 },
        Gate { vector: 13, handler: Handler::GeneralProtectionFault, stack: None, ring: 0 },
        Gate { vector: 0x80, handler: Handler::Syscall, stack: None, ring: 3 },
    ]
}

/// A gate that only the kernel can invoke.
fn kernel_gate(vector: u8, handler: Handler) -> (gate: Gate)
    ensures
        gate == (Gate { vector, handler, stack: None, ring: 0 }),
{
    Gate { vector, handler, stack: None, ring: 0 }
}

/// A hardware interrupt: only the kernel may raise its vector.
fn irq_gate(index: InterruptIndex) -> (gate: Gate)
    ensures
        gate == (Gate {
            vector: index.vector(),
            handler: Handler::Irq(index),
            stack: None,
            ring: 0,
        }),
{
    kernel_gate(index.as_u8(), Handler::Irq(index))
}

/// The gates that the interrupt descriptor table is to be filled with.
pub fn init_idt() -> (gates: [Gate; 9])
    ensures
        gates@ == self::gates(),
{
    let gates = [
        kernel_gate(3, Handler::Breakpoint),
        Gate {
            vector: 8,
            handler: Handler::DoubleFault,
            stack: Some(DOUBLE_FAULT_IST_INDEX),
            ring: 0,
        },
        irq_gate(InterruptIndex::Timer),
        irq_gate(InterruptIndex::Keyboard),
        irq_gate(InterruptIndex::PrimaryAta),
        irq_gate(InterruptIndex::SecondaryAta),
        kernel_gate(14, Handler::PageFault),
        kernel_gate(13, Handler::GeneralProtectionFault),
        // Syscall gate: DPL 3 so ring 3 may invoke it.
        Gate { vector: SYSCALL_VECTOR, handler: Handler::Syscall, stack: None, ring: 3 },
    ];
    assert(gates@ =~= self::gates());
    gates
}

/// The system-call gate is the only one that user code can invoke, no vector
/// has two gates, and every hardware interrupt that the kernel knows has one.
pub proof fn law_gates_are_safe(index: InterruptIndex)
    ensures
        forall|i: int|
            0 <= i < gates().len() ==> ((#[trigger] gates()[i]).ring == 3 <==> gates()[i].vector
                == SYSCALL_VECTOR),
        forall|i: int, j: int|
            0 <= i < j < gates().len() ==> (#[trigger] gates()[i]).vector != (
            #[trigger] gates()[j]).vector,
        exists|i: int|
            0 <= i < gates().len() && (#[trigger] gates()[i]).vector == index.vector()
                && gates()[i].handler == Handler::Irq(index),
{
    match index {
        InterruptIndex::Timer => {
            assert(gates()[2].handler == Handler::Irq(index));
        },
        InterruptIndex::Keyboard => {
            assert(gates()[3].handler == Handler::Irq(index));
        },
        InterruptIndex::PrimaryAta => {
            assert(gates()[4].handler == Handler::Irq(index));
        },
        InterruptIndex::SecondaryAta => {
            assert(gates()[5].handler == Handler::Irq(index));
        },
    }
}

/// What a fault leads to.
#[derive(Debug, Clone, Copy, PartialEq, Eq, Structural)]
pub enum Verdict {
    /// Terminate the user program with this exit code, and carry on.
    KillUserProgram(u64),
    /// A bug in the kernel: halt.
    Halt,
}

/// What a page fault leads to.
pub open spec fn page_fault_verdict(error_code: u64, user_active: bool) -> Verdict {
    if error_code & 4 != 0 && user_active {
        Verdict::KillUserProgram(0xDEAD)
    } else {
        Verdict::Halt
    }
}

/// What a general protection fault leads to.
pub open spec fn protection_fault_verdict(ring: u8, user_active: bool) -> Verdict {
    if user_active && ring == 3 {
        Verdict::KillUserProgram(0xDEAD)
    } else {
        Verdict::Halt
    }
}

/// Faults of a user program are contained: while one runs, a fault that comes
/// from ring 3 kills it, with the exit code set aside for that, whatever else the
/// error code says (its bits 0, 1, 3 and 4: whether the page was there, whether
/// it was written to, whether the tables are malformed, whether it was executed).
/// Any other fault is a bug in the kernel, which never takes a user program for
/// its own fault.
pub proof fn law_faults_are_contained(error_code: u64, ring: u8, user_active: bool)
    ensures
        page_fault_verdict(error_code, user_active) == Verdict::KillUserProgram(0xDEAD) <==>
            user_active && error_code / 4 % 2 == 1,
        page_fault_verdict(error_code, user_active) == Verdict::Halt <==> !(user_active && error_code
            / 4 % 2 == 1),
        protection_fault_verdict(ring, user_active) == Verdict::KillUserProgram(0xDEAD) <==>
            user_active && ring == 3,
        protection_fault_verdict(ring, user_active) == Verdict::Halt <==> !(user_active && ring == 3),
{
    assert(error_code & 4 != 0 <==> error_code / 4 % 2 == 1) by (bit_vector);
}

/// Hardware interrupt number `irq` of the two controllers, of which there are
/// sixteen.
pub open spec fn irq_number(index: InterruptIndex) -> int {
    match index {
        InterruptIndex::Timer => 0,
        InterruptIndex::Keyboard => 1,
        InterruptIndex::PrimaryAta => 14,
        InterruptIndex::SecondaryAta => 15,
    }
}

/// A gate of the table serves this vector in this way.
pub open spec fn is_served(vector: int, handler: Handler) -> bool {
    exists|i: int|
        0 <= i < gates().len() && (#[trigger] gates()[i]).vector == vector && gates()[i].handler
            == handler
}

/// Hardware interrupt `irq` arrives at vector `32 + irq`, clear of the vectors of
/// the processor's own exceptions; each exception that the kernel knows is served
/// at the vector that the processor raises it at; and a double fault is the one
/// that is served on a stack of its own, since the stack may be what is broken.
pub proof fn law_interrupts_arrive_where_they_are_served(index: InterruptIndex)
    ensures
        index.vector() == 32 + irq_number(index),
        is_served(32 + irq_number(index), Handler::Irq(index)),
        is_served(3, Handler::Breakpoint),
        is_served(8, Handler::DoubleFault),
        is_served(13, Handler::GeneralProtectionFault),
        is_served(14, Handler::PageFault),
        is_served(0x80, Handler::Syscall),
        forall|i: int|
            0 <= i < gates().len() ==> ((#[trigger] gates()[i]).stack is Some <==> gates()[i].vector
                == 8),
        forall|i: int|
            0 <= i < gates().len() ==> ((#[trigger] gates()[i]).ring == 0 || gates()[i].vector
                == 0x80 && gates()[i].ring == 3),
{
    law_gates_are_safe(index);
    assert(gates()[0].handler == Handler::Breakpoint);
    assert(gates()[1].handler == Handler::DoubleFault);
    assert(gates()[6].handler == Handler::PageFault);
    assert(gates()[7].handler == Handler::GeneralProtectionFault);
    assert(gates()[8].handler == Handler::Syscall);
    let i = choose|i: int|
        0 <= i < gates().len() && (#[trigger] gates()[i]).vector == index.vector()
            && gates()[i].handler == Handler::Irq(index);
    assert(gates()[i].handler == Handler::Irq(index));
}

/// Decides about a page fault: one from ring 3 kills the user program, not the
/// kernel.
pub fn judge_page_fault(error_code: u64, user_active: bool) -> (verdict: Verdict)
    ensures
        verdict == (if error_code & 4 != 0 && user_active {
            Verdict::KillUserProgram(0xDEAD)
        } else {
            Verdict::Halt
        }),
        verdict == page_fault_verdict(error_code, user_active),
{
    if error_code & USER_MODE_FAULT != 0 && user_active {
        Verdict::KillUserProgram(FAULT_EXIT_CODE)
    } else {
        Verdict::Halt
    }
}

/// Decides about a general protection fault (privileged instruction, bad
/// selector, ...): one from ring 3 kills the user program and the kernel carries
/// on. `ring` is the privilege level of the code that faulted.
pub fn judge_general_protection_fault(ring: u8, user_active: bool) -> (verdict: Verdict)
    ensures
        verdict == (if user_active && ring == 3 {
            Verdict::KillUserProgram(0xDEAD)
        } else {
            Verdict::Halt
        }),
        verdict == protection_fault_verdict(ring, user_active),
{
    if user_active && ring == 3 {
        Verdict::KillUserProgram(FAULT_EXIT_CODE)
    } else {
        Verdict::Halt
    }
}

} // verus!
