use rust_os::interrupts::{
    init_idt, judge_general_protection_fault, judge_page_fault, Gate, Handler, InterruptIndex,
    Verdict, SYSCALL_VECTOR,
};
use rust_os::usermode::{Action, UserMode, FAULT_EXIT_CODE, MAX_WRITE};

const START: u64 = 0x2000_0000_0000;
const END: u64 = 0x2080_0000_0000;

fn running() -> UserMode {
    let mut user = UserMode::new();
    assert!(!user.user_active());
    user.enter(7, START, END);
    user
}

#[test]
fn system_calls_are_dispatched() {
    let user = running();
    assert_eq!(user.syscall(0, 0, 3, 0), Action::Exit(3));
    assert_eq!(user.syscall(42_360, 2, 0, 0), Action::Return(42_360));
    assert_eq!(user.syscall(0, 3, 0, 0), Action::Return(7));
    assert_eq!(user.syscall(0, 4, 0, 0), Action::Return(u64::MAX));
    assert_eq!(user.syscall(0, u64::MAX, 0, 0), Action::Return(u64::MAX));
}

#[test]
fn write_refuses_what_is_not_the_programs() {
    let user = running();
    let refused = Action::Return(u64::MAX);
    assert_eq!(user.syscall(0, 1, START, 5), Action::Write { ptr: START, len: 5 });
    assert_eq!(user.syscall(0, 1, END - 5, 5), Action::Write { ptr: END - 5, len: 5 });
    assert_eq!(user.syscall(0, 1, END - 4, 5), refused);
    assert_eq!(user.syscall(0, 1, START - 1, 5), refused);
    assert_eq!(user.syscall(0, 1, 0xb8000, 1), refused);
    assert_eq!(user.syscall(0, 1, u64::MAX, 2), refused);
    assert_eq!(
        user.syscall(0, 1, START, MAX_WRITE),
        Action::Write { ptr: START, len: 4096 }
    );
    assert_eq!(user.syscall(0, 1, START, MAX_WRITE + 1), refused);
    assert_eq!(user.syscall(0, 1, END, 0), Action::Write { ptr: END, len: 0 });
}

#[test]
fn a_program_is_active_until_it_is_left() {
    let mut user = running();
    assert!(user.user_active());
    user.leave();
    assert!(!user.user_active());
    user.enter(8, START, END);
    assert_eq!(user.pid, 8);
}

#[test]
fn faults_kill_the_program_and_not_the_kernel() {
    assert_eq!(FAULT_EXIT_CODE, 0xDEAD);
    assert_eq!(judge_page_fault(0b101, true), Verdict::KillUserProgram(0xDEAD));
    assert_eq!(judge_page_fault(0b101, false), Verdict::Halt);
    assert_eq!(judge_page_fault(0b011, true), Verdict::Halt);
    assert_eq!(judge_general_protection_fault(3, true), Verdict::KillUserProgram(0xDEAD));
    assert_eq!(judge_general_protection_fault(3, false), Verdict::Halt);
    assert_eq!(judge_general_protection_fault(0, true), Verdict::Halt);
}

#[test]
fn hardware_interrupts_have_their_vectors() {
    assert_eq!(InterruptIndex::Timer.as_u8(), 32);
    assert_eq!(InterruptIndex::Keyboard.as_u8(), 33);
    assert_eq!(InterruptIndex::PrimaryAta.as_u8(), 46);
    assert_eq!(InterruptIndex::SecondaryAta.as_usize(), 47);
}

#[test]
fn the_descriptor_table_has_a_gate_for_each_interrupt() {
    let gates = init_idt();
    let find = |vector: u8| gates.iter().find(|gate| gate.vector == vector).copied();
    assert_eq!(find(3).unwrap().handler, Handler::Breakpoint);
    assert_eq!(
        find(8),
        Some(Gate { vector: 8, handler: Handler::DoubleFault, stack: Some(0), ring: 0 })
    );
    assert_eq!(find(13).unwrap().handler, Handler::GeneralProtectionFault);
    assert_eq!(find(14).unwrap().handler, Handler::PageFault);
    for index in [
        InterruptIndex::Timer,
        InterruptIndex::Keyboard,
        InterruptIndex::PrimaryAta,
        InterruptIndex::SecondaryAta,
    ] {
        assert_eq!(find(index.as_u8()).unwrap().handler, Handler::Irq(index));
    }
    let open: Vec<u8> =
        gates.iter().filter(|gate| gate.ring == 3).map(|gate| gate.vector).collect();
    assert_eq!(open, [SYSCALL_VECTOR]);
}
