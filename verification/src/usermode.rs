//! Ring-3 transitions and system calls.
//!
//! This module decides what a system call does; [`crate::process`] owns address
//! spaces and deciding *what* to run.
//!
//! ## Syscall ABI (int 0x80)
//!
//! rax = syscall number, rdi/rsi/rdx = arguments, return value in rax.
//!
//! | nr | name      | args      | returns            |
//! |----|-----------|-----------|--------------------|
//! | 0  | exit      | code      | (does not return)  |
//! | 1  | write     | ptr, len  | bytes written      |
//! | 2  | uptime_ms | (none)    | ms since boot      |
//! | 3  | getpid    | (none)    | current pid        |
//!
//! ## Constraints
//!
//! * **One user program at a time**: ring-3 execution borrows the single TSS
//!   `RSP0` stack and one saved-kernel-context slot.
//! * `write` refuses pointers outside the running process's region, so user
//!   code cannot make the kernel read kernel memory on its behalf.

use vstd::prelude::*;

verus! {

/// Exit code reported when a fault handler kills a misbehaving user program.
pub const FAULT_EXIT_CODE: u64 = 0xDEAD;

const SYSCALL_EXIT: u64 = 0;

const SYSCALL_WRITE: u64 = 1;

const SYSCALL_UPTIME_MS: u64 = 2;

const SYSCALL_GETPID: u64 = 3;

/// The most bytes that one `write` takes.
pub const MAX_WRITE: u64 = 4096;

/// What a refused or unknown system call returns.
pub const REFUSED: u64 = u64::MAX;

/// The user program that is running, if one is.
#[derive(Debug, Clone, Copy, PartialEq, Eq, Structural)]
pub struct UserMode {
    /// True while a user program is executing (or suspended by preemption).
    pub active: bool,
    /// The running process's pid and the bounds of memory it may pass to the
    /// kernel. Valid only while `active`.
    pub pid: u64,
    pub range_start: u64,
    pub range_end: u64,
}

/// What a system call comes to.
#[derive(Debug, Clone, Copy, PartialEq, Eq, Structural)]
pub enum Action {
    /// End the program with this exit code.
    Exit(u64),
    /// Print these bytes of the program's memory, and return `len`.
    Write { ptr: u64, len: u64 },
    /// Return this value.
    Return(u64),
}

/// The buffer lies entirely within the range, and is not too long.
pub open spec fn may_write(user: UserMode, ptr: u64, len: u64) -> bool {
    len <= MAX_WRITE && user.range_start <= ptr && ptr + len <= user.range_end
}

/// What a system call comes to.
pub open spec fn syscall_action(user: UserMode, uptime_ms: u64, nr: u64, a1: u64, a2: u64) -> Action {
    if nr == 0 {
        Action::Exit(a1)
    } else if nr == 1 {
        if may_write(user, a1, a2) {
            Action::Write { ptr: a1, len: a2 }
        } else {
            Action::Return(u64::MAX)
        }
    } else if nr == 2 {
        Action::Return(uptime_ms)
    } else if nr == 3 {
        Action::Return(user.pid)
    } else {
        Action::Return(u64::MAX)
    }
}

impl UserMode {
    /// Once a program is entered.
    pub open spec fn entered(self, pid: u64, range_start: u64, range_end: u64) -> UserMode {
        UserMode { active: true, pid, range_start, range_end }
    }

    /// Once the program is left.
    pub open spec fn left(self) -> UserMode {
        UserMode { active: false, ..self }
    }

    /// No user program is running.
    pub fn new() -> (user: UserMode)
        ensures
            user == (UserMode { active: false, pid: 0, range_start: 0, range_end: 0 }),
    {
        UserMode { active: false, pid: 0, range_start: 0, range_end: 0 }
    }

    /// True if a user program is currently active: fault handlers decide by it
    /// between "kill the user program" and "kernel bug".
    pub fn user_active(&self) -> (active: bool)
        ensures
            active == self.active,
    {
        self.active
    }

    /// Notes that a program is about to be entered, which may use the memory in
    /// `[range_start, range_end)`. None may be running: two programs would share
    /// one RSP0 stack.
    pub fn enter(&mut self, pid: u64, range_start: u64, range_end: u64)
        requires
            !old(self).active,
        ensures
            *final(self) == (UserMode { active: true, pid, range_start, range_end }),
            *final(self) == old(self).entered(pid, range_start, range_end),
    {
        self.active = true;
        self.pid = pid;
        self.range_start = range_start;
        self.range_end = range_end;
    }

    /// Notes that the program has been left for good.
    pub fn leave(&mut self)
        ensures
            *final(self) == (UserMode { active: false, ..*old(self) }),
            *final(self) == old(self).left(),
    {
        self.active = false;
    }

    /// Decides what a system call comes to; `uptime_ms` is the time since boot.
    pub fn syscall(&self, uptime_ms: u64, nr: u64, a1: u64, a2: u64) -> (action: Action)
        ensures
            action == syscall_action(*self, uptime_ms, nr, a1, a2),
    {
        if nr == SYSCALL_EXIT {
            Action::Exit(a1)
        } else if nr == SYSCALL_WRITE {
            self.sys_write(a1, a2)
        } else if nr == SYSCALL_UPTIME_MS {
            Action::Return(uptime_ms)
        } else if nr == SYSCALL_GETPID {
            Action::Return(self.pid)
        } else {
            Action::Return(REFUSED)
        }
    }

    /// write(ptr, len): prints bytes from *user* memory.
    ///
    /// The buffer must lie entirely within the running process's region. Without
    /// this check a user program could hand the kernel any address and have it
    /// read kernel memory aloud: the classic confused-deputy bug.
    fn sys_write(&self, ptr: u64, len: u64) -> (action: Action)
        ensures
            action == (if may_write(*self, ptr, len) {
                Action::Write { ptr, len }
            } else {
                Action::Return(u64::MAX)
            }),
    {
        if len > MAX_WRITE {
            return Action::Return(REFUSED);
        }
        match ptr.checked_add(len) {
            None => Action::Return(REFUSED),
            Some(end) => if ptr < self.range_start || end > self.range_end {
                Action::Return(REFUSED)
            } else {
                Action::Write { ptr, len }
            },
        }
    }
}

/// The kernel reads user memory only inside the running program's region, and
/// no more of it than one `write` takes.
pub proof fn law_writes_stay_in_the_region(
    user: UserMode,
    uptime_ms: u64,
    nr: u64,
    a1: u64,
    a2: u64,
    addr: int,
)
    requires
        syscall_action(user, uptime_ms, nr, a1, a2) matches Action::Write { ptr, len } && ptr
            <= addr < ptr + len,
    ensures
        user.range_start <= addr < user.range_end,
        syscall_action(user, uptime_ms, nr, a1, a2)->len <= MAX_WRITE,
{
}

/// A write of at most 4096 bytes that lie entirely inside the running program's
/// region is granted, with the address and the length that it was asked for,
/// wherever in the region they lie.
pub proof fn law_writes_in_the_region_are_granted(user: UserMode, uptime_ms: u64, ptr: u64, len: u64)
    requires
        len <= 4096,
        user.range_start <= ptr,
        ptr + len <= user.range_end,
    ensures
        syscall_action(user, uptime_ms, 1, ptr, len) == (Action::Write { ptr, len }),
{
}

/// A write that reaches out of the region on either side, or is longer than 4096
/// bytes, is refused: nothing is read, and the program is told the largest
/// number.
pub proof fn law_other_writes_are_refused(user: UserMode, uptime_ms: u64, ptr: u64, len: u64)
    requires
        len > 4096 || ptr < user.range_start || ptr + len > user.range_end,
    ensures
        syscall_action(user, uptime_ms, 1, ptr, len) == Action::Return(0xFFFF_FFFF_FFFF_FFFF),
{
}

/// The other calls: exit ends the program with the code that it gives, the time
/// since boot and the process number are what the program gets back when it asks
/// for them, whatever the arguments, and a number that stands for no call is
/// refused. None of these depends on what memory the program may use, and only a
/// write has the kernel read any.
pub proof fn law_calls_answer_what_was_asked(
    user: UserMode,
    uptime_ms: u64,
    nr: u64,
    a1: u64,
    a2: u64,
)
    ensures
        syscall_action(user, uptime_ms, 0, a1, a2) == Action::Exit(a1),
        syscall_action(user, uptime_ms, 2, a1, a2) == Action::Return(uptime_ms),
        syscall_action(user, uptime_ms, 3, a1, a2) == Action::Return(user.pid),
        nr > 3 ==> syscall_action(user, uptime_ms, nr, a1, a2) == Action::Return(
            0xFFFF_FFFF_FFFF_FFFF,
        ),
        syscall_action(user, uptime_ms, nr, a1, a2) is Exit <==> nr == 0,
        syscall_action(user, uptime_ms, nr, a1, a2) is Write ==> nr == 1,
{
}

/// A program that is entered is served by what it was entered with: it gets its
/// own number, and it may have printed what lies in its own region and nothing
/// beyond. Once it is left, another can be entered.
pub proof fn law_programs_are_served_by_their_own_region(
    before: UserMode,
    pid: u64,
    range_start: u64,
    range_end: u64,
    uptime_ms: u64,
    ptr: u64,
    len: u64,
)
    ensures
        ({
            let user = before.entered(pid, range_start, range_end);
            &&& user.active
            &&& syscall_action(user, uptime_ms, 3, ptr, len) == Action::Return(pid)
            &&& syscall_action(user, uptime_ms, 1, ptr, len) is Write <==> range_start <= ptr && ptr
                + len <= range_end && len <= 4096
            &&& !user.left().active
            &&& user.left().pid == pid
        }),
{
}

} // verus!
