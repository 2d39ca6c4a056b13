# rust-os

A small x86_64 operating system kernel whose logic is verified with
[Verus](https://github.com/verus-lang/verus).

The kernel mounts a FAT16 disk, lists directories and reads files, loads ELF
programs into address spaces of their own and runs them in ring 3, switches
kernel threads by the timer, keeps the wall clock, and has an interactive shell.

## Layout

- `src/` is the library, all of it verified: what the kernel decides. It touches
  no hardware. Where a task needs the machine, it is a value that says what to do
  next (a port access, a sector read, a page to map) and goes on with the answer.
  The contract of each step says how the rest of the task follows from it, and
  the contract of its start says what the whole task comes to, whatever the
  machine answers.
- `app/` is the kernel binary: it makes the port accesses, walks raw memory,
  switches stacks, and hands the answers to the library.
- `tests/` runs the library against pretended machines.

| Module | What it holds |
|---|---|
| `ata` | one transaction of the disk driver |
| `fat` | FAT16: layout, cluster chains, directories, paths, files |
| `elf` | program headers |
| `process` | address spaces, loading, running, the process table |
| `usermode`, `interrupts` | system calls, faults, the descriptor table |
| `memory` | the frame allocator and page-table walks |
| `threads` | the round-robin scheduler |
| `time`, `rtc`, `clock` | ticks and sleep, the clock chip, the calendar |
| `vga_buffer` | the text screen with its history |
| `task` | scancodes, line editing, commands |
| `text`, `bytes`, `port` | what the others share |

## What is proved

Each public function states exactly what it returns or changes. Public proof
functions named `law_..` state what holds of several of them together: reading a
file gives back what the disk stores, every walk over the disk stays in the volume
and enters no more clusters than it has, each address space that is made is torn
down once, running a program leaves the frames at hand and the active address
space as they were, no frame is given out twice (of a memory map whose usable
regions lie apart), the process table holds the latest processes and the shell's
history the latest lines, the case of a path does not matter, the clock does not
run back, no wakeup is lost, every thread gets its turn and a round of turns ends
where it began.

The page-table mapper works on raw memory, so it is part of `app/`. What the laws
take of it is stated in `process::machine`: a page is mapped by linking blank
frames from the allocator as the tables that are missing, and then its own frame;
what an attempt that fails has linked stays linked.

Two things are taken on trust: the scancode tables of `pc_keyboard`
(`task::keyboard::Decoder`), and three functions of the standard library on
strings (`text`).
