# Dunit OS kernel logic, verified

The kernel-side logic of the Dunit OS hobby operating system as a Verus
library: every function carries a `requires`/`ensures` contract that Verus
proves, and the properties that span several calls are stated as public
proof functions named `law_*`.

Layout of `src/`:

- `memory/`: the bitmap frame allocator, page tables and the kernel heap.
- `process/`: process objects, the process table, the round-robin ready
  queue, user mappings and the exit/fault bookkeeping around a user run.
- `elf/`: image checks, segment loading and the initial user stack.
- `fs/`: the VFS with its path rules, the in-memory root file system, the
  device file system and the on-disk DunitFS format.
- `storage/`: GUID partition tables and the installer's disk layouts.
- `ipc.rs`, `handle.rs`, `pty/`: message queues, handle tables, terminals.
- `terminal.rs`, `shell.rs`, `command.rs`: line editing, history,
  completion and the shell's commands.
- `gui/`, `drivers/`, `input/`: framebuffer text drawing and the decoding
  parts of the device drivers.

Hardware access (port I/O, interrupts, the context switch, the boot
hand-off) is outside the library: the functions here take and return plain
values, and block devices are reached through the `BlockIo` trait.

`tests/` runs the library on concrete values.
