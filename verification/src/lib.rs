//! Verified core of the Dunit OS kernel: process lifecycle, scheduling,
//! capabilities, file systems, partition tables, memory managers, device
//! decoding and the terminal command core, each stated over explicit state.

pub mod assoc;
pub mod clock;
pub mod memory;
pub mod fs;
pub mod handle;
pub mod ipc;
pub mod process;
pub mod drivers;
pub mod input;
pub mod pty;
pub mod elf;
pub mod storage;
pub mod shell;
pub mod command;
pub mod text;
pub mod apps;
pub mod gui;
pub mod initrd;
pub mod dpkg;
pub mod interrupts;
pub mod terminal;
