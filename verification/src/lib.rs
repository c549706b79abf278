//! The parts of a small kernel that can be reasoned about without the machine: its heap, its
//! page tables, its initial file system, its program loader, its messages, its system calls, its
//! interrupt table and its command line.
//!
//! State that a kernel keeps for good is passed in, and what only the machine can do (writing to
//! a port, mapping a page, waking a task) is handed back to the caller as a value. Each module
//! says in mathematical terms what its functions return; modules that end in `_laws` prove what
//! holds across functions.
pub mod bits;
pub mod bytes;
pub mod elf;
pub mod elf_copy_laws;
pub mod elf_image_laws;
pub mod elf_laws;
pub mod elf_load;
pub mod elf_load_laws;
pub mod elf_process;
pub mod elf_process_laws;
pub mod elf_run_laws;
pub mod heap;
pub mod heap_allocation_laws;
pub mod heap_free_laws;
pub mod heap_laws;
pub mod heap_model;
pub mod heap_proofs;
pub mod heap_record_laws;
pub mod heap_selftest;
pub mod heap_selftest_laws;
pub mod initramfs;
pub mod initramfs_byte_laws;
pub mod initramfs_laws;
pub mod interrupts;
pub mod ipc;
pub mod ipc_laws;
pub mod ipc_mail_laws;
pub mod ipc_model;
pub mod memory;
pub mod mkinitramfs;
pub mod paging;
pub mod paniclog;
pub mod ports;
pub mod serial;
pub mod shell;
pub mod syscall;
pub mod text;
pub mod user_program;
