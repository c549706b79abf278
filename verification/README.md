# Tobacco kernel

The verified core of a small x86-64 kernel, in Verus.

| Module | What it holds |
| --- | --- |
| `heap`, `heap_model`, `heap_proofs`, `heap_laws`, `heap_record_laws`, `heap_selftest` | first-fit allocation with canaries, double-free detection and coalescing |
| `elf`, `elf_laws`, `elf_load`, `elf_load_laws`, `elf_process` | checking ELF64 images, planning their pages, loading them, making processes of them |
| `initramfs`, `initramfs_laws`, `mkinitramfs` | reading and building the CPIO archive the kernel boots with |
| `user_program` | the first user program, put together byte by byte |
| `ipc`, `ipc_model`, `ipc_laws` | bounded mailboxes between tasks |
| `interrupts`, `syscall`, `paging` | the interrupt table, system calls, the boot page tables |
| `shell`, `serial`, `memory`, `paniclog` | the command line, the serial line, the text screen, the log of the last failure |
| `bits`, `bytes`, `text`, `ports` | alignment, little-endian numbers, byte strings, port writes |

Nothing in `src/` touches hardware. Functions that would have to wait for it are split: the first
half says what is to be done, and the second half takes what came of it. The program loader and
the maker of processes are state machines of that kind. `app/` drives them on a real machine, and
its `main` writes the boot archive.

The only thing believed without proof is what `core::str::from_utf8` does, stated in `text`.
