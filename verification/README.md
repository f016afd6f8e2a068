# A small RISC-V kernel, verified

A teaching-sized Sv32 kernel and its user shell, with the kernel's logic written and
proved in Verus.

`src/` is the verified library:

- `common`: `align_up`, `is_aligned`, `memset`, `memcpy`, `strcpy`, `strcmp`, `print`,
  with the laws of C-string comparison.
- `page_alloc`: the free RAM region as a bump allocator over a byte-level model of
  physical memory, little-endian words, and the Sv32 page table walk (a valid entry with
  R, W or X set is a leaf; a root leaf is a superpage); `map_page` is proved to change
  the walk's result for exactly one virtual page, and to install a new second-level
  table as a pointer entry to a zeroed page.
- `process`: the process table; `create_process` builds an address space that maps the
  kernel and a program image, never touching any other address space; `try_create_process`
  fails exactly when a slot, alignment or memory is missing, where the kernel would halt;
  `kernel_main` puts the idle process and the user program in the first two free slots;
  `yield_cpu` is round robin, and every schedulable process runs within eight yields.
- `file_system`: a ustar archive reader (`fs_init`, `oct2int`, `TarHeader`, `File`).
- `virtio`: the device bring-up (the ordered register accesses of the handshake and of
  the queue setup), and the virtqueue and block request bookkeeping of the disk driver.
- `console`, `user_console`, `sbi`: the SBI and system calls behind console output.
- `shell`: the user shell's line editor and command parser.

`app/` drives the library on a host: the terminal is the console, a file holds the disk,
and `app/riscv.rs` keeps the machine-level code (inline and naked assembly, device
registers) for a RISC-V build. `tests/` exercises the library.
