# rcore_os

The memory and task management of a small RISC-V (Sv39) teaching kernel, written in Verus
and proved against its contracts.

- `src/` — the verified library. Physical memory is modelled as frames of 512 words
  (`phys_mem`); on it stand the frame allocator (`frame`), page-table entries and the
  three-level page table (`pte`, `page_table`), mapped areas and address spaces
  (`map_area`, `memory_set`), ELF loading and `fork` copies of user spaces (`elf`,
  `user_space`, `fork_space`), the kernel address space (`kernel_memory`), trap contexts and
  the trap handler's decisions (`trap`), round-robin tasks (`task`, and the earlier batch
  kernel in `batch`), processes, their pids and the processor (`process`, `pid`,
  `processor`, with exit and `waitpid`), the blocking `read` system call (`syscall`) and the decisions of the user library (`user`).
- `app/` — the kernel image around the library: boot, SBI console and timer, the trap
  entry and return, task switches, and the user library's system calls. It copies frames
  between the library's memory model and RAM. The image runs the round-robin task kernel;
  the process kernel (`process`, `processor`: creation, `fork`, `exec`, exit, `waitpid`)
  has no ready queue or system-call table here and is driven by the tests.
- `tests/` — tests of the library on concrete values.
