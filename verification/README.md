# rcore_os

The process and mailbox core of a small teaching operating system, written
in Verus and proved against its specifications.

- `src/fs`: the `File` interface, file status records, and the mailbox: a
  ring of sixteen 256-byte datagram slots read first in, first out.
- `src/mm`: the pages a process maps for itself (`mmap` / `munmap`).
- `src/task`: tasks, the ready queue, the processor and the kernel state
  that ties them together (fork, exec, exit, wait, yield, priorities, mail
  between processes); `laws.rs` holds the properties proved across calls.
- `src/syscall`: the process system calls over the kernel state.
- `src/user`: the user side: system-call requests, the xorshift hash, and
  the decisions of the fork test.
- `app/`: the global kernel state behind a lock, logging, the shared
  mailbox, the random generator and the fork-test driver.
