# rcore_os

The verified core of a small RISC-V teaching kernel.

- `src/deadlock.rs`: deadlock detection for mutexes and semaphores. The
  detector keeps available, allocated and requested units per resource and
  thread; `detect_deadlock` is proved to report a deadlock exactly when no
  order exists in which every thread can obtain what it waits for.
- `src/task_manager.rs`: the stride scheduler's ready queue, with wrapping
  stride comparison; proved to pick a task of least stride while strides lie
  within half of the stride space, and to keep them there when priorities
  are at least 2.
- `src/fs.rs`: the `File` trait (with spec functions describing each kind
  of file), user buffers, and little-endian images of integers.
- `src/syscall/`: the decisions of the file and process system calls, and
  the replies that write results such as a file status into user memory.
- `app/`: the kernel-facing plumbing (global ready queue, system call entry
  points over the kernel's services) and a small demonstration.
