//! Verified core of a small teaching kernel: the banker's-style deadlock
//! detector, the stride scheduler's ready queue and the decisions of the
//! file and process system calls.

pub mod deadlock;
pub mod fs;
pub mod syscall;
pub mod task_manager;

