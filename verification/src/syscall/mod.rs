//! The decisions of the system calls: what each one checks, which kernel
//! operation it then asks for, and what it returns.

pub mod fs;
pub mod process;
