use vstd::prelude::*;

pub mod common;
pub mod console;
pub mod file_system;
pub mod page_alloc;
pub mod process;
pub mod sbi;
pub mod shell;
pub mod user_console;
pub mod virtio;
