use vstd::prelude::*;
use vstd::string::StringSliceAdditionalSpecFns;

use crate::common::{print, SYS_EXIT, SYS_GETCHAR, SYS_PUTCHAR};

verus! {

/// The registers of a system call: its number and three arguments.
#[derive(Debug, Clone, Copy, PartialEq, Eq, Structural)]
pub struct Syscall {
    pub sysno: i32,
    pub arg0: i32,
    pub arg1: i32,
    pub arg2: i32,
}

/// The system call that writes `ch` to the console.
pub open spec fn putchar_syscall(ch: u8) -> Syscall {
    Syscall { sysno: SYS_PUTCHAR, arg0: ch as i32, arg1: 0, arg2: 0 }
}

/// The system call that writes `ch` to the console.
pub fn putchar(ch: u8) -> (r: Syscall)
    ensures
        r == putchar_syscall(ch),
{
    Syscall { sysno: SYS_PUTCHAR, arg0: ch as i32, arg1: 0, arg2: 0 }
}

/// The system call that reads a character from the console; it returns the character.
pub fn getchar() -> (r: Syscall)
    ensures
        r == (Syscall { sysno: SYS_GETCHAR, arg0: 0, arg1: 0, arg2: 0 }),
{
    Syscall { sysno: SYS_GETCHAR, arg0: 0, arg1: 0, arg2: 0 }
}

/// The system call that ends the calling process.
pub fn exit() -> (r: Syscall)
    ensures
        r == (Syscall { sysno: SYS_EXIT, arg0: 0, arg1: 0, arg2: 0 }),
{
    Syscall { sysno: SYS_EXIT, arg0: 0, arg1: 0, arg2: 0 }
}

/// The system calls that print `text`: one putchar call per byte, in order.
pub fn print_args(text: &str) -> (r: Vec<Syscall>)
    ensures
        r@.len() == text.spec_bytes().len(),
        forall|i: int| 0 <= i < r@.len() ==> #[trigger] r@[i] == putchar_syscall(text.spec_bytes()[i]),
{
    let bytes = print(text);
    let mut calls: Vec<Syscall> = Vec::new();
    let mut i: usize = 0;
    while i < bytes.len()
        invariant
            i <= bytes@.len(),
            bytes@ == text.spec_bytes(),
            calls@.len() == i,
            forall|j: int| 0 <= j < i ==> #[trigger] calls@[j] == putchar_syscall(bytes@[j]),
        decreases bytes@.len() - i,
    {
        calls.push(putchar(bytes[i]));
        i = i + 1;
    }
    calls
}

} // verus!
