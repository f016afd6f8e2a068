use vstd::prelude::*;

verus! {

/// What an SBI call returns: an error code and a value.
#[derive(Debug, Clone, Copy, PartialEq, Eq, Structural)]
pub struct SbiRet {
    pub error: i32,
    pub value: i32,
}

/// The registers of an SBI call: six arguments, a function id and an extension id.
#[derive(Debug, Clone, Copy, PartialEq, Eq, Structural)]
pub struct SbiCall {
    pub arg0: i32,
    pub arg1: i32,
    pub arg2: i32,
    pub arg3: i32,
    pub arg4: i32,
    pub arg5: i32,
    pub fid: i32,
    pub eid: i32,
}

/// Extension id of the legacy console-putchar call.
pub const SBI_CONSOLE_PUTCHAR: i32 = 1;

/// Extension id of the legacy console-getchar call.
pub const SBI_CONSOLE_GETCHAR: i32 = 2;

} // verus!
