use vstd::prelude::*;
use vstd::string::StringSliceAdditionalSpecFns;

use crate::common::print;
use crate::sbi::{SbiCall, SbiRet, SBI_CONSOLE_GETCHAR, SBI_CONSOLE_PUTCHAR};

verus! {

/// The SBI call that writes `ch` to the console.
pub open spec fn putchar_call(ch: u8) -> SbiCall {
    SbiCall {
        arg0: ch as i32,
        arg1: 0,
        arg2: 0,
        arg3: 0,
        arg4: 0,
        arg5: 0,
        fid: 0,
        eid: SBI_CONSOLE_PUTCHAR,
    }
}

/// The SBI call that writes `ch` to the console.
pub fn putchar(ch: u8) -> (r: SbiCall)
    ensures
        r == putchar_call(ch),
{
    SbiCall {
        arg0: ch as i32,
        arg1: 0,
        arg2: 0,
        arg3: 0,
        arg4: 0,
        arg5: 0,
        fid: 0,
        eid: SBI_CONSOLE_PUTCHAR,
    }
}

/// The SBI call that reads a character from the console.
pub fn getchar() -> (r: SbiCall)
    ensures
        r == (SbiCall {
            arg0: 0,
            arg1: 0,
            arg2: 0,
            arg3: 0,
            arg4: 0,
            arg5: 0,
            fid: 0,
            eid: SBI_CONSOLE_GETCHAR,
        }),
{
    SbiCall { arg0: 0, arg1: 0, arg2: 0, arg3: 0, arg4: 0, arg5: 0, fid: 0, eid: SBI_CONSOLE_GETCHAR }
}

/// The character that a console-getchar call returned: the call's error register, which
/// holds the character, or -1 when none is waiting.
pub fn getchar_result(ret: SbiRet) -> (r: i32)
    ensures
        r == ret.error,
{
    ret.error
}

/// The SBI calls that print `text`: one console-putchar call per byte, in order.
pub fn print_args(text: &str) -> (r: Vec<SbiCall>)
    ensures
        r@.len() == text.spec_bytes().len(),
        forall|i: int| 0 <= i < r@.len() ==> #[trigger] r@[i] == putchar_call(text.spec_bytes()[i]),
{
    let bytes = print(text);
    let mut calls: Vec<SbiCall> = Vec::new();
    let mut i: usize = 0;
    while i < bytes.len()
        invariant
            i <= bytes@.len(),
            bytes@ == text.spec_bytes(),
            calls@.len() == i,
            forall|j: int| 0 <= j < i ==> #[trigger] calls@[j] == putchar_call(bytes@[j]),
        decreases bytes@.len() - i,
    {
        calls.push(putchar(bytes[i]));
        i = i + 1;
    }
    calls
}

} // verus!
