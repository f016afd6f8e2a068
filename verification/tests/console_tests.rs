use lib::console;
use lib::sbi::{SbiCall, SbiRet};
use lib::user_console::{self, Syscall};
use lib::common::{SYS_EXIT, SYS_GETCHAR, SYS_PUTCHAR};

#[test]
fn kernel_putchar_is_legacy_sbi_call() {
    assert_eq!(
        console::putchar(b'A'),
        SbiCall { arg0: 65, arg1: 0, arg2: 0, arg3: 0, arg4: 0, arg5: 0, fid: 0, eid: 1 }
    );
    assert_eq!(console::putchar(0xff).arg0, 255);
}

#[test]
fn kernel_getchar_reads_error_register() {
    assert_eq!(console::getchar().eid, 2);
    assert_eq!(console::getchar_result(SbiRet { error: 104, value: 0 }), 104);
    assert_eq!(console::getchar_result(SbiRet { error: -1, value: 0 }), -1);
}

#[test]
fn kernel_print_args_one_call_per_byte() {
    let calls = console::print_args("ok\n");
    let bytes: Vec<i32> = calls.iter().map(|c| c.arg0).collect();
    assert_eq!(bytes, vec![b'o' as i32, b'k' as i32, b'\n' as i32]);
    assert!(calls.iter().all(|c| c.eid == 1));
}

#[test]
fn user_console_syscalls() {
    assert_eq!(user_console::putchar(b'x'), Syscall { sysno: SYS_PUTCHAR, arg0: 120, arg1: 0, arg2: 0 });
    assert_eq!(user_console::getchar(), Syscall { sysno: SYS_GETCHAR, arg0: 0, arg1: 0, arg2: 0 });
    assert_eq!(user_console::exit(), Syscall { sysno: SYS_EXIT, arg0: 0, arg1: 0, arg2: 0 });
    let calls = user_console::print_args("> ");
    assert_eq!(calls.len(), 2);
    assert_eq!(calls[0], user_console::putchar(b'>'));
    assert_eq!(calls[1], user_console::putchar(b' '));
}
