use lib::shell::{parse_command, Command, Shell, ShellStep, CMDLINE_SIZE};
use lib::common::{SYS_EXIT, SYS_PUTCHAR};

fn type_line(shell: &mut Shell, line: &[u8]) -> ShellStep {
    let mut last = ShellStep::Continue;
    for &c in line {
        last = shell.feed(c);
        if last != ShellStep::Continue {
            break;
        }
    }
    last
}

#[test]
fn hello_and_exit_commands() {
    let mut s = Shell::new();
    assert_eq!(type_line(&mut s, b"hello\r"), ShellStep::Run(Command::Hello));
    let mut s = Shell::new();
    assert_eq!(type_line(&mut s, b"exit\r"), ShellStep::Run(Command::Exit));
}

#[test]
fn unknown_command_keeps_the_line() {
    let mut s = Shell::new();
    assert_eq!(type_line(&mut s, b"ls\r"), ShellStep::Run(Command::Unknown));
    assert_eq!(&s.cmdline()[..3], b"ls\0");
    assert_eq!(s.cmdline().len(), CMDLINE_SIZE);
    let mut s = Shell::new();
    assert_eq!(type_line(&mut s, b"hello world\r"), ShellStep::Run(Command::Unknown));
    let mut s = Shell::new();
    assert_eq!(type_line(&mut s, b"\r"), ShellStep::Run(Command::Unknown));
}

#[test]
fn line_of_127_characters_is_too_long() {
    let mut s = Shell::new();
    let line = vec![b'a'; 127];
    assert_eq!(type_line(&mut s, &line), ShellStep::Continue);
    assert_eq!(s.feed(b'\r'), ShellStep::TooLong);
    let mut s = Shell::new();
    let line = vec![b'a'; 126];
    assert_eq!(type_line(&mut s, &line), ShellStep::Continue);
    assert_eq!(s.feed(b'\r'), ShellStep::Run(Command::Unknown));
}

#[test]
fn parse_command_compares_c_strings() {
    let mut buf = vec![0u8; CMDLINE_SIZE];
    buf[..5].copy_from_slice(b"hello");
    assert_eq!(parse_command(&buf), Command::Hello);
    buf[..5].copy_from_slice(b"exit\0");
    assert_eq!(parse_command(&buf), Command::Exit);
    buf[..6].copy_from_slice(b"exits\0");
    assert_eq!(parse_command(&buf), Command::Unknown);
}

fn printed(calls: &[lib::user_console::Syscall]) -> Vec<u8> {
    calls.iter().map(|c| {
        assert_eq!(c.sysno, SYS_PUTCHAR);
        c.arg0 as u8
    }).collect()
}

#[test]
fn reply_to_hello_greets() {
    let mut shell = Shell::new();
    assert_eq!(type_line(&mut shell, b"hello\r"), ShellStep::Run(Command::Hello));
    assert_eq!(printed(&shell.reply(Command::Hello)), b"Hello world from shell!\n".to_vec());
}

#[test]
fn reply_to_exit_exits() {
    let shell = Shell::new();
    let calls = shell.reply(Command::Exit);
    assert_eq!(calls.len(), 1);
    assert_eq!(calls[0].sysno, SYS_EXIT);
}

#[test]
fn reply_to_unknown_echoes_whole_buffer() {
    let mut shell = Shell::new();
    assert_eq!(type_line(&mut shell, b"ls\r"), ShellStep::Run(Command::Unknown));
    let out = printed(&shell.reply(Command::Unknown));
    let mut expected = b"unknown command: ".to_vec();
    expected.extend_from_slice(b"ls");
    expected.extend(std::iter::repeat(0u8).take(CMDLINE_SIZE - 2));
    expected.push(b'\n');
    assert_eq!(out, expected);
}

#[test]
fn prompt_and_step_replies() {
    assert_eq!(printed(&lib::shell::prompt()), b"> ".to_vec());
    let mut shell = Shell::new();
    let step = shell.feed(b'h');
    assert!(shell.respond(step).is_empty());
    let full = Shell::new();
    assert_eq!(printed(&full.respond(ShellStep::TooLong)), b"command line too long\n".to_vec());
    let mut shell = Shell::new();
    let step = type_line(&mut shell, b"hello\r");
    assert_eq!(printed(&shell.respond(step)), b"\nHello world from shell!\n".to_vec());
}
