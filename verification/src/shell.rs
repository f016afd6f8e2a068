use vstd::prelude::*;

use crate::common::{
    cstr, cstr_diff, is_cstr, lemma_scan_stop_from, lemma_strcmp_zero_iff_equal, scan_in_bounds,
    scan_stop, scan_stops, strcmp, zero_bytes,
};
use crate::user_console::{exit, print_args, putchar, putchar_syscall, Syscall};
use crate::common::{SYS_EXIT, SYS_PUTCHAR};
use vstd::string::StringSliceAdditionalSpecFns;

verus! {

/// Size of the shell's command line buffer, terminator included.
pub const CMDLINE_SIZE: usize = 128;

/// Carriage return: the key that ends a command line.
pub const CR: u8 = 13;

/// A command the shell runs.
#[derive(Debug, Clone, Copy, PartialEq, Eq, Structural)]
pub enum Command {
    /// `hello`: print a greeting.
    Hello,
    /// `exit`: end the shell.
    Exit,
    /// Anything else: report it as unknown.
    Unknown,
}

/// What the shell does after reading a character, which it has already echoed.
#[derive(Debug, Clone, Copy, PartialEq, Eq, Structural)]
pub enum ShellStep {
    /// The character joined the command line; read the next one.
    Continue,
    /// The command line is full: report it and prompt again.
    TooLong,
    /// The line is complete: run this command, then prompt again.
    Run(Command),
}

/// "hello"
pub open spec fn hello_cmd() -> Seq<u8> {
    seq![104u8, 101u8, 108u8, 108u8, 111u8]
}

/// "exit"
pub open spec fn exit_cmd() -> Seq<u8> {
    seq![101u8, 120u8, 105u8, 116u8]
}

/// The command that the NUL-terminated command line in `line` names.
pub open spec fn command_of(line: Seq<u8>) -> Command {
    if is_cstr(line) && cstr(line) == hello_cmd() {
        Command::Hello
    } else if is_cstr(line) && cstr(line) == exit_cmd() {
        Command::Exit
    } else {
        Command::Unknown
    }
}

/// The NUL-terminated command `word`, as a buffer.
fn command_word(hello: bool) -> (r: Vec<u8>)
    ensures
        r@ == (if hello {
            hello_cmd()
        } else {
            exit_cmd()
        }).push(0),
{
    let mut v: Vec<u8> = Vec::new();
    if hello {
        v.push(104u8);
        v.push(101u8);
        v.push(108u8);
        v.push(108u8);
        v.push(111u8);
    } else {
        v.push(101u8);
        v.push(120u8);
        v.push(105u8);
        v.push(116u8);
    }
    v.push(0u8);
    proof {
        if hello {
            assert(v@ =~= hello_cmd().push(0));
        } else {
            assert(v@ =~= exit_cmd().push(0));
        }
    }
    v
}

proof fn lemma_word_cstr(w: Seq<u8>)
    requires
        forall|i: int| 0 <= i < w.len() ==> w[i] != 0,
    ensures
        is_cstr(w.push(0)),
        cstr(w.push(0)) == w,
{
    crate::common::lemma_nul_from_at(w.push(0), 0, w.len() as int);
    assert(cstr(w.push(0)) =~= w);
}

/// Compares the command line with a NUL-terminated command word.
fn line_matches(line: &[u8], word: &[u8]) -> (r: bool)
    requires
        word@.len() <= line@.len(),
        word@.len() > 0,
        word@[word@.len() - 1] == 0,
    ensures
        r == (cstr_diff(line@, word@) == 0),
        scan_in_bounds(line@, word@),
{
    proof {
        lemma_scan_stop_from(line@, word@, 0);
        let k = word@.len() - 1;
        if scan_stop(line@, word@) > k {
            assert(scan_stops(line@, word@, k));
        }
    }
    strcmp(line, word) == 0
}

/// The command named by the NUL-terminated command line in `line`.
pub fn parse_command(line: &[u8]) -> (r: Command)
    requires
        line@.len() >= 6,
    ensures
        r == command_of(line@),
{
    let hello = command_word(true);
    let exit = command_word(false);
    proof {
        lemma_word_cstr(hello_cmd());
        lemma_word_cstr(exit_cmd());
    }
    let is_hello = line_matches(line, hello.as_slice());
    proof {
        lemma_strcmp_zero_iff_equal(line@, hello@);
    }
    if is_hello {
        return Command::Hello;
    }
    let is_exit = line_matches(line, exit.as_slice());
    proof {
        lemma_strcmp_zero_iff_equal(line@, exit@);
    }
    if is_exit {
        Command::Exit
    } else {
        Command::Unknown
    }
}

/// The command line, its length and the step after the character `ch` is typed on the
/// command line `line` holding `pos` characters: a full line (127 characters) is too long,
/// whatever the character; a carriage return ends the line, which is terminated and
/// parsed; any other character joins the line.
pub open spec fn feed_spec(line: Seq<u8>, pos: int, ch: u8) -> (Seq<u8>, int, ShellStep) {
    if pos == CMDLINE_SIZE - 1 {
        (line, pos, ShellStep::TooLong)
    } else if ch == CR {
        (line.update(pos, 0), pos, ShellStep::Run(command_of(line.update(pos, 0))))
    } else {
        (line.update(pos, ch), pos + 1, ShellStep::Continue)
    }
}

/// Typing `chars` from the command line `line` holding `pos` characters, up to the first
/// character whose step is not `Continue`: the command line, its length and that last step.
pub open spec fn type_chars(line: Seq<u8>, pos: int, chars: Seq<u8>) -> (Seq<u8>, int, ShellStep)
    decreases chars.len(),
{
    if chars.len() == 0 {
        (line, pos, ShellStep::Continue)
    } else {
        let (l, p, s) = feed_spec(line, pos, chars[0]);
        if s != ShellStep::Continue {
            (l, p, s)
        } else {
            type_chars(l, p, chars.drop_first())
        }
    }
}

/// The empty command line of a fresh prompt.
pub open spec fn fresh_line() -> Seq<u8> {
    Seq::new(CMDLINE_SIZE as nat, |i: int| 0u8)
}

/// `line` with `chars` written from index `pos` on.
pub open spec fn written(line: Seq<u8>, pos: int, chars: Seq<u8>) -> Seq<u8> {
    Seq::new(
        line.len(),
        |i: int|
            if pos <= i < pos + chars.len() {
                chars[i - pos]
            } else {
                line[i]
            },
    )
}

proof fn lemma_type_plain(line: Seq<u8>, pos: int, chars: Seq<u8>)
    requires
        line.len() == CMDLINE_SIZE,
        0 <= pos,
        pos + chars.len() <= CMDLINE_SIZE - 1,
        forall|i: int| 0 <= i < chars.len() ==> chars[i] != CR,
    ensures
        type_chars(line, pos, chars) == (written(line, pos, chars), pos + chars.len(), ShellStep::Continue),
    decreases chars.len(),
{
    if chars.len() == 0 {
        assert(written(line, pos, chars) =~= line);
    } else {
        let l = line.update(pos, chars[0]);
        lemma_type_plain(l, pos + 1, chars.drop_first());
        assert(written(l, pos + 1, chars.drop_first()) =~= written(line, pos, chars));
    }
}

proof fn lemma_type_then(line: Seq<u8>, pos: int, chars: Seq<u8>, last: u8)
    requires
        line.len() == CMDLINE_SIZE,
        0 <= pos,
        pos + chars.len() <= CMDLINE_SIZE - 1,
        forall|i: int| 0 <= i < chars.len() ==> chars[i] != CR,
    ensures
        type_chars(line, pos, chars.push(last)) == feed_spec(
            written(line, pos, chars),
            pos + chars.len(),
            last,
        ),
    decreases chars.len(),
{
    if chars.len() == 0 {
        assert(chars.push(last).drop_first() =~= Seq::<u8>::empty());
        assert(written(line, pos, chars) =~= line);
        assert(chars.push(last)[0] == last);
        reveal_with_fuel(type_chars, 2);
    } else {
        let l = line.update(pos, chars[0]);
        assert(chars.push(last)[0] == chars[0]);
        lemma_type_then(l, pos + 1, chars.drop_first(), last);
        assert(chars.push(last).drop_first() =~= chars.drop_first().push(last));
        assert(written(l, pos + 1, chars.drop_first()) =~= written(line, pos, chars));
    }
}

/// Typing a line of at most 126 characters, none of them a carriage return, at a fresh
/// prompt and then a carriage return runs the command that the line names, up to its first
/// NUL; every character before the carriage return just joins the line.
pub proof fn lemma_typed_line_runs_command(chars: Seq<u8>)
    requires
        chars.len() <= CMDLINE_SIZE - 2,
        forall|i: int| 0 <= i < chars.len() ==> chars[i] != CR,
    ensures
        type_chars(fresh_line(), 0, chars).2 == ShellStep::Continue,
        type_chars(fresh_line(), 0, chars.push(CR)).2 == ShellStep::Run(command_of(chars.push(0))),
{
    lemma_type_plain(fresh_line(), 0, chars);
    lemma_type_then(fresh_line(), 0, chars, CR);
    let line = written(fresh_line(), 0, chars).update(chars.len() as int, 0);
    assert(line.subrange(0, chars.len() + 1int) =~= chars.push(0));
    lemma_command_of_prefix(line, chars.push(0));
}

/// Typing 127 characters, none of them a carriage return, at a fresh prompt fills the line:
/// whatever comes next is too long.
pub proof fn lemma_full_line_too_long(chars: Seq<u8>, next: u8)
    requires
        chars.len() == CMDLINE_SIZE - 1,
        forall|i: int| 0 <= i < chars.len() ==> chars[i] != CR,
    ensures
        type_chars(fresh_line(), 0, chars.push(next)).2 == ShellStep::TooLong,
{
    lemma_type_then(fresh_line(), 0, chars, next);
}

/// The command a line names depends only on the line up to its first NUL.
proof fn lemma_command_of_prefix(line: Seq<u8>, prefix: Seq<u8>)
    requires
        prefix.len() > 0,
        prefix.len() <= line.len(),
        line.subrange(0, prefix.len() as int) == prefix,
        prefix[prefix.len() - 1] == 0,
    ensures
        command_of(line) == command_of(prefix),
{
    crate::common::lemma_nul_from(prefix, 0);
    crate::common::lemma_nul_from(line, 0);
    let n = crate::common::cstr_len(prefix);
    assert forall|j: int| 0 <= j <= n implies line[j] == prefix[j] by {
        assert(line.subrange(0, prefix.len() as int)[j] == line[j]);
    }
    crate::common::lemma_nul_from_at(line, 0, n);
    assert(cstr(line) =~= cstr(prefix));
}

/// The shell's command line editor.
pub struct Shell {
    cmdline: Vec<u8>,
    pos: usize,
}

impl Shell {
    /// The command line buffer.
    pub closed spec fn line(&self) -> Seq<u8> {
        self.cmdline@
    }

    /// Number of characters on the command line.
    pub closed spec fn len(&self) -> int {
        self.pos as int
    }

    /// The editor's invariant.
    pub open spec fn wf(&self) -> bool {
        &&& self.line().len() == CMDLINE_SIZE
        &&& 0 <= self.len() < CMDLINE_SIZE
    }

    /// An empty command line, as at a fresh prompt.
    pub fn new() -> (r: Self)
        ensures
            r.wf(),
            r.len() == 0,
            r.line() == Seq::new(CMDLINE_SIZE as nat, |i: int| 0u8),
    {
        let cmdline = zero_bytes(CMDLINE_SIZE);
        Shell { cmdline, pos: 0 }
    }

    /// The command line buffer, all of it.
    pub fn cmdline(&self) -> (r: &[u8])
        ensures
            r@ == self.line(),
    {
        self.cmdline.as_slice()
    }

    /// Takes the next character typed at the prompt. A full line (127 characters) is too
    /// long, whatever the character; a carriage return ends the line, which is terminated
    /// and parsed; any other character joins the line.
    pub fn feed(&mut self, ch: u8) -> (r: ShellStep)
        requires
            old(self).wf(),
        ensures
            final(self).wf(),
            (final(self).line(), final(self).len(), r) == feed_spec(old(self).line(), old(self).len(), ch),
    {
        if self.pos == CMDLINE_SIZE - 1 {
            return ShellStep::TooLong;
        }
        if ch == CR {
            self.cmdline.set(self.pos, 0);
            let cmd = parse_command(self.cmdline.as_slice());
            return ShellStep::Run(cmd);
        }
        self.cmdline.set(self.pos, ch);
        self.pos = self.pos + 1;
        ShellStep::Continue
    }
}

/// The system calls that write the bytes of `s` to the console, one each, in order.
pub open spec fn putchars(s: Seq<u8>) -> Seq<Syscall> {
    Seq::new(s.len(), |i: int| putchar_syscall(s[i]))
}

/// The system calls with which the shell answers `cmd`, given its command line buffer
/// `line`: the greeting for `hello`; the exit call for `exit`; and for anything else
/// "unknown command: ", every byte of the buffer, and a newline.
pub open spec fn reply_spec(cmd: Command, line: Seq<u8>) -> Seq<Syscall> {
    match cmd {
        Command::Hello => putchars("Hello world from shell!\n".spec_bytes()),
        Command::Exit => seq![Syscall { sysno: SYS_EXIT, arg0: 0, arg1: 0, arg2: 0 }],
        Command::Unknown => putchars("unknown command: ".spec_bytes()) + putchars(line) + putchars(
            "\n".spec_bytes(),
        ),
    }
}

/// Appends the system calls that print `text` to `out`.
fn print_into(out: &mut Vec<Syscall>, text: &str)
    ensures
        final(out)@ == old(out)@ + putchars(text.spec_bytes()),
{
    let calls = print_args(text);
    let ghost start = out@;
    let mut i: usize = 0;
    while i < calls.len()
        invariant
            i <= calls@.len(),
            calls@.len() == text.spec_bytes().len(),
            forall|k: int| 0 <= k < calls@.len() ==> #[trigger] calls@[k] == putchar_syscall(text.spec_bytes()[k]),
            out@ == start + putchars(text.spec_bytes().subrange(0, i as int)),
        decreases calls@.len() - i,
    {
        out.push(calls[i]);
        i = i + 1;
        assert(putchars(text.spec_bytes().subrange(0, i as int)) =~= putchars(
            text.spec_bytes().subrange(0, i - 1),
        ).push(putchar_syscall(text.spec_bytes()[i - 1])));
    }
    assert(text.spec_bytes().subrange(0, i as int) =~= text.spec_bytes());
}

/// The system calls with which the shell follows up a step, given its command line buffer
/// `line`: nothing while the line grows; "command line too long" and a newline for a full
/// line; a newline and the command's answer (`reply_spec`) for a complete one.
pub open spec fn step_reply_spec(step: ShellStep, line: Seq<u8>) -> Seq<Syscall> {
    match step {
        ShellStep::Continue => Seq::empty(),
        ShellStep::TooLong => putchars("command line too long\n".spec_bytes()),
        ShellStep::Run(cmd) => putchars("\n".spec_bytes()) + reply_spec(cmd, line),
    }
}

/// The system calls that print the shell's prompt.
pub fn prompt() -> (r: Vec<Syscall>)
    ensures
        r@ == putchars("> ".spec_bytes()),
{
    let mut out: Vec<Syscall> = Vec::new();
    print_into(&mut out, "> ");
    assert(out@ =~= putchars("> ".spec_bytes()));
    out
}

impl Shell {
    /// The system calls with which the shell follows up `step` (`step_reply_spec`).
    pub fn respond(&self, step: ShellStep) -> (r: Vec<Syscall>)
        requires
            self.wf(),
        ensures
            r@ == step_reply_spec(step, self.line()),
    {
        let mut out: Vec<Syscall> = Vec::new();
        match step {
            ShellStep::Continue => {
                assert(out@ =~= step_reply_spec(step, self.line()));
            },
            ShellStep::TooLong => {
                print_into(&mut out, "command line too long\n");
                assert(out@ =~= step_reply_spec(step, self.line()));
            },
            ShellStep::Run(cmd) => {
                print_into(&mut out, "\n");
                let mut rest = self.reply(cmd);
                out.append(&mut rest);
                assert(out@ =~= step_reply_spec(step, self.line()));
            },
        }
        out
    }

    /// The system calls with which the shell answers `cmd` (`reply_spec`).
    pub fn reply(&self, cmd: Command) -> (r: Vec<Syscall>)
        requires
            self.wf(),
        ensures
            r@ == reply_spec(cmd, self.line()),
    {
        let mut out: Vec<Syscall> = Vec::new();
        match cmd {
            Command::Hello => {
                print_into(&mut out, "Hello world from shell!\n");
                assert(out@ =~= reply_spec(cmd, self.line()));
            },
            Command::Exit => {
                out.push(exit());
                assert(out@ =~= reply_spec(cmd, self.line()));
            },
            Command::Unknown => {
                print_into(&mut out, "unknown command: ");
                let ghost head = out@;
                let mut i: usize = 0;
                while i < self.cmdline.len()
                    invariant
                        i <= self.cmdline@.len(),
                        out@ == head + putchars(self.cmdline@.subrange(0, i as int)),
                    decreases self.cmdline@.len() - i,
                {
                    out.push(putchar(self.cmdline[i]));
                    i = i + 1;
                    assert(putchars(self.cmdline@.subrange(0, i as int)) =~= putchars(
                        self.cmdline@.subrange(0, i - 1),
                    ).push(putchar_syscall(self.cmdline@[i - 1])));
                }
                assert(self.cmdline@.subrange(0, i as int) =~= self.cmdline@);
                print_into(&mut out, "\n");
                assert(out@ =~= reply_spec(cmd, self.line()));
            },
        }
        out
    }
}

/// Following up a complete command line prints one newline and then the command's answer:
/// the system calls are a single putchar of `'\n'` followed by `reply_spec(cmd, line)`.
pub proof fn lemma_run_reply(cmd: Command, line: Seq<u8>)
    ensures
        step_reply_spec(ShellStep::Run(cmd), line) == seq![putchar_syscall(10u8)] + reply_spec(cmd, line),
{
    reveal_strlit("\n");
    vstd::string::is_ascii_spec_bytes("\n");
    assert("\n".spec_bytes() =~= seq![10u8]);
    assert(putchars("\n".spec_bytes()) =~= seq![putchar_syscall(10u8)]);
}

/// Answering `exit` ends the program: the follow-up of a line that names `exit` is the
/// newline and then the exit system call, and nothing else.
pub proof fn lemma_exit_reply(line: Seq<u8>)
    ensures
        step_reply_spec(ShellStep::Run(Command::Exit), line) == seq![
            Syscall { sysno: SYS_PUTCHAR, arg0: 10, arg1: 0, arg2: 0 },
            Syscall { sysno: SYS_EXIT, arg0: 0, arg1: 0, arg2: 0 },
        ],
{
    lemma_run_reply(Command::Exit, line);
    assert(step_reply_spec(ShellStep::Run(Command::Exit), line) =~= seq![
        Syscall { sysno: SYS_PUTCHAR, arg0: 10, arg1: 0, arg2: 0 },
        Syscall { sysno: SYS_EXIT, arg0: 0, arg1: 0, arg2: 0 },
    ]);
}

/// Only `exit` ends the program: the answer to any other command issues no exit system call.
pub proof fn lemma_only_exit_exits(cmd: Command, line: Seq<u8>)
    requires
        cmd != Command::Exit,
    ensures
        forall|i: int|
            0 <= i < step_reply_spec(ShellStep::Run(cmd), line).len() ==> (#[trigger] step_reply_spec(
                ShellStep::Run(cmd),
                line,
            )[i]).sysno == SYS_PUTCHAR,
{
    lemma_run_reply(cmd, line);
}

} // verus!
