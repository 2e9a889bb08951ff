//! Failure kinds of the viewer, their exit codes and their messages.

use vstd::prelude::*;
use vstd::std_specs::convert::FromSpecImpl;
use crate::text::{push_str_chars, string_of};

verus! {

/// Everything that can end the viewer with a failure.
#[derive(Debug)]
pub enum Error<'a> {
    /// The configuration was rejected before the loop started.
    InvalidArgs(&'a str),
    /// The target command could not be started.
    CouldNotSpawnProcess,
    /// The interrupt handler could not be installed.
    CouldNotSetSignalHandler,
    /// The target command ran but its output could not be used.
    ProcessFailed(String),
    /// The target command exited with this non-zero status.
    ProcessErrExit(i32),
    /// Writing to the terminal failed; the text describes the failure.
    Io(String),
}

/// The low eight bits of `code`, as a process exit code carries them.
pub open spec fn low_byte(code: int) -> int {
    code % 256
}

/// Decimal digits of a natural number, most significant first.
pub open spec fn decimal_digits(n: nat) -> Seq<char>
    decreases n,
{
    if n < 10 {
        seq![digit_char(n)]
    } else {
        decimal_digits(n / 10).push(digit_char(n % 10))
    }
}

/// The character of one decimal digit.
pub open spec fn digit_char(d: nat) -> char {
    if d == 0 {
        '0'
    } else if d == 1 {
        '1'
    } else if d == 2 {
        '2'
    } else if d == 3 {
        '3'
    } else if d == 4 {
        '4'
    } else if d == 5 {
        '5'
    } else if d == 6 {
        '6'
    } else if d == 7 {
        '7'
    } else if d == 8 {
        '8'
    } else {
        '9'
    }
}

/// Decimal text of an integer: a minus sign for negatives, then the digits.
pub open spec fn decimal_text(v: int) -> Seq<char> {
    if v < 0 {
        seq!['-'] + decimal_digits((-v) as nat)
    } else {
        decimal_digits(v as nat)
    }
}

/// The message shown for each failure kind.
pub open spec fn message_of(err: Error<'_>) -> Seq<char> {
    match err {
        Error::InvalidArgs(msg) => "Invalid arguments: "@ + msg@,
        Error::CouldNotSpawnProcess => "Could not spawn child process"@,
        Error::CouldNotSetSignalHandler => "Could not set signal handler"@,
        Error::ProcessFailed(msg) => "Process failed: "@ + msg@,
        Error::ProcessErrExit(code) => "Target command returned non-zero exit code: "@
            + decimal_text(code as int),
        Error::Io(msg) => msg@,
    }
}

/// The exit code of each failure kind.
pub open spec fn exit_code_of(err: Error<'_>) -> int {
    match err {
        Error::InvalidArgs(_) => 1,
        Error::CouldNotSpawnProcess => 2,
        Error::CouldNotSetSignalHandler => 1,
        Error::ProcessFailed(_) => 4,
        Error::ProcessErrExit(code) => low_byte(code as int),
        Error::Io(_) => 5,
    }
}

fn digit_to_char(d: u32) -> (c: char)
    requires
        d < 10,
    ensures
        c == digit_char(d as nat),
{
    if d == 0 {
        '0'
    } else if d == 1 {
        '1'
    } else if d == 2 {
        '2'
    } else if d == 3 {
        '3'
    } else if d == 4 {
        '4'
    } else if d == 5 {
        '5'
    } else if d == 6 {
        '6'
    } else if d == 7 {
        '7'
    } else if d == 8 {
        '8'
    } else {
        '9'
    }
}

/// Appends the decimal digits of `n` to `out`.
fn push_decimal_digits(out: &mut Vec<char>, n: u32)
    ensures
        final(out)@ == old(out)@ + decimal_digits(n as nat),
    decreases n,
{
    if n < 10 {
        out.push(digit_to_char(n));
        assert(out@ =~= old(out)@ + decimal_digits(n as nat));
    } else {
        push_decimal_digits(out, n / 10);
        out.push(digit_to_char(n % 10));
        assert(out@ =~= old(out)@ + decimal_digits(n as nat));
    }
}

impl<'a> Error<'a> {
    /// The exit code the process ends with for this failure. A child status
    /// outside `0..=255` is reduced to its low eight bits.
    pub fn exit_code(&self) -> (code: u8)
        ensures
            code as int == exit_code_of(*self),
    {
        match self {
            Error::InvalidArgs(_) => 1,
            Error::CouldNotSpawnProcess => 2,
            Error::CouldNotSetSignalHandler => 1,
            Error::ProcessFailed(_) => 4,
            Error::ProcessErrExit(code) => {
                let r: i32 = *code % 256;
                if r < 0 {
                    (r + 256) as u8
                } else {
                    r as u8
                }
            },
            Error::Io(_) => 5,
        }
    }

    /// The message shown for this failure.
    pub fn message(&self) -> (text: String)
        ensures
            text@ == message_of(*self),
    {
        let mut out: Vec<char> = Vec::new();
        match self {
            Error::InvalidArgs(msg) => {
                push_str_chars(&mut out, "Invalid arguments: ");
                push_str_chars(&mut out, msg);
            },
            Error::CouldNotSpawnProcess => {
                push_str_chars(&mut out, "Could not spawn child process");
            },
            Error::CouldNotSetSignalHandler => {
                push_str_chars(&mut out, "Could not set signal handler");
            },
            Error::ProcessFailed(msg) => {
                push_str_chars(&mut out, "Process failed: ");
                push_str_chars(&mut out, msg.as_str());
            },
            Error::ProcessErrExit(code) => {
                push_str_chars(&mut out, "Target command returned non-zero exit code: ");
                let ghost head = out@;
                if *code < 0 {
                    out.push('-');
                    let size: i64 = -(*code as i64);
                    push_decimal_digits(&mut out, size as u32);
                    assert(out@ =~= head + decimal_text(*code as int));
                } else {
                    push_decimal_digits(&mut out, *code as u32);
                }
            },
            Error::Io(msg) => {
                push_str_chars(&mut out, msg.as_str());
            },
        }
        assert(out@ =~= message_of(*self));
        string_of(&out)
    }
}

/// How a run of the viewer ended.
#[derive(Debug)]
pub struct Exit<'a>(pub Result<(), Error<'a>>);

impl<'a> From<Result<(), Error<'a>>> for Exit<'a> {
    fn from(res: Result<(), Error<'a>>) -> (exit: Exit<'a>) {
        Exit(res)
    }
}

impl<'a> FromSpecImpl<Result<(), Error<'a>>> for Exit<'a> {
    open spec fn obeys_from_spec() -> bool {
        true
    }

    open spec fn from_spec(res: Result<(), Error<'a>>) -> Exit<'a> {
        Exit(res)
    }
}

impl<'a> Exit<'a> {
    /// The exit code of the process and, after a failure, the message for
    /// the diagnostic stream: zero and nothing after a clean stop, the code
    /// and the message of the failure otherwise.
    pub fn report(&self) -> (r: (u8, Option<String>))
        ensures
            match self.0 {
                Ok(_) => r.0 == 0 && r.1 is None,
                Err(e) => r.0 as int == exit_code_of(e) && (r.1 matches Some(text) && text@
                    == message_of(e)),
            },
    {
        match &self.0 {
            Ok(_) => (0, None),
            Err(e) => (e.exit_code(), Some(e.message())),
        }
    }
}

} // verus!
