//! The supervisor's decisions: what is shown for a captured run, whether the
//! loop stops after it, and how long it sleeps otherwise.

use vstd::prelude::*;
use vstd::utf8::{decode_utf8, valid_utf8};
use crate::args::Args;
use crate::error::Error;
use crate::render::{highlight_diffs, render_frame};
use crate::text::{chars_of, push_str_chars, string_of};

verus! {

/// One captured run of the command.
#[derive(Debug)]
pub struct Frame {
    /// What the command wrote to its standard output.
    pub text: String,
    /// The exit code of the command, if it ended with one.
    pub status: Option<i32>,
    /// Nanoseconds from the start of the run to the end of rendering.
    pub elapsed: u128,
}

/// What the loop does after a frame has been shown.
#[derive(Clone, Copy, Debug, PartialEq, Eq, Structural)]
pub enum Step {
    /// Sleep for this many nanoseconds, then run the command again.
    Sleep(u128),
    /// Stop with success: the output changed.
    Done,
    /// Stop with a failure: the command ended with this code.
    Failed(i32),
}

/// What the loop has done on the frames it was given.
#[derive(Debug)]
pub struct Report {
    /// What was shown, one screen per run.
    pub screens: Vec<String>,
    /// How long the loop slept after each run that did not end it.
    pub sleeps: Vec<u128>,
    /// How the loop ended, or `None` while it is still running.
    pub outcome: Option<Result<(), Error<'static>>>,
}

/// The sequence that clears the screen and moves the cursor home.
pub open spec fn clear_sequence() -> Seq<char> {
    seq!['\x1b', '[', '2', 'J', '\x1b', '[', '1', ';', '1', 'H']
}

/// The text of a previous frame, empty where there was none.
pub open spec fn text_or_empty(previous: Option<Seq<char>>) -> Seq<char> {
    match previous {
        Some(p) => p,
        None => Seq::empty(),
    }
}

/// What is written to the terminal for the output `data`: the clearing
/// sequence, then the highlighted frame, or the output as it is where
/// differences are not shown.
pub open spec fn screen_of(args: Args, data: Seq<char>, previous: Option<Seq<char>>) -> Seq<char> {
    clear_sequence() + if args.show_diff {
        render_frame(data, text_or_empty(previous), args)
    } else {
        data
    }
}

/// Whether the command succeeded.
pub open spec fn succeeded(status: Option<i32>) -> bool {
    status == Some(0i32)
}

/// The code reported for a failed command: its own, or -1 where it ended
/// without one.
pub open spec fn failure_code(status: Option<i32>) -> i32 {
    match status {
        Some(code) => code,
        None => -1i32,
    }
}

/// How long the loop sleeps: the interval, less the time already spent
/// where timing is precise, and never less than nothing.
pub open spec fn sleep_of(args: Args, elapsed: u128) -> u128 {
    if args.precise_mode {
        if args.interval > elapsed {
            (args.interval - elapsed) as u128
        } else {
            0
        }
    } else {
        args.interval
    }
}

/// Whether there was a previous frame and its output differs from `data`.
pub open spec fn changed(previous: Option<Seq<char>>, data: Seq<char>) -> bool {
    match previous {
        Some(p) => p != data,
        None => false,
    }
}

/// What the loop does after the frame: it stops with success where it was
/// asked to stop on a change and the output changed; else it stops with a
/// failure where it was asked to stop on errors and the command failed;
/// else it sleeps.
pub open spec fn step_of(
    args: Args,
    previous: Option<Seq<char>>,
    data: Seq<char>,
    status: Option<i32>,
    elapsed: u128,
) -> Step {
    if args.exit_on_change && changed(previous, data) {
        Step::Done
    } else if args.exit_on_err && !succeeded(status) {
        Step::Failed(failure_code(status))
    } else {
        Step::Sleep(sleep_of(args, elapsed))
    }
}

/// The output of the run before the `i`-th, if there was one.
pub open spec fn previous_of(frames: Seq<Frame>, i: int) -> Option<Seq<char>> {
    if i <= 0 {
        None
    } else {
        Some(frames[i - 1].text@)
    }
}

/// What the loop does after the `i`-th of the given runs.
pub open spec fn step_at(args: Args, frames: Seq<Frame>, i: int) -> Step {
    step_of(args, previous_of(frames, i), frames[i].text@, frames[i].status, frames[i].elapsed)
}

/// What is shown for the `i`-th of the given runs.
pub open spec fn screen_at(args: Args, frames: Seq<Frame>, i: int) -> Seq<char> {
    screen_of(args, frames[i].text@, previous_of(frames, i))
}

/// Decodes what a command wrote with std's `String::from_utf8`, which
/// accepts exactly the byte sequences that are valid UTF-8 and returns the
/// text they encode.
#[verifier::external_body]
fn decode_text(bytes: Vec<u8>) -> (r: Option<String>)
    ensures
        r.is_some() == valid_utf8(bytes@),
        r.is_some() ==> r.unwrap()@ == decode_utf8(bytes@),
{
    String::from_utf8(bytes).ok()
}

impl Frame {
    /// Makes a frame of what a run produced. Output that is not valid UTF-8
    /// is refused.
    pub fn capture(output: Vec<u8>, status: Option<i32>, elapsed: u128) -> (r: Result<
        Frame,
        Error<'static>,
    >)
        ensures
            match r {
                Ok(frame) => valid_utf8(output@) && frame.text@ == decode_utf8(output@)
                    && frame.status == status && frame.elapsed == elapsed,
                Err(e) => !valid_utf8(output@) && (e matches Error::ProcessFailed(msg) && msg@
                    == "Invalid string was returned"@),
            },
    {
        match decode_text(output) {
            Some(text) => Ok(Frame { text, status, elapsed }),
            None => Err(
                Error::ProcessFailed(string_of(&chars_of("Invalid string was returned"))),
            ),
        }
    }
}

/// What is written to the terminal for the output `data`, given the output
/// of the previous run.
pub fn screen(args: &Args, data: &String, previous: &Option<String>) -> (out: String)
    requires
        args.valid(),
    ensures
        out@ == screen_of(
            *args,
            data@,
            match *previous {
                Some(p) => Some(p@),
                None => None,
            },
        ),
{
    let mut out: Vec<char> = Vec::new();
    out.push('\x1b');
    out.push('[');
    out.push('2');
    out.push('J');
    out.push('\x1b');
    out.push('[');
    out.push('1');
    out.push(';');
    out.push('1');
    out.push('H');
    assert(out@ =~= clear_sequence());
    if args.show_diff {
        let shown = match previous {
            Some(p) => highlight_diffs(data.as_str(), p.as_str(), args),
            None => {
                let nothing = String::new();
                highlight_diffs(data.as_str(), nothing.as_str(), args)
            },
        };
        push_str_chars(&mut out, shown.as_str());
    } else {
        push_str_chars(&mut out, data.as_str());
    }
    string_of(&out)
}

/// How long the loop sleeps after a run that took `elapsed` nanoseconds.
pub fn sleep_duration(args: &Args, elapsed: u128) -> (nanos: u128)
    ensures
        nanos == sleep_of(*args, elapsed),
{
    if args.precise_mode {
        if args.interval > elapsed {
            args.interval - elapsed
        } else {
            0
        }
    } else {
        args.interval
    }
}

/// Decides what the loop does after a frame has been shown.
pub fn next_step(args: &Args, previous: &Option<String>, frame: &Frame) -> (step: Step)
    ensures
        step == step_of(
            *args,
            match *previous {
                Some(p) => Some(p@),
                None => None,
            },
            frame.text@,
            frame.status,
            frame.elapsed,
        ),
{
    let differs = match previous {
        Some(p) => !(*p == frame.text),
        None => false,
    };
    if args.exit_on_change && differs {
        return Step::Done;
    }
    let success = match frame.status {
        Some(code) => code == 0,
        None => false,
    };
    if args.exit_on_err && !success {
        let code = match frame.status {
            Some(code) => code,
            None => -1,
        };
        return Step::Failed(code);
    }
    Step::Sleep(sleep_duration(args, frame.elapsed))
}

/// The view of an optional text.
pub open spec fn text_view(previous: Option<String>) -> Option<Seq<char>> {
    match previous {
        Some(p) => Some(p@),
        None => None,
    }
}

/// Whether the report tells what the loop does on the given runs: it shows
/// one screen per run up to and including the first run after which it
/// stops, sleeps after every run before that one, and ends as that run
/// says, or is still running where no run stops it.
pub open spec fn report_of(args: Args, frames: Seq<Frame>, report: Report) -> bool {
    let shown = report.screens@.len() as int;
    let slept = report.sleeps@.len() as int;
    &&& shown <= frames.len()
    &&& forall|i: int| 0 <= i < shown ==> (#[trigger] report.screens@[i])@ == screen_at(args, frames, i)
    &&& forall|i: int|
        0 <= i < slept ==> step_at(args, frames, i) == Step::Sleep(#[trigger] report.sleeps@[i])
    &&& match report.outcome {
        None => shown == frames.len() && slept == shown,
        Some(Ok(())) => shown == slept + 1 && step_at(args, frames, slept) == Step::Done,
        Some(Err(e)) => shown == slept + 1 && (e matches Error::ProcessErrExit(code) && step_at(
            args,
            frames,
            slept,
        ) == Step::Failed(code)),
    }
}

/// Plays the loop on runs that have already been captured: each frame is
/// shown, then the loop stops or sleeps as [`next_step`] decides, until a
/// frame stops it or none is left.
pub fn run(args: &Args, frames: &Vec<Frame>) -> (report: Report)
    requires
        args.valid(),
    ensures
        report_of(*args, frames@, report),
{
    let mut screens: Vec<String> = Vec::new();
    let mut sleeps: Vec<u128> = Vec::new();
    let mut previous: Option<String> = None;
    let n = frames.len();
    let mut i: usize = 0;
    while i < n
        invariant
            i <= n,
            n == frames@.len(),
            args.valid(),
            screens@.len() == i,
            sleeps@.len() == i,
            text_view(previous) == previous_of(frames@, i as int),
            forall|j: int| 0 <= j < i ==> (#[trigger] screens@[j])@ == screen_at(*args, frames@, j),
            forall|j: int|
                0 <= j < i ==> step_at(*args, frames@, j) == Step::Sleep(#[trigger] sleeps@[j]),
        decreases n - i,
    {
        let frame = &frames[i];
        let shown = screen(args, &frame.text, &previous);
        screens.push(shown);
        match next_step(args, &previous, frame) {
            Step::Done => {
                return Report { screens, sleeps, outcome: Some(Ok(())) };
            },
            Step::Failed(code) => {
                return Report { screens, sleeps, outcome: Some(Err(Error::ProcessErrExit(code))) };
            },
            Step::Sleep(nanos) => {
                sleeps.push(nanos);
            },
        }
        previous = Some(frame.text.clone());
        i += 1;
    }
    Report { screens, sleeps, outcome: None }
}

/// The loop never stops for a change on its first frame: there is nothing
/// to compare it with.
pub proof fn lemma_first_frame_never_changed(
    args: Args,
    data: Seq<char>,
    status: Option<i32>,
    elapsed: u128,
)
    ensures
        step_of(args, None, data, status, elapsed) != Step::Done,
{
}

/// The loop stops for a change exactly when it was asked to, a previous
/// frame exists and its text differs from the new one.
pub proof fn lemma_change_stops(
    args: Args,
    previous: Option<Seq<char>>,
    data: Seq<char>,
    status: Option<i32>,
    elapsed: u128,
)
    ensures
        step_of(args, previous, data, status, elapsed) == Step::Done <==> args.exit_on_change && (
        previous matches Some(p) && p != data),
{
}

/// The loop stops for a failure only when it was asked to and the command
/// did not end with code zero; a change that stops the loop comes first.
pub proof fn lemma_failure_stops(
    args: Args,
    previous: Option<Seq<char>>,
    data: Seq<char>,
    status: Option<i32>,
    elapsed: u128,
)
    ensures
        step_of(args, previous, data, status, elapsed) is Failed <==> args.exit_on_err
            && status != Some(0i32) && !(args.exit_on_change && changed(previous, data)),
        !args.exit_on_err ==> !(step_of(args, previous, data, status, elapsed) is Failed),
{
}

/// With precise timing the sleep and the time spent add up to the
/// interval, unless the run took longer than that: then the sleep is zero.
pub proof fn lemma_precise_sleep(args: Args, elapsed: u128)
    requires
        args.precise_mode,
    ensures
        sleep_of(args, elapsed) == if args.interval >= elapsed {
            args.interval - elapsed
        } else {
            0
        },
        sleep_of(args, elapsed) >= 0,
{
}

/// While the output stays the same the loop is never stopped by a change:
/// on runs that all wrote the same text, and with stopping on errors off,
/// the loop sleeps after every frame.
pub proof fn lemma_steady_output_keeps_running(args: Args, frames: Seq<Frame>, i: int)
    requires
        0 <= i < frames.len(),
        !args.exit_on_err,
        forall|j: int| 0 <= j < frames.len() ==> (#[trigger] frames[j]).text@ == frames[0].text@,
    ensures
        step_at(args, frames, i) is Sleep,
{
    if i > 0 {
        assert(frames[i - 1].text@ == frames[0].text@);
        assert(frames[i].text@ == frames[0].text@);
    }
}

} // verus!
