//! The configuration of one run of the viewer.

use vstd::prelude::*;
use termcolor::Color;
use crate::error::Error;
use crate::numeric::{parse_radix, read_radix};
use crate::paint::Paint;
use crate::text::{chars_of, copy_range};

verus! {

/// The interval used where none is given: one second.
pub const DEFAULT_INTERVAL: u128 = 1_000_000_000;

/// The base used where none is given.
pub const DEFAULT_RADIX: u32 = 10;

/// The settings that the viewer runs with. They are fixed once the loop
/// has started.
#[derive(Debug)]
pub struct Args {
    /// Time between two runs of the command, in nanoseconds.
    pub interval: u128,
    /// Highlight what changed since the previous run.
    pub show_diff: bool,
    /// Count the time a run took against the interval.
    pub precise_mode: bool,
    /// Stop when the command fails.
    pub exit_on_err: bool,
    /// Stop when the output changes.
    pub exit_on_change: bool,
    /// Tell rising numbers from falling ones.
    pub show_number_diff: bool,
    /// The base that numbers are read in.
    pub radix: u32,
    /// Color of words that match nothing of the previous run.
    pub color_new: Paint,
    /// Color of words that changed.
    pub color_change: Paint,
    /// Color of numbers that rose.
    pub color_increase: Paint,
    /// Color of numbers that fell, or stayed.
    pub color_decrease: Paint,
    /// The command to run.
    pub cmd: String,
    /// The arguments it is run with.
    pub cmd_args: Vec<String>,
}

/// The settings as they were asked for, before defaults are filled in and
/// the whole is validated.
#[derive(Debug)]
pub struct RawArgs {
    /// The interval in nanoseconds, where one was given and understood.
    pub interval: Option<u128>,
    pub show_diff: bool,
    pub precise_mode: bool,
    pub exit_on_err: bool,
    pub exit_on_change: bool,
    pub show_number_diff: bool,
    /// The text given for the base.
    pub radix: Option<String>,
    /// The text given for each color: a name, a number or three numbers.
    pub color_new: Option<String>,
    pub color_change: Option<String>,
    pub color_increase: Option<String>,
    pub color_decrease: Option<String>,
    /// The command to run.
    pub command: Option<String>,
    /// The arguments it is run with.
    pub command_args: Vec<String>,
}

impl Default for RawArgs {
    /// Nothing asked for: every switch off, every value left to its default,
    /// no command.
    fn default() -> (raw: RawArgs)
        ensures
            raw.interval is None,
            !raw.show_diff,
            !raw.precise_mode,
            !raw.exit_on_err,
            !raw.exit_on_change,
            !raw.show_number_diff,
            raw.radix is None,
            raw.color_new is None,
            raw.color_change is None,
            raw.color_increase is None,
            raw.color_decrease is None,
            raw.command is None,
            raw.command_args@.len() == 0,
    {
        RawArgs {
            interval: None,
            show_diff: false,
            precise_mode: false,
            exit_on_err: false,
            exit_on_change: false,
            show_number_diff: false,
            radix: None,
            color_new: None,
            color_change: None,
            color_increase: None,
            color_decrease: None,
            command: None,
            command_args: Vec::new(),
        }
    }
}

/// The color that `termcolor` reads from a text: a color name in any case,
/// a number from 0 to 255, or three such numbers between commas, each in
/// decimal or, after `0x`, in hexadecimal.
pub uninterp spec fn color_named(text: Seq<char>) -> Option<Paint>;

/// Reads a color with `termcolor`'s `Color::from_str`. The result depends
/// on the text alone; text that `termcolor` refuses gives `None`.
#[verifier::external_body]
fn parse_color(text: &str) -> (r: Option<Paint>)
    ensures
        r == color_named(text@),
{
    match text.parse::<Color>().ok()? {
        Color::Black => Some(Paint::Black),
        Color::Blue => Some(Paint::Blue),
        Color::Green => Some(Paint::Green),
        Color::Red => Some(Paint::Red),
        Color::Cyan => Some(Paint::Cyan),
        Color::Magenta => Some(Paint::Magenta),
        Color::Yellow => Some(Paint::Yellow),
        Color::White => Some(Paint::White),
        Color::Ansi256(n) => Some(Paint::Ansi256(n)),
        Color::Rgb(r, g, b) => Some(Paint::Rgb(r, g, b)),
        _ => None,
    }
}

/// The number that a text stands for: decimal digits, after an optional
/// plus sign, that give a value of at most 32 bits.
pub open spec fn count_of(text: Seq<char>) -> Option<u32> {
    let digits = if text.len() > 0 && text[0] == '+' {
        text.skip(1)
    } else {
        text
    };
    match parse_radix(digits, 10) {
        Some(v) => Some(v.0 as u32),
        None => None,
    }
}

/// The base asked for: the number that the given text stands for, or the
/// default where there is no text or it is no number.
pub open spec fn radix_of(given: Option<String>) -> u32 {
    match given {
        Some(text) => match count_of(text@) {
            Some(v) => v,
            None => DEFAULT_RADIX,
        },
        None => DEFAULT_RADIX,
    }
}

/// The color asked for: the one that the given text names, or `fallback`
/// where there is no text or it names none.
pub open spec fn paint_or(given: Option<String>, fallback: Paint) -> Paint {
    match given {
        Some(text) => match color_named(text@) {
            Some(p) => p,
            None => fallback,
        },
        None => fallback,
    }
}

/// The interval asked for, or the default.
pub open spec fn interval_of(given: Option<u128>) -> u128 {
    match given {
        Some(nanos) => nanos,
        None => DEFAULT_INTERVAL,
    }
}

/// Reads a number of at most 32 bits from decimal text.
pub fn read_count(text: &str) -> (r: Option<u32>)
    ensures
        r == count_of(text@),
{
    let chars = chars_of(text);
    if chars.len() > 0 && chars[0] == '+' {
        let digits = copy_range(&chars, 1, chars.len());
        assert(digits@ =~= text@.skip(1));
        read_radix(&digits, 10)
    } else {
        read_radix(&chars, 10)
    }
}

fn choose_paint(given: &Option<String>, fallback: Paint) -> (p: Paint)
    ensures
        p == paint_or(*given, fallback),
{
    match given {
        Some(text) => match parse_color(text.as_str()) {
            Some(p) => p,
            None => fallback,
        },
        None => fallback,
    }
}

impl Args {
    /// Whether the settings can be used: the base must be one that digits
    /// exist for.
    pub open spec fn valid(&self) -> bool {
        2 <= self.radix <= 36
    }

    /// Fills in the defaults and validates the whole. The interval defaults to
    /// one second, the base to ten, and the colors to green for new,
    /// magenta for changed, cyan for increased and red for decreased words;
    /// text that cannot be read counts as not given. Settings without a
    /// command, or with a base outside 2 to 36, are refused.
    pub fn new(raw: RawArgs) -> (r: Result<Args, Error<'static>>)
        ensures
            match r {
                Ok(args) => {
                    &&& raw.command is Some
                    &&& args.valid()
                    &&& args.interval == interval_of(raw.interval)
                    &&& args.show_diff == raw.show_diff
                    &&& args.precise_mode == raw.precise_mode
                    &&& args.exit_on_err == raw.exit_on_err
                    &&& args.exit_on_change == raw.exit_on_change
                    &&& args.show_number_diff == raw.show_number_diff
                    &&& args.radix == radix_of(raw.radix)
                    &&& args.color_new == paint_or(raw.color_new, Paint::Green)
                    &&& args.color_change == paint_or(raw.color_change, Paint::Magenta)
                    &&& args.color_increase == paint_or(raw.color_increase, Paint::Cyan)
                    &&& args.color_decrease == paint_or(raw.color_decrease, Paint::Red)
                    &&& args.cmd == raw.command->0
                    &&& args.cmd_args == raw.command_args
                },
                Err(e) => if raw.command is None {
                    e matches Error::InvalidArgs(msg) && msg@ == "No target command!"@
                } else {
                    &&& !(2 <= radix_of(raw.radix) <= 36)
                    &&& e matches Error::InvalidArgs(msg) && msg@
                        == "Radix must lie between 2 and 36"@
                },
            },
    {
        let interval = match raw.interval {
            Some(nanos) => nanos,
            None => DEFAULT_INTERVAL,
        };
        let radix = match &raw.radix {
            Some(text) => match read_count(text.as_str()) {
                Some(v) => v,
                None => DEFAULT_RADIX,
            },
            None => DEFAULT_RADIX,
        };
        let color_new = choose_paint(&raw.color_new, Paint::Green);
        let color_change = choose_paint(&raw.color_change, Paint::Magenta);
        let color_increase = choose_paint(&raw.color_increase, Paint::Cyan);
        let color_decrease = choose_paint(&raw.color_decrease, Paint::Red);
        let cmd = match raw.command {
            Some(cmd) => cmd,
            None => {
                return Err(Error::InvalidArgs("No target command!"));
            },
        };
        if radix < 2 || radix > 36 {
            return Err(Error::InvalidArgs("Radix must lie between 2 and 36"));
        }
        Ok(
            Args {
                interval,
                show_diff: raw.show_diff,
                precise_mode: raw.precise_mode,
                exit_on_err: raw.exit_on_err,
                exit_on_change: raw.exit_on_change,
                show_number_diff: raw.show_number_diff,
                radix,
                color_new,
                color_change,
                color_increase,
                color_decrease,
                cmd,
                cmd_args: raw.command_args,
            },
        )
    }
}

} // verus!
