//! Colors and the terminal sequences that switch them on and off.

use vstd::prelude::*;
use termcolor::{Buffer, Color, ColorSpec, WriteColor};
use crate::error::decimal_digits;

verus! {

/// A foreground color.
#[derive(Clone, Copy, Debug, PartialEq, Eq, Structural)]
pub enum Paint {
    Black,
    Blue,
    Green,
    Red,
    Cyan,
    Magenta,
    Yellow,
    White,
    /// One of the 256 indexed colors.
    Ansi256(u8),
    /// Red, green and blue.
    Rgb(u8, u8, u8),
}

/// The escape character followed by an opening bracket.
pub open spec fn control_intro() -> Seq<char> {
    seq!['\x1b', '[']
}

/// The sequence that restores the terminal's default rendition.
pub open spec fn reset_sequence() -> Seq<char> {
    control_intro() + seq!['0', 'm']
}

/// The digit that selects one of the eight basic colors.
pub open spec fn basic_digit(paint: Paint) -> char {
    match paint {
        Paint::Black => '0',
        Paint::Red => '1',
        Paint::Green => '2',
        Paint::Yellow => '3',
        Paint::Blue => '4',
        Paint::Magenta => '5',
        Paint::Cyan => '6',
        _ => '7',
    }
}

/// The sequence that selects `paint` as the foreground color.
pub open spec fn foreground_sequence(paint: Paint) -> Seq<char> {
    match paint {
        Paint::Ansi256(n) => control_intro() + seq!['3', '8', ';', '5', ';'] + decimal_digits(
            n as nat,
        ) + seq!['m'],
        Paint::Rgb(r, g, b) => control_intro() + seq!['3', '8', ';', '2', ';'] + decimal_digits(
            r as nat,
        ) + seq![';'] + decimal_digits(g as nat) + seq![';'] + decimal_digits(b as nat)
            + seq!['m'],
        _ => control_intro() + seq!['3', basic_digit(paint), 'm'],
    }
}

/// What is written before a colored word: a reset, then the color.
pub open spec fn start_sequence(paint: Paint) -> Seq<char> {
    reset_sequence() + foreground_sequence(paint)
}

/// Calls `termcolor`'s `WriteColor::set_color` on a fresh ANSI `Buffer`,
/// with a `ColorSpec` that has only `paint` as its foreground, and returns
/// what was written. The contract states the bytes `termcolor` emits for
/// such a specification: its reset sequence, then `ESC [ 3x m` for a basic
/// color, `ESC [ 38;5;n m` for an indexed one and `ESC [ 38;2;r;g;b m` for
/// an RGB one, numbers in decimal without leading zeros.
#[verifier::external_body]
pub(crate) fn start_color(paint: Paint) -> (s: String)
    ensures
        s@ == start_sequence(paint),
{
    let color = match paint {
        Paint::Black => Color::Black, Paint::Blue => Color::Blue,
        Paint::Green => Color::Green, Paint::Red => Color::Red,
        Paint::Cyan => Color::Cyan, Paint::Magenta => Color::Magenta,
        Paint::Yellow => Color::Yellow, Paint::White => Color::White,
        Paint::Ansi256(n) => Color::Ansi256(n),
        Paint::Rgb(r, g, b) => Color::Rgb(r, g, b),
    };
    let mut buffer = Buffer::ansi();
    let _ = buffer.set_color(ColorSpec::new().set_fg(Some(color)));
    String::from_utf8_lossy(buffer.as_slice()).into_owned()
}

/// Calls `termcolor`'s `WriteColor::reset` on a fresh ANSI `Buffer` and
/// returns what was written: `ESC [ 0 m`.
#[verifier::external_body]
pub(crate) fn end_color() -> (s: String)
    ensures
        s@ == reset_sequence(),
{
    let mut buffer = Buffer::ansi();
    let _ = buffer.reset();
    String::from_utf8_lossy(buffer.as_slice()).into_owned()
}

} // verus!
