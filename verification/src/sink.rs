//! The in-memory sink that rendering writes into: `termcolor::Buffer`, and
//! what this library takes for granted of it.

use crate::stylesheet::{Color, Style};
use std::string::FromUtf8Error;
use termcolor::{Buffer, ColorSpec, WriteColor};
use vstd::prelude::*;
use vstd::string::StringSliceAdditionalSpecFns;
use vstd::utf8::*;

verus! {

/// `termcolor::Buffer`, an in-memory sink for bytes and styling. Nothing of
/// its inside is known here but what [`buffer_bytes`] and [`buffer_is_ansi`]
/// name.
#[verifier::external_type_specification]
#[verifier::external_body]
pub struct ExBuffer(termcolor::Buffer);

/// `std::io::Error`, carried through and never looked into.
#[verifier::external_type_specification]
#[verifier::external_body]
pub struct ExIoError(std::io::Error);

/// `std::string::FromUtf8Error`, carried through and never looked into.
#[verifier::external_type_specification]
#[verifier::external_body]
pub struct ExFromUtf8Error(std::string::FromUtf8Error);

/// The bytes that a buffer holds, in the order they were written.
pub uninterp spec fn buffer_bytes(buffer: Buffer) -> Seq<u8>;

/// Whether a buffer embeds ANSI escape sequences for styling, as one made by
/// `Buffer::ansi` does and one made by `Buffer::no_color` does not.
pub uninterp spec fn buffer_is_ansi(buffer: Buffer) -> bool;

/// The escape sequence that turns every attribute off.
pub open spec fn ansi_reset() -> Seq<u8> {
    "\x1B[0m".spec_bytes()
}

/// The escape sequence that turns bold on.
pub open spec fn ansi_bold() -> Seq<u8> {
    "\x1B[1m".spec_bytes()
}

/// The escape sequence that selects a foreground colour.
pub open spec fn ansi_fg(color: Color) -> Seq<u8> {
    match color {
        Color::Black => "\x1B[30m".spec_bytes(),
        Color::Blue => "\x1B[34m".spec_bytes(),
        Color::Green => "\x1B[32m".spec_bytes(),
        Color::Red => "\x1B[31m".spec_bytes(),
        Color::Cyan => "\x1B[36m".spec_bytes(),
        Color::Magenta => "\x1B[35m".spec_bytes(),
        Color::Yellow => "\x1B[33m".spec_bytes(),
        Color::White => "\x1B[37m".spec_bytes(),
    }
}

/// What selecting a style puts into the output: nothing without ANSI
/// styling; with it a reset, then bold if asked for, then the foreground
/// colour if there is one.
pub open spec fn style_code(ansi: bool, style: Style) -> Seq<u8> {
    if ansi {
        ansi_reset() + (if style.bold {
            ansi_bold()
        } else {
            Seq::<u8>::empty()
        }) + (match style.fg {
            Some(color) => ansi_fg(color),
            None => Seq::<u8>::empty(),
        })
    } else {
        Seq::<u8>::empty()
    }
}

/// What ending all styling puts into the output.
pub open spec fn reset_code(ansi: bool) -> Seq<u8> {
    if ansi {
        ansi_reset()
    } else {
        Seq::<u8>::empty()
    }
}

/// `termcolor::Buffer::no_color` gives an empty buffer that drops all
/// styling.
pub assume_specification[ termcolor::Buffer::no_color ]() -> (buffer: Buffer)
    ensures
        buffer_bytes(buffer) == Seq::<u8>::empty(),
        !buffer_is_ansi(buffer),
;

/// `termcolor::Buffer::ansi` gives an empty buffer that embeds styling as
/// ANSI escape sequences.
pub assume_specification[ termcolor::Buffer::ansi ]() -> (buffer: Buffer)
    ensures
        buffer_bytes(buffer) == Seq::<u8>::empty(),
        buffer_is_ansi(buffer),
;

/// `termcolor::Buffer::into_inner` hands out the bytes that the buffer
/// holds.
pub assume_specification[ termcolor::Buffer::into_inner ](buffer: Buffer) -> (bytes: Vec<u8>)
    ensures
        bytes@ == buffer_bytes(buffer),
;

/// `std::io::Write::write_all` on a `termcolor::Buffer`: the buffer grows by
/// exactly the bytes given. The buffer keeps its bytes in a `Vec<u8>`, and
/// writing to one never fails.
#[verifier::external_body]
pub(crate) fn write_bytes(stream: &mut Buffer, bytes: &[u8]) -> (r: Result<(), std::io::Error>)
    ensures
        r is Ok,
        buffer_bytes(*final(stream)) == buffer_bytes(*old(stream)) + bytes@,
        buffer_is_ansi(*final(stream)) == buffer_is_ansi(*old(stream)),
{
    std::io::Write::write_all(stream, bytes)
}

/// `termcolor::WriteColor::set_color` on a `termcolor::Buffer`, with a fresh
/// `ColorSpec` whose boldness and foreground are those of `style`. A buffer
/// without ANSI styling is left as it is; one with it grows by the escape
/// sequences of [`style_code`]: a fresh `ColorSpec` asks for a reset first.
#[verifier::external_body]
pub(crate) fn set_style(stream: &mut Buffer, style: &Style) -> (r: Result<(), std::io::Error>)
    ensures
        r is Ok,
        buffer_bytes(*final(stream)) == buffer_bytes(*old(stream)) + style_code(
            buffer_is_ansi(*old(stream)),
            *style,
        ),
        buffer_is_ansi(*final(stream)) == buffer_is_ansi(*old(stream)),
{
    let fg = match style.fg {
        None => None,
        Some(Color::Black) => Some(termcolor::Color::Black),
        Some(Color::Blue) => Some(termcolor::Color::Blue),
        Some(Color::Green) => Some(termcolor::Color::Green),
        Some(Color::Red) => Some(termcolor::Color::Red),
        Some(Color::Cyan) => Some(termcolor::Color::Cyan),
        Some(Color::Magenta) => Some(termcolor::Color::Magenta),
        Some(Color::Yellow) => Some(termcolor::Color::Yellow),
        Some(Color::White) => Some(termcolor::Color::White),
    };
    let mut spec = ColorSpec::new();
    spec.set_bold(style.bold).set_fg(fg);
    stream.set_color(&spec)
}

/// `termcolor::WriteColor::reset` on a `termcolor::Buffer`: a buffer without
/// ANSI styling is left as it is, one with it grows by the reset sequence.
#[verifier::external_body]
pub(crate) fn reset_style(stream: &mut Buffer) -> (r: Result<(), std::io::Error>)
    ensures
        r is Ok,
        buffer_bytes(*final(stream)) == buffer_bytes(*old(stream)) + reset_code(
            buffer_is_ansi(*old(stream)),
        ),
        buffer_is_ansi(*final(stream)) == buffer_is_ansi(*old(stream)),
{
    stream.reset()
}

/// `String::from_utf8`: succeeds exactly on well-formed UTF-8, and the
/// string then consists of the bytes given.
#[verifier::external_body]
pub(crate) fn string_from_utf8(bytes: Vec<u8>) -> (r: Result<String, FromUtf8Error>)
    ensures
        r is Ok <==> valid_utf8(bytes@),
        r matches Ok(s) ==> encode_utf8(s@) == bytes@,
{
    String::from_utf8(bytes)
}

} // verus!
