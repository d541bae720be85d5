//! The rows of the time logs, which tie windows to the monotonic clock.

use crate::window::Tag;
use vstd::prelude::*;
use vstd::string::StringSliceAdditionalSpecFns;

verus! {

/// A reading of the monotonic clock.
#[derive(Clone, Copy, Debug, PartialEq, Eq, Structural, Hash)]
pub struct Timespec {
    /// Whole seconds
    pub seconds: i64,
    /// Nanoseconds past the whole second
    pub nanoseconds: i64,
}

/// The clock could not be read.
#[derive(Clone, Copy, Debug, PartialEq, Eq, Structural, Hash)]
pub struct ClockError {
    /// The error number that the system reported
    pub errno: i32,
}

/// The decimal digits of `n` in ASCII, without leading zeros.
pub open spec fn decimal(n: nat) -> Seq<u8>
    decreases n,
{
    if n < 10 {
        seq![(48 + n) as u8]
    } else {
        decimal(n / 10).push((48 + n % 10) as u8)
    }
}

/// The decimal digits of `v` in ASCII, after a minus sign where `v` is negative.
pub open spec fn signed_decimal(v: int) -> Seq<u8> {
    if v < 0 {
        seq![45u8] + decimal((-v) as nat)
    } else {
        decimal(v as nat)
    }
}

/// One row of the log of written windows: tag, sample index, seconds and
/// nanoseconds, separated by commas and ended by a line feed.
pub open spec fn window_row(tag: Tag, sample_index: u32, at: Timespec) -> Seq<u8> {
    decimal(tag.value as nat) + seq![44u8] + decimal(sample_index as nat) + seq![44u8]
        + signed_decimal(at.seconds as int) + seq![44u8] + signed_decimal(at.nanoseconds as int)
        + seq![10u8]
}

/// One row of the log of channels that fell silent: the channel's name, tag,
/// seconds and nanoseconds, separated by commas and ended by a line feed.
pub open spec fn channel_row(name: Seq<u8>, tag: Tag, at: Timespec) -> Seq<u8> {
    name + seq![44u8] + decimal(tag.value as nat) + seq![44u8] + signed_decimal(at.seconds as int)
        + seq![44u8] + signed_decimal(at.nanoseconds as int) + seq![10u8]
}

/// The header that may stand above the rows of the log of written windows.
pub open spec fn window_header() -> Seq<u8> {
    "Tag,SampleIndex,Seconds,Nanoseconds\n".spec_bytes()
}

/// Copies the bytes of a string.
pub fn bytes_of(text: &str) -> (bytes: Vec<u8>)
    ensures
        bytes@ == text.spec_bytes(),
{
    let source = text.as_bytes();
    let mut bytes: Vec<u8> = Vec::with_capacity(source.len());
    let mut i: usize = 0;
    while i < source.len()
        invariant
            i <= source.len(),
            source@ == text.spec_bytes(),
            bytes@ == source@.take(i as int),
        decreases source.len() - i,
    {
        bytes.push(source[i]);
        i += 1;
        assert(bytes@ =~= source@.take(i as int));
    }
    assert(source@.take(source.len() as int) =~= source@);
    bytes
}

/// The bytes of the header of the log of written windows. The writer does
/// not write it: whoever wants a header writes it to the log before the
/// first window.
pub fn window_header_row() -> (row: Vec<u8>)
    ensures
        row@ == window_header(),
{
    bytes_of("Tag,SampleIndex,Seconds,Nanoseconds\n")
}

/// Appends the decimal digits of `n`.
pub fn push_decimal(out: &mut Vec<u8>, n: u64)
    ensures
        final(out)@ == old(out)@ + decimal(n as nat),
{
    let mut reversed: Vec<u8> = Vec::new();
    let mut rest: u64 = n;
    while rest >= 10
        invariant
            decimal(n as nat) == decimal(rest as nat) + reversed@.reverse(),
        decreases rest,
    {
        let digit: u8 = (48 + rest % 10) as u8;
        proof {
            let before = reversed@;
            let after = before.push(digit);
            assert(after.reverse() =~= seq![digit] + before.reverse());
            assert(decimal(rest as nat) + before.reverse() =~= decimal((rest / 10) as nat)
                + after.reverse());
        }
        reversed.push(digit);
        rest = rest / 10;
    }
    proof {
        let before = reversed@;
        let after = before.push((48 + rest) as u8);
        assert(after.reverse() =~= decimal(rest as nat) + before.reverse());
    }
    reversed.push((48 + rest) as u8);
    let mut i: usize = reversed.len();
    while i > 0
        invariant
            i <= reversed.len(),
            out@ == old(out)@ + reversed@.reverse().take(reversed.len() - i),
        decreases i,
    {
        i -= 1;
        out.push(reversed[i]);
        assert(out@ =~= old(out)@ + reversed@.reverse().take(reversed.len() - i));
    }
    assert(reversed@.reverse().take(reversed.len() as int) =~= reversed@.reverse());
}

/// Appends the decimal digits of `v`, after a minus sign where `v` is negative.
pub fn push_signed_decimal(out: &mut Vec<u8>, v: i64)
    ensures
        final(out)@ == old(out)@ + signed_decimal(v as int),
{
    if v < 0 {
        out.push(45u8);
        let magnitude: u64 = if v == i64::MIN {
            0x8000_0000_0000_0000u64
        } else {
            (-v) as u64
        };
        push_decimal(out, magnitude);
        assert(out@ =~= old(out)@ + signed_decimal(v as int));
    } else {
        push_decimal(out, v as u64);
    }
}

/// Appends the comma and the two numbers of a clock reading, and the line
/// feed that ends a row.
fn push_clock_fields(out: &mut Vec<u8>, at: Timespec)
    ensures
        final(out)@ == old(out)@ + (seq![44u8] + signed_decimal(at.seconds as int) + seq![44u8]
            + signed_decimal(at.nanoseconds as int) + seq![10u8]),
{
    out.push(44u8);
    push_signed_decimal(out, at.seconds);
    out.push(44u8);
    push_signed_decimal(out, at.nanoseconds);
    out.push(10u8);
    assert(out@ =~= old(out)@ + (seq![44u8] + signed_decimal(at.seconds as int) + seq![44u8]
        + signed_decimal(at.nanoseconds as int) + seq![10u8]));
}

/// Formats the row that records a written window.
pub fn format_window_row(tag: Tag, sample_index: u32, at: Timespec) -> (row: Vec<u8>)
    ensures
        row@ == window_row(tag, sample_index, at),
{
    let mut row: Vec<u8> = Vec::new();
    push_decimal(&mut row, tag.value as u64);
    row.push(44u8);
    push_decimal(&mut row, sample_index as u64);
    push_clock_fields(&mut row, at);
    assert(row@ =~= window_row(tag, sample_index, at));
    row
}

/// Formats the row that records a channel that fell silent.
pub fn format_channel_row(name: &str, tag: Tag, at: Timespec) -> (row: Vec<u8>)
    ensures
        row@ == channel_row(name.spec_bytes(), tag, at),
{
    let mut row: Vec<u8> = bytes_of(name);
    row.push(44u8);
    push_decimal(&mut row, tag.value as u64);
    push_clock_fields(&mut row, at);
    assert(row@ =~= channel_row(name.spec_bytes(), tag, at));
    row
}

} // verus!
