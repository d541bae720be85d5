//! Writing of samples to a destination.

use crate::blocking::{nanos_since, BlockLogger};
use crate::sink::{written_to, SampleSink, SinkError};
use crate::timelog::{format_window_row, window_row, ClockError, Timespec};
use crate::window::Tag;
use byteorder::{ByteOrder, NativeEndian};
use std::time::Instant;
use vstd::endian::{endianness, Endian};
use vstd::prelude::*;

verus! {

/// One complex sample in the time domain: the bits of two 32-bit IEEE-754
/// numbers.
#[derive(Clone, Copy, Debug, PartialEq, Eq, Structural, Hash)]
pub struct ComplexBits {
    /// The bits of the real part
    pub re: u32,
    /// The bits of the imaginary part
    pub im: u32,
}

/// A run of samples in the time domain, with the tag of the window that it
/// came from, if that window had one.
pub struct TimeWindow {
    /// The tag of the window
    pub tag: Option<Tag>,
    /// The samples, in order of time
    pub samples: Vec<ComplexBits>,
}

impl TimeWindow {
    /// The number of samples.
    pub fn len(&self) -> (n: usize)
        ensures
            n == self.samples@.len(),
    {
        self.samples.len()
    }

    /// The tag of the window that the samples came from.
    pub fn tag(&self) -> (t: Option<Tag>)
        ensures
            t == self.tag,
    {
        self.tag
    }
}

/// Writing failed.
#[derive(Debug)]
pub enum WriteError {
    /// The destination did not accept the samples
    Destination(SinkError),
    /// The time log did not accept a row
    TimeLog(SinkError),
    /// The clock could not be read
    Clock(ClockError),
}

/// The four bytes of `n`, lowest first.
pub open spec fn le_bytes(n: u32) -> Seq<u8> {
    seq![
        (n & 0xff) as u8,
        ((n >> 8) & 0xff) as u8,
        ((n >> 16) & 0xff) as u8,
        ((n >> 24) & 0xff) as u8,
    ]
}

/// The number whose four bytes, lowest first, are `b`.
pub open spec fn le_value(b: Seq<u8>) -> u32
    recommends
        b.len() == 4,
{
    (b[0] as u32) | (b[1] as u32) << 8 | (b[2] as u32) << 16 | (b[3] as u32) << 24
}

/// The four bytes of `n` in the order of the machine that runs the program.
pub open spec fn native_bytes(n: u32) -> Seq<u8> {
    match endianness() {
        Endian::Little => le_bytes(n),
        Endian::Big => le_bytes(n).reverse(),
    }
}

/// The number that four bytes stand for in the order of the machine.
pub open spec fn native_value(b: Seq<u8>) -> u32
    recommends
        b.len() == 4,
{
    match endianness() {
        Endian::Little => le_value(b),
        Endian::Big => le_value(b.reverse()),
    }
}

/// The eight bytes of one sample: the real part, then the imaginary part.
pub open spec fn sample_bytes(s: ComplexBits) -> Seq<u8> {
    native_bytes(s.re) + native_bytes(s.im)
}

/// The bytes of a run of samples, one sample after the other.
pub open spec fn samples_bytes(s: Seq<ComplexBits>) -> Seq<u8>
    decreases s.len(),
{
    if s.len() == 0 {
        Seq::empty()
    } else {
        samples_bytes(s.drop_last()) + sample_bytes(s.last())
    }
}

/// The samples that a run of bytes stands for. Bytes after the last whole
/// sample stand for nothing.
pub open spec fn bytes_samples(bytes: Seq<u8>) -> Seq<ComplexBits> {
    Seq::new(
        (bytes.len() / 8) as nat,
        |k: int|
            ComplexBits {
                re: native_value(bytes.subrange(8 * k, 8 * k + 4)),
                im: native_value(bytes.subrange(8 * k + 4, 8 * k + 8)),
            },
    )
}

/// The sample index after `n` more samples. It starts over at zero after
/// its largest value.
pub open spec fn advanced(index: u32, n: nat) -> u32 {
    ((index + n) % 0x1_0000_0000) as u32
}

/// Calls `byteorder::NativeEndian::write_u32` on a buffer of four bytes,
/// which writes the bytes of `n` in the order of the machine: lowest byte
/// first on a little-endian machine, highest byte first on a big-endian one.
#[verifier::external_body]
fn native_u32_bytes(n: u32) -> (b: [u8; 4])
    ensures
        b@ == native_bytes(n),
{
    let mut b = [0u8; 4];
    NativeEndian::write_u32(&mut b, n);
    b
}

/// The eight bytes that stand for one sample in the output.
pub fn encode_sample(sample: ComplexBits) -> (buffer: Vec<u8>)
    ensures
        buffer@ == sample_bytes(sample),
{
    let re = native_u32_bytes(sample.re);
    let im = native_u32_bytes(sample.im);
    let mut buffer: Vec<u8> = Vec::with_capacity(8);
    buffer.push(re[0]);
    buffer.push(re[1]);
    buffer.push(re[2]);
    buffer.push(re[3]);
    buffer.push(im[0]);
    buffer.push(im[1]);
    buffer.push(im[2]);
    buffer.push(im[3]);
    proof {
        lemma_native_bytes(sample.re);
        lemma_native_bytes(sample.im);
        assert(buffer@ =~= sample_bytes(sample));
    }
    buffer
}

/// A number has four bytes in either order, and they stand for that number.
pub proof fn lemma_native_bytes(n: u32)
    ensures
        native_bytes(n).len() == 4,
        native_value(native_bytes(n)) == n,
{
    let b = le_bytes(n);
    assert(le_value(b) == n) by {
        let b0 = (n & 0xff) as u8;
        let b1 = ((n >> 8) & 0xff) as u8;
        let b2 = ((n >> 16) & 0xff) as u8;
        let b3 = ((n >> 24) & 0xff) as u8;
        assert(b[0] == b0 && b[1] == b1 && b[2] == b2 && b[3] == b3);
        assert(((n & 0xff) as u8 as u32) | ((((n >> 8) & 0xff) as u8) as u32) << 8 | ((((n >> 16)
            & 0xff) as u8) as u32) << 16 | ((((n >> 24) & 0xff) as u8) as u32) << 24 == n)
            by (bit_vector);
    }
    assert(b.reverse().reverse() =~= b);
}

/// A run of `k` samples stands as `8k` bytes, and each sample stands at
/// eight times its index.
pub proof fn lemma_samples_bytes_layout(s: Seq<ComplexBits>)
    ensures
        samples_bytes(s).len() == 8 * s.len(),
        forall|k: int|
            0 <= k < s.len() ==> #[trigger] samples_bytes(s).subrange(8 * k, 8 * k + 8)
                == sample_bytes(s[k]),
    decreases s.len(),
{
    if s.len() > 0 {
        let front = s.drop_last();
        lemma_samples_bytes_layout(front);
        lemma_native_bytes(s.last().re);
        lemma_native_bytes(s.last().im);
        assert forall|k: int| 0 <= k < s.len() implies #[trigger] samples_bytes(s).subrange(
            8 * k,
            8 * k + 8,
        ) == sample_bytes(s[k]) by {
            if k < front.len() {
                assert(samples_bytes(s).subrange(8 * k, 8 * k + 8) =~= samples_bytes(
                    front,
                ).subrange(8 * k, 8 * k + 8));
                assert(front[k] == s[k]);
            } else {
                assert(samples_bytes(s).subrange(8 * k, 8 * k + 8) =~= sample_bytes(s.last()));
            }
        }
    }
}

/// Writing `k` samples gives `8k` bytes, and reading those bytes as pairs of
/// numbers in the order of the machine gives the samples back, bit for bit.
pub proof fn lemma_samples_round_trip(s: Seq<ComplexBits>)
    ensures
        samples_bytes(s).len() == 8 * s.len(),
        bytes_samples(samples_bytes(s)) == s,
{
    lemma_samples_bytes_layout(s);
    let bytes = samples_bytes(s);
    assert forall|k: int| 0 <= k < s.len() implies bytes_samples(bytes)[k] == s[k] by {
        let unit = bytes.subrange(8 * k, 8 * k + 8);
        assert(unit == sample_bytes(s[k]));
        lemma_native_bytes(s[k].re);
        lemma_native_bytes(s[k].im);
        assert(bytes.subrange(8 * k, 8 * k + 4) =~= unit.subrange(0, 4));
        assert(bytes.subrange(8 * k + 4, 8 * k + 8) =~= unit.subrange(4, 8));
        assert(unit.subrange(0, 4) =~= native_bytes(s[k].re));
        assert(unit.subrange(4, 8) =~= native_bytes(s[k].im));
    }
    assert(bytes_samples(bytes) =~= s);
}

/// Advancing the sample index by `n` and then by `m` is advancing it by `n + m`.
proof fn lemma_advanced_twice(index: u32, n: nat, m: nat)
    ensures
        advanced(advanced(index, n), m) == advanced(index, n + m),
        advanced(index, 0) == index,
{
    vstd::arithmetic::div_mod::lemma_add_mod_noop(index + n, m as int, 0x1_0000_0000);
    vstd::arithmetic::div_mod::lemma_mod_bound(index + n, 0x1_0000_0000);
    vstd::arithmetic::div_mod::lemma_mod_bound(index + n + m, 0x1_0000_0000);
    vstd::arithmetic::div_mod::lemma_mod_bound(m as int, 0x1_0000_0000);
    vstd::arithmetic::div_mod::lemma_small_mod(index as nat, 0x1_0000_0000);
    let a = advanced(index, n);
    vstd::arithmetic::div_mod::lemma_add_mod_noop(a as int, m as int, 0x1_0000_0000);
    vstd::arithmetic::div_mod::lemma_small_mod(a as nat, 0x1_0000_0000);
}

/// What the time log holds after a window was written: one more row where
/// there is a time log and the window has a tag, stamped with a reading of
/// the clock, and nothing more otherwise.
pub open spec fn row_logged<L: SampleSink, C: Fn() -> Result<Timespec, ClockError>>(
    before: Option<L>,
    after: Option<L>,
    tag: Option<Tag>,
    index: u32,
    clock: C,
    at: Timespec,
) -> bool {
    if before.is_some() && tag.is_some() {
        &&& call_ensures(clock, (), Ok::<Timespec, ClockError>(at))
        &&& written_to(after) == written_to(before) + window_row(tag.unwrap(), index, at)
    } else {
        written_to(after) == written_to(before)
    }
}

/// The number of samples in a run of windows.
pub open spec fn total_samples(windows: Seq<TimeWindow>) -> nat
    decreases windows.len(),
{
    if windows.len() == 0 {
        0
    } else {
        total_samples(windows.drop_last()) + windows.last().samples@.len()
    }
}

/// The bytes of the samples of a run of windows, one window after the other.
pub open spec fn windows_bytes(windows: Seq<TimeWindow>) -> Seq<u8>
    decreases windows.len(),
{
    if windows.len() == 0 {
        Seq::empty()
    } else {
        windows_bytes(windows.drop_last()) + samples_bytes(windows.last().samples@)
    }
}

/// The rows that a run of windows adds to the time log, where the writer
/// starts at sample index `start` and reads the clock as `times` says: one
/// row for each window with a tag, which holds the sample index after that
/// window.
pub open spec fn windows_rows(windows: Seq<TimeWindow>, start: u32, times: Seq<Timespec>) -> Seq<u8>
    recommends
        times.len() == windows.len(),
    decreases windows.len(),
{
    if windows.len() == 0 {
        Seq::empty()
    } else {
        let front = windows_rows(windows.drop_last(), start, times.drop_last());
        match windows.last().tag {
            Some(tag) => front + window_row(
                tag,
                advanced(start, total_samples(windows)),
                times[windows.len() - 1],
            ),
            None => front,
        }
    }
}

/// The logger after it has observed each of `nanos` in turn.
pub open spec fn observed_all(logger: BlockLogger, nanos: Seq<u64>) -> BlockLogger
    decreases nanos.len(),
{
    if nanos.len() == 0 {
        logger
    } else {
        observed_all(logger, nanos.drop_last()).observed(nanos.last())
    }
}

/// Whether `times` holds, for each window with a tag, a reading that the
/// clock gave.
pub open spec fn clock_gave<C: Fn() -> Result<Timespec, ClockError>>(
    clock: C,
    windows: Seq<TimeWindow>,
    times: Seq<Timespec>,
) -> bool {
    &&& times.len() == windows.len()
    &&& forall|k: int|
        0 <= k < windows.len() && windows[k].tag.is_some() ==> call_ensures(
            clock,
            (),
            Ok::<Timespec, ClockError>(#[trigger] times[k]),
        )
}

/// Whether the writing of a run of windows stopped with the error `e` in
/// window `k`: the windows before it were written and logged, `done` samples
/// of window `k` were written whole and `part` of the next, and `row_part`
/// of its row went to the time log.
pub open spec fn stopped_in<L: SampleSink, C: Fn() -> Result<Timespec, ClockError>>(
    e: WriteError,
    clock: C,
    windows: Seq<TimeWindow>,
    start: u32,
    k: int,
    done: int,
    times: Seq<Timespec>,
    part: Seq<u8>,
    row_part: Seq<u8>,
    destination_before: Seq<u8>,
    destination_after: Seq<u8>,
    log_before: Option<L>,
    log_after: Option<L>,
    index_after: u32,
) -> bool {
    &&& 0 <= k < windows.len()
    &&& 0 <= done <= windows[k].samples@.len()
    &&& index_after == advanced(start, total_samples(windows.take(k)) + done as nat)
    &&& destination_after =~= destination_before + windows_bytes(windows.take(k)) + samples_bytes(
        windows[k].samples@.take(done),
    ) + part
    &&& part.len() <= 8
    &&& log_before.is_some() ==> {
        &&& clock_gave(clock, windows.take(k), times)
        &&& written_to(log_after) =~= written_to(log_before) + windows_rows(
            windows.take(k),
            start,
            times,
        ) + row_part
    }
    &&& match e {
        WriteError::Destination(_) => done < windows[k].samples@.len() && row_part.len() == 0,
        WriteError::Clock(c) => {
            &&& done == windows[k].samples@.len()
            &&& part.len() == 0
            &&& row_part.len() == 0
            &&& log_before.is_some()
            &&& windows[k].tag.is_some()
            &&& call_ensures(clock, (), Err::<Timespec, ClockError>(c))
        },
        WriteError::TimeLog(_) => {
            &&& done == windows[k].samples@.len()
            &&& part.len() == 0
            &&& log_before.is_some()
            &&& windows[k].tag.is_some()
        },
    }
}

/// Writes samples to a destination
pub struct Writer {
    /// The index of the next sample to be written
    sample_index: u32,
}

impl Writer {
    /// The index of the next sample to be written.
    pub closed spec fn spec_sample_index(&self) -> u32 {
        self.sample_index
    }

    /// Creates a new writer
    pub fn new() -> (w: Writer)
        ensures
            w.spec_sample_index() == 0,
    {
        Writer { sample_index: 0 }
    }

    /// Creates a writer that goes on where another stopped, at the sample
    /// index `sample_index`.
    pub fn resume(sample_index: u32) -> (w: Writer)
        ensures
            w.spec_sample_index() == sample_index,
    {
        Writer { sample_index }
    }

    /// The index of the next sample to be written.
    pub fn sample_index(&self) -> (i: u32)
        ensures
            i == self.spec_sample_index(),
    {
        self.sample_index
    }

    /// Writes samples to a destination
    ///
    /// Each sample is written as two 32-bit floating-point values in the
    /// order of the machine, first the real part and then the imaginary part.
    /// The sample index advances by one for each sample that the destination
    /// accepted whole. Where the destination fails, the samples before the
    /// failing one were written whole, and of the failing one a part.
    pub fn write_samples<W: SampleSink>(
        &mut self,
        destination: &mut W,
        samples: &[ComplexBits],
    ) -> (r: Result<(), SinkError>)
        ensures
            r.is_ok() ==> {
                &&& final(destination).written() == old(destination).written() + samples_bytes(
                    samples@,
                )
                &&& final(self).spec_sample_index() == advanced(
                    old(self).spec_sample_index(),
                    samples@.len(),
                )
            },
            r.is_err() ==> exists|k: int, j: int|
                {
                    &&& 0 <= k < samples@.len()
                    &&& 0 <= j <= 8
                    &&& final(destination).written() == old(destination).written() + samples_bytes(
                        samples@.take(k),
                    ) + #[trigger] sample_bytes(samples@[k]).take(j)
                    &&& final(self).spec_sample_index() == advanced(
                        old(self).spec_sample_index(),
                        k as nat,
                    )
                },
    {
        let mut i: usize = 0;
        proof {
            lemma_advanced_twice(self.sample_index, 0, 0);
            assert(samples@.take(0) =~= Seq::<ComplexBits>::empty());
            assert(destination.written() =~= old(destination).written() + samples_bytes(
                samples@.take(0),
            ));
        }
        while i < samples.len()
            invariant
                i <= samples.len(),
                destination.written() == old(destination).written() + samples_bytes(
                    samples@.take(i as int),
                ),
                self.sample_index == advanced(old(self).sample_index, i as nat),
            decreases samples.len() - i,
        {
            let buffer = encode_sample(samples[i]);
            let ghost before = destination.written();
            let outcome = destination.write_bytes(buffer.as_slice());
            proof {
                lemma_native_bytes(samples@[i as int].re);
                lemma_native_bytes(samples@[i as int].im);
            }
            match outcome {
                Ok(()) => {},
                Err(e) => {
                    proof {
                        let j = choose|j: int|
                            0 <= j <= buffer@.len() && destination.written() == before
                                + #[trigger] buffer@.take(j);
                        assert(destination.written() == old(destination).written() + samples_bytes(
                            samples@.take(i as int),
                        ) + sample_bytes(samples@[i as int]).take(j));
                    }
                    return Err(e);
                },
            }
            proof {
                let done = samples@.take(i as int + 1);
                assert(done.drop_last() =~= samples@.take(i as int));
                assert(done.last() == samples@[i as int]);
                assert(destination.written() =~= old(destination).written() + samples_bytes(done));
                lemma_advanced_twice(old(self).sample_index, i as nat, 1);
            }
            self.sample_index = self.sample_index.wrapping_add(1);
            i += 1;
        }
        assert(samples@.take(samples@.len() as int) =~= samples@);
        Ok(())
    }

    /// Writes one window to a destination, takes note of how long that took,
    /// and where the window has a tag and there is a time log, adds a row to
    /// the time log: the tag, the sample index after the window, and the clock
    /// at that moment.
    pub fn write_window<W: SampleSink, L: SampleSink, C: Fn() -> Result<Timespec, ClockError>>(
        &mut self,
        destination: &mut W,
        window: &TimeWindow,
        logger: &mut BlockLogger,
        time_log: &mut Option<L>,
        clock: &C,
    ) -> (r: Result<(), WriteError>)
        requires
            call_requires(*clock, ()),
        ensures
            final(time_log).is_some() == old(time_log).is_some(),
            exists|nanos: u64| *final(logger) == #[trigger] old(logger).observed(nanos),
            match r {
                Ok(()) => {
                    &&& final(destination).written() == old(destination).written()
                        + samples_bytes(window.samples@)
                    &&& final(self).spec_sample_index() == advanced(
                        old(self).spec_sample_index(),
                        window.samples@.len(),
                    )
                    &&& exists|at: Timespec| #[trigger]
                        row_logged(
                            *old(time_log),
                            *final(time_log),
                            window.tag,
                            final(self).spec_sample_index(),
                            *clock,
                            at,
                        )
                },
                Err(WriteError::Destination(_)) => {
                    &&& written_to(*final(time_log)) == written_to(*old(time_log))
                    &&& exists|k: int, j: int|
                        {
                            &&& 0 <= k < window.samples@.len()
                            &&& 0 <= j <= 8
                            &&& final(destination).written() == old(destination).written()
                                + samples_bytes(window.samples@.take(k)) + #[trigger] sample_bytes(
                                window.samples@[k],
                            ).take(j)
                            &&& final(self).spec_sample_index() == advanced(
                                old(self).spec_sample_index(),
                                k as nat,
                            )
                        }
                },
                Err(WriteError::Clock(e)) => {
                    &&& old(time_log).is_some() && window.tag.is_some()
                    &&& call_ensures(*clock, (), Err::<Timespec, ClockError>(e))
                    &&& written_to(*final(time_log)) == written_to(*old(time_log))
                    &&& final(destination).written() == old(destination).written()
                        + samples_bytes(window.samples@)
                    &&& final(self).spec_sample_index() == advanced(
                        old(self).spec_sample_index(),
                        window.samples@.len(),
                    )
                },
                Err(WriteError::TimeLog(_)) => {
                    &&& old(time_log).is_some() && window.tag.is_some()
                    &&& final(destination).written() == old(destination).written()
                        + samples_bytes(window.samples@)
                    &&& final(self).spec_sample_index() == advanced(
                        old(self).spec_sample_index(),
                        window.samples@.len(),
                    )
                    &&& exists|at: Timespec, k: int|
                        {
                            &&& call_ensures(*clock, (), Ok::<Timespec, ClockError>(at))
                            &&& 0 <= k
                            &&& written_to(*final(time_log)) == written_to(*old(time_log))
                                + #[trigger] window_row(
                                window.tag.unwrap(),
                                final(self).spec_sample_index(),
                                at,
                            ).take(k)
                        }
                },
            },
    {
        let start = Instant::now();
        let outcome = self.write_samples(destination, window.samples.as_slice());
        let nanos = nanos_since(&start);
        logger.observe(nanos);
        assert(*logger == old(logger).observed(nanos));
        match outcome {
            Ok(()) => {},
            Err(e) => {
                return Err(WriteError::Destination(e));
            },
        }
        let index = self.sample_index;
        match time_log {
            Some(log) => {
                match window.tag {
                    Some(tag) => {
                        let at = match clock() {
                            Ok(at) => at,
                            Err(e) => {
                                return Err(WriteError::Clock(e));
                            },
                        };
                        let row = format_window_row(tag, index, at);
                        let ghost before = log.written();
                        match log.write_bytes(row.as_slice()) {
                            Ok(()) => {
                                assert(row_logged(
                                    *old(time_log),
                                    Some(*log),
                                    window.tag,
                                    index,
                                    *clock,
                                    at,
                                ));
                            },
                            Err(e) => {
                                proof {
                                    let k = choose|k: int|
                                        0 <= k <= row@.len() && log.written() == before
                                            + #[trigger] row@.take(k);
                                    assert(log.written() == before + window_row(
                                        tag,
                                        index,
                                        at,
                                    ).take(k));
                                }
                                return Err(WriteError::TimeLog(e));
                            },
                        }
                    },
                    None => {
                        assert(row_logged(
                            *old(time_log),
                            Some(*log),
                            window.tag,
                            index,
                            *clock,
                            Timespec { seconds: 0, nanoseconds: 0 },
                        ));
                    },
                }
            },
            None => {
                assert(row_logged(
                    *old(time_log),
                    None::<L>,
                    window.tag,
                    index,
                    *clock,
                    Timespec { seconds: 0, nanoseconds: 0 },
                ));
            },
        }
        Ok(())
    }

    /// Writes windows to a destination and returns the total number of samples written
    ///
    /// Each sample is written as two 32-bit floating-point values in the
    /// order of the machine, first the real part and then the imaginary part.
    /// For each window with a tag a row goes to the time log, if there is
    /// one. Writing stops at the first failure.
    pub fn write_windows<W: SampleSink, L: SampleSink, C: Fn() -> Result<Timespec, ClockError>>(
        &mut self,
        destination: &mut W,
        windows: &[TimeWindow],
        logger: &mut BlockLogger,
        time_log: &mut Option<L>,
        clock: &C,
    ) -> (r: Result<u64, WriteError>)
        requires
            call_requires(*clock, ()),
            total_samples(windows@) <= u64::MAX,
        ensures
            final(time_log).is_some() == old(time_log).is_some(),
            r matches Ok(total) ==> total == total_samples(windows@),
            r.is_ok() ==> final(destination).written() == old(destination).written()
                + windows_bytes(windows@),
            r.is_ok() ==> final(self).spec_sample_index() == advanced(
                old(self).spec_sample_index(),
                total_samples(windows@),
            ),
            r.is_ok() ==> exists|nanos: Seq<u64>|
                nanos.len() == windows@.len() && *final(logger) == #[trigger] observed_all(
                    *old(logger),
                    nanos,
                ),
            r.is_ok() && old(time_log).is_some() ==> exists|times: Seq<Timespec>|
                {
                    &&& clock_gave(*clock, windows@, times)
                    &&& written_to(*final(time_log)) == written_to(*old(time_log))
                        + #[trigger] windows_rows(windows@, old(self).spec_sample_index(), times)
                },
            r matches Err(e) ==> exists|
                k: int,
                done: int,
                times: Seq<Timespec>,
                part: Seq<u8>,
                row_part: Seq<u8>,
            | #[trigger]
                stopped_in(
                    e,
                    *clock,
                    windows@,
                    old(self).spec_sample_index(),
                    k,
                    done,
                    times,
                    part,
                    row_part,
                    old(destination).written(),
                    final(destination).written(),
                    *old(time_log),
                    *final(time_log),
                    final(self).spec_sample_index(),
                ),
    {
        let mut samples_written: u64 = 0;
        let mut i: usize = 0;
        let ghost mut nanos: Seq<u64> = Seq::empty();
        let ghost mut times: Seq<Timespec> = Seq::empty();
        proof {
            assert(windows@.take(0) =~= Seq::<TimeWindow>::empty());
            assert(destination.written() =~= old(destination).written() + windows_bytes(
                windows@.take(0),
            ));
            assert(written_to(*time_log) =~= written_to(*old(time_log)) + windows_rows(
                windows@.take(0),
                old(self).sample_index,
                times,
            ));
            lemma_advanced_twice(self.sample_index, 0, 0);
        }
        while i < windows.len()
            invariant
                i <= windows.len(),
                call_requires(*clock, ()),
                total_samples(windows@) <= u64::MAX,
                time_log.is_some() == old(time_log).is_some(),
                samples_written == total_samples(windows@.take(i as int)),
                destination.written() == old(destination).written() + windows_bytes(
                    windows@.take(i as int),
                ),
                self.sample_index == advanced(
                    old(self).sample_index,
                    total_samples(windows@.take(i as int)),
                ),
                nanos.len() == i,
                *logger == observed_all(*old(logger), nanos),
                old(time_log).is_some() ==> clock_gave(*clock, windows@.take(i as int), times),
                old(time_log).is_some() ==> written_to(*time_log) == written_to(*old(time_log))
                    + windows_rows(windows@.take(i as int), old(self).sample_index, times),
            decreases windows.len() - i,
        {
            let ghost done = windows@.take(i as int);
            let ghost next = windows@.take(i as int + 1);
            let ghost log_before = *time_log;
            let ghost logger_before = *logger;
            let ghost index_before = self.sample_index;
            proof {
                assert(next.drop_last() =~= done);
                assert(next.last() == windows@[i as int]);
                lemma_total_samples_grows(windows@, i as int + 1);
                lemma_samples_bytes_layout(windows@[i as int].samples@);
            }
            let ghost destination_before = destination.written();
            match self.write_window(destination, &windows[i], logger, time_log, clock) {
                Ok(()) => {},
                Err(e) => {
                    let r = Err(e);
                    proof {
                        let samples = windows@[i as int].samples@;
                        let start = old(self).sample_index;
                        assert(old(self).spec_sample_index() == start);
                        match r->Err_0 {
                            WriteError::Destination(_) => {
                                let (k, j) = choose|k: int, j: int|
                                    {
                                        &&& 0 <= k < samples.len()
                                        &&& 0 <= j <= 8
                                        &&& destination.written() == destination_before
                                            + samples_bytes(samples.take(k)) + #[trigger] sample_bytes(
                                            samples[k],
                                        ).take(j)
                                        &&& self.sample_index == advanced(index_before, k as nat)
                                    };
                                lemma_native_bytes(samples[k].re);
                                lemma_native_bytes(samples[k].im);
                                lemma_advanced_twice(start, total_samples(done), k as nat);
                                assert(stopped_in(
                                    r->Err_0,
                                    *clock,
                                    windows@,
                                    old(self).spec_sample_index(),
                                    i as int,
                                    k,
                                    times,
                                    sample_bytes(samples[k]).take(j),
                                    Seq::<u8>::empty(),
                                    old(destination).written(),
                                    final(destination).written(),
                                    *old(time_log),
                                    *final(time_log),
                                    final(self).spec_sample_index(),
                                ));
                            },
                            WriteError::Clock(c) => {
                                lemma_advanced_twice(start, total_samples(done), samples.len());
                                assert(samples.take(samples.len() as int) =~= samples);
                                assert(stopped_in(
                                    r->Err_0,
                                    *clock,
                                    windows@,
                                    old(self).spec_sample_index(),
                                    i as int,
                                    samples.len() as int,
                                    times,
                                    Seq::<u8>::empty(),
                                    Seq::<u8>::empty(),
                                    old(destination).written(),
                                    final(destination).written(),
                                    *old(time_log),
                                    *final(time_log),
                                    final(self).spec_sample_index(),
                                ));
                            },
                            WriteError::TimeLog(_) => {
                                lemma_advanced_twice(start, total_samples(done), samples.len());
                                assert(samples.take(samples.len() as int) =~= samples);
                                let (at, k) = choose|at: Timespec, k: int|
                                    {
                                        &&& call_ensures(*clock, (), Ok::<Timespec, ClockError>(at))
                                        &&& 0 <= k
                                        &&& written_to(*time_log) == written_to(log_before)
                                            + #[trigger] window_row(
                                            windows@[i as int].tag.unwrap(),
                                            self.sample_index,
                                            at,
                                        ).take(k)
                                    };
                                assert(stopped_in(
                                    r->Err_0,
                                    *clock,
                                    windows@,
                                    old(self).spec_sample_index(),
                                    i as int,
                                    samples.len() as int,
                                    times,
                                    Seq::<u8>::empty(),
                                    window_row(
                                        windows@[i as int].tag.unwrap(),
                                        self.sample_index,
                                        at,
                                    ).take(k),
                                    old(destination).written(),
                                    final(destination).written(),
                                    *old(time_log),
                                    *final(time_log),
                                    final(self).spec_sample_index(),
                                ));
                            },
                        }
                    }
                    return r;
                },
            }
            proof {
                let n = choose|n: u64| *logger == #[trigger] logger_before.observed(n);
                let at = choose|at: Timespec| #[trigger]
                    row_logged(
                        log_before,
                        *time_log,
                        windows@[i as int].tag,
                        self.sample_index,
                        *clock,
                        at,
                    );
                assert(nanos.push(n).drop_last() =~= nanos);
                nanos = nanos.push(n);
                assert(times.push(at).drop_last() =~= times);
                times = times.push(at);
                lemma_advanced_twice(
                    old(self).sample_index,
                    total_samples(done),
                    windows@[i as int].samples@.len(),
                );
                assert(destination.written() =~= old(destination).written() + windows_bytes(next));
                if old(time_log).is_some() {
                    assert(written_to(*time_log) =~= written_to(*old(time_log)) + windows_rows(
                        next,
                        old(self).sample_index,
                        times,
                    ));
                }
            }
            samples_written = samples_written + windows[i].len() as u64;
            i += 1;
        }
        proof {
            assert(windows@.take(windows@.len() as int) =~= windows@);
            assert(nanos.len() == windows@.len() && *logger == observed_all(*old(logger), nanos));
            assert(exists|all: Seq<u64>|
                all.len() == windows@.len() && *logger == #[trigger] observed_all(
                    *old(logger),
                    all,
                ));
            if old(time_log).is_some() {
                assert(clock_gave(*clock, windows@, times));
                assert(written_to(*time_log) == written_to(*old(time_log)) + windows_rows(
                    windows@,
                    old(self).sample_index,
                    times,
                ));
                assert(old(self).spec_sample_index() == old(self).sample_index);
                assert(exists|all: Seq<Timespec>|
                    {
                        &&& clock_gave(*clock, windows@, all)
                        &&& written_to(*time_log) == written_to(*old(time_log))
                            + #[trigger] windows_rows(
                            windows@,
                            old(self).spec_sample_index(),
                            all,
                        )
                    });
            }
        }
        Ok(samples_written)
    }
}

/// A longer run of windows holds no fewer samples.
proof fn lemma_total_samples_grows(windows: Seq<TimeWindow>, k: int)
    requires
        0 <= k <= windows.len(),
    ensures
        total_samples(windows.take(k)) <= total_samples(windows),
    decreases windows.len() - k,
{
    if k < windows.len() {
        lemma_total_samples_grows(windows, k + 1);
        assert(windows.take(k + 1).drop_last() =~= windows.take(k));
    } else {
        assert(windows.take(k) =~= windows);
    }
}

} // verus!