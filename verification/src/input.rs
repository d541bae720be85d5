//! The input stage of the decompression, which groups records into windows,
//! puts them into logical order, tags them, and sends each to the FFT stages
//! of the bands that are interested in it.

use crate::assembler::{assembled, carried, emitted, Assembler, FormatViolation};
use crate::bins::{BinMask, BinRange};
use crate::blocking::BlockLogs;
use crate::channel::{at_most_one_block, LoggingSender};
use crate::record::CompressedRecord;
use crate::sink::{write_to, written_to, SampleSink, SinkError};
use crate::stop::stop_requested;
use crate::timelog::{bytes_of, channel_row, format_channel_row, ClockError, Timespec};
use crate::window::{Logical, Tag, Window, WindowView};
use std::sync::atomic::AtomicBool;
use vstd::prelude::*;
use vstd::string::StringSliceAdditionalSpecFns;

verus! {

/// The FFT stage of a band has exited and receives no more windows.
#[derive(Clone, Copy, Debug, PartialEq, Eq, Structural, Hash)]
pub struct StageExited;

/// Whether a band that decompresses `bins` is interested in the window: one
/// of its bins is active in the window.
pub open spec fn interested(bins: BinRange, w: WindowView) -> bool {
    exists|b: int| w.is_active(b) && bins.contains(b)
}

/// What a band that decompresses `bins` is sent when the window is offered
/// to it: the window where the band is interested, nothing otherwise.
pub open spec fn offered(bins: BinRange, w: WindowView) -> Seq<WindowView> {
    if interested(bins, w) {
        seq![w]
    } else {
        Seq::empty()
    }
}

/// Of a run of windows, those that a band that decompresses `bins` is sent,
/// in order.
pub open spec fn deliveries(bins: BinRange, windows: Seq<WindowView>) -> Seq<WindowView>
    decreases windows.len(),
{
    if windows.len() == 0 {
        Seq::empty()
    } else {
        deliveries(bins, windows.drop_last()) + offered(bins, windows.last())
    }
}

/// Information about an FFT stage, and a channel that can be used to send windows there
pub struct ToFft {
    /// The range of bins the FFT stage is interested in
    pub bins: BinRange,
    /// The mask of bins the FFT stage is interested in (same as bins)
    pub bin_mask: BinMask,
    /// A sender on the channel to the FFT stage
    pub tx: LoggingSender,
}

impl ToFft {
    /// The mask holds the bins of the range.
    pub open spec fn wf(&self) -> bool {
        &&& self.bins.wf()
        &&& self.bin_mask.wf()
        &&& self.bin_mask@ == self.bins@
    }

    /// Whether this is the same stage as `before`, after some sends.
    pub open spec fn follows(&self, before: &ToFft) -> bool {
        &&& self.wf()
        &&& self.bins == before.bins
        &&& self.bin_mask == before.bin_mask
    }

    /// Describes the FFT stage of a band that decompresses `bins` and
    /// receives its windows from `tx`.
    pub fn new(bins: BinRange, tx: LoggingSender) -> (stage: ToFft)
        requires
            bins.wf(),
        ensures
            stage.wf(),
            stage.bins == bins,
            stage.tx == tx,
    {
        let bin_mask = bins.to_mask();
        ToFft { bins, bin_mask, tx }
    }

    /// Sends a window to this FFT/output stage, if this stage is interested in the window
    ///
    /// This function returns Err if the FFT/output thread has exited. On
    /// success, it returns true if the window was sent.
    pub fn send_if_interested(&mut self, window: &Window<Logical>) -> (r: Result<bool, StageExited>)
        requires
            old(self).wf(),
            window.wf(),
        ensures
            final(self).follows(old(self)),
            at_most_one_block(old(self).tx.spec_logs(), final(self).tx.spec_logs()),
            !interested(old(self).bins, window@) ==> {
                &&& r == Ok::<bool, StageExited>(false)
                &&& final(self).tx == old(self).tx
            },
            interested(old(self).bins, window@) ==> r != Ok::<bool, StageExited>(false),
            r.is_ok() ==> final(self).tx.delivered() == old(self).tx.delivered() + offered(
                old(self).bins,
                window@,
            ),
            r.is_err() ==> final(self).tx.delivered() == old(self).tx.delivered(),
    {
        proof {
            window.lemma_view();
            let mask = window.spec_active_bins();
            if mask.intersects(&self.bin_mask) {
                let b = choose|b: int| mask.contains(b) && self.bin_mask.contains(b);
                assert(self.bin_mask@.contains(b));
                assert(self.bins@.contains(b));
                assert(window@.is_active(b) && self.bins.contains(b));
            }
            if interested(self.bins, window@) {
                let b = choose|b: int| window@.is_active(b) && self.bins.contains(b);
                assert(self.bins@.contains(b));
                assert(self.bin_mask@.contains(b));
                assert(mask.contains(b) && self.bin_mask.contains(b));
            }
        }
        if window.active_bins().overlaps(&self.bin_mask) {
            match self.tx.send(window.duplicate()) {
                Ok(()) => {
                    assert(self.tx.delivered() =~= old(self).tx.delivered() + offered(
                        self.bins,
                        window@,
                    ));
                    Ok(true)
                },
                Err(_) => Err(StageExited),
            }
        } else {
            assert(self.tx.delivered() =~= old(self).tx.delivered() + offered(
                self.bins,
                window@,
            ));
            Ok(false)
        }
    }
}

/// The ranges of bins of a sequence of FFT stages.
pub open spec fn band_bins(stages: Seq<ToFft>) -> Seq<BinRange> {
    Seq::new(stages.len(), |i: int| stages[i].bins)
}

/// Whether the band that was offered the window just before band `j` took
/// it. Before the first band of a window that is what `prev` says, which
/// stands for the last band of the window before.
pub open spec fn active_before(bands: Seq<BinRange>, w: WindowView, prev: bool, j: int) -> bool {
    if j <= 0 {
        prev
    } else {
        interested(bands[j - 1], w)
    }
}

/// Whether the channel falls silent at band `j`: the band does not take the
/// window, and the band before it did.
pub open spec fn fell_silent(bands: Seq<BinRange>, w: WindowView, prev: bool, j: int) -> bool {
    active_before(bands, w, prev, j) && !interested(bands[j], w)
}

/// The rows that the first `upto` bands add to the time log for one window:
/// one row, with the window's tag, for each band at which the channel fell
/// silent.
pub open spec fn silent_rows(
    name: Seq<u8>,
    bands: Seq<BinRange>,
    w: WindowView,
    prev: bool,
    times: Seq<Timespec>,
    upto: int,
) -> Seq<u8>
    decreases upto,
{
    if upto <= 0 {
        Seq::empty()
    } else {
        silent_rows(name, bands, w, prev, times, upto - 1) + if fell_silent(
            bands,
            w,
            prev,
            upto - 1,
        ) {
            channel_row(name, w.tag.unwrap(), times[upto - 1])
        } else {
            Seq::empty()
        }
    }
}

/// Whether `times` holds, for each of the first `upto` bands at which the
/// channel fell silent, a reading that the clock gave.
pub open spec fn readings_given<C: Fn() -> Result<Timespec, ClockError>>(
    clock: C,
    bands: Seq<BinRange>,
    w: WindowView,
    prev: bool,
    times: Seq<Timespec>,
    upto: int,
) -> bool {
    &&& times.len() == upto
    &&& forall|j: int|
        0 <= j < upto && fell_silent(bands, w, prev, j) ==> call_ensures(
            clock,
            (),
            Ok::<Timespec, ClockError>(#[trigger] times[j]),
        )
}

/// Whether the time log has grown by the rows that the first `reached` bands
/// add for one window, stamped with readings `times` of the clock, and by
/// `part` after them.
pub open spec fn rows_logged<C: Fn() -> Result<Timespec, ClockError>>(
    clock: C,
    before: Seq<u8>,
    after: Seq<u8>,
    name: Seq<u8>,
    bands: Seq<BinRange>,
    w: WindowView,
    prev: bool,
    reached: int,
    times: Seq<Timespec>,
    part: Seq<u8>,
) -> bool {
    &&& readings_given(clock, bands, w, prev, times, reached)
    &&& after == before + silent_rows(name, bands, w, prev, times, reached) + part
}

/// How the offering of one window to the bands ended.
#[derive(Debug)]
pub enum RouteEnd {
    /// Every band was offered the window
    Complete,
    /// The FFT stage of a band that is interested in the window has exited
    DownstreamGone,
    /// The clock could not be read for a row of the time log
    ClockFailed(ClockError),
    /// The time log did not accept a row
    LogFailed(SinkError),
}

/// What became of one window.
#[derive(Debug)]
pub struct Routed {
    /// The number of bands, from the first, that the window was offered to
    /// with all that follows from the offer
    pub reached: usize,
    /// How the offering ended
    pub end: RouteEnd,
}

/// Whether `after` are the stages `before` with the window `w` offered to
/// the first `reached` of them: each of these was sent the window if it is
/// interested in it, and the others were sent nothing.
pub open spec fn offered_to(before: Seq<ToFft>, after: Seq<ToFft>, w: WindowView, reached: int) -> bool {
    &&& after.len() == before.len()
    &&& 0 <= reached <= before.len()
    &&& forall|i: int|
        0 <= i < before.len() ==> {
            &&& (#[trigger] after[i]).follows(&before[i])
            &&& at_most_one_block(before[i].tx.spec_logs(), after[i].tx.spec_logs())
            &&& (i > reached || !interested(before[i].bins, w)) ==> after[i].tx == before[i].tx
            &&& after[i].tx.delivered() == before[i].tx.delivered() + if i < reached {
                offered(before[i].bins, w)
            } else {
                Seq::empty()
            }
        }
}

/// What the offering of one window to the bands has done: the first
/// `reached` stages were offered the window, `prev_after` says whether the
/// last of them took it, and the time log has grown by the rows of these
/// stages. Where the offering did not come to its end, stage `reached` is the
/// one that has exited, or the one at which the channel fell silent and the
/// row could not be written.
pub open spec fn window_routed<L: SampleSink, C: Fn() -> Result<Timespec, ClockError>>(
    r: Routed,
    clock: C,
    before: Seq<ToFft>,
    after: Seq<ToFft>,
    w: WindowView,
    prev_before: bool,
    prev_after: bool,
    log_before: Option<L>,
    log_after: Option<L>,
    name: Seq<u8>,
) -> bool {
    &&& offered_to(before, after, w, r.reached as int)
    &&& log_after.is_some() == log_before.is_some()
    &&& prev_after == active_before(band_bins(before), w, prev_before, r.reached as int)
    &&& match r.end {
        RouteEnd::Complete => r.reached == before.len(),
        RouteEnd::DownstreamGone => r.reached < before.len() && interested(
            before[r.reached as int].bins,
            w,
        ),
        RouteEnd::ClockFailed(e) => {
            &&& r.reached < before.len()
            &&& log_before.is_some()
            &&& fell_silent(band_bins(before), w, prev_before, r.reached as int)
            &&& call_ensures(clock, (), Err::<Timespec, ClockError>(e))
        },
        RouteEnd::LogFailed(_) => {
            &&& r.reached < before.len()
            &&& log_before.is_some()
            &&& fell_silent(band_bins(before), w, prev_before, r.reached as int)
        },
    }
    &&& log_before.is_some() && !(r.end is LogFailed) ==> exists|times: Seq<Timespec>| #[trigger]
        rows_logged(
            clock,
            written_to(log_before),
            written_to(log_after),
            name,
            band_bins(before),
            w,
            prev_before,
            r.reached as int,
            times,
            Seq::<u8>::empty(),
        )
    &&& r.end is LogFailed ==> exists|times: Seq<Timespec>, part: Seq<u8>| #[trigger]
        rows_logged(
            clock,
            written_to(log_before),
            written_to(log_after),
            name,
            band_bins(before),
            w,
            prev_before,
            r.reached as int,
            times,
            part,
        )
}

/// Offers a window to each FFT stage in turn, and sends it to those that are
/// interested in it.
///
/// Where a stage does not take the window and the stage before it did, a row
/// with the window's tag and the clock goes to the time log, if there is one.
/// `prev_active` says whether the last stage took the last window, and is
/// brought up to date. The offering stops at the first stage that has
/// exited, and at the first row that cannot be written.
pub fn route_window<L: SampleSink, C: Fn() -> Result<Timespec, ClockError>>(
    window: &Window<Logical>,
    destinations: &mut Vec<ToFft>,
    prev_active: &mut bool,
    time_log: &mut Option<L>,
    channel_name: &str,
    clock: &C,
) -> (r: Routed)
    requires
        window.wf(),
        window@.tag.is_some(),
        forall|i: int| 0 <= i < old(destinations)@.len() ==> (#[trigger] old(destinations)@[i]).wf(),
        call_requires(*clock, ()),
    ensures
        window_routed(
            r,
            *clock,
            old(destinations)@,
            final(destinations)@,
            window@,
            *old(prev_active),
            *final(prev_active),
            *old(time_log),
            *final(time_log),
            channel_name.spec_bytes(),
        ),
{
    let ghost bands = band_bins(old(destinations)@);
    let ghost name = channel_name.spec_bytes();
    let ghost prev = *old(prev_active);
    let ghost mut times: Seq<Timespec> = Seq::empty();
    let tag = match window.tag() {
        Some(tag) => tag,
        None => Tag::first(),
    };
    let mut j: usize = 0;
    while j < destinations.len()
        invariant
            j <= destinations.len(),
            window.wf(),
            window@.tag == Some(tag),
            call_requires(*clock, ()),
            bands == band_bins(old(destinations)@),
            name == channel_name.spec_bytes(),
            prev == *old(prev_active),
            offered_to(old(destinations)@, destinations@, window@, j as int),
            forall|i: int|
                j <= i < destinations@.len() ==> (#[trigger] destinations@[i]).tx == old(
                    destinations,
                )@[i].tx,
            *prev_active == active_before(bands, window@, prev, j as int),
            time_log.is_some() == old(time_log).is_some(),
            times.len() == j,
            old(time_log).is_some() ==> readings_given(*clock, bands, window@, prev, times, j as int),
            old(time_log).is_some() ==> written_to(*time_log) == written_to(*old(time_log))
                + silent_rows(name, bands, window@, prev, times, j as int),
        decreases destinations.len() - j,
    {
        let ghost stages = destinations@;
        let outcome = destinations[j].send_if_interested(window);
        proof {
            assert(destinations@ =~= stages.update(j as int, destinations@[j as int]));
            assert(bands[j as int] == old(destinations)@[j as int].bins);
            assert(stages[j as int].tx == old(destinations)@[j as int].tx);
            if old(time_log).is_some() {
                assert(written_to(*time_log) =~= written_to(*old(time_log)) + silent_rows(
                    name,
                    bands,
                    window@,
                    prev,
                    times,
                    j as int,
                ) + Seq::<u8>::empty());
                assert(rows_logged(
                    *clock,
                    written_to(*old(time_log)),
                    written_to(*time_log),
                    name,
                    bands,
                    window@,
                    prev,
                    j as int,
                    times,
                    Seq::<u8>::empty(),
                ));
            }
        }
        let sent = match outcome {
            Ok(sent) => sent,
            Err(_) => {
                let r = Routed { reached: j, end: RouteEnd::DownstreamGone };
                proof {
                    if old(time_log).is_some() {
                        assert(rows_logged(
                            *clock,
                            written_to(*old(time_log)),
                            written_to(*final(time_log)),
                            channel_name.spec_bytes(),
                            band_bins(old(destinations)@),
                            window@,
                            *old(prev_active),
                            r.reached as int,
                            times,
                            Seq::<u8>::empty(),
                        ));
                    }
                }
                return r;
            },
        };
        let ghost mut at = Timespec { seconds: 0, nanoseconds: 0 };
        if !sent && *prev_active && time_log.is_some() {
            let now = match clock() {
                Ok(now) => now,
                Err(e) => {
                    let r = Routed { reached: j, end: RouteEnd::ClockFailed(e) };
                    proof {
                        if old(time_log).is_some() {
                            assert(rows_logged(
                                *clock,
                                written_to(*old(time_log)),
                                written_to(*final(time_log)),
                                channel_name.spec_bytes(),
                                band_bins(old(destinations)@),
                                window@,
                                *old(prev_active),
                                r.reached as int,
                                times,
                                Seq::<u8>::empty(),
                            ));
                        }
                    }
                    return r;
                },
            };
            proof {
                at = now;
            }
            let row = format_channel_row(channel_name, tag, now);
            let ghost before = written_to(*time_log);
            match write_to(time_log, row.as_slice()) {
                Ok(()) => {},
                Err(e) => {
                    let r = Routed { reached: j, end: RouteEnd::LogFailed(e) };
                    proof {
                        let k = choose|k: int|
                            0 <= k <= row@.len() && written_to(*time_log) == before
                                + #[trigger] row@.take(k);
                        assert(rows_logged(
                            *clock,
                            written_to(*old(time_log)),
                            written_to(*final(time_log)),
                            channel_name.spec_bytes(),
                            band_bins(old(destinations)@),
                            window@,
                            *old(prev_active),
                            r.reached as int,
                            times,
                            row@.take(k),
                        ));
                    }
                    return r;
                },
            }
        }
        proof {
            let longer = times.push(at);
            assert(longer.drop_last() =~= times);
            lemma_silent_rows_front(name, bands, window@, prev, longer, j as int);
            if old(time_log).is_some() {
                assert forall|k: int|
                    0 <= k < j + 1 && fell_silent(bands, window@, prev, k) implies call_ensures(
                    *clock,
                    (),
                    Ok::<Timespec, ClockError>(#[trigger] longer[k]),
                ) by {
                    if k < j {
                        assert(longer[k] == times[k]);
                    }
                }
                assert(written_to(*time_log) =~= written_to(*old(time_log)) + silent_rows(
                    name,
                    bands,
                    window@,
                    prev,
                    longer,
                    j as int + 1,
                ));
            }
            times = longer;
        }
        *prev_active = sent;
        j += 1;
    }
    proof {
        if old(time_log).is_some() {
            assert(written_to(*time_log) =~= written_to(*old(time_log)) + silent_rows(
                name,
                bands,
                window@,
                prev,
                times,
                j as int,
            ) + Seq::<u8>::empty());
            assert(rows_logged(
                *clock,
                written_to(*old(time_log)),
                written_to(*time_log),
                name,
                bands,
                window@,
                prev,
                j as int,
                times,
                Seq::<u8>::empty(),
            ));
        }
    }
    let r = Routed { reached: j, end: RouteEnd::Complete };
    proof {
        if old(time_log).is_some() {
            assert(rows_logged(
                *clock,
                written_to(*old(time_log)),
                written_to(*final(time_log)),
                channel_name.spec_bytes(),
                band_bins(old(destinations)@),
                window@,
                *old(prev_active),
                r.reached as int,
                times,
                Seq::<u8>::empty(),
            ));
        }
    }
    r
}

/// The source could not give its next record.
#[derive(Debug)]
pub struct SourceError {
    /// What the source reported
    pub message: String,
}

/// The input stage failed.
#[derive(Debug)]
pub enum InputError {
    /// The source could not give its next record
    Source(SourceError),
    /// A record names a bin that the FFT does not have
    Format(FormatViolation),
    /// The clock could not be read for a row of the time log
    Clock(ClockError),
    /// The time log did not accept its header or a row
    TimeLog(SinkError),
}

/// Why the input stage came to its end.
#[derive(Clone, Copy, Debug, PartialEq, Eq, Structural, Hash)]
pub enum StopReason {
    /// Every record of the source was taken in
    SourceExhausted,
    /// The stage was asked to stop
    Cancelled,
    /// The FFT stage of a band has exited
    DownstreamGone,
}

/// The setup for the input stage
pub struct InputSetup<L> {
    /// The records of the source, in order, up to its end or its first failure
    pub samples: Vec<Result<CompressedRecord, SourceError>>,
    /// Send half of channels used to send windows to all FFT stages
    pub destinations: Vec<ToFft>,
    /// A file or file-like thing where the time when each channel becomes inactive will be written
    pub input_time_log: Option<L>,
    /// The number of FFT bins used to compress the samples
    pub fft_size: u16,
    /// The name of the channel in the time log
    pub channel_name: &'static str,
}

/// A report on the results of the input stage
#[derive(Debug)]
pub struct InputReport {
    /// For each range of bins that a band decompresses, the sends to that
    /// band's FFT stage that had to wait. Where several bands decompress one
    /// range, these are the sends to the last of them.
    pub channel_send_blocks: Vec<(BinRange, BlockLogs)>,
    /// Why the stage came to its end
    pub stopped_by: StopReason,
}

/// The first `n` records of the source.
pub open spec fn records_of(
    samples: Seq<Result<CompressedRecord, SourceError>>,
    n: int,
) -> Seq<CompressedRecord> {
    Seq::new(n as nat, |k: int| samples[k]->Ok_0)
}

/// Whether the source gave its first `n` records, and each names a bin of
/// the FFT.
pub open spec fn readable(
    samples: Seq<Result<CompressedRecord, SourceError>>,
    n: int,
    size: int,
) -> bool {
    forall|k: int| 0 <= k < n ==> (#[trigger] samples[k]) is Ok && samples[k]->Ok_0.bin_index < size
}

/// The closed windows as the bands see them: in logical order, the `k`th
/// with the `k`th tag.
pub open spec fn routed_windows(closed: Seq<WindowView>) -> Seq<WindowView> {
    Seq::new(closed.len(), |k: int| closed[k].to_logical().tagged(Tag::nth(k as nat)))
}

/// The windows that the first `n` records of the source close, as the bands
/// see them.
pub open spec fn stage_windows(
    samples: Seq<Result<CompressedRecord, SourceError>>,
    n: int,
    size: int,
) -> Seq<WindowView> {
    routed_windows(assembled(size, records_of(samples, n)).1)
}

/// Whether the counters of `after` are at least those of `before`.
pub open spec fn blocks_grew(before: BlockLogs, after: BlockLogs) -> bool {
    after.blocks >= before.blocks && after.total_nanos >= before.total_nanos
}

/// Whether `after` are the stages `before` after a run of windows was routed:
/// each stage was sent, in order, the windows that it is interested in and
/// no others. `reached` is the number of stages that the last window was
/// offered to; where it is less than the number of stages, the others were
/// not offered the last window. A stage that is interested in no window has
/// not been sent to at all.
pub open spec fn routed_to(
    before: Seq<ToFft>,
    after: Seq<ToFft>,
    windows: Seq<WindowView>,
    reached: int,
) -> bool {
    &&& after.len() == before.len()
    &&& 0 <= reached <= before.len()
    &&& reached < before.len() ==> windows.len() > 0
    &&& forall|i: int|
        0 <= i < before.len() ==> {
            &&& (#[trigger] after[i]).follows(&before[i])
            &&& blocks_grew(before[i].tx.spec_logs(), after[i].tx.spec_logs())
            &&& (forall|k: int| 0 <= k < windows.len() ==> !interested(before[i].bins, windows[k]))
                ==> after[i].tx == before[i].tx
            &&& after[i].tx.delivered() == before[i].tx.delivered() + deliveries(
                before[i].bins,
                if i < reached {
                    windows
                } else {
                    windows.drop_last()
                },
            )
        }
}

/// The header of the time log of the input stage.
pub open spec fn activity_header() -> Seq<u8> {
    "Channel,Tag,Seconds,Nanoseconds\n".spec_bytes()
}

/// Whether the last band took the last of a run of windows. Before the
/// first window, and where there is no band, no band has taken a window.
pub open spec fn active_after(bands: Seq<BinRange>, windows: Seq<WindowView>) -> bool
    decreases windows.len(),
{
    if windows.len() == 0 {
        false
    } else {
        active_before(
            bands,
            windows.last(),
            active_after(bands, windows.drop_last()),
            bands.len() as int,
        )
    }
}

/// The rows that a run of windows adds to the time log of the input stage,
/// where `times[k]` holds the readings of the clock for window `k` and the
/// last window was offered to the first `reached` bands.
pub open spec fn stage_rows(
    name: Seq<u8>,
    bands: Seq<BinRange>,
    windows: Seq<WindowView>,
    times: Seq<Seq<Timespec>>,
    reached: int,
) -> Seq<u8>
    decreases windows.len(),
{
    if windows.len() == 0 {
        Seq::empty()
    } else {
        stage_rows(name, bands, windows.drop_last(), times.drop_last(), bands.len() as int)
            + silent_rows(
            name,
            bands,
            windows.last(),
            active_after(bands, windows.drop_last()),
            times[windows.len() - 1],
            reached,
        )
    }
}

/// Whether `times[k]` holds, for each band at which the channel fell silent
/// in window `k`, a reading that the clock gave, where the last window was
/// offered to the first `reached` bands.
pub open spec fn stage_readings_given<C: Fn() -> Result<Timespec, ClockError>>(
    clock: C,
    bands: Seq<BinRange>,
    windows: Seq<WindowView>,
    times: Seq<Seq<Timespec>>,
    reached: int,
) -> bool {
    &&& times.len() == windows.len()
    &&& forall|k: int|
        0 <= k < windows.len() ==> readings_given(
            clock,
            bands,
            windows[k],
            active_after(bands, windows.take(k)),
            #[trigger] times[k],
            if k == windows.len() - 1 {
                reached
            } else {
                bands.len() as int
            },
        )
}

/// Whether the time log holds, after what it held before, the header and
/// the rows of a run of windows, of which the last was offered to the first
/// `reached` bands, and nothing more.
pub open spec fn activity_logged<C: Fn() -> Result<Timespec, ClockError>>(
    clock: C,
    before: Seq<u8>,
    after: Seq<u8>,
    name: Seq<u8>,
    bands: Seq<BinRange>,
    windows: Seq<WindowView>,
    times: Seq<Seq<Timespec>>,
    reached: int,
) -> bool {
    &&& stage_readings_given(clock, bands, windows, times, reached)
    &&& after == before + activity_header() + stage_rows(name, bands, windows, times, reached)
}

/// Whether the stage took in the first `n` records of the source and routed
/// the windows that they close, the last of them to the first `reached`
/// bands.
pub open spec fn stage_ran<L>(
    before: InputSetup<L>,
    after: InputSetup<L>,
    n: int,
    reached: int,
) -> bool {
    &&& after.samples == before.samples
    &&& after.fft_size == before.fft_size
    &&& after.channel_name == before.channel_name
    &&& after.input_time_log.is_some() == before.input_time_log.is_some()
    &&& 0 <= n <= before.samples@.len()
    &&& readable(before.samples@, n, before.fft_size as int)
    &&& routed_to(
        before.destinations@,
        after.destinations@,
        stage_windows(before.samples@, n, before.fft_size as int),
        reached,
    )
}

/// For each stage its range of bins and the sends to it that had to wait.
pub open spec fn band_logs(stages: Seq<ToFft>) -> Seq<(BinRange, BlockLogs)> {
    Seq::new(stages.len(), |i: int| (stages[i].bins, stages[i].tx.spec_logs()))
}

/// The logs of the last band that decompresses `range`, if there is one.
pub open spec fn last_logs(bands: Seq<(BinRange, BlockLogs)>, range: BinRange) -> Option<BlockLogs>
    decreases bands.len(),
{
    if bands.len() == 0 {
        None
    } else if bands.last().0 == range {
        Some(bands.last().1)
    } else {
        last_logs(bands.drop_last(), range)
    }
}

/// Whether `entries` map each range of bins that a band decompresses, once,
/// to the logs of the last band that decompresses it.
pub open spec fn reports(entries: Seq<(BinRange, BlockLogs)>, bands: Seq<(BinRange, BlockLogs)>) -> bool {
    &&& forall|i: int, j: int|
        0 <= i < j < entries.len() ==> (#[trigger] entries[i]).0 != (#[trigger] entries[j]).0
    &&& forall|k: int|
        0 <= k < entries.len() ==> last_logs(bands, (#[trigger] entries[k]).0) == Some(entries[k].1)
    &&& forall|i: int|
        0 <= i < bands.len() ==> exists|k: int|
            0 <= k < entries.len() && (#[trigger] entries[k]).0 == (#[trigger] bands[i]).0
}

impl InputReport {
    /// Makes the report of a stage that has come to its end: collects from
    /// the FFT stages the logs of the sends that had to wait, one entry for
    /// each range of bins.
    pub fn new(destinations: &Vec<ToFft>, stopped_by: StopReason) -> (report: InputReport)
        ensures
            report.stopped_by == stopped_by,
            reports(report.channel_send_blocks@, band_logs(destinations@)),
    {
        InputReport { channel_send_blocks: collect_blocks(destinations), stopped_by }
    }

    /// The sends that had to wait on the way to the band that decompresses
    /// `range`, or `None` where no band decompresses it.
    pub fn blocks_for(&self, range: &BinRange) -> (r: Option<BlockLogs>)
        ensures
            r matches Some(logs) ==> exists|k: int|
                0 <= k < self.channel_send_blocks@.len() && #[trigger] self.channel_send_blocks@[k]
                    == (*range, logs),
            r.is_none() ==> forall|k: int|
                0 <= k < self.channel_send_blocks@.len() ==> (
                #[trigger] self.channel_send_blocks@[k]).0 != *range,
    {
        let mut k: usize = 0;
        while k < self.channel_send_blocks.len()
            invariant
                k <= self.channel_send_blocks@.len(),
                forall|m: int| 0 <= m < k ==> (#[trigger] self.channel_send_blocks@[m]).0 != *range,
            decreases self.channel_send_blocks.len() - k,
        {
            if self.channel_send_blocks[k].0 == *range {
                return Some(self.channel_send_blocks[k].1);
            }
            k += 1;
        }
        None
    }
}

/// Collects the logs of the sends that had to wait, one entry for each range
/// of bins.
fn collect_blocks(destinations: &Vec<ToFft>) -> (out: Vec<(BinRange, BlockLogs)>)
    ensures
        reports(out@, band_logs(destinations@)),
{
    let ghost bands = band_logs(destinations@);
    let mut out: Vec<(BinRange, BlockLogs)> = Vec::new();
    let mut i: usize = 0;
    assert(bands.take(0) =~= Seq::<(BinRange, BlockLogs)>::empty());
    while i < destinations.len()
        invariant
            i <= destinations.len(),
            bands == band_logs(destinations@),
            reports(out@, bands.take(i as int)),
        decreases destinations.len() - i,
    {
        let range = destinations[i].bins;
        let logs = destinations[i].tx.logs();
        let ghost before = out@;
        let ghost seen = bands.take(i as int);
        let ghost next = bands.take(i as int + 1);
        let mut k: usize = 0;
        while k < out.len() && !(out[k].0 == range)
            invariant
                k <= out.len(),
                forall|m: int| 0 <= m < k ==> (#[trigger] out@[m]).0 != range,
            decreases out.len() - k,
        {
            k += 1;
        }
        if k < out.len() {
            out.set(k, (range, logs));
        } else {
            out.push((range, logs));
        }
        proof {
            assert(next.drop_last() =~= seen);
            assert(next.last() == (range, logs));
            assert(out@[k as int] == (range, logs));
            assert forall|m: int| 0 <= m < out@.len() implies last_logs(next, (#[trigger] out@[m]).0)
                == Some(out@[m].1) by {
                if m != k {
                    assert(before[m] == out@[m]);
                    assert(before[m].0 != range);
                }
            }
            assert forall|b: int| 0 <= b < next.len() implies exists|m: int|
                0 <= m < out@.len() && (#[trigger] out@[m]).0 == (#[trigger] next[b]).0 by {
                if b < i {
                    assert(seen[b] == next[b]);
                    let m = choose|m: int|
                        0 <= m < before.len() && (#[trigger] before[m]).0 == (#[trigger] seen[b]).0;
                    assert(out@[m].0 == before[m].0);
                } else {
                    assert(out@[k as int].0 == next[b].0);
                }
            }
            assert forall|a: int, b: int| 0 <= a < b < out@.len() implies (#[trigger] out@[a]).0 != (
            #[trigger] out@[b]).0 by {
                if a != k && a < before.len() {
                    assert(before[a] == out@[a]);
                }
                if b != k && b < before.len() {
                    assert(before[b] == out@[b]);
                }
            }
        }
        i += 1;
    }
    assert(bands.take(bands.len() as int) =~= bands);
    out
}

/// What the input stage carries from one record to the next: the window in
/// flight, the tag of the next window, and whether the last band took the
/// last window.
pub struct InputStage {
    assembler: Assembler,
    next_tag: Tag,
    prev_active: bool,
}

impl InputStage {
    /// The window in flight is well formed.
    pub closed spec fn wf(&self) -> bool {
        self.assembler.wf()
    }

    /// The number of bins of the FFT.
    pub closed spec fn spec_size(&self) -> int {
        self.assembler.spec_size()
    }

    /// The window in flight.
    pub closed spec fn in_flight(&self) -> Option<WindowView> {
        self.assembler.in_flight()
    }

    /// The tag that the next window gets.
    pub closed spec fn spec_next_tag(&self) -> Tag {
        self.next_tag
    }

    /// Whether the last band took the last window.
    pub closed spec fn spec_prev_active(&self) -> bool {
        self.prev_active
    }

    /// Creates the stage as it is before the first record.
    pub fn new(fft_size: u16) -> (stage: InputStage)
        ensures
            stage.wf(),
            stage.spec_size() == fft_size,
            stage.in_flight().is_none(),
            stage.spec_next_tag() == Tag::nth(0),
            !stage.spec_prev_active(),
    {
        InputStage { assembler: Assembler::new(fft_size), next_tag: Tag::first(), prev_active: false }
    }

    /// The tag that the next window gets.
    pub fn next_tag(&self) -> (tag: Tag)
        ensures
            tag == self.spec_next_tag(),
    {
        self.next_tag
    }

    /// Takes in one record. Where the record closes a window, the window is
    /// put into logical order, gets the next tag, and is offered to the
    /// bands, as [`route_window`] does it; the result says how that went.
    ///
    /// A record whose bin the FFT does not have is refused, and changes
    /// nothing.
    pub fn take_in<L: SampleSink, C: Fn() -> Result<Timespec, ClockError>>(
        &mut self,
        record: &CompressedRecord,
        destinations: &mut Vec<ToFft>,
        time_log: &mut Option<L>,
        channel_name: &str,
        clock: &C,
    ) -> (r: Result<Option<Routed>, FormatViolation>)
        requires
            old(self).wf(),
            forall|i: int|
                0 <= i < old(destinations)@.len() ==> (#[trigger] old(destinations)@[i]).wf(),
            call_requires(*clock, ()),
        ensures
            final(self).wf(),
            final(self).spec_size() == old(self).spec_size(),
            final(time_log).is_some() == old(time_log).is_some(),
            record.bin_index >= old(self).spec_size() ==> {
                &&& r == Err::<Option<Routed>, FormatViolation>(
                    FormatViolation { bin_index: record.bin_index, size: old(self).spec_size() as u16 },
                )
                &&& final(self).in_flight() == old(self).in_flight()
            },
            record.bin_index < old(self).spec_size() ==> {
                &&& r.is_ok()
                &&& final(self).in_flight() == carried(
                    old(self).in_flight(),
                    old(self).spec_size(),
                    *record,
                )
            },
            !(r matches Ok(Some(_))) ==> {
                &&& final(self).spec_next_tag() == old(self).spec_next_tag()
                &&& final(self).spec_prev_active() == old(self).spec_prev_active()
                &&& final(destinations)@ == old(destinations)@
                &&& written_to(*final(time_log)) == written_to(*old(time_log))
            },
            r.is_ok() ==> (r.unwrap().is_some() <==> emitted(
                old(self).in_flight(),
                old(self).spec_size(),
                *record,
            ).is_some()),
            r matches Ok(Some(routed)) ==> {
                &&& final(self).spec_next_tag() == old(self).spec_next_tag().spec_next()
                &&& window_routed(
                    routed,
                    *clock,
                    old(destinations)@,
                    final(destinations)@,
                    emitted(
                        old(self).in_flight(),
                        old(self).spec_size(),
                        *record,
                    ).unwrap().to_logical().tagged(old(self).spec_next_tag()),
                    old(self).spec_prev_active(),
                    final(self).spec_prev_active(),
                    *old(time_log),
                    *final(time_log),
                    channel_name.spec_bytes(),
                )
            },
    {
        let closed = match self.assembler.push(record) {
            Ok(closed) => closed,
            Err(violation) => {
                return Err(violation);
            },
        };
        match closed {
            None => Ok(None),
            Some(physical) => {
                let mut window = physical.into_logical();
                window.set_tag(self.next_tag);
                self.next_tag = self.next_tag.next();
                let routed = route_window(
                    &window,
                    destinations,
                    &mut self.prev_active,
                    time_log,
                    channel_name,
                    clock,
                );
                Ok(Some(routed))
            },
        }
    }
}

/// How a run of the input stage ended: what it did, by [`stage_ran`], what it
/// returned and why, and what the time log holds after it. `n` is the number
/// of records that the stage took in, `reached` the number of bands that the
/// last window was offered to, and `times` holds the readings of the clock.
pub open spec fn stage_ended<L: SampleSink, C: Fn() -> Result<Timespec, ClockError>>(
    r: Result<InputReport, InputError>,
    before: InputSetup<L>,
    after: InputSetup<L>,
    clock: C,
    n: int,
    reached: int,
    times: Seq<Seq<Timespec>>,
) -> bool {
    let samples = before.samples@;
    let size = before.fft_size as int;
    let bands = before.destinations@.len() as int;
    let windows = stage_windows(samples, n, size);
    &&& stage_ran(before, after, n, reached)
    &&& (before.input_time_log.is_some() && !(r matches Err(InputError::TimeLog(_))))
        ==> activity_logged(
        clock,
        written_to(before.input_time_log),
        written_to(after.input_time_log),
        before.channel_name.spec_bytes(),
        band_bins(before.destinations@),
        windows,
        times,
        reached,
    )
    &&& match r {
        Ok(report) => {
            &&& reports(report.channel_send_blocks@, band_logs(after.destinations@))
            &&& match report.stopped_by {
                StopReason::SourceExhausted => n == samples.len() && reached == bands,
                StopReason::Cancelled => n < samples.len() && reached == bands,
                StopReason::DownstreamGone => reached < bands && interested(
                    before.destinations@[reached].bins,
                    windows.last(),
                ),
            }
        },
        Err(InputError::Source(e)) => {
            &&& n < samples.len()
            &&& samples[n] == Err::<CompressedRecord, SourceError>(e)
            &&& reached == bands
        },
        Err(InputError::Format(v)) => {
            &&& n < samples.len()
            &&& samples[n] is Ok
            &&& samples[n]->Ok_0.bin_index >= size
            &&& v == (FormatViolation {
                bin_index: samples[n]->Ok_0.bin_index,
                size: before.fft_size,
            })
            &&& reached == bands
        },
        Err(InputError::Clock(e)) => {
            &&& before.input_time_log.is_some()
            &&& call_ensures(clock, (), Err::<Timespec, ClockError>(e))
        },
        Err(InputError::TimeLog(_)) => before.input_time_log.is_some(),
    }
}

/// The bytes of the header of the time log.
pub fn header_row() -> (row: Vec<u8>)
    ensures
        row@ == activity_header(),
{
    bytes_of("Channel,Tag,Seconds,Nanoseconds\n")
}

/// One more record either closes no window, or adds the window that it
/// closes, in logical order and with the next tag, to the windows that the
/// bands see.
proof fn lemma_next_record(
    samples: Seq<Result<CompressedRecord, SourceError>>,
    n: int,
    size: int,
)
    requires
        0 <= n < samples.len(),
        readable(samples, n + 1, size),
    ensures
        ({
            let (in_flight, closed) = assembled(size, records_of(samples, n));
            let record = samples[n]->Ok_0;
            let seen = stage_windows(samples, n, size);
            &&& assembled(size, records_of(samples, n + 1)).0 == carried(
                in_flight,
                size,
                record,
            )
            &&& stage_windows(samples, n + 1, size) == match emitted(
                in_flight,
                size,
                record,
            ) {
                Some(w) => seen.push(w.to_logical().tagged(Tag::nth(seen.len()))),
                None => seen,
            }
        }),
{
    let shorter = records_of(samples, n);
    let longer = records_of(samples, n + 1);
    assert(longer.drop_last() =~= shorter);
    assert(longer.last() == samples[n]->Ok_0);
    let (in_flight, closed) = assembled(size, shorter);
    let seen = stage_windows(samples, n, size);
    match emitted(in_flight, size, samples[n]->Ok_0) {
        Some(w) => {
            assert(stage_windows(samples, n + 1, size) =~= seen.push(
                w.to_logical().tagged(Tag::nth(seen.len())),
            ));
        },
        None => {},
    }
}

/// Routing one more window, after a run of windows that every band was
/// offered, gives a run that is one window longer.
proof fn lemma_route_step(
    before: Seq<ToFft>,
    mid: Seq<ToFft>,
    after: Seq<ToFft>,
    windows: Seq<WindowView>,
    w: WindowView,
    reached: int,
)
    requires
        routed_to(before, mid, windows, before.len() as int),
        offered_to(mid, after, w, reached),
    ensures
        routed_to(before, after, windows.push(w), reached),
{
    let longer = windows.push(w);
    assert(longer.drop_last() =~= windows);
    assert(longer.last() == w);
    assert forall|i: int| 0 <= i < before.len() implies {
        &&& (#[trigger] after[i]).follows(&before[i])
        &&& blocks_grew(before[i].tx.spec_logs(), after[i].tx.spec_logs())
        &&& (forall|k: int| 0 <= k < longer.len() ==> !interested(before[i].bins, longer[k]))
            ==> after[i].tx == before[i].tx
        &&& after[i].tx.delivered() == before[i].tx.delivered() + deliveries(
            before[i].bins,
            if i < reached {
                longer
            } else {
                longer.drop_last()
            },
        )
    } by {
        assert(mid[i].follows(&before[i]));
        assert(after[i].follows(&mid[i]));
        if forall|k: int| 0 <= k < longer.len() ==> !interested(before[i].bins, longer[k]) {
            assert forall|k: int| 0 <= k < windows.len() implies !interested(
                before[i].bins,
                windows[k],
            ) by {
                assert(longer[k] == windows[k]);
            }
            assert(!interested(before[i].bins, longer[windows.len() as int]));
        }
        assert(after[i].tx.delivered() =~= before[i].tx.delivered() + deliveries(
            before[i].bins,
            if i < reached {
                longer
            } else {
                longer.drop_last()
            },
        ));
    }
}

/// The rows of one more window follow the rows of the windows before it.
proof fn lemma_rows_step<C: Fn() -> Result<Timespec, ClockError>>(
    clock: C,
    start: Seq<u8>,
    mid: Seq<u8>,
    after: Seq<u8>,
    name: Seq<u8>,
    bands: Seq<BinRange>,
    windows: Seq<WindowView>,
    times: Seq<Seq<Timespec>>,
    w: WindowView,
    readings: Seq<Timespec>,
    reached: int,
)
    requires
        activity_logged(clock, start, mid, name, bands, windows, times, bands.len() as int),
        rows_logged(
            clock,
            mid,
            after,
            name,
            bands,
            w,
            active_after(bands, windows),
            reached,
            readings,
            Seq::<u8>::empty(),
        ),
    ensures
        activity_logged(
            clock,
            start,
            after,
            name,
            bands,
            windows.push(w),
            times.push(readings),
            reached,
        ),
{
    let longer = windows.push(w);
    let more = times.push(readings);
    assert(longer.drop_last() =~= windows);
    assert(more.drop_last() =~= times);
    assert forall|k: int| 0 <= k < longer.len() implies readings_given(
        clock,
        bands,
        longer[k],
        active_after(bands, longer.take(k)),
        #[trigger] more[k],
        if k == longer.len() - 1 {
            reached
        } else {
            bands.len() as int
        },
    ) by {
        if k < windows.len() {
            assert(longer.take(k) =~= windows.take(k));
            assert(more[k] == times[k]);
        } else {
            assert(longer.take(k) =~= windows);
        }
    }
    assert(after =~= start + activity_header() + stage_rows(name, bands, longer, more, reached));
}

/// Runs the input stage on the records of a source.
///
/// The stage writes the header of the time log, if there is one. Then it
/// takes in one record after the other, and asks before each whether it was
/// told to stop. Each window that the records close is put into logical
/// order, gets the next tag, and is offered to the bands in their order; a
/// copy goes to each band that is interested in it. What is in flight when
/// the records end is dropped.
///
/// The stage ends without an error at the end of the records, when it is
/// told to stop, and when the FFT stage of a band has exited; the report
/// says which. It fails at the first record that the source could not give
/// or that names a bin that the FFT does not have, and where the time log
/// cannot be written.
pub fn run_input_stage<L: SampleSink, C: Fn() -> Result<Timespec, ClockError>>(
    setup: &mut InputSetup<L>,
    stop: &AtomicBool,
    clock: &C,
) -> (r: Result<InputReport, InputError>)
    requires
        forall|i: int|
            0 <= i < old(setup).destinations@.len() ==> (#[trigger] old(setup).destinations@[i]).wf(),
        call_requires(*clock, ()),
    ensures
        exists|n: int, reached: int, times: Seq<Seq<Timespec>>| #[trigger]
            stage_ended(r, *old(setup), *final(setup), *clock, n, reached, times),
{
    let ghost stages = old(setup).destinations@;
    let ghost bands = band_bins(stages);
    let ghost name = old(setup).channel_name.spec_bytes();
    let ghost samples = old(setup).samples@;
    let ghost start = written_to(old(setup).input_time_log);
    let size = setup.fft_size;
    let channel_name = setup.channel_name;
    let ghost mut windows: Seq<WindowView> = Seq::empty();
    let ghost mut times: Seq<Seq<Timespec>> = Seq::empty();
    proof {
        assert(records_of(samples, 0) =~= Seq::<CompressedRecord>::empty());
        assert(stage_windows(samples, 0, size as int) =~= windows);
        assert forall|i: int| 0 <= i < stages.len() implies {
            &&& (#[trigger] stages[i]).follows(&stages[i])
            &&& stages[i].tx.delivered() == stages[i].tx.delivered() + deliveries(
                stages[i].bins,
                windows,
            )
        } by {
            assert(stages[i].tx.delivered() =~= stages[i].tx.delivered() + deliveries(
                stages[i].bins,
                windows,
            ));
        }
        assert(routed_to(stages, stages, windows, stages.len() as int));
    }
    let header = header_row();
    match write_to(&mut setup.input_time_log, header.as_slice()) {
        Ok(()) => {},
        Err(e) => {
            let r = Err(InputError::TimeLog(e));
            proof {
                assert(stage_ended(r, *old(setup), *final(setup), *clock, 0, stages.len() as int, times));
            }
            return r;
        },
    }
    proof {
        if old(setup).input_time_log.is_some() {
            assert(written_to(setup.input_time_log) =~= start + activity_header() + stage_rows(
                name,
                bands,
                windows,
                times,
                bands.len() as int,
            ));
        }
    }
    let mut stage = InputStage::new(size);
    let mut i: usize = 0;
    while i < setup.samples.len()
        invariant
            i <= setup.samples@.len(),
            call_requires(*clock, ()),
            stages == old(setup).destinations@,
            bands == band_bins(stages),
            name == old(setup).channel_name.spec_bytes(),
            samples == old(setup).samples@,
            start == written_to(old(setup).input_time_log),
            size == old(setup).fft_size,
            channel_name == old(setup).channel_name,
            setup.samples == old(setup).samples,
            setup.fft_size == old(setup).fft_size,
            setup.channel_name == old(setup).channel_name,
            setup.input_time_log.is_some() == old(setup).input_time_log.is_some(),
            readable(samples, i as int, size as int),
            stage.wf(),
            stage.spec_size() == size,
            stage.in_flight() == assembled(size as int, records_of(samples, i as int)).0,
            windows == stage_windows(samples, i as int, size as int),
            stage.spec_next_tag() == Tag::nth(windows.len()),
            stage.spec_prev_active() == active_after(bands, windows),
            routed_to(stages, setup.destinations@, windows, stages.len() as int),
            old(setup).input_time_log.is_some() ==> activity_logged(
                *clock,
                start,
                written_to(setup.input_time_log),
                name,
                bands,
                windows,
                times,
                bands.len() as int,
            ),
        decreases setup.samples.len() - i,
    {
        if stop_requested(stop) {
            let report = InputReport::new(&setup.destinations, StopReason::Cancelled);
            let r = Ok(report);
            proof {
                assert(stage_ended(
                    r,
                    *old(setup),
                    *final(setup),
                    *clock,
                    i as int,
                    stages.len() as int,
                    times,
                ));
            }
            return r;
        }
        let record = match &setup.samples[i] {
            Ok(record) => *record,
            Err(e) => {
                let r = Err(InputError::Source(SourceError { message: e.message.clone() }));
                proof {
                    assert(stage_ended(
                        r,
                        *old(setup),
                        *final(setup),
                        *clock,
                        i as int,
                        stages.len() as int,
                        times,
                    ));
                }
                return r;
            },
        };
        let ghost mid = setup.destinations@;
        let ghost log_mid = written_to(setup.input_time_log);
        let ghost prev = stage.spec_prev_active();
        let ghost in_flight = stage.in_flight();
        proof {
            assert(band_bins(mid) =~= bands);
        }
        let taken = stage.take_in(
            &record,
            &mut setup.destinations,
            &mut setup.input_time_log,
            channel_name,
            clock,
        );
        let routed = match taken {
            Ok(routed) => routed,
            Err(violation) => {
                let r = Err(InputError::Format(violation));
                proof {
                    assert(stage_ended(
                        r,
                        *old(setup),
                        *final(setup),
                        *clock,
                        i as int,
                        stages.len() as int,
                        times,
                    ));
                }
                return r;
            },
        };
        proof {
            lemma_next_record(samples, i as int, size as int);
        }
        match routed {
            None => {},
            Some(routed) => {
                let ghost window = emitted(in_flight, size as int, record).unwrap().to_logical().tagged(
                    Tag::nth(windows.len()),
                );
                proof {
                    Tag::lemma_nth_next(windows.len());
                    lemma_route_step(
                        stages,
                        mid,
                        setup.destinations@,
                        windows,
                        window,
                        routed.reached as int,
                    );
                    if old(setup).input_time_log.is_some() && !(routed.end is LogFailed) {
                        let readings = choose|readings: Seq<Timespec>| #[trigger]
                            rows_logged(
                                *clock,
                                log_mid,
                                written_to(setup.input_time_log),
                                name,
                                bands,
                                window,
                                prev,
                                routed.reached as int,
                                readings,
                                Seq::<u8>::empty(),
                            );
                        lemma_rows_step(
                            *clock,
                            start,
                            log_mid,
                            written_to(setup.input_time_log),
                            name,
                            bands,
                            windows,
                            times,
                            window,
                            readings,
                            routed.reached as int,
                        );
                        times = times.push(readings);
                    }
                    assert(windows.push(window).drop_last() =~= windows);
                    assert(windows.push(window).last() == window);
                    assert(bands.len() == stages.len());
                    windows = windows.push(window);
                }
                match routed.end {
                    RouteEnd::Complete => {},
                    RouteEnd::DownstreamGone => {
                        let report = InputReport::new(&setup.destinations, StopReason::DownstreamGone);
                        let r = Ok(report);
                        proof {
                            assert(stage_ended(
                                r,
                                *old(setup),
                                *final(setup),
                                *clock,
                                i as int + 1,
                                routed.reached as int,
                                times,
                            ));
                        }
                        return r;
                    },
                    RouteEnd::ClockFailed(e) => {
                        let r = Err(InputError::Clock(e));
                        proof {
                            assert(stage_ended(
                                r,
                                *old(setup),
                                *final(setup),
                                *clock,
                                i as int + 1,
                                routed.reached as int,
                                times,
                            ));
                        }
                        return r;
                    },
                    RouteEnd::LogFailed(e) => {
                        let r = Err(InputError::TimeLog(e));
                        proof {
                            assert(stage_ended(
                                r,
                                *old(setup),
                                *final(setup),
                                *clock,
                                i as int + 1,
                                routed.reached as int,
                                times,
                            ));
                        }
                        return r;
                    },
                }
            },
        }
        i += 1;
    }
    let report = InputReport::new(&setup.destinations, StopReason::SourceExhausted);
    let r = Ok(report);
    proof {
        assert(stage_ended(r, *old(setup), *final(setup), *clock, i as int, stages.len() as int, times));
    }
    r
}

/// The rows of the first `upto` bands depend on the first `upto` readings only.
proof fn lemma_silent_rows_front(
    name: Seq<u8>,
    bands: Seq<BinRange>,
    w: WindowView,
    prev: bool,
    times: Seq<Timespec>,
    upto: int,
)
    requires
        0 <= upto < times.len(),
    ensures
        silent_rows(name, bands, w, prev, times, upto) == silent_rows(
            name,
            bands,
            w,
            prev,
            times.drop_last(),
            upto,
        ),
    decreases upto,
{
    if upto > 0 {
        lemma_silent_rows_front(name, bands, w, prev, times, upto - 1);
    }
}

/// A band is sent a window of a run if and only if it is interested in it:
/// each window that it is interested in is among what it is sent, tag and
/// all, and whatever it is sent is a window of the run that it is interested
/// in. So two bands that are sent one window see the same tag.
pub proof fn lemma_deliveries(bins: BinRange, windows: Seq<WindowView>)
    ensures
        forall|k: int|
            0 <= k < windows.len() && interested(bins, #[trigger] windows[k]) ==> deliveries(
                bins,
                windows,
            ).contains(windows[k]),
        forall|d: int|
            0 <= d < deliveries(bins, windows).len() ==> interested(
                bins,
                #[trigger] deliveries(bins, windows)[d],
            ) && windows.contains(deliveries(bins, windows)[d]),
    decreases windows.len(),
{
    if windows.len() > 0 {
        let front = windows.drop_last();
        let sent = deliveries(bins, windows);
        lemma_deliveries(bins, front);
        assert forall|k: int|
            0 <= k < windows.len() && interested(bins, #[trigger] windows[k]) implies sent.contains(
            windows[k],
        ) by {
            if k < front.len() {
                assert(front[k] == windows[k]);
                let d = choose|d: int|
                    0 <= d < deliveries(bins, front).len() && deliveries(bins, front)[d]
                        == front[k];
                assert(sent[d] == windows[k]);
            } else {
                assert(sent[sent.len() - 1] == windows[k]);
            }
        }
        assert forall|d: int| 0 <= d < sent.len() implies interested(bins, #[trigger] sent[d])
            && windows.contains(sent[d]) by {
            if d < deliveries(bins, front).len() {
                assert(sent[d] == deliveries(bins, front)[d]);
                let k = choose|k: int| 0 <= k < front.len() && front[k] == sent[d];
                assert(windows[k] == sent[d]);
            } else {
                assert(sent[d] == windows[windows.len() - 1]);
            }
        }
    }
}

/// The windows that the bands see carry consecutive tags: the tag of each
/// follows the tag of the one before it, and differs from it.
pub proof fn lemma_tags_follow(closed: Seq<WindowView>, k: int)
    requires
        0 <= k,
        k + 1 < closed.len(),
    ensures
        routed_windows(closed)[k].tag == Some(Tag::nth(k as nat)),
        routed_windows(closed)[k + 1].tag == Some(Tag::nth(k as nat).spec_next()),
        routed_windows(closed)[k + 1].tag != routed_windows(closed)[k].tag,
{
    Tag::lemma_nth_next(k as nat);
}

/// A band whose bins are all inactive in a window is not interested in it,
/// so a window whose active bins lie in the range of one band is never sent
/// to a band whose range shares no bin with that range.
pub proof fn lemma_disjoint_bands(a: BinRange, b: BinRange, w: WindowView)
    requires
        forall|x: int| !(a.contains(x) && b.contains(x)),
        forall|x: int| w.is_active(x) ==> a.contains(x),
    ensures
        !interested(b, w),
        offered(b, w) == Seq::<WindowView>::empty(),
{
}

} // verus!