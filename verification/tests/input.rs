use reconstruct::assembler::{Assembler, FormatViolation};
use reconstruct::bins::BinRange;
use reconstruct::blocking::BlockLogs;
use reconstruct::channel::LoggingSender;
use reconstruct::input::{
    header_row, route_window, run_input_stage, InputError, InputSetup, RouteEnd, SourceError,
    StopReason, ToFft,
};
use reconstruct::record::{CompressedRecord, Payload};
use reconstruct::sink::{FnSink, SinkError};
use reconstruct::stop::stop_requested;
use reconstruct::timelog::{ClockError, Timespec};
use reconstruct::window::{IqValue, Logical, Physical, Tag, Window};
use std::cell::Cell;
use std::sync::atomic::{AtomicBool, Ordering};
use std::sync::mpsc::{sync_channel, Receiver};

fn value(bin: u16, time: u32, i: i16) -> Result<CompressedRecord, SourceError> {
    Ok(CompressedRecord {
        bin_index: bin,
        timestamp_fragment: time,
        payload: Payload::Sample(IqValue { i, q: -i }),
    })
}

fn average(bin: u16, time: u32) -> Result<CompressedRecord, SourceError> {
    Ok(CompressedRecord { bin_index: bin, timestamp_fragment: time, payload: Payload::Average(9) })
}

fn band(start: u16, len: u16, size: u16, room: usize) -> (ToFft, Receiver<Window<Logical>>) {
    let (tx, rx) = sync_channel(room);
    (ToFft::new(BinRange::new(start, len, size).unwrap(), LoggingSender::new(tx)), rx)
}

fn clock() -> Result<Timespec, ClockError> {
    Ok(Timespec { seconds: 3, nanoseconds: 4 })
}

fn received(rx: &Receiver<Window<Logical>>) -> Vec<Window<Logical>> {
    let mut out = Vec::new();
    while let Ok(w) = rx.try_recv() {
        out.push(w);
    }
    out
}

fn active(w: &Window<Logical>) -> Vec<(u16, i16)> {
    (0..w.size()).filter_map(|b| w.value(b).map(|v| (b, v.i))).collect()
}

/// Three FFT cycles of four bins: bins 0 and 2 at time 1, bin 1 at time 2,
/// bin 3 at time 3. The third is still in flight at the end.
fn three_cycles() -> Vec<Result<CompressedRecord, SourceError>> {
    vec![value(0, 1, 10), value(2, 1, 12), average(3, 1), value(1, 2, 21), value(3, 3, 33)]
}

fn setup(
    samples: Vec<Result<CompressedRecord, SourceError>>,
    destinations: Vec<ToFft>,
    log: Option<Vec<u8>>,
) -> InputSetup<Vec<u8>> {
    InputSetup { samples, destinations, input_time_log: log, fft_size: 4, channel_name: "BLE 37" }
}

#[test]
fn tags_count_up_and_wrap() {
    assert_eq!(Tag::first(), Tag { value: 0 });
    assert_eq!(Tag::default(), Tag::first());
    assert_eq!(Tag::first().next(), Tag { value: 1 });
    assert_eq!(Tag { value: 41 }.next(), Tag { value: 42 });
    assert_eq!(Tag { value: u32::MAX }.next(), Tag { value: 0 });
}

#[test]
fn window_insert_and_read() {
    let mut w: Window<Physical> = Window::new(4, 77);
    assert_eq!(w.size(), 4);
    assert_eq!(w.time(), 77);
    assert_eq!(w.tag(), None);
    assert!(!(0..4).any(|b| w.is_active(b)));
    w.insert(2, IqValue { i: 5, q: 6 });
    assert!(w.is_active(2));
    assert_eq!(w.value(2), Some(IqValue { i: 5, q: 6 }));
    assert_eq!(w.value(1), None);
    assert_eq!(w.value(4), None);
    assert!(w.active_bins().get(2) && !w.active_bins().get(0));
    w.insert(2, IqValue { i: 7, q: 8 });
    assert_eq!(w.value(2), Some(IqValue { i: 7, q: 8 }));
    w.set_tag(Tag { value: 9 });
    let copy = w.duplicate();
    assert_eq!(copy.tag(), Some(Tag { value: 9 }));
    assert_eq!(copy.time(), 77);
    assert_eq!(copy.value(2), Some(IqValue { i: 7, q: 8 }));
    assert_eq!(copy.value(0), None);
}

#[test]
fn logical_order_swaps_the_halves() {
    let mut w: Window<Physical> = Window::new(8, 1);
    w.insert(0, IqValue { i: 100, q: 0 });
    w.insert(3, IqValue { i: 103, q: 0 });
    w.insert(4, IqValue { i: 104, q: 0 });
    w.insert(7, IqValue { i: 107, q: 0 });
    let l = w.into_logical();
    assert_eq!(active(&l), vec![(0, 104), (3, 107), (4, 100), (7, 103)]);
    assert_eq!(l.time(), 1);
    assert_eq!(l.tag(), None);
}

#[test]
fn logical_order_with_an_odd_size() {
    let mut w: Window<Physical> = Window::new(5, 1);
    for b in 0..5 {
        w.insert(b, IqValue { i: b as i16, q: 0 });
    }
    let l = w.into_logical();
    // The bin that the FFT numbers p stands at (p + 2) % 5.
    assert_eq!(active(&l), vec![(0, 3), (1, 4), (2, 0), (3, 1), (4, 2)]);
}

#[test]
fn assembler_groups_by_cycle() {
    let mut a = Assembler::new(4);
    assert!(a.push(&value(0, 1, 10).unwrap()).unwrap().is_none());
    assert!(a.push(&value(2, 1, 12).unwrap()).unwrap().is_none());
    assert!(a.push(&average(3, 9).unwrap()).unwrap().is_none());
    let first = a.push(&value(1, 2, 21).unwrap()).unwrap().unwrap();
    assert_eq!(first.time(), 1);
    assert_eq!(first.tag(), None);
    assert_eq!(first.value(0), Some(IqValue { i: 10, q: -10 }));
    assert_eq!(first.value(2), Some(IqValue { i: 12, q: -12 }));
    assert_eq!(first.value(1), None);
    assert_eq!(first.value(3), None);
    let second = a.push(&value(3, 3, 33).unwrap()).unwrap().unwrap();
    assert_eq!(second.time(), 2);
    assert_eq!(second.value(1), Some(IqValue { i: 21, q: -21 }));
    assert_eq!(second.value(0), None);
}

#[test]
fn assembler_closes_a_full_window_at_once() {
    let mut a = Assembler::new(2);
    assert!(a.push(&value(1, 5, 1).unwrap()).unwrap().is_none());
    let full = a.push(&value(0, 5, 2).unwrap()).unwrap().unwrap();
    assert_eq!(full.value(0), Some(IqValue { i: 2, q: -2 }));
    assert_eq!(full.value(1), Some(IqValue { i: 1, q: -1 }));
    // Nothing is in flight now: the next record starts a window and closes none.
    assert!(a.push(&value(0, 6, 3).unwrap()).unwrap().is_none());
    let mut one = Assembler::new(1);
    assert!(one.push(&value(0, 1, 1).unwrap()).unwrap().is_some());
    assert!(one.push(&value(0, 1, 2).unwrap()).unwrap().is_some());
}

#[test]
fn assembler_closes_on_a_repeated_bin() {
    let mut a = Assembler::new(4);
    assert!(a.push(&value(1, 5, 1).unwrap()).unwrap().is_none());
    let closed = a.push(&value(1, 5, 2).unwrap()).unwrap().unwrap();
    assert_eq!(closed.value(1), Some(IqValue { i: 1, q: -1 }));
    let closed = a.push(&value(2, 6, 3).unwrap()).unwrap().unwrap();
    assert_eq!(closed.value(1), Some(IqValue { i: 2, q: -2 }));
}

#[test]
fn assembler_refuses_a_bin_out_of_range() {
    let mut a = Assembler::new(4);
    assert!(a.push(&value(3, 1, 1).unwrap()).unwrap().is_none());
    assert_eq!(
        a.push(&value(4, 1, 1).unwrap()).err(),
        Some(FormatViolation { bin_index: 4, size: 4 })
    );
    assert_eq!(
        a.push(&average(2047, 1).unwrap()).err(),
        Some(FormatViolation { bin_index: 2047, size: 4 })
    );
    // The window in flight is still there.
    let closed = a.push(&value(0, 2, 1).unwrap()).unwrap().unwrap();
    assert_eq!(closed.value(3), Some(IqValue { i: 1, q: -1 }));
}

#[test]
fn send_if_interested_sends_on_overlap_only() {
    let (mut low, low_rx) = band(0, 2, 4, 4);
    let (mut high, high_rx) = band(2, 2, 4, 4);
    let mut w: Window<Logical> = Window::new(4, 1);
    w.insert(3, IqValue { i: 1, q: 1 });
    w.set_tag(Tag { value: 6 });
    assert_eq!(low.send_if_interested(&w).ok(), Some(false));
    assert_eq!(high.send_if_interested(&w).ok(), Some(true));
    assert!(received(&low_rx).is_empty());
    let got = received(&high_rx);
    assert_eq!(got.len(), 1);
    assert_eq!(got[0].tag(), Some(Tag { value: 6 }));
    assert_eq!(active(&got[0]), vec![(3, 1)]);
    drop(high_rx);
    drop(low_rx);
    assert!(high.send_if_interested(&w).is_err());
    // A band that is not interested does not notice that its stage is gone.
    assert_eq!(low.send_if_interested(&w).ok(), Some(false));
}

#[test]
fn stage_routes_tagged_windows_to_interested_bands() {
    let (low, low_rx) = band(0, 2, 4, 8);
    let (high, high_rx) = band(2, 2, 4, 8);
    let (all, all_rx) = band(0, 4, 4, 8);
    let mut s = setup(three_cycles(), vec![low, high, all], None);
    let stop = AtomicBool::new(false);
    let report = run_input_stage(&mut s, &stop, &clock).unwrap();
    assert_eq!(report.stopped_by, StopReason::SourceExhausted);
    // Window 0: physical bins 0 and 2 are logical bins 2 and 0.
    // Window 1: physical bin 1 is logical bin 3.
    let low_got = received(&low_rx);
    let high_got = received(&high_rx);
    let all_got = received(&all_rx);
    assert_eq!(low_got.len(), 1);
    assert_eq!(high_got.len(), 2);
    assert_eq!(all_got.len(), 2);
    assert_eq!(active(&low_got[0]), vec![(0, 12), (2, 10)]);
    assert_eq!(active(&high_got[0]), vec![(0, 12), (2, 10)]);
    assert_eq!(active(&high_got[1]), vec![(3, 21)]);
    assert_eq!(low_got[0].tag(), Some(Tag { value: 0 }));
    assert_eq!(high_got[0].tag(), Some(Tag { value: 0 }));
    assert_eq!(all_got[0].tag(), Some(Tag { value: 0 }));
    assert_eq!(high_got[1].tag(), Some(Tag { value: 1 }));
    assert_eq!(all_got[1].tag(), Some(Tag { value: 1 }));
    assert_eq!(high_got[1].time(), 2);
    // The window that was in flight at the end never arrives.
    assert_eq!(report.channel_send_blocks.len(), 3);
    assert!(s.input_time_log.is_none());
}

#[test]
fn disjoint_bands_never_see_each_others_windows() {
    let (low, low_rx) = band(0, 2, 4, 64);
    let (high, high_rx) = band(2, 2, 4, 64);
    // Physical bins 2 and 3 are logical bins 0 and 1: only the low band.
    let mut samples = Vec::new();
    for t in 0..20u32 {
        samples.push(value(2 + (t % 2) as u16, t, t as i16));
    }
    let mut s = setup(samples, vec![low, high], None);
    let report = run_input_stage(&mut s, &AtomicBool::new(false), &clock).unwrap();
    assert_eq!(report.stopped_by, StopReason::SourceExhausted);
    let low_got = received(&low_rx);
    assert_eq!(low_got.len(), 19);
    for (k, w) in low_got.iter().enumerate() {
        assert_eq!(w.tag(), Some(Tag { value: k as u32 }));
        assert_eq!(w.time(), k as u32);
    }
    assert!(received(&high_rx).is_empty());
}

#[test]
fn stage_logs_when_the_channel_falls_silent() {
    let (low, low_rx) = band(0, 2, 4, 8);
    // Logical bins 0 and 1 are physical bins 2 and 3.
    let samples = vec![
        value(2, 1, 1),
        value(0, 2, 2),
        value(0, 3, 3),
        value(3, 4, 4),
        value(1, 5, 5),
        value(1, 6, 6),
    ];
    let mut s = setup(samples, vec![low], Some(Vec::new()));
    let report = run_input_stage(&mut s, &AtomicBool::new(false), &clock).unwrap();
    assert_eq!(report.stopped_by, StopReason::SourceExhausted);
    // Windows 0 and 3 are sent; the channel falls silent at windows 1 and 4.
    let got = received(&low_rx);
    assert_eq!(got.len(), 2);
    assert_eq!(got[0].tag(), Some(Tag { value: 0 }));
    assert_eq!(got[1].tag(), Some(Tag { value: 3 }));
    assert_eq!(
        String::from_utf8(s.input_time_log.unwrap()).unwrap(),
        "Channel,Tag,Seconds,Nanoseconds\nBLE 37,1,3,4\nBLE 37,4,3,4\n"
    );
}

#[test]
fn stage_writes_the_header_even_without_windows() {
    let mut s = setup(Vec::new(), Vec::new(), Some(vec![b'>']));
    let report = run_input_stage(&mut s, &AtomicBool::new(false), &clock).unwrap();
    assert_eq!(report.stopped_by, StopReason::SourceExhausted);
    assert!(report.channel_send_blocks.is_empty());
    assert_eq!(s.input_time_log.unwrap(), b">Channel,Tag,Seconds,Nanoseconds\n".to_vec());
    assert_eq!(header_row(), b"Channel,Tag,Seconds,Nanoseconds\n".to_vec());
}

#[test]
fn stage_stops_when_asked() {
    let (all, all_rx) = band(0, 4, 4, 8);
    let mut s = setup(three_cycles(), vec![all], None);
    let stop = AtomicBool::new(true);
    assert!(stop_requested(&stop));
    let report = run_input_stage(&mut s, &stop, &clock).unwrap();
    assert_eq!(report.stopped_by, StopReason::Cancelled);
    assert!(received(&all_rx).is_empty());
    stop.store(false, Ordering::Relaxed);
    assert!(!stop_requested(&stop));
}

#[test]
fn stage_stops_when_a_band_is_gone() {
    let (low, low_rx) = band(0, 2, 4, 8);
    let (high, high_rx) = band(2, 2, 4, 8);
    let (all, all_rx) = band(0, 4, 4, 8);
    drop(high_rx);
    let mut samples = three_cycles();
    samples.push(value(0, 4, 44));
    let mut s = setup(samples, vec![low, high, all], None);
    let report = run_input_stage(&mut s, &AtomicBool::new(false), &clock).unwrap();
    assert_eq!(report.stopped_by, StopReason::DownstreamGone);
    // The first window reached the band before the one that is gone, and no band after it.
    assert_eq!(received(&low_rx).len(), 1);
    assert!(received(&all_rx).is_empty());
}

#[test]
fn stage_fails_on_a_source_error() {
    let (all, all_rx) = band(0, 4, 4, 8);
    let mut samples = three_cycles();
    samples.insert(4, Err(SourceError { message: String::from("short read") }));
    let mut s = setup(samples, vec![all], None);
    match run_input_stage(&mut s, &AtomicBool::new(false), &clock) {
        Err(InputError::Source(e)) => assert_eq!(e.message, "short read"),
        other => panic!("unexpected: {:?}", other.map(|r| r.stopped_by)),
    }
    assert_eq!(received(&all_rx).len(), 1);
}

#[test]
fn stage_fails_on_a_bin_out_of_range() {
    let (all, all_rx) = band(0, 4, 4, 8);
    let samples = vec![value(0, 1, 1), value(4, 1, 1), value(0, 2, 1)];
    let mut s = setup(samples, vec![all], None);
    match run_input_stage(&mut s, &AtomicBool::new(false), &clock) {
        Err(InputError::Format(v)) => assert_eq!(v, FormatViolation { bin_index: 4, size: 4 }),
        other => panic!("unexpected: {:?}", other.map(|r| r.stopped_by)),
    }
    assert!(received(&all_rx).is_empty());
}

#[test]
fn stage_fails_when_the_clock_fails() {
    let (low, low_rx) = band(0, 2, 4, 8);
    let samples = vec![value(2, 1, 1), value(0, 2, 2), value(0, 3, 3)];
    let mut s = setup(samples, vec![low], Some(Vec::new()));
    let broken = || -> Result<Timespec, ClockError> { Err(ClockError { errno: 5 }) };
    match run_input_stage(&mut s, &AtomicBool::new(false), &broken) {
        Err(InputError::Clock(e)) => assert_eq!(e, ClockError { errno: 5 }),
        other => panic!("unexpected: {:?}", other.map(|r| r.stopped_by)),
    }
    assert_eq!(received(&low_rx).len(), 1);
    assert_eq!(s.input_time_log.unwrap(), b"Channel,Tag,Seconds,Nanoseconds\n".to_vec());
}

#[test]
fn stage_fails_when_the_header_cannot_be_written() {
    let (all, all_rx) = band(0, 4, 4, 8);
    let mut s = InputSetup {
        samples: three_cycles(),
        destinations: vec![all],
        input_time_log: Some(FnSink::new(|_b: &[u8]| {
            Err(SinkError { message: String::from("closed") })
        })),
        fft_size: 4,
        channel_name: "BLE 37",
    };
    let r = run_input_stage(&mut s, &AtomicBool::new(false), &clock);
    assert!(matches!(r, Err(InputError::TimeLog(_))));
    assert!(received(&all_rx).is_empty());
}

#[test]
fn clock_is_read_once_for_each_row() {
    let (low, _low_rx) = band(0, 2, 4, 8);
    let samples = vec![value(2, 1, 1), value(0, 2, 2), value(0, 3, 3), value(0, 4, 4)];
    let calls = Cell::new(0i64);
    let counting = || {
        calls.set(calls.get() + 1);
        Ok(Timespec { seconds: calls.get(), nanoseconds: 0 })
    };
    let mut s = setup(samples, vec![low], Some(Vec::new()));
    run_input_stage(&mut s, &AtomicBool::new(false), &counting).unwrap();
    assert_eq!(calls.get(), 1);
    assert_eq!(
        String::from_utf8(s.input_time_log.unwrap()).unwrap(),
        "Channel,Tag,Seconds,Nanoseconds\nBLE 37,1,1,0\n"
    );
}

#[test]
fn route_window_reports_how_far_it_came() {
    let (low, low_rx) = band(0, 2, 4, 8);
    let (high, high_rx) = band(2, 2, 4, 8);
    let mut destinations = vec![low, high];
    let mut w: Window<Logical> = Window::new(4, 1);
    w.insert(0, IqValue { i: 1, q: 1 });
    w.set_tag(Tag { value: 2 });
    let mut prev_active = false;
    let mut log: Option<Vec<u8>> = Some(Vec::new());
    let routed = route_window(&w, &mut destinations, &mut prev_active, &mut log, "x", &clock);
    assert_eq!(routed.reached, 2);
    assert!(matches!(routed.end, RouteEnd::Complete));
    // The second band did not take the window, and the first did.
    assert!(!prev_active);
    assert_eq!(String::from_utf8(log.clone().unwrap()).unwrap(), "x,2,3,4\n");
    assert_eq!(received(&low_rx).len(), 1);
    assert!(received(&high_rx).is_empty());
    drop(low_rx);
    let routed = route_window(&w, &mut destinations, &mut prev_active, &mut log, "x", &clock);
    assert_eq!(routed.reached, 0);
    assert!(matches!(routed.end, RouteEnd::DownstreamGone));
    assert!(!prev_active);
}

#[test]
fn report_maps_each_range_once() {
    let (a, _a_rx) = band(0, 2, 4, 8);
    let (b, _b_rx) = band(2, 2, 4, 8);
    let (c, _c_rx) = band(0, 2, 4, 8);
    let mut s = setup(three_cycles(), vec![a, b, c], None);
    let report = run_input_stage(&mut s, &AtomicBool::new(false), &clock).unwrap();
    assert_eq!(report.channel_send_blocks.len(), 2);
    let zero = BlockLogs { blocks: 0, total_nanos: 0 };
    assert_eq!(report.blocks_for(&BinRange { start: 0, len: 2, size: 4 }), Some(zero));
    assert_eq!(report.blocks_for(&BinRange { start: 2, len: 2, size: 4 }), Some(zero));
    assert_eq!(report.blocks_for(&BinRange { start: 1, len: 2, size: 4 }), None);
}

#[test]
fn bands_with_room_count_no_blocks() {
    let (first, first_rx) = band(0, 2, 4, 64);
    let (second, second_rx) = band(2, 2, 4, 64);
    // Physical bins 0 and 2 are logical bins 2 and 0: both bands take every window.
    let mut samples = Vec::new();
    for t in 0..6u32 {
        samples.push(value(0, t, t as i16));
        samples.push(value(2, t, t as i16));
    }
    let mut s = setup(samples, vec![first, second], None);
    let report = run_input_stage(&mut s, &AtomicBool::new(false), &clock).unwrap();
    assert_eq!(report.stopped_by, StopReason::SourceExhausted);
    let zero = BlockLogs { blocks: 0, total_nanos: 0 };
    assert_eq!(report.blocks_for(&BinRange { start: 0, len: 2, size: 4 }), Some(zero));
    assert_eq!(report.blocks_for(&BinRange { start: 2, len: 2, size: 4 }), Some(zero));
    assert_eq!(s.destinations[0].tx.logs(), zero);
    let first_got = received(&first_rx);
    let second_got = received(&second_rx);
    assert_eq!(first_got.len(), 5);
    assert_eq!(second_got.len(), 5);
    for k in 0..5 {
        assert_eq!(first_got[k].tag(), Some(Tag { value: k as u32 }));
        assert_eq!(second_got[k].tag(), first_got[k].tag());
        assert_eq!(active(&second_got[k]), active(&first_got[k]));
    }
}

#[test]
fn sender_reports_a_receiver_that_is_gone() {
    let (tx, rx) = sync_channel(2);
    let mut sender = LoggingSender::new(tx);
    let mut w: Window<Logical> = Window::new(4, 1);
    w.insert(1, IqValue { i: 1, q: 2 });
    assert_eq!(sender.send(w.duplicate()), Ok(()));
    assert_eq!(sender.send(w.duplicate()), Ok(()));
    assert_eq!(sender.logs(), BlockLogs { blocks: 0, total_nanos: 0 });
    let got = received(&rx);
    assert_eq!(got.len(), 2);
    assert_eq!(active(&got[1]), vec![(1, 1)]);
    drop(rx);
    assert_eq!(sender.send(w), Err(reconstruct::channel::Disconnected));
    assert_eq!(sender.logs(), BlockLogs { blocks: 0, total_nanos: 0 });
}

#[test]
fn stage_fails_when_a_row_cannot_be_written() {
    let (low, low_rx) = band(0, 2, 4, 8);
    let samples = vec![value(2, 1, 1), value(0, 2, 2), value(0, 3, 3), value(2, 4, 4), value(2, 5, 5)];
    let written = std::cell::RefCell::new(Vec::new());
    let log = FnSink::new(|b: &[u8]| {
        if b.starts_with(b"Channel") {
            written.borrow_mut().extend_from_slice(b);
            Ok(())
        } else {
            Err(SinkError { message: String::from("no room") })
        }
    });
    let mut s = InputSetup {
        samples,
        destinations: vec![low],
        input_time_log: Some(log),
        fft_size: 4,
        channel_name: "BLE 37",
    };
    match run_input_stage(&mut s, &AtomicBool::new(false), &clock) {
        Err(InputError::TimeLog(e)) => assert_eq!(e.message, "no room"),
        other => panic!("unexpected: {:?}", other.map(|r| r.stopped_by)),
    }
    // The window before the silent one arrived, and none after it.
    assert_eq!(received(&low_rx).len(), 1);
    assert_eq!(*written.borrow(), b"Channel,Tag,Seconds,Nanoseconds\n".to_vec());
}

#[test]
fn stage_takes_in_one_record_at_a_time() {
    let (low, low_rx) = band(0, 2, 4, 8);
    let (high, high_rx) = band(2, 2, 4, 8);
    let mut destinations = vec![low, high];
    let mut log: Option<Vec<u8>> = Some(Vec::new());
    let mut stage = reconstruct::input::InputStage::new(4);
    assert_eq!(stage.next_tag(), Tag { value: 0 });
    let mut ends = Vec::new();
    for record in three_cycles() {
        let routed = stage
            .take_in(&record.unwrap(), &mut destinations, &mut log, "ch", &clock)
            .unwrap();
        ends.push(routed.map(|r| (r.reached, matches!(r.end, RouteEnd::Complete))));
    }
    assert_eq!(ends, vec![None, None, None, Some((2, true)), Some((2, true))]);
    assert_eq!(stage.next_tag(), Tag { value: 2 });
    // Window 0 went to both bands; window 1 only to the high band. The low
    // band did not take window 1, and the band offered before it, the high
    // band with window 0, did take its window.
    assert_eq!(received(&low_rx).len(), 1);
    assert_eq!(received(&high_rx).len(), 2);
    assert_eq!(String::from_utf8(log.unwrap()).unwrap(), "ch,1,3,4\n");
    let bad = value(9, 9, 9).unwrap();
    let mut none: Option<Vec<u8>> = None;
    assert_eq!(
        stage.take_in(&bad, &mut destinations, &mut none, "ch", &clock).err(),
        Some(FormatViolation { bin_index: 9, size: 4 })
    );
    assert_eq!(stage.next_tag(), Tag { value: 2 });
    let report = reconstruct::input::InputReport::new(&destinations, StopReason::Cancelled);
    assert_eq!(report.stopped_by, StopReason::Cancelled);
    assert_eq!(report.channel_send_blocks.len(), 2);
}

#[test]
fn full_channel_gives_the_window_back() {
    let (tx, rx) = sync_channel(1);
    let mut sender = LoggingSender::new(tx);
    let mut first: Window<Logical> = Window::new(4, 1);
    first.insert(1, IqValue { i: 1, q: 2 });
    let mut second: Window<Logical> = Window::new(4, 2);
    second.insert(3, IqValue { i: 3, q: 4 });
    second.set_tag(Tag { value: 8 });
    assert!(matches!(sender.try_send(first), reconstruct::channel::Offer::Sent));
    match sender.try_send(second) {
        reconstruct::channel::Offer::Full(back) => {
            assert_eq!(back.time(), 2);
            assert_eq!(back.tag(), Some(Tag { value: 8 }));
            assert_eq!(active(&back), vec![(3, 3)]);
        }
        _ => panic!("the channel had room for one window only"),
    }
    assert_eq!(sender.logs(), BlockLogs { blocks: 0, total_nanos: 0 });
    assert_eq!(received(&rx).len(), 1);
    drop(rx);
    let third: Window<Logical> = Window::new(4, 3);
    assert!(matches!(sender.try_send(third), reconstruct::channel::Offer::Disconnected));
}

#[test]
fn a_wait_is_counted_however_it_ends() {
    let mut logs = BlockLogs { blocks: 0, total_nanos: 0 };
    assert_eq!(reconstruct::channel::settle_wait(&mut logs, true, 1_500), Ok(()));
    assert_eq!(logs, BlockLogs { blocks: 1, total_nanos: 1_500 });
    assert_eq!(
        reconstruct::channel::settle_wait(&mut logs, false, 500),
        Err(reconstruct::channel::Disconnected)
    );
    assert_eq!(logs, BlockLogs { blocks: 2, total_nanos: 2_000 });
    assert_eq!(reconstruct::channel::settle_wait(&mut logs, true, 0), Ok(()));
    assert_eq!(logs, BlockLogs { blocks: 3, total_nanos: 2_000 });
    // The count of another band is its own.
    let other = BlockLogs { blocks: 0, total_nanos: 0 };
    assert_eq!(other.blocks, 0);
}
