//! Grouping of records into windows, one for each FFT cycle.

use crate::record::{CompressedRecord, Payload};
use crate::window::{IqValue, Physical, Window, WindowView};
use vstd::prelude::*;

verus! {

/// A record names a bin that the FFT does not have.
#[derive(Clone, Copy, Debug, PartialEq, Eq, Structural, Hash)]
pub struct FormatViolation {
    /// The index that the record holds
    pub bin_index: u16,
    /// The number of bins of the FFT
    pub size: u16,
}

/// The number of active bins.
pub open spec fn active_count(bins: Seq<Option<IqValue>>) -> nat
    decreases bins.len(),
{
    if bins.len() == 0 {
        0
    } else {
        active_count(bins.drop_last()) + if bins.last().is_some() {
            1nat
        } else {
            0nat
        }
    }
}

/// Whether every bin of the window is active.
pub open spec fn is_full(w: WindowView) -> bool {
    forall|b: int| 0 <= b < w.bins.len() ==> (#[trigger] w.bins[b]).is_some()
}

/// Whether the record belongs to the window in flight: it is of the same FFT
/// cycle, and its bin has no value yet.
pub open spec fn joins(w: WindowView, record: CompressedRecord) -> bool {
    w.time == record.timestamp_fragment && !w.is_active(record.bin_index as int)
}

/// The window that holds the value of a record once the record is taken in:
/// the window in flight where the record joins it, a new one otherwise.
pub open spec fn grown(
    in_flight: Option<WindowView>,
    size: int,
    record: CompressedRecord,
    value: IqValue,
) -> WindowView {
    match in_flight {
        Some(w) if joins(w, record) => w.with_bin(record.bin_index as int, value),
        _ => WindowView::empty(size, record.timestamp_fragment).with_bin(
            record.bin_index as int,
            value,
        ),
    }
}

/// The window that a record closes, if it closes one.
///
/// An average closes nothing. A value that does not join the window in flight
/// closes it. A value that fills the last free bin of its window closes that
/// window.
pub open spec fn emitted(in_flight: Option<WindowView>, size: int, record: CompressedRecord) -> Option<
    WindowView,
> {
    match record.payload {
        Payload::Average(_) => None,
        Payload::Sample(value) => match in_flight {
            Some(w) if !joins(w, record) => Some(w),
            _ => if is_full(grown(in_flight, size, record, value)) {
                Some(grown(in_flight, size, record, value))
            } else {
                None
            },
        },
    }
}

/// The window in flight after a record.
///
/// An average leaves it as it is. After a value it is the window that holds
/// the value, unless the value has filled it.
pub open spec fn carried(in_flight: Option<WindowView>, size: int, record: CompressedRecord) -> Option<
    WindowView,
> {
    match record.payload {
        Payload::Average(_) => in_flight,
        Payload::Sample(value) => if is_full(grown(in_flight, size, record, value)) {
            None
        } else {
            Some(grown(in_flight, size, record, value))
        },
    }
}

/// The window in flight and the closed windows, in order, after a run of
/// records was taken in from the start. What is in flight at the end of the
/// run is no closed window.
pub open spec fn assembled(size: int, records: Seq<CompressedRecord>) -> (
    Option<WindowView>,
    Seq<WindowView>,
)
    decreases records.len(),
{
    if records.len() == 0 {
        (None, Seq::empty())
    } else {
        let (in_flight, closed) = assembled(size, records.drop_last());
        (
            carried(in_flight, size, records.last()),
            match emitted(in_flight, size, records.last()) {
                Some(w) => closed.push(w),
                None => closed,
            },
        )
    }
}

/// No more bins are active than there are bins, and all are active exactly
/// when the count says so.
proof fn lemma_count_full(bins: Seq<Option<IqValue>>)
    ensures
        active_count(bins) <= bins.len(),
        active_count(bins) == bins.len() <==> (forall|b: int|
            0 <= b < bins.len() ==> (#[trigger] bins[b]).is_some()),
    decreases bins.len(),
{
    if bins.len() > 0 {
        let front = bins.drop_last();
        lemma_count_full(front);
        if active_count(bins) == bins.len() {
            assert forall|b: int| 0 <= b < bins.len() implies (#[trigger] bins[b]).is_some() by {
                if b < front.len() {
                    assert(front[b].is_some());
                }
            }
        }
        if forall|b: int| 0 <= b < bins.len() ==> (#[trigger] bins[b]).is_some() {
            assert forall|b: int| 0 <= b < front.len() implies (#[trigger] front[b]).is_some() by {
                assert(bins[b].is_some());
            }
            assert(bins[bins.len() - 1].is_some());
        }
    }
}

/// A value in a bin that had none makes one more bin active.
proof fn lemma_count_grows(bins: Seq<Option<IqValue>>, b: int, value: IqValue)
    requires
        0 <= b < bins.len(),
        bins[b].is_none(),
    ensures
        active_count(bins.update(b, Some(value))) == active_count(bins) + 1,
    decreases bins.len(),
{
    let after = bins.update(b, Some(value));
    if b == bins.len() - 1 {
        assert(after.drop_last() =~= bins.drop_last());
    } else {
        lemma_count_grows(bins.drop_last(), b, value);
        assert(after.drop_last() =~= bins.drop_last().update(b, Some(value)));
    }
}

/// No bin of a new window is active.
proof fn lemma_count_empty(size: nat, time: u32)
    ensures
        active_count(WindowView::empty(size as int, time).bins) == 0,
    decreases size,
{
    if size > 0 {
        lemma_count_empty((size - 1) as nat, time);
        assert(WindowView::empty(size as int, time).bins.drop_last() =~= WindowView::empty(
            size - 1,
            time,
        ).bins);
    }
}

/// Groups the values of a stream of records into windows.
pub struct Assembler {
    size: u16,
    current: Option<Window<Physical>>,
    filled: u16,
}

impl Assembler {
    /// The window in flight has a bin for each bin of the FFT and no tag, at
    /// least one of its bins is active and at least one is not.
    pub closed spec fn wf(&self) -> bool {
        match self.current {
            Some(w) => {
                &&& w.wf()
                &&& w@.size == self.size
                &&& w@.tag.is_none()
                &&& self.filled == active_count(w@.bins)
                &&& 0 < self.filled < self.size
            },
            None => self.filled == 0,
        }
    }

    /// The number of bins of the FFT.
    pub closed spec fn spec_size(&self) -> int {
        self.size as int
    }

    /// The window in flight.
    pub closed spec fn in_flight(&self) -> Option<WindowView> {
        match self.current {
            Some(w) => Some(w@),
            None => None,
        }
    }

    /// Creates an assembler for an FFT of `size` bins, with no window in flight.
    pub fn new(size: u16) -> (a: Assembler)
        ensures
            a.wf(),
            a.spec_size() == size,
            a.in_flight().is_none(),
    {
        Assembler { size, current: None, filled: 0 }
    }

    /// Takes in one record and returns the window that it closes, if any.
    ///
    /// A record whose bin the FFT does not have is refused, and changes nothing.
    pub fn push(&mut self, record: &CompressedRecord) -> (r: Result<
        Option<Window<Physical>>,
        FormatViolation,
    >)
        requires
            old(self).wf(),
        ensures
            final(self).wf(),
            final(self).spec_size() == old(self).spec_size(),
            record.bin_index >= old(self).spec_size() ==> {
                &&& r == Err::<Option<Window<Physical>>, FormatViolation>(
                    FormatViolation { bin_index: record.bin_index, size: old(self).spec_size() as u16 },
                )
                &&& final(self).in_flight() == old(self).in_flight()
            },
            record.bin_index < old(self).spec_size() ==> {
                &&& r.is_ok()
                &&& final(self).in_flight() == carried(
                    old(self).in_flight(),
                    old(self).spec_size(),
                    *record,
                )
                &&& match r.unwrap() {
                    Some(w) => w.wf() && w@.size == old(self).spec_size() && emitted(
                        old(self).in_flight(),
                        old(self).spec_size(),
                        *record,
                    ) == Some(w@),
                    None => emitted(old(self).in_flight(), old(self).spec_size(), *record).is_none(),
                }
            },
    {
        if record.bin_index >= self.size {
            return Err(FormatViolation { bin_index: record.bin_index, size: self.size });
        }
        let value = match record.payload {
            Payload::Average(_) => {
                return Ok(None);
            },
            Payload::Sample(value) => value,
        };
        let bin = record.bin_index;
        let time = record.timestamp_fragment;
        let current = self.current.take();
        match current {
            Some(mut w) => {
                proof {
                    w.lemma_view();
                    lemma_count_full(w@.bins);
                }
                if w.time() == time && !w.is_active(bin) {
                    proof {
                        lemma_count_grows(w@.bins, bin as int, value);
                    }
                    w.insert(bin, value);
                    proof {
                        w.lemma_view();
                        lemma_count_full(w@.bins);
                    }
                    if self.filled + 1 == self.size {
                        self.filled = 0;
                        Ok(Some(w))
                    } else {
                        self.filled = self.filled + 1;
                        self.current = Some(w);
                        Ok(None)
                    }
                } else {
                    let mut fresh: Window<Physical> = Window::new(self.size, time);
                    proof {
                        lemma_count_empty(self.size as nat, time);
                        lemma_count_grows(fresh@.bins, bin as int, value);
                    }
                    fresh.insert(bin, value);
                    proof {
                        fresh.lemma_view();
                        lemma_count_full(fresh@.bins);
                    }
                    self.current = Some(fresh);
                    self.filled = 1;
                    Ok(Some(w))
                }
            },
            None => {
                let mut fresh: Window<Physical> = Window::new(self.size, time);
                proof {
                    lemma_count_empty(self.size as nat, time);
                    lemma_count_grows(fresh@.bins, bin as int, value);
                }
                fresh.insert(bin, value);
                proof {
                    fresh.lemma_view();
                    lemma_count_full(fresh@.bins);
                }
                if self.size == 1 {
                    self.filled = 0;
                    Ok(Some(fresh))
                } else {
                    self.current = Some(fresh);
                    self.filled = 1;
                    Ok(None)
                }
            },
        }
    }
}

} // verus!
