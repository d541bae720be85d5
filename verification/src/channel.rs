//! The sending half of the channel to a band's FFT stage, which counts the
//! sends that had to wait.

use crate::blocking::{nanos_since, BlockLogs};
use crate::window::{Logical, Window, WindowView};
use std::sync::mpsc::{SyncSender, TrySendError};
use std::time::Instant;
use vstd::prelude::*;

verus! {

/// `std::sync::mpsc::SyncSender`, the sending half of a channel with room
/// for a fixed number of messages. Nothing is known of what is inside.
#[verifier::external_type_specification]
#[verifier::external_body]
#[verifier::reject_recursive_types(T)]
pub struct ExSyncSender<T>(SyncSender<T>);

/// What became of a window that was offered to a channel without waiting.
pub enum Offer {
    /// The channel took the window
    Sent,
    /// The channel had no room, and gave the window back
    Full(Window<Logical>),
    /// Nobody receives from the channel any more
    Disconnected,
}

/// Calls `std::sync::mpsc::SyncSender::try_send`, which hands the window to
/// the channel if there is room for it and never waits. Which of the three
/// outcomes comes is up to the receiver. A channel without room gives back
/// the window that it was offered.
#[verifier::external_body]
fn offer_window(tx: &SyncSender<Window<Logical>>, window: Window<Logical>) -> (r: Offer)
    ensures
        r matches Offer::Full(back) ==> back == window,
{
    match tx.try_send(window) {
        Ok(()) => Offer::Sent,
        Err(TrySendError::Full(back)) => Offer::Full(back),
        Err(TrySendError::Disconnected(_)) => Offer::Disconnected,
    }
}

/// Calls `std::sync::mpsc::SyncSender::send`, which waits until the channel
/// has room for the window. The result says whether the channel took it;
/// that fails where nobody receives any more.
#[verifier::external_body]
fn deliver_window(tx: &SyncSender<Window<Logical>>, window: Window<Logical>) -> (taken: bool) {
    match tx.send(window) {
        Ok(()) => true,
        Err(_) => false,
    }
}

/// The receiver of a channel is gone.
#[derive(Clone, Copy, Debug, PartialEq, Eq, Structural, Hash)]
pub struct Disconnected;

/// Whether `after` holds what `before` held, and at most one more operation.
pub open spec fn at_most_one_block(before: BlockLogs, after: BlockLogs) -> bool {
    after == before || exists|nanos: u64| after == #[trigger] before.recorded(nanos)
}

/// A sender that counts the sends that found the channel full, and the time
/// that they waited.
pub struct LoggingSender {
    inner: SyncSender<Window<Logical>>,
    logs: BlockLogs,
    delivered: Ghost<Seq<WindowView>>,
}

impl LoggingSender {
    /// Every window that the channel has taken from this sender, in order.
    pub closed spec fn delivered(&self) -> Seq<WindowView> {
        self.delivered@
    }

    /// The sends that had to wait.
    pub closed spec fn spec_logs(&self) -> BlockLogs {
        self.logs
    }

    /// Wraps the sending half of a channel.
    pub fn new(inner: SyncSender<Window<Logical>>) -> (s: LoggingSender)
        ensures
            s.delivered() == Seq::<WindowView>::empty(),
            s.spec_logs() == (BlockLogs { blocks: 0, total_nanos: 0 }),
    {
        LoggingSender { inner, logs: BlockLogs::new(), delivered: Ghost(Seq::empty()) }
    }

    /// Offers a window to the channel without waiting. A channel that has no
    /// room gives the window back. Nothing is counted.
    pub fn try_send(&mut self, window: Window<Logical>) -> (r: Offer)
        ensures
            final(self).spec_logs() == old(self).spec_logs(),
            r is Sent ==> final(self).delivered() == old(self).delivered().push(window@),
            !(r is Sent) ==> final(self).delivered() == old(self).delivered(),
            r matches Offer::Full(back) ==> back == window,
    {
        let ghost view = window@;
        let offer = offer_window(&self.inner, window);
        match offer {
            Offer::Sent => {
                self.delivered = Ghost(self.delivered@.push(view));
                Offer::Sent
            },
            other => other,
        }
    }

    /// Sends a window, and waits for room in the channel where it is full.
    ///
    /// A send that had to wait is counted with the time that it waited,
    /// whether the channel took the window in the end or not.
    pub fn send(&mut self, window: Window<Logical>) -> (r: Result<(), Disconnected>)
        ensures
            r.is_ok() ==> final(self).delivered() == old(self).delivered().push(window@),
            r.is_err() ==> final(self).delivered() == old(self).delivered(),
            at_most_one_block(old(self).spec_logs(), final(self).spec_logs()),
    {
        let ghost view = window@;
        match self.try_send(window) {
            Offer::Sent => Ok(()),
            Offer::Disconnected => Err(Disconnected),
            Offer::Full(back) => {
                let start = Instant::now();
                let taken = deliver_window(&self.inner, back);
                let nanos = nanos_since(&start);
                let ended = settle_wait(&mut self.logs, taken, nanos);
                assert(self.logs == old(self).logs.recorded(nanos));
                if taken {
                    self.delivered = Ghost(self.delivered@.push(view));
                }
                ended
            },
        }
    }

    /// The sends that had to wait.
    pub fn logs(&self) -> (logs: BlockLogs)
        ensures
            logs == self.spec_logs(),
    {
        self.logs
    }
}

/// How a send that had to wait has ended, once the channel has answered:
/// the wait of `nanos` nanoseconds is counted, whatever the answer, and the
/// send has succeeded exactly if the channel took the window.
pub fn settle_wait(logs: &mut BlockLogs, taken: bool, nanos: u64) -> (r: Result<(), Disconnected>)
    ensures
        *final(logs) == old(logs).recorded(nanos),
        r == if taken {
            Ok::<(), Disconnected>(())
        } else {
            Err::<(), Disconnected>(Disconnected)
        },
{
    logs.record(nanos);
    if taken {
        Ok(())
    } else {
        Err(Disconnected)
    }
}

} // verus!
