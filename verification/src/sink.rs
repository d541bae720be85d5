//! Destinations for bytes.

use vstd::prelude::*;

verus! {

/// A destination did not accept the bytes that it was given.
#[derive(Debug)]
pub struct SinkError {
    /// What the destination reported
    pub message: String,
}

/// A destination that accepts bytes: a file, a buffer in memory, a pipe.
pub trait SampleSink {
    /// Every byte that the destination has accepted, in order.
    spec fn written(&self) -> Seq<u8>;

    /// Writes bytes to this sink.
    ///
    /// On success the sink has accepted all of them. On failure it has
    /// accepted some of them from the front, perhaps none.
    fn write_bytes(&mut self, bytes: &[u8]) -> (r: Result<(), SinkError>)
        ensures
            r.is_ok() ==> final(self).written() == old(self).written() + bytes@,
            r.is_err() ==> exists|k: int|
                0 <= k <= bytes@.len() && final(self).written() == old(self).written()
                    + #[trigger] bytes@.take(k),
    ;
}

impl SampleSink for Vec<u8> {
    open spec fn written(&self) -> Seq<u8> {
        self@
    }

    /// Appends the bytes to the vector. This never fails.
    fn write_bytes(&mut self, bytes: &[u8]) -> (r: Result<(), SinkError>)
        ensures
            r.is_ok(),
    {
        let mut i: usize = 0;
        while i < bytes.len()
            invariant
                i <= bytes.len(),
                self@ == old(self)@ + bytes@.take(i as int),
            decreases bytes.len() - i,
        {
            self.push(bytes[i]);
            i += 1;
            assert(self@ =~= old(self)@ + bytes@.take(i as int));
        }
        assert(bytes@.take(bytes.len() as int) =~= bytes@);
        Ok(())
    }
}

/// A sink that hands the bytes to a function, which writes them where they
/// are to go. What the sink has accepted are the bytes of the calls that the
/// function answered with success.
pub struct FnSink<F: Fn(&[u8]) -> Result<(), SinkError>> {
    write: F,
    accepted: Ghost<Seq<u8>>,
}

impl<F: Fn(&[u8]) -> Result<(), SinkError>> FnSink<F> {
    #[verifier::type_invariant]
    spec fn callable(self) -> bool {
        forall|bytes: &[u8]| call_requires(self.write, (bytes,))
    }

    /// Creates a sink that has accepted nothing yet.
    pub fn new(write: F) -> (sink: Self)
        requires
            forall|bytes: &[u8]| call_requires(write, (bytes,)),
        ensures
            sink.written() == Seq::<u8>::empty(),
    {
        FnSink { write, accepted: Ghost(Seq::empty()) }
    }
}

impl<F: Fn(&[u8]) -> Result<(), SinkError>> SampleSink for FnSink<F> {
    closed spec fn written(&self) -> Seq<u8> {
        self.accepted@
    }

    fn write_bytes(&mut self, bytes: &[u8]) -> (r: Result<(), SinkError>) {
        proof {
            use_type_invariant(&*self);
        }
        match (self.write)(bytes) {
            Ok(()) => {
                self.accepted = Ghost(self.accepted@ + bytes@);
                Ok(())
            },
            Err(e) => {
                assert(self.accepted@ =~= old(self).accepted@ + bytes@.take(0));
                Err(e)
            },
        }
    }
}

/// What an optional sink has accepted: nothing where there is no sink.
pub open spec fn written_to<L: SampleSink>(sink: Option<L>) -> Seq<u8> {
    match sink {
        Some(l) => l.written(),
        None => Seq::empty(),
    }
}

/// Writes bytes to an optional sink. Where there is no sink, nothing is
/// written and the call succeeds.
pub fn write_to<L: SampleSink>(sink: &mut Option<L>, bytes: &[u8]) -> (r: Result<(), SinkError>)
    ensures
        final(sink).is_some() == old(sink).is_some(),
        old(sink).is_none() ==> r.is_ok() && written_to(*final(sink)) == written_to(*old(sink)),
        old(sink).is_some() && r.is_ok() ==> written_to(*final(sink)) == written_to(*old(sink))
            + bytes@,
        r.is_err() ==> exists|k: int|
            0 <= k <= bytes@.len() && written_to(*final(sink)) == written_to(*old(sink))
                + #[trigger] bytes@.take(k),
{
    match sink {
        Some(inner) => inner.write_bytes(bytes),
        None => Ok(()),
    }
}

} // verus!
