//! Setup for the decompression of one band.

use crate::bins::{choose_bins, chosen_bins, BinRange};
use crate::sink::SampleSink;
use vstd::arithmetic::power2::{
    lemma2_to64, lemma_pow2_strictly_increases, lemma_pow2_unfold, pow2,
};
use vstd::prelude::*;

verus! {

/// Default time to wait for a compressed sample before flushing samples to
/// output, in milliseconds
pub const TIMEOUT: u64 = 100;

/// Default bandwidth of the compressed data, in hertz
pub const DEFAULT_COMPRESSED_BANDWIDTH: u32 = 100_000_000;

/// Default number of bins to decompress
pub const DEFAULT_FFT_SIZE: u16 = 2048;

/// Whether `n` is a power of two.
pub open spec fn is_power_of_two(n: int) -> bool {
    exists|e: nat| n == #[trigger] pow2(e)
}

/// Whether `size` is the smallest power of two that is at least `bins`.
pub open spec fn is_fft_size_for(bins: int, size: int) -> bool {
    &&& is_power_of_two(size)
    &&& bins <= size
    &&& forall|other: int| is_power_of_two(other) && bins <= other ==> size <= other
}

/// The number in the range of an `i16` that is nearest to `v`.
pub open spec fn saturated(v: int) -> i16 {
    if v < i16::MIN {
        i16::MIN
    } else if v > i16::MAX {
        i16::MAX
    } else {
        v as i16
    }
}

/// The part of a bin by which the centre of a band lies above a whole
/// number of bins: `numerator / denominator`, which is at least 0 and less
/// than 1.
#[derive(Clone, Copy, Debug, PartialEq, Eq, Structural, Hash)]
pub struct BinOffset {
    /// The numerator, which is less than the denominator
    pub numerator: u32,
    /// The denominator, which is the bandwidth of the compressed data
    pub denominator: u32,
}

/// A band cannot be set up as asked.
#[derive(Clone, Copy, Debug, PartialEq, Eq, Structural, Hash)]
pub enum SetupError {
    /// No FFT size that can be represented holds the bins
    FftSizeTooLarge,
    /// The bandwidth of the compressed data is zero
    ZeroBandwidth,
    /// The compression used no bins
    NoCompressionBins,
    /// More bins are to be decompressed than the compression used
    TooManyBins,
}

/// Setup for decompression of one band
pub struct BandSetup<W, L> {
    /// The bins to decompress
    pub bins: BinRange,
    /// The actual FFT size to use
    pub fft_size: u16,
    /// Floor of the center frequency offset, in bins
    pub fc_bins: i64,
    /// Fractional part of center frequency offset, in bins
    pub bin_offset: BinOffset,
    /// Time to wait for a compressed sample before flushing output, in milliseconds
    pub timeout: u64,
    /// The destination to write decompressed samples to
    pub destination: W,
    /// Tagged window time log
    pub time_log: Option<L>,
}

impl<W: SampleSink, L: SampleSink> BandSetup<W, L> {
    /// Returns the bins to be decompressed for this band
    pub fn bins(&self) -> (r: BinRange)
        ensures
            r == self.bins,
    {
        self.bins
    }

    /// Returns the floor of the center frequency offset, in bins
    pub fn fc_bins(&self) -> (r: i64)
        ensures
            r == self.fc_bins,
    {
        self.fc_bins
    }
}

/// Setup builder for decompression of one band
pub struct BandSetupBuilder<W, L> {
    /// Bandwidth of the compressed data, in hertz
    pub compressed_bandwidth: u32,
    /// Center frequency to decompress, relative to the center of the compressed data, in hertz
    pub center_frequency: i32,
    /// The number of bins to decompress
    pub bins: u16,
    /// The number of bins used to compress the signals
    pub compression_bins: u16,
    /// Time to wait for a compressed sample before flushing output, in milliseconds
    pub timeout: u64,
    /// The destination to write decompressed samples to
    pub destination: W,
    /// Tagged window time log
    pub time_log: Option<L>,
}

/// The smallest power of two that is at least `bins`, or `None` where that
/// is more than a `u16` holds.
pub fn fft_size_for(bins: u16) -> (r: Option<u16>)
    ensures
        r.is_some() <==> bins <= 0x8000,
        r matches Some(size) ==> is_fft_size_for(bins as int, size as int),
{
    if bins > 0x8000 {
        return None;
    }
    let mut size: u16 = 1;
    let ghost mut e: nat = 0;
    proof {
        lemma2_to64();
    }
    while size < bins
        invariant
            bins <= 0x8000,
            1 <= size <= 0x8000,
            size == pow2(e),
            e == 0 || pow2((e - 1) as nat) < bins,
            pow2(15) == 0x8000,
        decreases 0x8000 - size,
    {
        proof {
            lemma_pow2_unfold(e + 1);
            if e > 15 {
                lemma_pow2_strictly_increases(15, e);
            }
            if e + 1 < 15 {
                lemma_pow2_strictly_increases(e + 1, 15);
            }
        }
        size = size * 2;
        proof {
            e = e + 1;
        }
    }
    proof {
        assert(is_power_of_two(size as int));
        assert forall|other: int| is_power_of_two(other) && bins <= other implies size <= other by {
            let k = choose|k: nat| other == #[trigger] pow2(k);
            if k < e {
                if k < e - 1 {
                    lemma_pow2_strictly_increases(k, (e - 1) as nat);
                }
            } else if k > e {
                lemma_pow2_strictly_increases(e, k);
            }
        }
    }
    Some(size)
}

/// The floor of `numerator / denominator`, and what is left.
pub fn floor_div(numerator: i64, denominator: u32) -> (r: (i64, u32))
    requires
        denominator > 0,
        -0x8000_0000_0000_0000 < numerator,
    ensures
        numerator == r.0 * denominator + r.1,
        r.1 < denominator,
{
    let d: u64 = denominator as u64;
    if numerator >= 0 {
        let n: u64 = numerator as u64;
        let q: u64 = n / d;
        let rest: u64 = n % d;
        proof {
            lemma_quotient(n as int, d as int);
        }
        (q as i64, rest as u32)
    } else {
        let n: u64 = (-numerator) as u64;
        let q: u64 = n / d;
        let rest: u64 = n % d;
        proof {
            lemma_quotient(n as int, d as int);
            assert((-(q as int) - 1) * d == -(q * d) - d) by (nonlinear_arith);
            assert((-(q as int)) * d == -(q * d)) by (nonlinear_arith);
        }
        if rest == 0 {
            (-(q as i64), 0)
        } else {
            (-(q as i64) - 1, (d - rest) as u32)
        }
    }
}

/// A number that is not negative is its quotient by `d` times `d`, and what
/// is left; the quotient is not negative and no larger than the number.
proof fn lemma_quotient(n: int, d: int)
    requires
        0 <= n,
        0 < d,
    ensures
        n == (n / d) * d + n % d,
        0 <= n / d <= n,
        0 <= n % d < d,
{
    vstd::arithmetic::div_mod::lemma_fundamental_div_mod(n, d);
    vstd::arithmetic::div_mod::lemma_div_pos_is_pos(n, d);
    vstd::arithmetic::div_mod::lemma_mod_bound(n, d);
    assert((n / d) * d == d * (n / d)) by (nonlinear_arith);
    assert(n / d <= n) by (nonlinear_arith)
        requires
            0 <= n / d,
            0 <= n % d,
            1 <= d,
            n == d * (n / d) + n % d,
    ;
}

/// The number in the range of an `i16` that is nearest to `v`.
pub fn saturate(v: i64) -> (r: i16)
    ensures
        r == saturated(v as int),
{
    if v < -0x8000 {
        i16::MIN
    } else if v > 0x7fff {
        i16::MAX
    } else {
        v as i16
    }
}

impl<W: SampleSink, L: SampleSink> BandSetupBuilder<W, L> {
    /// The error that [`BandSetupBuilder::build`] returns, if it returns one.
    pub open spec fn refusal(&self) -> Option<SetupError> {
        if self.bins > 0x8000 {
            Some(SetupError::FftSizeTooLarge)
        } else if self.compressed_bandwidth == 0 {
            Some(SetupError::ZeroBandwidth)
        } else if self.compression_bins == 0 {
            Some(SetupError::NoCompressionBins)
        } else if self.bins > self.compression_bins {
            Some(SetupError::TooManyBins)
        } else {
            None
        }
    }

    /// Creates a default band setup that will decompress a full 100 MHz spectrum and write
    /// decompressed samples to the provided destination
    pub fn new(destination: W, compression_bins: u16) -> (b: Self)
        ensures
            b.compressed_bandwidth == DEFAULT_COMPRESSED_BANDWIDTH,
            b.center_frequency == 0,
            b.bins == DEFAULT_FFT_SIZE,
            b.compression_bins == compression_bins,
            b.timeout == TIMEOUT,
            b.destination == destination,
            b.time_log.is_none(),
    {
        BandSetupBuilder {
            compressed_bandwidth: DEFAULT_COMPRESSED_BANDWIDTH,
            center_frequency: 0,
            bins: DEFAULT_FFT_SIZE,
            compression_bins,
            timeout: TIMEOUT,
            destination,
            time_log: None,
        }
    }

    /// Sets the center frequency to decompress, in hertz
    pub fn center_frequency(self, center_frequency: i32) -> (b: Self)
        ensures
            b == (BandSetupBuilder { center_frequency, ..self }),
    {
        BandSetupBuilder { center_frequency, ..self }
    }

    /// Sets the number of bins to decompress
    pub fn bins(self, bins: u16) -> (b: Self)
        ensures
            b == (BandSetupBuilder { bins, ..self }),
    {
        BandSetupBuilder { bins, ..self }
    }

    /// Sets the time to wait for a compressed sample before flushing output, in milliseconds
    pub fn timeout(self, timeout: u64) -> (b: Self)
        ensures
            b == (BandSetupBuilder { timeout, ..self }),
    {
        BandSetupBuilder { timeout, ..self }
    }

    /// Sets the bandwidth of the compressed data, in hertz
    pub fn compressed_bandwidth(self, compressed_bandwidth: u32) -> (b: Self)
        ensures
            b == (BandSetupBuilder { compressed_bandwidth, ..self }),
    {
        BandSetupBuilder { compressed_bandwidth, ..self }
    }

    /// Sets the window output time log
    pub fn time_log(self, time_log: L) -> (b: Self)
        ensures
            b == (BandSetupBuilder { time_log: Some(time_log), ..self }),
    {
        BandSetupBuilder { time_log: Some(time_log), ..self }
    }

    /// Builds a setup from this builder
    ///
    /// The FFT size is the smallest power of two that holds the bins. The
    /// centre of the band lies `compression_bins * center_frequency /
    /// compressed_bandwidth` bins above the centre of the compressed data;
    /// `fc_bins` is the floor of that number, also where it is negative, and
    /// `bin_offset` what is left of it. The bins are chosen around `fc_bins`.
    pub fn build(self) -> (r: Result<BandSetup<W, L>, SetupError>)
        ensures
            match r {
                Ok(setup) => {
                    &&& self.refusal().is_none()
                    &&& is_fft_size_for(self.bins as int, setup.fft_size as int)
                    &&& setup.fc_bins * self.compressed_bandwidth + setup.bin_offset.numerator
                        == self.compression_bins * self.center_frequency
                    &&& setup.bin_offset.numerator < setup.bin_offset.denominator
                    &&& setup.bin_offset.denominator == self.compressed_bandwidth
                    &&& setup.bins == chosen_bins(
                        self.bins,
                        saturated(setup.fc_bins as int),
                        self.compression_bins,
                    )
                    &&& setup.bins.wf()
                    &&& setup.timeout == self.timeout
                    &&& setup.destination == self.destination
                    &&& setup.time_log == self.time_log
                },
                Err(e) => self.refusal() == Some(e),
            },
    {
        let fft_size = match fft_size_for(self.bins) {
            Some(fft_size) => fft_size,
            None => {
                return Err(SetupError::FftSizeTooLarge);
            },
        };
        if self.compressed_bandwidth == 0 {
            return Err(SetupError::ZeroBandwidth);
        }
        if self.compression_bins == 0 {
            return Err(SetupError::NoCompressionBins);
        }
        if self.bins > self.compression_bins {
            return Err(SetupError::TooManyBins);
        }
        assert(-0x8000_0000_0000 <= self.compression_bins * self.center_frequency
            <= 0x8000_0000_0000) by (nonlinear_arith)
            requires
                0 <= self.compression_bins <= 0xffff,
                -0x8000_0000 <= self.center_frequency <= 0x7fff_ffff,
        ;
        let exact: i64 = self.compression_bins as i64 * self.center_frequency as i64;
        let (fc_bins, rest) = floor_div(exact, self.compressed_bandwidth);
        let bin_range = choose_bins(self.bins, saturate(fc_bins), self.compression_bins);
        Ok(
            BandSetup {
                bins: bin_range,
                fft_size,
                fc_bins,
                bin_offset: BinOffset { numerator: rest, denominator: self.compressed_bandwidth },
                timeout: self.timeout,
                destination: self.destination,
                time_log: self.time_log,
            },
        )
    }
}

} // verus!
