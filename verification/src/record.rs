//! Decoding of the 64-bit records of a compressed capture.

use crate::window::IqValue;
use vstd::endian::{endianness, Endian};
use vstd::prelude::*;

verus! {

/// Bit `i` of `n`, moved to the place that mirrors it in a 16-bit word.
pub open spec fn mirrored_bit(n: u16, i: u16) -> u16 {
    ((n >> i) & 1) << ((15 - i) as u16)
}

/// The mirrored places of the lowest `k` bits of `n`.
pub open spec fn mirrored_low_bits(n: u16, k: nat) -> u16
    decreases k,
{
    if k == 0 {
        0
    } else if k == 1 {
        mirrored_bit(n, 0)
    } else {
        mirrored_low_bits(n, (k - 1) as nat) | mirrored_bit(n, (k - 1) as u16)
    }
}

/// The 16-bit word whose bits are those of `n` in the opposite order.
pub open spec fn bit_reversal(n: u16) -> u16 {
    mirrored_bit(n, 0) | mirrored_bit(n, 1) | mirrored_bit(n, 2) | mirrored_bit(n, 3)
        | mirrored_bit(n, 4) | mirrored_bit(n, 5) | mirrored_bit(n, 6) | mirrored_bit(n, 7)
        | mirrored_bit(n, 8) | mirrored_bit(n, 9) | mirrored_bit(n, 10) | mirrored_bit(n, 11)
        | mirrored_bit(n, 12) | mirrored_bit(n, 13) | mirrored_bit(n, 14) | mirrored_bit(n, 15)
}

/// Reverses the order of the 16 bits of `n`.
pub fn bitorder(n: u16) -> (r: u16)
    ensures
        r == bit_reversal(n),
{
    let mut ret: u16 = 0;
    let mut i: u16 = 0;
    while i < 16
        invariant
            i <= 16,
            ret == mirrored_low_bits(n, i as nat),
        decreases 16 - i,
    {
        let bit: u16 = ((n >> i) & 1) << (15 - i);
        proof {
            if i == 0 {
                assert(0u16 | bit == bit) by (bit_vector);
            }
        }
        ret |= bit;
        i += 1;
    }
    proof {
        reveal_with_fuel(mirrored_low_bits, 17);
    }
    ret
}

/// Each bit of the reversal is the bit of `n` at the mirrored place.
pub proof fn lemma_bit_reversal_bits(n: u16, i: u16)
    requires
        i < 16,
    ensures
        (bit_reversal(n) >> i) & 1 == (n >> ((15 - i) as u16)) & 1,
{
    assert((bit_reversal(n) >> i) & 1 == (n >> ((15 - i) as u16)) & 1) by (bit_vector)
        requires
            i < 16,
    ;
}

/// Reversing the bits twice gives the word back.
pub proof fn lemma_bit_reversal_involution(n: u16)
    ensures
        bit_reversal(bit_reversal(n)) == n,
{
    assert(bit_reversal(bit_reversal(n)) == n) by (bit_vector);
}

/// The layout of the records of a capture.
///
/// Both layouts keep the flag of an average record in bit 15 and the value in
/// the upper 32 bits. They differ in where the bin's index stands, in the
/// order of its bits, and in the order of the halves of an average.
#[derive(Clone, Copy, Debug, PartialEq, Eq, Structural, Hash)]
pub enum FormatVersion {
    /// The index stands in bits 0 to 10. Bits 11 to 14 are the upper bits of
    /// the time, and an average stands as it is.
    Plain,
    /// The index stands in bits 4 to 14 with its bits in the opposite order.
    /// Bits 0 to 3 are the upper bits of the time, and the two 16-bit halves
    /// of an average are exchanged.
    Swapped,
}

/// What a record says of its bin.
#[derive(Clone, Copy, Debug, PartialEq, Eq, Structural, Hash)]
pub enum Payload {
    /// The value of the bin in one FFT cycle
    Sample(IqValue),
    /// The average magnitude of the bin
    Average(u32),
}

/// One decoded record.
#[derive(Clone, Copy, Debug, PartialEq, Eq, Structural, Hash)]
pub struct CompressedRecord {
    /// The index of the bin, in the order in which the FFT numbers its bins
    pub bin_index: u16,
    /// The lowest 20 bits of the time of the FFT cycle
    pub timestamp_fragment: u32,
    /// The value or the average
    pub payload: Payload,
}

impl CompressedRecord {
    /// Whether the record holds an average.
    pub open spec fn spec_is_average(self) -> bool {
        self.payload is Average
    }

    /// Whether the record holds an average.
    pub fn is_average(&self) -> (r: bool)
        ensures
            r == self.spec_is_average(),
    {
        match self.payload {
            Payload::Average(_) => true,
            Payload::Sample(_) => false,
        }
    }
}

/// The number that 16 bits stand for in two's complement.
pub open spec fn signed16(bits: u64) -> i16
    recommends
        bits < 0x1_0000,
{
    if bits < 0x8000 {
        bits as i16
    } else {
        (bits - 0x1_0000) as i16
    }
}

/// Whether bit 15 of the word marks an average.
pub open spec fn word_is_average(word: u64) -> bool {
    (word >> 15) & 1 == 1
}

/// The index of the bin that the word speaks of.
pub open spec fn word_bin_index(word: u64, version: FormatVersion) -> u16 {
    match version {
        FormatVersion::Plain => (word & 0x7ff) as u16,
        FormatVersion::Swapped => bit_reversal((((word >> 4) & 0x7ff) << 5) as u16),
    }
}

/// The 20 bits of time in the word: the four spare bits of the lower half
/// above bits 16 to 31.
pub open spec fn word_time(word: u64, version: FormatVersion) -> u32 {
    match version {
        FormatVersion::Plain => ((((word >> 11) & 0xf) << 16) | ((word >> 16) & 0xffff)) as u32,
        FormatVersion::Swapped => (((word & 0xf) << 16) | ((word >> 16) & 0xffff)) as u32,
    }
}

/// The average magnitude in the word.
pub open spec fn word_magnitude(word: u64, version: FormatVersion) -> u32 {
    match version {
        FormatVersion::Plain => (word >> 32) as u32,
        FormatVersion::Swapped => ((((word >> 32) & 0xffff) << 16) | (word >> 48)) as u32,
    }
}

/// The value in the word: in-phase in bits 32 to 47, quadrature in bits 48 to 63.
pub open spec fn word_sample(word: u64) -> IqValue {
    IqValue { i: signed16((word >> 32) & 0xffff), q: signed16(word >> 48) }
}

/// The record that the word stands for.
pub open spec fn decoded(word: u64, version: FormatVersion) -> CompressedRecord {
    CompressedRecord {
        bin_index: word_bin_index(word, version),
        timestamp_fragment: word_time(word, version),
        payload: if word_is_average(word) {
            Payload::Average(word_magnitude(word, version))
        } else {
            Payload::Sample(word_sample(word))
        },
    }
}

/// Reads 16 bits as a number in two's complement.
fn to_signed16(bits: u64) -> (r: i16)
    requires
        bits < 0x1_0000,
    ensures
        r == signed16(bits),
{
    if bits < 0x8000 {
        bits as i16
    } else {
        (bits as i32 - 0x1_0000) as i16
    }
}

/// Decodes one record of a capture in the layout `version`.
///
/// Every word stands for a record: the index has 11 bits and the time 20.
pub fn decode(word: u64, version: FormatVersion) -> (r: CompressedRecord)
    ensures
        r == decoded(word, version),
        r.bin_index < 2048,
        r.timestamp_fragment < 0x10_0000,
{
    let data: u64 = word >> 32;
    let low_time: u64 = (word >> 16) & 0xffff;
    let low_data: u64 = data & 0xffff;
    let high_data: u64 = data >> 16;
    proof {
        assert(word & 0x7ff < 0x800) by (bit_vector);
        assert((word << 1) & 0xffe0 == ((word >> 4) & 0x7ff) << 5) by (bit_vector);
        assert(((word >> 4) & 0x7ff) << 5 <= 0xffff) by (bit_vector);
        assert((word >> 32) >> 16 == word >> 48) by (bit_vector);
        assert(word >> 48 < 0x1_0000) by (bit_vector);
        assert(word >> 32 <= 0xffff_ffff) by (bit_vector);
        assert((word >> 32) & 0xffff < 0x1_0000) by (bit_vector);
        assert((((word >> 11) & 0xf) << 16) | ((word >> 16) & 0xffff) < 0x10_0000)
            by (bit_vector);
        assert(((word & 0xf) << 16) | ((word >> 16) & 0xffff) < 0x10_0000) by (bit_vector);
        assert((((word >> 32) & 0xffff) << 16) | (word >> 48) <= 0xffff_ffff) by (bit_vector);
        lemma_bin_index_in_range(word, version);
    }
    let bin_index: u16 = match version {
        FormatVersion::Plain => (word & 0x7ff) as u16,
        FormatVersion::Swapped => bitorder(((word << 1) & 0xffe0) as u16),
    };
    let timestamp_fragment: u32 = match version {
        FormatVersion::Plain => ((((word >> 11) & 0xf) << 16) | low_time) as u32,
        FormatVersion::Swapped => (((word & 0xf) << 16) | low_time) as u32,
    };
    let payload = if (word >> 15) & 1 == 1 {
        Payload::Average(
            match version {
                FormatVersion::Plain => data as u32,
                FormatVersion::Swapped => ((low_data << 16) | high_data) as u32,
            },
        )
    } else {
        Payload::Sample(IqValue { i: to_signed16(low_data), q: to_signed16(high_data) })
    };
    CompressedRecord { bin_index, timestamp_fragment, payload }
}

/// In either layout the index of the bin has 11 bits. In the layout with the
/// opposite bit order, bit `i` of the index is bit `14 - i` of the word.
pub proof fn lemma_bin_index_in_range(word: u64, version: FormatVersion)
    ensures
        word_bin_index(word, version) < 2048,
        forall|i: u64|
            i < 11 ==> (#[trigger] (word_bin_index(word, FormatVersion::Swapped) >> i)) & 1 == (word
                >> ((14 - i) as u64)) & 1,
{
    assert(((word & 0x7ff) as u16) < 2048) by (bit_vector);
    assert(bit_reversal((((word >> 4) & 0x7ff) << 5) as u16) < 2048) by (bit_vector);
    assert forall|i: u64| i < 11 implies (#[trigger] (word_bin_index(
        word,
        FormatVersion::Swapped,
    ) >> i)) & 1 == (word >> ((14 - i) as u64)) & 1 by {
        assert((bit_reversal((((word >> 4) & 0x7ff) << 5) as u16) >> i) & 1 == (word >> ((14
            - i) as u64)) & 1) by (bit_vector)
            requires
                i < 11,
        ;
    }
}

/// The number whose eight bytes, lowest first, are `b`.
pub open spec fn le_word(b: Seq<u8>) -> u64
    recommends
        b.len() == 8,
{
    (b[0] as u64) | (b[1] as u64) << 8 | (b[2] as u64) << 16 | (b[3] as u64) << 24 | (b[4] as u64)
        << 32 | (b[5] as u64) << 40 | (b[6] as u64) << 48 | (b[7] as u64) << 56
}

/// The number that eight bytes stand for in the order of the machine that
/// runs the program.
pub open spec fn native_word(b: Seq<u8>) -> u64
    recommends
        b.len() == 8,
{
    match endianness() {
        Endian::Little => le_word(b),
        Endian::Big => le_word(b.reverse()),
    }
}

/// Calls `u64::from_ne_bytes`, which reads eight bytes as a number in the
/// order of the machine: the first byte is the lowest on a little-endian
/// machine and the highest on a big-endian one.
#[verifier::external_body]
fn native_u64(bytes: [u8; 8]) -> (word: u64)
    ensures
        word == native_word(bytes@),
{
    u64::from_ne_bytes(bytes)
}

/// The words of a capture: each run of eight bytes is one word in the order
/// of the machine. Bytes after the last whole word are left out.
pub fn from_bytes(buf: &[u8]) -> (words: Vec<u64>)
    ensures
        words@.len() == buf@.len() / 8,
        forall|k: int|
            0 <= k < words@.len() ==> #[trigger] words@[k] == native_word(
                buf@.subrange(8 * k, 8 * k + 8),
            ),
{
    let len: usize = buf.len();
    let count: usize = len / 8;
    let mut words: Vec<u64> = Vec::with_capacity(count);
    let mut k: usize = 0;
    while k < count
        invariant
            k <= count,
            len == buf@.len(),
            count == len / 8,
            8 * count <= len,
            words@.len() == k,
            forall|m: int|
                0 <= m < k ==> #[trigger] words@[m] == native_word(buf@.subrange(8 * m, 8 * m + 8)),
        decreases count - k,
    {
        let at: usize = 8 * k;
        let unit: [u8; 8] = [
            buf[at],
            buf[at + 1],
            buf[at + 2],
            buf[at + 3],
            buf[at + 4],
            buf[at + 5],
            buf[at + 6],
            buf[at + 7],
        ];
        assert(unit@ =~= buf@.subrange(8 * k, 8 * k + 8));
        words.push(native_u64(unit));
        k += 1;
    }
    words
}

/// How many records of a capture hold values and how many hold averages.
#[derive(Clone, Copy, Debug, PartialEq, Eq, Structural, Hash)]
pub struct RecordCounts {
    /// The number of records that hold a value
    pub data: u64,
    /// The number of records that hold an average
    pub averages: u64,
}

/// The number of words among `words` that hold an average.
pub open spec fn average_count(words: Seq<u64>) -> nat
    decreases words.len(),
{
    if words.len() == 0 {
        0
    } else {
        average_count(words.drop_last()) + if word_is_average(words.last()) {
            1nat
        } else {
            0nat
        }
    }
}

/// No more words hold an average than there are words.
pub proof fn lemma_average_count_bound(words: Seq<u64>)
    ensures
        average_count(words) <= words.len(),
    decreases words.len(),
{
    if words.len() > 0 {
        lemma_average_count_bound(words.drop_last());
    }
}

/// Counts the records that hold values and those that hold averages.
pub fn count_records(words: &[u64]) -> (counts: RecordCounts)
    ensures
        counts.averages == average_count(words@),
        counts.data == words@.len() - average_count(words@),
{
    let mut counts = RecordCounts { data: 0, averages: 0 };
    let mut k: usize = 0;
    assert(words@.take(0) =~= Seq::<u64>::empty());
    while k < words.len()
        invariant
            k <= words.len(),
            counts.averages == average_count(words@.take(k as int)),
            counts.data == k - average_count(words@.take(k as int)),
        decreases words.len() - k,
    {
        proof {
            assert(words@.take(k as int + 1).drop_last() =~= words@.take(k as int));
            lemma_average_count_bound(words@.take(k as int));
        }
        if (words[k] >> 15) & 1 == 1 {
            counts.averages = counts.averages + 1;
        } else {
            counts.data = counts.data + 1;
        }
        k += 1;
    }
    assert(words@.take(words@.len() as int) =~= words@);
    counts
}

} // verus!