//! Ranges and masks of bins on a circular spectrum.

use vstd::arithmetic::div_mod::{
    lemma_add_mod_noop, lemma_fundamental_div_mod_converse, lemma_mod_bound,
    lemma_mod_multiples_vanish, lemma_small_mod, lemma_sub_mod_noop,
};
use vstd::std_specs::bits::{axiom_u64_trailing_zeros, u64_trailing_zeros};
use vstd::prelude::*;

verus! {

/// A contiguous run of bins on a circular spectrum of `size` bins.
///
/// The run begins at bin `start`, holds `len` bins, and continues at bin 0
/// when it passes the last bin of the spectrum.
#[derive(Clone, Copy, Debug, PartialEq, Eq, Structural, PartialOrd, Ord, Hash)]
pub struct BinRange {
    /// The first bin of the run
    pub start: u16,
    /// The number of bins in the run
    pub len: u16,
    /// The number of bins in the whole spectrum
    pub size: u16,
}

impl BinRange {
    /// The representation is canonical: the run fits in the spectrum, and the
    /// empty and the full run begin at bin 0, so that two well-formed ranges
    /// over one spectrum are equal exactly when they hold the same bins.
    pub open spec fn wf(self) -> bool {
        &&& 0 < self.size
        &&& self.start < self.size
        &&& self.len <= self.size
        &&& (self.len == 0 || self.len == self.size) ==> self.start == 0
    }

    /// Whether bin `b` lies in the run.
    pub open spec fn contains(self, b: int) -> bool {
        0 <= b < self.size && (b - self.start) % (self.size as int) < self.len
    }

    /// The set of bins in the run.
    pub open spec fn view(self) -> Set<int> {
        Set::new(|b: int| self.contains(b))
    }

    /// The `k`th bin of the run, counted from its start.
    pub open spec fn nth(self, k: int) -> int {
        (self.start + k) % (self.size as int)
    }

    /// Creates the range of `len` bins that begins at `start`, or `None`
    /// where no such run exists on a spectrum of `size` bins.
    pub fn new(start: u16, len: u16, size: u16) -> (r: Option<BinRange>)
        ensures
            r.is_some() <==> (0 < size && start < size && len <= size),
            r matches Some(range) ==> {
                &&& range.wf()
                &&& range.size == size
                &&& range.len == len
                &&& range.start == if len == 0 || len == size { 0 } else { start }
                &&& len < size ==> (forall|b: int|
                    range.contains(b) <==> (0 <= b < size && (b - start) % (size as int) < len))
            },
    {
        if size == 0 || start >= size || len > size {
            None
        } else if len == 0 || len == size {
            Some(BinRange { start: 0, len, size })
        } else {
            Some(BinRange { start, len, size })
        }
    }

    /// The range that holds every bin of a spectrum of `size` bins.
    pub fn full(size: u16) -> (r: BinRange)
        requires
            0 < size,
        ensures
            r.wf(),
            r.size == size,
            r.len == size,
            forall|b: int| r.contains(b) <==> 0 <= b < size,
    {
        let r = BinRange { start: 0, len: size, size };
        proof {
            assert forall|b: int| r.contains(b) <==> 0 <= b < size by {
                if 0 <= b < size {
                    lemma_small_mod(b as nat, size as nat);
                }
            }
        }
        r
    }

    /// The number of bins in the run.
    pub fn width(&self) -> (w: u16)
        ensures
            w == self.len,
    {
        self.len
    }

    /// Whether bin `b` lies in the run.
    pub fn contains_bin(&self, b: u16) -> (r: bool)
        requires
            self.wf(),
        ensures
            r == self.contains(b as int),
    {
        if b >= self.size {
            return false;
        }
        let distance: u16 = if b >= self.start {
            b - self.start
        } else {
            self.size - self.start + b
        };
        proof {
            lemma_distance(b as int, self.start as int, self.size as int);
        }
        distance < self.len
    }
}

/// On a circle of `n` positions, the distance forward from `s` to `b` is
/// their difference, taken around the end of the circle where `b` lies before `s`.
proof fn lemma_distance(b: int, s: int, n: int)
    requires
        0 <= b < n,
        0 <= s < n,
    ensures
        (b - s) % n == if b >= s { b - s } else { b - s + n },
{
    if b >= s {
        lemma_fundamental_div_mod_converse(b - s, n, 0, b - s);
    } else {
        lemma_fundamental_div_mod_converse(b - s, n, -1, b - s + n);
    }
}

/// The range that [`choose_bins`] selects.
pub open spec fn chosen_bins(bins: u16, fc_bins: i16, compression_bins: u16) -> BinRange {
    BinRange {
        start: if bins == 0 || bins == compression_bins {
            0u16
        } else {
            ((compression_bins / 2 + fc_bins - bins / 2) % (compression_bins as int)) as u16
        },
        len: bins,
        size: compression_bins,
    }
}

/// Chooses the `bins` bins that a band needs from a spectrum of
/// `compression_bins` bins.
///
/// Bins are counted in logical order, so that bin `compression_bins / 2` is
/// the centre of the capture. The band's centre lies `fc_bins` bins above it.
/// The run begins `bins / 2` bins below the band's centre and continues around
/// the edge of the spectrum where it passes one.
pub fn choose_bins(bins: u16, fc_bins: i16, compression_bins: u16) -> (r: BinRange)
    requires
        0 < compression_bins,
        bins <= compression_bins,
    ensures
        r == chosen_bins(bins, fc_bins, compression_bins),
        r.wf(),
{
    if bins == 0 || bins == compression_bins {
        return BinRange { start: 0, len: bins, size: compression_bins };
    }
    let size: u64 = compression_bins as u64;
    let lifted: u64 = 65536u64 * size;
    let centre: i64 = (compression_bins / 2) as i64 + fc_bins as i64 - (bins / 2) as i64;
    let shifted: u64 = (centre + lifted as i64) as u64;
    let start: u64 = shifted % size;
    proof {
        lemma_mod_multiples_vanish(65536, centre as int, size as int);
    }
    BinRange { start: start as u16, len: bins, size: compression_bins }
}

/// The band's centre bin lies in the chosen range, `bins / 2` bins after its
/// start, wherever the band lies on the spectrum.
pub proof fn lemma_chosen_bins_hold_centre(bins: u16, fc_bins: i16, compression_bins: u16)
    requires
        0 < bins <= compression_bins,
    ensures
        chosen_bins(bins, fc_bins, compression_bins).wf(),
        chosen_bins(bins, fc_bins, compression_bins).contains(
            (compression_bins / 2 + fc_bins) % (compression_bins as int),
        ),
        bins < compression_bins ==> chosen_bins(bins, fc_bins, compression_bins).nth(
            bins as int / 2,
        ) == (compression_bins / 2 + fc_bins) % (compression_bins as int),
{
    let n = compression_bins as int;
    let centre = compression_bins / 2 + fc_bins;
    let r = chosen_bins(bins, fc_bins, compression_bins);
    let half = bins as int / 2;
    lemma_mod_bound(centre, n);
    lemma_mod_bound(centre - half, n);
    if bins == compression_bins {
        lemma_small_mod((centre % n) as nat, n as nat);
    } else {
        lemma_sub_mod_noop(centre, centre - half, n);
        lemma_small_mod(half as nat, n as nat);
        lemma_add_mod_noop(centre - half, half, n);
    }
}

/// Two well-formed ranges over one spectrum that hold the same bins are equal.
pub proof fn lemma_same_bins_same_range(a: BinRange, b: BinRange)
    requires
        a.wf(),
        b.wf(),
        a.size == b.size,
        a@ == b@,
    ensures
        a == b,
{
    let n = a.size as int;
    assert forall|x: int| a.contains(x) == b.contains(x) by {
        assert(a@.contains(x) == a.contains(x));
        assert(b@.contains(x) == b.contains(x));
    }
    if a.len == 0 || b.len == 0 {
        lemma_distance(a.start as int, a.start as int, n);
        lemma_distance(b.start as int, b.start as int, n);
        lemma_distance(a.start as int, b.start as int, n);
        lemma_distance(b.start as int, a.start as int, n);
        assert(a.contains(a.start as int) == b.contains(a.start as int));
        assert(a.contains(b.start as int) == b.contains(b.start as int));
    } else {
        lemma_first_bin(a, b);
        lemma_first_bin(b, a);
        lemma_past_the_end(a, b);
        lemma_past_the_end(b, a);
    }
}

/// Where `b` holds the bins of `a` and no others, yet is not the whole
/// spectrum, `b` begins where `a` does.
proof fn lemma_first_bin(a: BinRange, b: BinRange)
    requires
        a.wf(),
        b.wf(),
        a.size == b.size,
        0 < a.len,
        0 < b.len,
        forall|x: int| a.contains(x) == b.contains(x),
    ensures
        a.len < a.size ==> b.len < b.size && a.start == b.start,
{
    let n = a.size as int;
    if a.len < a.size {
        let s = a.start as int;
        let before = if s == 0 { n - 1 } else { s - 1 };
        lemma_distance(s, s, n);
        lemma_distance(before, s, n);
        lemma_distance(s, b.start as int, n);
        lemma_distance(before, b.start as int, n);
        assert(a.contains(s));
        assert(!a.contains(before));
        assert(b.contains(s));
        assert(!b.contains(before));
    }
}

/// Where `b` holds the bins of `a` and no others, `b` is no longer than `a`.
proof fn lemma_past_the_end(a: BinRange, b: BinRange)
    requires
        a.wf(),
        b.wf(),
        a.size == b.size,
        0 < a.len,
        0 < b.len,
        a.start == b.start || a.len == a.size || b.len == b.size,
        forall|x: int| a.contains(x) == b.contains(x),
    ensures
        b.len <= a.len,
{
    let n = a.size as int;
    if a.len < a.size {
        let s = a.start as int;
        let past = if s + a.len >= n { s + a.len - n } else { s + a.len };
        lemma_distance(past, s, n);
        lemma_distance(past, b.start as int, n);
        assert(!a.contains(past));
        assert(!b.contains(past));
    }
}

/// Whether bit `j` of `w` is set.
pub open spec fn bit_is_set(w: u64, j: u64) -> bool {
    (w >> j) & 1 == 1
}

/// The number of 64-bit words that hold one bit for each of `size` bins.
pub open spec fn words_for(size: int) -> int {
    (size + 63) / 64
}

/// A set of bins of a spectrum of `size` bins, held as one bit for each bin.
pub struct BinMask {
    size: u16,
    words: Vec<u64>,
}

impl BinMask {
    /// There is one bit for each bin of the spectrum, and the bits that stand
    /// for no bin are clear.
    pub closed spec fn wf(&self) -> bool {
        &&& self.words.len() == words_for(self.size as int)
        &&& forall|b: int|
            self.size <= b < 64 * self.words.len() ==> !bit_is_set(
                #[trigger] self.words[b / 64],
                (b % 64) as u64,
            )
    }

    /// The number of bins in the spectrum.
    pub closed spec fn spec_size(&self) -> int {
        self.size as int
    }

    /// Whether bin `b` is in the set.
    pub closed spec fn contains(&self, b: int) -> bool {
        0 <= b < self.size && bit_is_set(self.words[b / 64], (b % 64) as u64)
    }

    /// The bins in the set.
    pub open spec fn view(&self) -> Set<int> {
        Set::new(|b: int| self.contains(b))
    }

    /// Whether some bin is in both sets.
    pub open spec fn intersects(&self, other: &BinMask) -> bool {
        exists|b: int| self.contains(b) && other.contains(b)
    }

    /// Only bins of the spectrum are in the set.
    pub proof fn lemma_contains_in_spectrum(&self, b: int)
        requires
            self.contains(b),
        ensures
            0 <= b < self.spec_size(),
    {
    }

    /// Creates the empty set of bins of a spectrum of `size` bins.
    pub fn new(size: u16) -> (m: BinMask)
        ensures
            m.wf(),
            m.spec_size() == size,
            forall|b: int| !m.contains(b),
    {
        let count: usize = (size as usize + 63) / 64;
        let mut words: Vec<u64> = Vec::new();
        while words.len() < count
            invariant
                words.len() <= count,
                forall|i: int| 0 <= i < words.len() ==> words[i] == 0,
            decreases count - words.len(),
        {
            words.push(0);
        }
        let m = BinMask { size, words };
        proof {
            assert forall|b: int| 0 <= b < 64 * m.words.len() implies !bit_is_set(
                #[trigger] m.words[b / 64],
                (b % 64) as u64,
            ) by {
                lemma_zero_has_no_bit((b % 64) as u64);
            }
        }
        m
    }

    /// Makes a second mask that holds the same bins.
    pub fn duplicate(&self) -> (m: BinMask)
        requires
            self.wf(),
        ensures
            m.wf(),
            m.spec_size() == self.spec_size(),
            forall|b: int| m.contains(b) == self.contains(b),
    {
        let mut words: Vec<u64> = Vec::with_capacity(self.words.len());
        let mut i: usize = 0;
        while i < self.words.len()
            invariant
                i <= self.words.len(),
                words.len() == i,
                forall|k: int| 0 <= k < i ==> words[k] == self.words[k],
            decreases self.words.len() - i,
        {
            words.push(self.words[i]);
            i += 1;
        }
        assert(words@ =~= self.words@);
        BinMask { size: self.size, words }
    }

    /// The number of bins in the spectrum.
    pub fn size(&self) -> (n: u16)
        ensures
            n == self.spec_size(),
    {
        self.size
    }

    /// Whether bin `b` is in the set.
    pub fn get(&self, b: u16) -> (r: bool)
        requires
            self.wf(),
        ensures
            r == self.contains(b as int),
            r ==> b < self.spec_size(),
    {
        if b >= self.size {
            return false;
        }
        let w: usize = (b / 64) as usize;
        let j: u64 = (b % 64) as u64;
        (self.words[w] >> j) & 1 == 1
    }

    /// Puts bin `b` into the set.
    pub fn set(&mut self, b: u16)
        requires
            old(self).wf(),
            b < old(self).spec_size(),
        ensures
            final(self).wf(),
            final(self).spec_size() == old(self).spec_size(),
            forall|x: int| final(self).contains(x) <==> (x == b || old(self).contains(x)),
    {
        let w: usize = (b / 64) as usize;
        let j: u64 = (b % 64) as u64;
        let before: u64 = self.words[w];
        let after: u64 = before | (1u64 << j);
        self.words.set(w, after);
        proof {
            assert forall|x: int| 0 <= x < 64 * self.words.len() implies (bit_is_set(
                #[trigger] self.words[x / 64],
                (x % 64) as u64,
            ) <==> (x == b || bit_is_set(old(self).words[x / 64], (x % 64) as u64))) by {
                if x / 64 == w {
                    lemma_set_bit(before, j, (x % 64) as u64);
                }
            }
            assert forall|x: int| final(self).contains(x) <==> (x == b || old(self).contains(
                x,
            )) by {
                if 0 <= x < self.size {
                    assert(bit_is_set(self.words[x / 64], (x % 64) as u64) <==> (x == b
                        || bit_is_set(old(self).words[x / 64], (x % 64) as u64)));
                }
            }
        }
    }

    /// Whether some bin is in both sets.
    pub fn overlaps(&self, other: &BinMask) -> (r: bool)
        requires
            self.wf(),
            other.wf(),
        ensures
            r == self.intersects(other),
    {
        let shared: usize = if self.words.len() < other.words.len() {
            self.words.len()
        } else {
            other.words.len()
        };
        let mut i: usize = 0;
        while i < shared
            invariant
                i <= shared,
                shared <= self.words.len(),
                shared <= other.words.len(),
                shared == self.words.len() || shared == other.words.len(),
                self.wf(),
                other.wf(),
                forall|b: int| 0 <= b < 64 * i ==> !(self.contains(b) && other.contains(b)),
            decreases shared - i,
        {
            let both: u64 = self.words[i] & other.words[i];
            if both != 0 {
                proof {
                    let j = lemma_some_bit(both);
                    lemma_and_bit(self.words[i as int], other.words[i as int], j);
                    let b: int = 64 * i + j;
                    assert(b / 64 == i && b % 64 == j);
                    assert(bit_is_set(self.words[b / 64], (b % 64) as u64));
                    assert(bit_is_set(other.words[b / 64], (b % 64) as u64));
                    assert(self.contains(b) && other.contains(b));
                }
                return true;
            }
            proof {
                assert forall|b: int| 64 * i <= b < 64 * (i + 1) implies !(self.contains(b)
                    && other.contains(b)) by {
                    assert(b / 64 == i);
                    lemma_and_bit(self.words[i as int], other.words[i as int], (b % 64) as u64);
                }
            }
            i += 1;
        }
        proof {
            assert forall|b: int| !(self.contains(b) && other.contains(b)) by {
                if 0 <= b && b >= 64 * shared {
                    assert(b >= self.size || b >= other.size);
                }
            }
        }
        false
    }
}

impl BinRange {
    /// The mask that holds the bins of this range and no others.
    pub fn to_mask(&self) -> (m: BinMask)
        requires
            self.wf(),
        ensures
            m.wf(),
            m.spec_size() == self.size,
            m@ == self@,
    {
        let mut m = BinMask::new(self.size);
        let mut b: u16 = 0;
        while b < self.size
            invariant
                b <= self.size,
                self.wf(),
                m.wf(),
                m.spec_size() == self.size,
                forall|x: int| m.contains(x) <==> (0 <= x < b && self.contains(x)),
            decreases self.size - b,
        {
            if self.contains_bin(b) {
                m.set(b);
            }
            b += 1;
        }
        proof {
            assert(m@ =~= self@);
        }
        m
    }
}

/// No bit of zero is set.
proof fn lemma_zero_has_no_bit(j: u64)
    requires
        j < 64,
    ensures
        !bit_is_set(0, j),
{
    assert((0u64 >> j) & 1 != 1) by (bit_vector)
        requires
            j < 64,
    ;
}

/// Setting bit `k` of a word sets that bit and changes no other.
proof fn lemma_set_bit(w: u64, k: u64, j: u64)
    requires
        k < 64,
        j < 64,
    ensures
        bit_is_set(w | (1u64 << k), j) <==> (j == k || bit_is_set(w, j)),
{
    assert((((w | (1u64 << k)) >> j) & 1 == 1) <==> (j == k || (w >> j) & 1 == 1)) by (bit_vector)
        requires
            k < 64,
            j < 64,
    ;
}

/// A bit is set in the conjunction of two words exactly when it is set in both.
proof fn lemma_and_bit(x: u64, y: u64, j: u64)
    requires
        j < 64,
    ensures
        bit_is_set(x & y, j) <==> (bit_is_set(x, j) && bit_is_set(y, j)),
        bit_is_set(x & y, j) ==> x & y != 0,
{
    assert((((x & y) >> j) & 1 == 1) <==> ((x >> j) & 1 == 1 && (y >> j) & 1 == 1))
        by (bit_vector);
    assert(((x & y) >> j) & 1 == 1 ==> x & y != 0) by (bit_vector);
}

/// A word other than zero has a bit that is set.
proof fn lemma_some_bit(w: u64) -> (j: u64)
    requires
        w != 0,
    ensures
        j < 64,
        bit_is_set(w, j),
{
    axiom_u64_trailing_zeros(w);
    u64_trailing_zeros(w) as u64
}

} // verus!
