//! Windows: the active bins of one FFT cycle, in physical or logical order.

use crate::bins::BinMask;
use std::marker::PhantomData;
use vstd::arithmetic::div_mod::{lemma_fundamental_div_mod_converse, lemma_mod_bound};
use vstd::prelude::*;

verus! {

/// The number of distinct tags.
pub open spec fn tag_modulus() -> int {
    0x1_0000_0000
}

/// A counter that identifies one window in every band that receives it and
/// in the output log. It starts over at zero after its largest value.
#[derive(Clone, Copy, Debug, PartialEq, Eq, Structural, Hash)]
pub struct Tag {
    /// The counter's value
    pub value: u32,
}

impl Tag {
    /// The tag of the `k`th window of a run, counted from zero.
    pub open spec fn nth(k: nat) -> Tag {
        Tag { value: (k as int % tag_modulus()) as u32 }
    }

    /// The tag that follows this one.
    pub open spec fn spec_next(self) -> Tag {
        Tag { value: ((self.value + 1) % tag_modulus()) as u32 }
    }

    /// The tag of the first window of a run.
    pub fn first() -> (t: Tag)
        ensures
            t == Tag::nth(0),
    {
        Tag { value: 0 }
    }

    /// The tag that follows this one.
    pub fn next(self) -> (t: Tag)
        ensures
            t == self.spec_next(),
    {
        Tag { value: self.value.wrapping_add(1) }
    }

    /// The tags of consecutive windows follow each other, also where the
    /// counter starts over, and no tag follows itself.
    pub proof fn lemma_nth_next(k: nat)
        ensures
            Tag::nth(k).spec_next() == Tag::nth(k + 1),
            Tag::nth(k + 1) != Tag::nth(k),
            Tag::nth(k + 1).value == if Tag::nth(k).value == u32::MAX {
                0
            } else {
                Tag::nth(k).value + 1
            },
    {
        let m = tag_modulus();
        let q = k as int / m;
        let r = k as int % m;
        lemma_mod_bound(k as int, m);
        assert(k as int == m * q + r) by {
            vstd::arithmetic::div_mod::lemma_fundamental_div_mod(k as int, m);
        }
        if r + 1 < m {
            lemma_fundamental_div_mod_converse(k as int + 1, m, q, r + 1);
            lemma_fundamental_div_mod_converse(r + 1, m, 0, r + 1);
        } else {
            lemma_fundamental_div_mod_converse(k as int + 1, m, q + 1, 0);
            lemma_fundamental_div_mod_converse(r + 1, m, 1, 0);
        }
    }
}

impl Default for Tag {
    /// The tag of the first window of a run.
    fn default() -> (t: Tag)
        ensures
            t == Tag::nth(0),
    {
        Tag { value: 0 }
    }
}

/// The value of one active bin: the in-phase and the quadrature part.
#[derive(Clone, Copy, Debug, PartialEq, Eq, Structural, Hash)]
pub struct IqValue {
    /// In-phase part
    pub i: i16,
    /// Quadrature part
    pub q: i16,
}

/// Marks a window whose bins stand in the order in which the FFT numbers them.
#[derive(Clone, Copy, Debug)]
pub struct Physical;

/// Marks a window whose bins stand in order of frequency, with the centre of
/// the capture at bin `size / 2`.
#[derive(Clone, Copy, Debug)]
pub struct Logical;

/// What a window holds, whatever its phase.
pub struct WindowView {
    /// The number of bins of the FFT
    pub size: int,
    /// The time of the FFT cycle
    pub time: u32,
    /// The tag, once one was assigned
    pub tag: Option<Tag>,
    /// For each bin its value, where the bin is active
    pub bins: Seq<Option<IqValue>>,
}

impl WindowView {
    /// Whether bin `b` is active.
    pub open spec fn is_active(self, b: int) -> bool {
        0 <= b < self.bins.len() && self.bins[b].is_some()
    }

    /// The same window with another tag.
    pub open spec fn tagged(self, tag: Tag) -> WindowView {
        WindowView { tag: Some(tag), ..self }
    }

    /// The same window with the value `value` in bin `b`.
    pub open spec fn with_bin(self, b: int, value: IqValue) -> WindowView {
        WindowView { bins: self.bins.update(b, Some(value)), ..self }
    }

    /// The window of one FFT cycle in which no bin is active yet.
    pub open spec fn empty(size: int, time: u32) -> WindowView {
        WindowView { size, time, tag: None, bins: Seq::new(size as nat, |b: int| None) }
    }

    /// The window in logical order that holds what this window holds in
    /// physical order.
    pub open spec fn to_logical(self) -> WindowView {
        WindowView {
            bins: Seq::new(
                self.bins.len(),
                |l: int| self.bins[physical_index(l, self.bins.len() as int)],
            ),
            ..self
        }
    }
}

/// The place in logical order of the bin that the FFT numbers `p`, of `n` bins.
pub open spec fn logical_index(p: int, n: int) -> int {
    (p + n / 2) % n
}

/// The number that the FFT gives to the bin at place `l` in logical order.
pub open spec fn physical_index(l: int, n: int) -> int {
    (l + n - n / 2) % n
}

/// The two orders of the bins are permutations of each other.
pub proof fn lemma_orders_inverse(x: int, n: int)
    requires
        0 <= x < n,
    ensures
        0 <= logical_index(x, n) < n,
        0 <= physical_index(x, n) < n,
        physical_index(logical_index(x, n), n) == x,
        logical_index(physical_index(x, n), n) == x,
{
    let h = n / 2;
    if x + h < n {
        lemma_fundamental_div_mod_converse(x + h, n, 0, x + h);
        lemma_fundamental_div_mod_converse(x + h + n - h, n, 1, x);
    } else {
        lemma_fundamental_div_mod_converse(x + h, n, 1, x + h - n);
        lemma_fundamental_div_mod_converse(x + h - n + n - h, n, 0, x);
    }
    if x + n - h < n {
        lemma_fundamental_div_mod_converse(x + n - h, n, 0, x + n - h);
        lemma_fundamental_div_mod_converse(x + n - h + h, n, 1, x);
    } else {
        lemma_fundamental_div_mod_converse(x + n - h, n, 1, x - h);
        lemma_fundamental_div_mod_converse(x - h + h, n, 0, x);
    }
}

/// The active bins of one FFT cycle with their values, and the window's tag.
pub struct Window<P> {
    size: u16,
    time: u32,
    tag: Option<Tag>,
    active: BinMask,
    values: Vec<IqValue>,
    phase: PhantomData<P>,
}

impl<P> Window<P> {
    /// The mask and the values have one place for each bin.
    pub closed spec fn wf(&self) -> bool {
        &&& self.active.wf()
        &&& self.active.spec_size() == self.size
        &&& self.values.len() == self.size
    }

    /// What the window holds.
    pub closed spec fn view(&self) -> WindowView {
        WindowView {
            size: self.size as int,
            time: self.time,
            tag: self.tag,
            bins: Seq::new(
                self.size as nat,
                |b: int|
                    if self.active.contains(b) {
                        Some(self.values[b])
                    } else {
                        None
                    },
            ),
        }
    }

    /// The mask of a window holds its active bins.
    pub closed spec fn spec_active_bins(&self) -> BinMask {
        self.active
    }

    /// The mask of the active bins agrees with the view, and the view has one
    /// place for each bin.
    pub proof fn lemma_view(&self)
        requires
            self.wf(),
        ensures
            self@.bins.len() == self@.size,
            0 <= self@.size <= u16::MAX,
            self.spec_active_bins().wf(),
            self.spec_active_bins().spec_size() == self@.size,
            forall|b: int| self.spec_active_bins().contains(b) <==> self@.is_active(b),
    {
        assert forall|b: int| self.active.contains(b) <==> self@.is_active(b) by {
            if self.active.contains(b) {
                self.active.lemma_contains_in_spectrum(b);
            }
        }
    }

    /// Creates the window of the FFT cycle at `time` in which no bin is active.
    pub fn new(size: u16, time: u32) -> (w: Window<P>)
        ensures
            w.wf(),
            w@ == WindowView::empty(size as int, time),
    {
        let mut values: Vec<IqValue> = Vec::with_capacity(size as usize);
        let mut b: u16 = 0;
        while b < size
            invariant
                b <= size,
                values.len() == b,
            decreases size - b,
        {
            values.push(IqValue { i: 0, q: 0 });
            b += 1;
        }
        let w = Window { size, time, tag: None, active: BinMask::new(size), values, phase: PhantomData };
        assert(w@.bins =~= WindowView::empty(size as int, time).bins);
        w
    }

    /// The number of bins of the FFT.
    pub fn size(&self) -> (n: u16)
        ensures
            n == self@.size,
    {
        self.size
    }

    /// The time of the FFT cycle.
    pub fn time(&self) -> (t: u32)
        ensures
            t == self@.time,
    {
        self.time
    }

    /// The window's tag, if it has one.
    pub fn tag(&self) -> (t: Option<Tag>)
        ensures
            t == self@.tag,
    {
        self.tag
    }

    /// Gives the window the tag `tag`.
    pub fn set_tag(&mut self, tag: Tag)
        requires
            old(self).wf(),
        ensures
            final(self).wf(),
            final(self)@ == old(self)@.tagged(tag),
    {
        self.tag = Some(tag);
        assert(self@.bins =~= old(self)@.bins);
    }

    /// The mask of the active bins.
    pub fn active_bins(&self) -> (m: &BinMask)
        ensures
            *m == self.spec_active_bins(),
    {
        &self.active
    }

    /// Whether bin `b` is active.
    pub fn is_active(&self, b: u16) -> (r: bool)
        requires
            self.wf(),
        ensures
            r == self@.is_active(b as int),
    {
        self.active.get(b)
    }

    /// The value of bin `b`, where it is active.
    pub fn value(&self, b: u16) -> (v: Option<IqValue>)
        requires
            self.wf(),
        ensures
            v == if b < self@.size { self@.bins[b as int] } else { None },
    {
        if self.active.get(b) {
            Some(self.values[b as usize])
        } else {
            None
        }
    }

    /// Makes bin `b` active with the value `value`.
    pub fn insert(&mut self, b: u16, value: IqValue)
        requires
            old(self).wf(),
            b < old(self)@.size,
        ensures
            final(self).wf(),
            final(self)@ == old(self)@.with_bin(b as int, value),
    {
        self.active.set(b);
        self.values.set(b as usize, value);
        assert(self@.bins =~= old(self)@.bins.update(b as int, Some(value)));
    }

    /// Makes a second window that holds what this one holds.
    pub fn duplicate(&self) -> (w: Window<P>)
        requires
            self.wf(),
        ensures
            w.wf(),
            w@ == self@,
    {
        let mut values: Vec<IqValue> = Vec::with_capacity(self.values.len());
        let mut i: usize = 0;
        while i < self.values.len()
            invariant
                i <= self.values.len(),
                values.len() == i,
                forall|k: int| 0 <= k < i ==> values[k] == self.values[k],
            decreases self.values.len() - i,
        {
            values.push(self.values[i]);
            i += 1;
        }
        let w = Window {
            size: self.size,
            time: self.time,
            tag: self.tag,
            active: self.active.duplicate(),
            values,
            phase: PhantomData,
        };
        assert(w@.bins =~= self@.bins);
        w
    }
}

impl Window<Physical> {
    /// Puts the bins into logical order: the upper half of the FFT's bins,
    /// which holds the frequencies below the centre, comes first.
    pub fn into_logical(self) -> (w: Window<Logical>)
        requires
            self.wf(),
        ensures
            w.wf(),
            w@ == self@.to_logical(),
    {
        let mut w: Window<Logical> = Window::new(self.size, self.time);
        w.tag = self.tag;
        let n: u32 = self.size as u32;
        let mut l: u16 = 0;
        while l < self.size
            invariant
                l <= self.size,
                n == self.size,
                self.wf(),
                w.wf(),
                w.size == self.size,
                w.time == self.time,
                w.tag == self.tag,
                forall|x: int| 0 <= x < l ==> w@.bins[x] == self@.bins[physical_index(x, n as int)],
                forall|x: int| l <= x < n ==> w@.bins[x].is_none(),
            decreases self.size - l,
        {
            let p: u32 = (l as u32 + n - n / 2) % n;
            proof {
                lemma_orders_inverse(l as int, n as int);
            }
            if self.active.get(p as u16) {
                w.insert(l, self.values[p as usize]);
            }
            l += 1;
        }
        assert(w@.bins =~= self@.to_logical().bins);
        w
    }
}

} // verus!
