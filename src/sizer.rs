use vstd::prelude::*;

verus! {

/// The sizing inputs and the computed size of one resizable element.
///
/// `max_size` equal to `u32::MAX` stands for an unbounded element. When
/// `max_size < min_size` the element is treated as fixed at `min_size`
/// (see `upper`).
#[derive(Clone, Copy, Debug)]
pub struct Sizer {
    pub size_hint: u32,
    pub min_size: u32,
    pub max_size: u32,
    pub stretch: u32,
    pub size: u32,
    pub done: bool,
}

impl Sizer {
    /// The largest size the engine ever gives this sizer: `max_size`, or
    /// `min_size` when the bounds are inverted.
    pub open spec fn upper(self) -> int {
        if self.max_size >= self.min_size {
            self.max_size as int
        } else {
            self.min_size as int
        }
    }

    /// The preferred size clamped into `[min_size, upper]`.
    pub open spec fn clamped(self) -> int {
        if self.size_hint < self.min_size {
            self.min_size as int
        } else if self.size_hint as int > self.upper() {
            self.upper()
        } else {
            self.size_hint as int
        }
    }

    /// Room left to grow before `upper` is reached.
    pub open spec fn grow_room(self) -> int {
        if self.size as int <= self.upper() {
            self.upper() - self.size
        } else {
            0
        }
    }

    /// Room left to shrink before `min_size` is reached.
    pub open spec fn shrink_room(self) -> int {
        if self.size >= self.min_size {
            self.size - self.min_size
        } else {
            0
        }
    }

    /// The constraints of the two sizers agree (everything but `size`,
    /// `done` and the hint).
    pub open spec fn same_bounds(self, other: Sizer) -> bool {
        &&& self.min_size == other.min_size
        &&& self.max_size == other.max_size
        &&& self.stretch == other.stretch
    }

    pub fn upper_size(&self) -> (r: u32)
        ensures
            r == self.upper(),
    {
        if self.max_size >= self.min_size {
            self.max_size
        } else {
            self.min_size
        }
    }
}

/// A per-sizer quantity that the contracts add up over a run of sizers.
pub enum Measure {
    Size,
    Min,
    Upper,
    Clamped,
    Hint,
    Undone,
    UndoneStretch,
    UndoneStretchy,
    GrowRoom,
    ShrinkRoom,
}

pub open spec fn weight(x: Sizer, m: Measure) -> int {
    match m {
        Measure::Size => x.size as int,
        Measure::Min => x.min_size as int,
        Measure::Upper => x.upper(),
        Measure::Clamped => x.clamped(),
        Measure::Hint => x.size_hint as int,
        Measure::Undone => if x.done { 0 } else { 1 },
        Measure::UndoneStretch => if x.done { 0 } else { x.stretch as int },
        Measure::UndoneStretchy => if !x.done && x.stretch > 0 { 1 } else { 0 },
        Measure::GrowRoom => x.grow_room(),
        Measure::ShrinkRoom => x.shrink_room(),
    }
}

/// The sum of `weight(s[j], m)` for `lo <= j < hi`.
pub open spec fn total(s: Seq<Sizer>, m: Measure, lo: int, hi: int) -> int
    decreases hi - lo,
{
    if hi <= lo {
        0
    } else {
        total(s, m, lo, hi - 1) + weight(s[hi - 1], m)
    }
}

/// The sum of a measure over the whole sequence.
pub open spec fn sum(s: Seq<Sizer>, m: Measure) -> int {
    total(s, m, 0, s.len() as int)
}

pub proof fn lemma_weight_bounds(x: Sizer, m: Measure)
    ensures
        0 <= weight(x, m) <= u32::MAX,
{
}

/// Replacing one element changes every sum by the difference of its weights.
pub proof fn lemma_total_update(s: Seq<Sizer>, i: int, v: Sizer, lo: int, hi: int)
    requires
        0 <= i < s.len(),
        0 <= lo,
        hi <= s.len(),
    ensures
        forall|m: Measure|
            #[trigger] total(s.update(i, v), m, lo, hi) == total(s, m, lo, hi) - (if lo <= i < hi {
                weight(s[i], m) - weight(v, m)
            } else {
                0
            }),
    decreases hi - lo,
{
    if hi > lo {
        lemma_total_update(s, i, v, lo, hi - 1);
        assert forall|m: Measure|
            #[trigger] total(s.update(i, v), m, lo, hi) == total(s, m, lo, hi) - (if lo <= i < hi {
                weight(s[i], m) - weight(v, m)
            } else {
                0
            }) by {
            assert(total(s.update(i, v), m, lo, hi) == total(s.update(i, v), m, lo, hi - 1)
                + weight(s.update(i, v)[hi - 1], m));
        }
    }
}

/// Pointwise `weight(s[j], a) <= weight(t[j], b)` carries over to the sums,
/// and equal sums then mean equal weights everywhere.
pub proof fn lemma_total_le(s: Seq<Sizer>, a: Measure, t: Seq<Sizer>, b: Measure, lo: int, hi: int)
    requires
        0 <= lo,
        hi <= s.len(),
        hi <= t.len(),
        forall|j: int| lo <= j < hi ==> weight(#[trigger] s[j], a) <= weight(t[j], b),
    ensures
        total(s, a, lo, hi) <= total(t, b, lo, hi),
        total(s, a, lo, hi) == total(t, b, lo, hi) ==> forall|j: int|
            lo <= j < hi ==> weight(#[trigger] s[j], a) == weight(t[j], b),
    decreases hi - lo,
{
    if hi > lo {
        lemma_total_le(s, a, t, b, lo, hi - 1);
    }
}

/// Sums of weights that agree pointwise are equal.
pub proof fn lemma_total_eq(s: Seq<Sizer>, a: Measure, t: Seq<Sizer>, b: Measure, lo: int, hi: int)
    requires
        0 <= lo,
        hi <= s.len(),
        hi <= t.len(),
        forall|j: int| lo <= j < hi ==> weight(#[trigger] s[j], a) == weight(t[j], b),
    ensures
        total(s, a, lo, hi) == total(t, b, lo, hi),
{
    lemma_total_le(s, a, t, b, lo, hi);
    lemma_total_le(t, b, s, a, lo, hi);
}

/// A sum holds each of its terms, and is bounded by the count times `u32::MAX`.
pub proof fn lemma_total_bounds(s: Seq<Sizer>, m: Measure, lo: int, hi: int)
    requires
        0 <= lo <= hi <= s.len(),
    ensures
        0 <= total(s, m, lo, hi) <= (hi - lo) * 0xffff_ffff,
        forall|j: int| lo <= j < hi ==> weight(#[trigger] s[j], m) <= total(s, m, lo, hi),
    decreases hi - lo,
{
    if hi > lo {
        lemma_total_bounds(s, m, lo, hi - 1);
        lemma_weight_bounds(s[hi - 1], m);
    }
}

/// A sum of zero weights is zero.
pub proof fn lemma_total_zero(s: Seq<Sizer>, m: Measure, lo: int, hi: int)
    requires
        0 <= lo,
        hi <= s.len(),
        forall|j: int| lo <= j < hi ==> weight(#[trigger] s[j], m) == 0,
    ensures
        total(s, m, lo, hi) == 0,
    decreases hi - lo,
{
    if hi > lo {
        lemma_total_zero(s, m, lo, hi - 1);
    }
}

/// Peeling the first term off a sum.
pub proof fn lemma_total_first(s: Seq<Sizer>, m: Measure, lo: int, hi: int)
    requires
        0 <= lo < hi <= s.len(),
    ensures
        total(s, m, lo, hi) == weight(s[lo], m) + total(s, m, lo + 1, hi),
    decreases hi - lo,
{
    if hi > lo + 1 {
        lemma_total_first(s, m, lo, hi - 1);
    } else {
        assert(total(s, m, lo, hi - 1) == 0);
        assert(total(s, m, lo + 1, hi) == 0);
    }
}

/// A sum splits at any point of its range.
pub proof fn lemma_total_split(s: Seq<Sizer>, m: Measure, lo: int, mid: int, hi: int)
    requires
        lo <= mid <= hi,
    ensures
        total(s, m, lo, hi) == total(s, m, lo, mid) + total(s, m, mid, hi),
    decreases hi - mid,
{
    if hi > mid {
        lemma_total_split(s, m, lo, mid, hi - 1);
    }
}

/// A sum over a sub-range is at most the sum over the range.
pub proof fn lemma_total_mono(s: Seq<Sizer>, m: Measure, lo1: int, lo2: int, hi2: int, hi1: int)
    requires
        0 <= lo1 <= lo2 <= hi2 <= hi1 <= s.len(),
    ensures
        total(s, m, lo2, hi2) <= total(s, m, lo1, hi1),
    decreases (hi1 - hi2) + (lo2 - lo1),
{
    if hi1 > hi2 {
        lemma_total_mono(s, m, lo1, lo2, hi2, hi1 - 1);
        lemma_weight_bounds(s[hi1 - 1], m);
    } else if lo2 > lo1 {
        lemma_total_first(s, m, lo1, hi1);
        lemma_total_mono(s, m, lo1 + 1, lo2, hi2, hi1);
        lemma_weight_bounds(s[lo1], m);
    }
}

} // verus!
