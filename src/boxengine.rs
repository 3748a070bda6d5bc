use vstd::prelude::*;
use crate::sizer::{
    Sizer, Measure, weight, total, sum, lemma_total_update, lemma_total_le, lemma_total_eq,
    lemma_total_bounds, lemma_total_zero, lemma_total_first, lemma_total_mono, lemma_weight_bounds, lemma_total_split,
};

verus! {

/// The largest free space the proportional phases are handed; it keeps
/// `stretch * free` within `u128`.
const FREE_LIMIT: u128 = 0xffff_ffff_ffff_ffff_ffff_ffff;

/// The units that rounding every share of a pass down leaves over.
fn pass_remainder(sizers: &Vec<Sizer>, weighted: bool, free0: u128, base: u128) -> (r: u128)
    requires
        base == pass_base(sizers@, weighted),
        base > 0,
        free0 <= FREE_LIMIT,
    ensures
        r == free0 - floor_sum(sizers@, weighted, free0 as int, base as int, sizers@.len() as int),
{
    let n = sizers.len();
    let ghost s = sizers@;
    let ghost m = base_measure(weighted);
    proof {
        assert(base == sum(s, m));
    }
    let mut fsum: u128 = 0;
    let mut j: usize = 0;
    while j < n
        invariant
            n == s.len(),
            s == sizers@,
            m == base_measure(weighted),
            base == sum(s, m),
            base > 0,
            free0 <= FREE_LIMIT,
            0 <= j <= n,
            fsum == floor_sum(s, weighted, free0 as int, base as int, j as int),
            fsum * base <= free0 * total(s, m, 0, j as int),
        decreases n - j,
    {
        let x = sizers[j];
        proof {
            lemma_total_mono(s, m, 0, 0, j + 1, n as int);
            lemma_total_bounds(s, m, 0, j as int);
        }
        if x.stretch > 0 || !weighted {
            if !x.done {
                let w: u128 = if weighted { x.stretch as u128 } else { 1 };
                proof {
                    assert(w * free0 <= 0xffff_ffff * FREE_LIMIT) by (nonlinear_arith)
                        requires
                            w <= 0xffff_ffff,
                            free0 <= FREE_LIMIT,
                    ;
                }
                let q = w * free0 / base;
                proof {
                    let t = total(s, m, 0, j + 1);
                    vstd::arithmetic::div_mod::lemma_fundamental_div_mod((w * free0) as int, base as int);
                    vstd::arithmetic::div_mod::lemma_mod_bound((w * free0) as int, base as int);
                    assert(t == total(s, m, 0, j as int) + w);
                    assert(q * base <= w * free0) by (nonlinear_arith)
                        requires
                            w * free0 == base * q + (w * free0) % (base as int),
                            (w * free0) % (base as int) >= 0,
                    ;
                    assert((fsum + q) * base <= free0 * t) by (nonlinear_arith)
                        requires
                            fsum * base <= free0 * total(s, m, 0, j as int),
                            q * base <= w * free0,
                            t == total(s, m, 0, j as int) + w,
                    ;
                    assert(fsum + q <= free0) by (nonlinear_arith)
                        requires
                            (fsum + q) * base <= free0 * t,
                            t <= base,
                            base > 0,
                            free0 >= 0,
                    ;
                }
                fsum = fsum + q;
            }
        }
        j = j + 1;
    }
    proof {
        assert(fsum <= free0) by (nonlinear_arith)
            requires
                fsum * base <= free0 * base,
                base > 0,
        ;
    }
    free0 - fsum
}

/// The portion of one sizer taking part in a pass, which uses up a
/// leftover unit when it takes one.
fn portion_of(s: &Sizer, weighted: bool, free0: u128, base: u128, extra: &mut u128) -> (r: u128)
    requires
        base > 0,
        free0 <= FREE_LIMIT,
    ensures
        r == portion(*s, weighted, free0 as int, base as int, *old(extra) as int),
        *final(extra) == if gets_extra(*s, weighted, free0 as int, base as int, *old(extra) as int) {
            *old(extra) - 1
        } else {
            *old(extra) as int
        },
        takes_part(*s, weighted) && free0 > 0 && r == 0 ==> share_of(*s, weighted, free0 as int, base as int)
            == 0 && *old(extra) == 0,
{
    let w: u128 = if weighted { s.stretch as u128 } else { 1 };
    proof {
        assert(w * free0 <= 0xffff_ffff * FREE_LIMIT) by (nonlinear_arith)
            requires
                w <= 0xffff_ffff,
                free0 <= FREE_LIMIT,
        ;
        vstd::arithmetic::div_mod::lemma_div_is_ordered_by_denominator((w * free0) as int, 1, base as int);
        vstd::arithmetic::div_mod::lemma_fundamental_div_mod((w * free0) as int, base as int);
        if takes_part(*s, weighted) && free0 > 0 {
            assert(w * free0 >= 1) by (nonlinear_arith)
                requires
                    w >= 1,
                    free0 >= 1,
            ;
            if (w * free0) / (base as int) == 0 {
                assert((w * free0) % (base as int) == w * free0) by (nonlinear_arith)
                    requires
                        w * free0 == base * ((w * free0) / (base as int)) + (w * free0) % (base as int),
                        (w * free0) / (base as int) == 0,
                ;
            }
        }
    }
    let prod = w * free0;
    let q = prod / base;
    if *extra > 0 && prod % base != 0 {
        *extra = *extra - 1;
        q + 1
    } else {
        q
    }
}

/// Rounded-down shares that are all zero sum to zero.
proof fn lemma_floor_sum_zero(s: Seq<Sizer>, weighted: bool, free0: int, base: int, hi: int)
    requires
        hi <= s.len(),
        forall|j: int| 0 <= j < hi && takes_part(#[trigger] s[j], weighted) ==> share_of(s[j], weighted, free0, base) == 0,
    ensures
        floor_sum(s, weighted, free0, base, hi) == 0,
    decreases hi,
{
    if hi > 0 {
        lemma_floor_sum_zero(s, weighted, free0, base, hi - 1);
    }
}

/// The state of the sizers during the shrink phases, against the sizers
/// they started from.
spec fn shrinking(s: Seq<Sizer>, s0: Seq<Sizer>) -> bool {
    &&& s.len() == s0.len()
    &&& forall|j: int|
        0 <= j < s.len() ==> {
            &&& (#[trigger] s[j]).same_bounds(s0[j])
            &&& s[j].size_hint == s0[j].size_hint
            &&& s0[j].min_size <= s[j].size <= s0[j].size
            &&& (s[j].done ==> s[j].size == s[j].min_size)
        }
}

/// The state of the sizers during the grow phases.
spec fn growing(s: Seq<Sizer>, s0: Seq<Sizer>) -> bool {
    &&& s.len() == s0.len()
    &&& forall|j: int|
        0 <= j < s.len() ==> {
            &&& (#[trigger] s[j]).same_bounds(s0[j])
            &&& s[j].size_hint == s0[j].size_hint
            &&& s0[j].size <= s[j].size <= s0[j].upper()
            &&& (s[j].done ==> s[j].size == s[j].upper())
        }
}

/// One sizer's turn in a pass: it moves by `amount`, capped by what is left
/// to hand out (`free`), toward its minimum (or, when `grow`, its
/// maximum). A sizer that would reach or cross that bound is set to it and
/// marked done, and only what it really used is taken from `free`.
pub open spec fn turn(x: Sizer, amount: int, free: int, grow: bool) -> (Sizer, int) {
    let amt = if amount < free {
        amount
    } else {
        free
    };
    let room = if grow {
        x.upper() - x.size
    } else {
        x.size - x.min_size
    };
    if amt >= room {
        let bound = if grow {
            x.upper()
        } else {
            x.min_size as int
        };
        (Sizer { size: bound as u32, done: true, ..x }, free - room)
    } else {
        let size = if grow {
            x.size + amt
        } else {
            x.size - amt
        };
        (Sizer { size: size as u32, ..x }, free - amt)
    }
}

/// The sizers that take part in a pass: those not done, and, in the
/// stretch-weighted phase, only the stretchable ones.
pub open spec fn takes_part(x: Sizer, weighted: bool) -> bool {
    !x.done && (!weighted || x.stretch > 0)
}

/// The exact share of one sizer in a pass that started with `free0` to hand
/// out over `base` (the total stretch of the sizers taking part when
/// `weighted`, their number otherwise), rounded down.
pub open spec fn share_of(x: Sizer, weighted: bool, free0: int, base: int) -> int {
    (unit(x, weighted) * free0) / base
}

/// Whether that exact share has a fractional part.
pub open spec fn has_fraction(x: Sizer, weighted: bool, free0: int, base: int) -> bool {
    (unit(x, weighted) * free0) % base != 0
}

/// Whether the sizer takes one of the `extra` units that rounding down left
/// over: the units go, one each, to the first sizers of the pass whose
/// exact share has a fractional part.
pub open spec fn gets_extra(x: Sizer, weighted: bool, free0: int, base: int, extra: int) -> bool {
    extra > 0 && has_fraction(x, weighted, free0, base)
}

/// What the sizer is given in the pass: its rounded-down share, plus one
/// if it takes a leftover unit.
pub open spec fn portion(x: Sizer, weighted: bool, free0: int, base: int, extra: int) -> int {
    share_of(x, weighted, free0, base) + if gets_extra(x, weighted, free0, base, extra) {
        1int
    } else {
        0
    }
}

/// The sum of the rounded-down shares of the sizers taking part among the
/// first `hi`.
pub open spec fn floor_sum(s: Seq<Sizer>, weighted: bool, free0: int, base: int, hi: int) -> int
    decreases hi,
{
    if hi <= 0 {
        0
    } else {
        floor_sum(s, weighted, free0, base, hi - 1) + if takes_part(s[hi - 1], weighted) {
            share_of(s[hi - 1], weighted, free0, base)
        } else {
            0
        }
    }
}

/// The rest of a pass, from sizer `i` on: each sizer taking part has its
/// turn with its portion, in row order, while `extra` leftover units remain
/// to be handed out.
pub open spec fn pass_from(
    s: Seq<Sizer>,
    free: int,
    grow: bool,
    weighted: bool,
    free0: int,
    base: int,
    extra: int,
    i: int,
) -> (Seq<Sizer>, int)
    decreases s.len() - i,
{
    if i < 0 || i >= s.len() {
        (s, free)
    } else if !takes_part(s[i], weighted) {
        pass_from(s, free, grow, weighted, free0, base, extra, i + 1)
    } else {
        let r = turn(s[i], portion(s[i], weighted, free0, base, extra), free, grow);
        let extra2 = if gets_extra(s[i], weighted, free0, base, extra) {
            extra - 1
        } else {
            extra
        };
        pass_from(s.update(i, r.0), r.1, grow, weighted, free0, base, extra2, i + 1)
    }
}

/// The base that a pass divides by, taken at the start of the pass.
pub open spec fn pass_base(s: Seq<Sizer>, weighted: bool) -> int {
    if weighted {
        sum(s, Measure::UndoneStretch)
    } else {
        sum(s, Measure::Undone)
    }
}

/// One whole pass, judged against the free space and base at its start.
/// The rounded-down shares leave `free - floor_sum` units over, which the
/// pass hands out one per sizer.
pub open spec fn pass(s: Seq<Sizer>, free: int, grow: bool, weighted: bool) -> (Seq<Sizer>, int) {
    let base = pass_base(s, weighted);
    pass_from(s, free, grow, weighted, free, base, free - floor_sum(s, weighted, free, base, s.len() as int), 0)
}

/// Whether another pass of the phase is due: something is left to hand
/// out and some sizer still takes part.
pub open spec fn live(s: Seq<Sizer>, free: int, weighted: bool) -> bool {
    free > 0 && if weighted {
        sum(s, Measure::UndoneStretchy) > 0
    } else {
        sum(s, Measure::Undone) > 0
    }
}

/// A phase: passes repeated while one is due. Each pass hands out
/// something or finishes a sizer, which the guard states so that the
/// definition is total.
pub open spec fn phase(s: Seq<Sizer>, free: int, grow: bool, weighted: bool) -> (Seq<Sizer>, int)
    decreases free, sum(s, Measure::Undone),
{
    if live(s, free, weighted) {
        let r = pass(s, free, grow, weighted);
        if (0 <= r.1 < free) || (r.1 == free && 0 <= sum(r.0, Measure::Undone) < sum(s, Measure::Undone)) {
            phase(r.0, r.1, grow, weighted)
        } else {
            r
        }
    } else {
        (s, free)
    }
}

/// The two phases in turn: by stretch, then in equal shares.
pub open spec fn distributed(s: Seq<Sizer>, free: int, grow: bool) -> Seq<Sizer> {
    let a = phase(s, free, grow, true);
    phase(a.0, a.1, grow, false).0
}

/// Every sizer at its clamped hint, not done.
pub open spec fn start_row(s: Seq<Sizer>) -> Seq<Sizer> {
    Seq::new(s.len(), |i: int| Sizer { size: s[i].clamped() as u32, done: false, ..s[i] })
}

/// Every sizer at its minimum, not done.
pub open spec fn min_row(s: Seq<Sizer>) -> Seq<Sizer> {
    Seq::new(s.len(), |i: int| Sizer { size: s[i].min_size, done: false, ..s[i] })
}

/// Every sizer at its maximum, not done.
pub open spec fn max_row(s: Seq<Sizer>) -> Seq<Sizer> {
    Seq::new(s.len(), |i: int| Sizer { size: s[i].upper() as u32, done: false, ..s[i] })
}

/// The row that a layout of `s` in `space` leaves.
pub open spec fn laid_out(s: Seq<Sizer>, space: int) -> Seq<Sizer> {
    let wanted = sum(s, Measure::Clamped);
    if s.len() == 0 {
        s
    } else if space == wanted {
        start_row(s)
    } else if space <= sum(s, Measure::Min) {
        min_row(s)
    } else if space >= sum(s, Measure::Upper) {
        max_row(s)
    } else if space < wanted {
        distributed(start_row(s), wanted - space, false)
    } else {
        distributed(start_row(s), space - wanted, true)
    }
}

/// What a layout of `s` in `space` returns: the shortfall below the total
/// minimum, the surplus above the total maximum, 0 otherwise, and `space`
/// itself for an empty row.
pub open spec fn leftover(s: Seq<Sizer>, space: int) -> int {
    if s.len() == 0 {
        space
    } else if space == sum(s, Measure::Clamped) {
        0
    } else if space <= sum(s, Measure::Min) {
        space - sum(s, Measure::Min)
    } else if space >= sum(s, Measure::Upper) {
        space - sum(s, Measure::Upper)
    } else {
        0
    }
}

/// The weight a sizer taking part in a pass has in it: its stretch in the
/// stretch-weighted phase, 1 in the equal one.
pub open spec fn unit(x: Sizer, weighted: bool) -> int {
    if weighted {
        x.stretch as int
    } else {
        1
    }
}

/// The measure whose sum is the base of a pass.
pub open spec fn base_measure(weighted: bool) -> Measure {
    if weighted {
        Measure::UndoneStretch
    } else {
        Measure::Undone
    }
}

/// The row after every sizer taking part from `i` on moved by `q` per
/// unit of weight.
spec fn moved_row(s: Seq<Sizer>, grow: bool, weighted: bool, q: int, i: int) -> Seq<Sizer> {
    Seq::new(
        s.len(),
        |j: int|
            if j >= i && takes_part(s[j], weighted) {
                let d = unit(s[j], weighted) * q;
                Sizer { size: (if grow { s[j].size + d } else { s[j].size - d }) as u32, ..s[j] }
            } else {
                s[j]
            },
    )
}

/// An exact share: `q` per unit of weight when the free space is `q`
/// times the base.
proof fn lemma_exact_share(x: Sizer, weighted: bool, q: int, base: int)
    requires
        base > 0,
        q >= 0,
    ensures
        share_of(x, weighted, q * base, base) == unit(x, weighted) * q,
        !has_fraction(x, weighted, q * base, base),
{
    let u = unit(x, weighted);
    assert(u * (q * base) == (u * q) * base + 0) by (nonlinear_arith);
    vstd::arithmetic::div_mod::lemma_fundamental_div_mod_converse(u * (q * base), base, u * q, 0);
}

/// The rounded-down shares of an exact pass add up to `q` times the
/// weight of the sizers counted.
proof fn lemma_floor_sum_exact(s: Seq<Sizer>, weighted: bool, q: int, base: int, hi: int)
    requires
        0 <= hi <= s.len(),
        base > 0,
        q >= 0,
    ensures
        floor_sum(s, weighted, q * base, base, hi) == q * total(s, base_measure(weighted), 0, hi),
    decreases hi,
{
    if hi > 0 {
        lemma_floor_sum_exact(s, weighted, q, base, hi - 1);
        lemma_exact_share(s[hi - 1], weighted, q, base);
        let w = weight(s[hi - 1], base_measure(weighted));
        if takes_part(s[hi - 1], weighted) {
            assert(w == unit(s[hi - 1], weighted));
        } else {
            assert(w == 0);
        }
        assert(q * total(s, base_measure(weighted), 0, hi) == q * total(s, base_measure(weighted), 0, hi - 1) + q * w)
            by (nonlinear_arith)
            requires
                total(s, base_measure(weighted), 0, hi) == total(s, base_measure(weighted), 0, hi - 1) + w,
        ;
        assert(unit(s[hi - 1], weighted) * q == q * unit(s[hi - 1], weighted)) by (nonlinear_arith);
    }
}

/// A pass in which every share divides exactly and fits in its sizer's
/// room hands each sizer its share and leaves nothing over.
proof fn lemma_exact_pass(s: Seq<Sizer>, grow: bool, weighted: bool, q: int, base: int, free: int, i: int)
    requires
        0 <= i <= s.len(),
        q >= 1,
        base > 0,
        free == q * total(s, base_measure(weighted), i, s.len() as int),
        forall|j: int|
            i <= j < s.len() && takes_part(#[trigger] s[j], weighted) ==> weight(s[j], room_measure(grow))
                > unit(s[j], weighted) * q,
    ensures
        pass_from(s, free, grow, weighted, q * base, base, 0, i) == (moved_row(s, grow, weighted, q, i), 0int),
    decreases s.len() - i,
{
    let n = s.len() as int;
    let m = base_measure(weighted);
    if i == n {
        assert(moved_row(s, grow, weighted, q, i) =~= s);
    } else {
        lemma_total_first(s, m, i, n);
        lemma_total_bounds(s, m, i + 1, n);
        if !takes_part(s[i], weighted) {
            lemma_exact_pass(s, grow, weighted, q, base, free, i + 1);
            assert(moved_row(s, grow, weighted, q, i + 1) =~= moved_row(s, grow, weighted, q, i));
        } else {
            let u = unit(s[i], weighted);
            let k = u * q;
            assert(u >= 1);
            assert(k >= 1) by (nonlinear_arith)
                requires
                    k == u * q,
                    u >= 1,
                    q >= 1,
            ;
            lemma_exact_share(s[i], weighted, q, base);
            assert(share_of(s[i], weighted, q * base, base) == k);
            assert(!gets_extra(s[i], weighted, q * base, base, 0));
            assert(portion(s[i], weighted, q * base, base, 0) == k);
            assert(free == k + q * total(s, m, i + 1, n)) by (nonlinear_arith)
                requires
                    free == q * (u + total(s, m, i + 1, n)),
                    k == u * q,
            ;
            assert(q * total(s, m, i + 1, n) >= 0) by (nonlinear_arith)
                requires
                    q >= 1,
                    total(s, m, i + 1, n) >= 0,
            ;
            let r = turn(s[i], k, free, grow);
            let s2 = s.update(i, r.0);
            assert(weight(s[i], room_measure(grow)) > k);
            assert(r.1 == q * total(s, m, i + 1, n));
            assert(pass_from(s, free, grow, weighted, q * base, base, 0, i) == pass_from(
                s2,
                r.1,
                grow,
                weighted,
                q * base,
                base,
                0,
                i + 1,
            ));
            lemma_total_eq(s2, m, s, m, i + 1, n);
            lemma_exact_pass(s2, grow, weighted, q, base, r.1, i + 1);
            assert(moved_row(s2, grow, weighted, q, i + 1) =~= moved_row(s, grow, weighted, q, i));
        }
    }
}

/// A phase whose first pass divides exactly and fits ends after it.
proof fn lemma_exact_phase(s: Seq<Sizer>, grow: bool, weighted: bool, q: int)
    requires
        q >= 1,
        sum(s, base_measure(weighted)) > 0,
        forall|j: int|
            0 <= j < s.len() && takes_part(#[trigger] s[j], weighted) ==> weight(s[j], room_measure(grow))
                > unit(s[j], weighted) * q,
    ensures
        phase(s, q * sum(s, base_measure(weighted)), grow, weighted) == (moved_row(s, grow, weighted, q, 0), 0int),
{
    let n = s.len() as int;
    let base = sum(s, base_measure(weighted));
    let free = q * base;
    assert(free > 0) by (nonlinear_arith)
        requires
            free == q * base,
            q >= 1,
            base > 0,
    ;
    lemma_total_bounds(s, Measure::UndoneStretchy, 0, n);
    if weighted {
        if sum(s, Measure::UndoneStretchy) == 0 {
            lemma_total_bounds(s, Measure::UndoneStretchy, 0, n);
            assert forall|j: int| 0 <= j < n implies weight(#[trigger] s[j], Measure::UndoneStretch) == 0 by {}
            lemma_total_zero(s, Measure::UndoneStretch, 0, n);
        }
    }
    assert(live(s, free, weighted));
    assert(pass_base(s, weighted) == base);
    lemma_floor_sum_exact(s, weighted, q, base, n);
    lemma_exact_pass(s, grow, weighted, q, base, free, 0);
    let r = pass(s, free, grow, weighted);
    assert(r == (moved_row(s, grow, weighted, q, 0), 0int));
    assert(!live(r.0, r.1, weighted));
    assert(phase(r.0, r.1, grow, weighted) == r);
    assert(phase(s, free, grow, weighted) == phase(r.0, r.1, grow, weighted));
}

/// Shares follow stretch. When the free space is `q` times the total
/// stretch of the unfinished stretchable sizers, and each of them has room
/// for more than `stretch * q`, every one of them moves by exactly
/// `stretch * q` and every other sizer keeps its size.
pub proof fn lemma_shares_follow_stretch(s: Seq<Sizer>, free: int, grow: bool, q: int)
    requires
        q >= 1,
        sum(s, Measure::UndoneStretch) > 0,
        free == q * sum(s, Measure::UndoneStretch),
        forall|j: int|
            0 <= j < s.len() && takes_part(#[trigger] s[j], true) ==> weight(s[j], room_measure(grow))
                > s[j].stretch * q,
    ensures
        distributed(s, free, grow).len() == s.len(),
        forall|j: int|
            0 <= j < s.len() ==> #[trigger] distributed(s, free, grow)[j].size == if takes_part(s[j], true) {
                if grow {
                    s[j].size + s[j].stretch * q
                } else {
                    s[j].size - s[j].stretch * q
                }
            } else {
                s[j].size as int
            },
{
    lemma_exact_phase(s, grow, true, q);
    let a = phase(s, free, grow, true);
    assert(!live(a.0, a.1, false));
    assert forall|j: int| 0 <= j < s.len() && takes_part(s[j], true) implies (grow ==> (#[trigger] s[j]).size
        + s[j].stretch * q <= u32::MAX) && (!grow ==> s[j].size - s[j].stretch * q >= 0) by {
        if grow {
            assert(s[j].grow_room() > s[j].stretch * q);
        } else {
            assert(s[j].shrink_room() > s[j].stretch * q);
        }
        lemma_weight_bounds(s[j], Measure::GrowRoom);
        lemma_weight_bounds(s[j], Measure::ShrinkRoom);
    }
}

/// Equal shares once nothing stretches. When no unfinished sizer is
/// stretchable, the free space is `q` times the number of unfinished
/// sizers, and each of them has room for more than `q`, every one of them
/// moves by exactly `q` and every finished sizer keeps its size.
pub proof fn lemma_equal_split(s: Seq<Sizer>, free: int, grow: bool, q: int)
    requires
        q >= 1,
        sum(s, Measure::UndoneStretchy) == 0,
        sum(s, Measure::Undone) > 0,
        free == q * sum(s, Measure::Undone),
        forall|j: int| 0 <= j < s.len() && !(#[trigger] s[j]).done ==> weight(s[j], room_measure(grow)) > q,
    ensures
        distributed(s, free, grow).len() == s.len(),
        forall|j: int|
            0 <= j < s.len() ==> #[trigger] distributed(s, free, grow)[j].size == if !s[j].done {
                if grow {
                    s[j].size + q
                } else {
                    s[j].size - q
                }
            } else {
                s[j].size as int
            },
{
    assert(!live(s, free, true));
    assert forall|j: int|
        0 <= j < s.len() && takes_part(#[trigger] s[j], false) implies weight(s[j], room_measure(grow)) > unit(
        s[j],
        false,
    ) * q by {}
    lemma_exact_phase(s, grow, false, q);
    assert forall|j: int| 0 <= j < s.len() && !s[j].done implies (grow ==> (#[trigger] s[j]).size + q
        <= u32::MAX) && (!grow ==> s[j].size - q >= 0) by {
        lemma_weight_bounds(s[j], Measure::GrowRoom);
        lemma_weight_bounds(s[j], Measure::ShrinkRoom);
    }
}

/// A layout depends on the hints and bounds alone: rows that differ only
/// in their stale sizes and done flags are laid out alike, with the same
/// result.
pub proof fn lemma_layout_ignores_stale_state(s1: Seq<Sizer>, s2: Seq<Sizer>, space: int)
    requires
        s1.len() == s2.len(),
        forall|i: int|
            0 <= i < s1.len() ==> (#[trigger] s1[i]).same_bounds(s2[i]) && s1[i].size_hint == s2[i].size_hint,
    ensures
        laid_out(s1, space) == laid_out(s2, space),
        leftover(s1, space) == leftover(s2, space),
{
    let n = s1.len() as int;
    lemma_total_eq(s1, Measure::Min, s2, Measure::Min, 0, n);
    lemma_total_eq(s1, Measure::Upper, s2, Measure::Upper, 0, n);
    lemma_total_eq(s1, Measure::Clamped, s2, Measure::Clamped, 0, n);
    assert(start_row(s1) =~= start_row(s2));
    assert(min_row(s1) =~= min_row(s2));
    assert(max_row(s1) =~= max_row(s2));
}

/// The bound a pass moves a sizer toward.
pub open spec fn bound_of(x: Sizer, grow: bool) -> int {
    if grow {
        x.upper()
    } else {
        x.min_size as int
    }
}

/// `d` units lie within one unit of the exact share of `x` in a pass that
/// started with `free0` to hand out over `base`.
pub open spec fn near_share(d: int, x: Sizer, weighted: bool, free0: int, base: int) -> bool {
    unit(x, weighted) * free0 - base < d * base < unit(x, weighted) * free0 + base
}

/// What a pass does to one sizer: one taking part either reaches its bound
/// and is done, or moves toward it by its exact share give or take less
/// than one unit; one not taking part is left alone.
pub open spec fn settles(x: Sizer, y: Sizer, grow: bool, weighted: bool, free0: int, base: int) -> bool {
    if takes_part(x, weighted) {
        &&& y.same_bounds(x)
        &&& y.size_hint == x.size_hint
        &&& {
            ||| y.done && y.size == bound_of(x, grow)
            ||| !y.done && near_share(if grow { y.size - x.size } else { x.size - y.size }, x, weighted, free0, base)
        }
    } else {
        y == x
    }
}

/// What the sizers taking part from `i` on are given in the rest of a pass.
spec fn rest(s: Seq<Sizer>, weighted: bool, free0: int, base: int, extra: int, i: int) -> int
    decreases s.len() - i,
{
    if i < 0 || i >= s.len() {
        0
    } else if !takes_part(s[i], weighted) {
        rest(s, weighted, free0, base, extra, i + 1)
    } else {
        portion(s[i], weighted, free0, base, extra) + rest(
            s,
            weighted,
            free0,
            base,
            if gets_extra(s[i], weighted, free0, base, extra) {
                extra - 1
            } else {
                extra
            },
            i + 1,
        )
    }
}

/// A portion lies within one unit of the exact share.
proof fn lemma_portion_near(x: Sizer, weighted: bool, free0: int, base: int, extra: int)
    requires
        base > 0,
        free0 >= 0,
    ensures
        near_share(portion(x, weighted, free0, base, extra), x, weighted, free0, base),
        portion(x, weighted, free0, base, extra) >= 0,
{
    let p = unit(x, weighted) * free0;
    vstd::arithmetic::div_mod::lemma_fundamental_div_mod(p, base);
    vstd::arithmetic::div_mod::lemma_mod_bound(p, base);
    vstd::arithmetic::div_mod::lemma_div_pos_is_pos(p, base);
    assert(p >= 0) by (nonlinear_arith)
        requires
            unit(x, weighted) >= 0,
            free0 >= 0,
            p == unit(x, weighted) * free0,
    ;
    let q = p / base;
    let r = p % base;
    assert(q * base == p - r) by (nonlinear_arith)
        requires
            p == base * q + r,
    ;
    assert((q + 1) * base == p - r + base) by (nonlinear_arith)
        requires
            p == base * q + r,
    ;
}

/// The rounded-down shares weigh no more than the free space spread over
/// the weights counted.
proof fn lemma_floor_sum_bound(s: Seq<Sizer>, weighted: bool, free0: int, base: int, hi: int)
    requires
        0 <= hi <= s.len(),
        base > 0,
        free0 >= 0,
    ensures
        floor_sum(s, weighted, free0, base, hi) * base <= free0 * total(s, base_measure(weighted), 0, hi),
        floor_sum(s, weighted, free0, base, hi) >= 0,
    decreases hi,
{
    if hi > 0 {
        let x = s[hi - 1];
        let m = base_measure(weighted);
        lemma_floor_sum_bound(s, weighted, free0, base, hi - 1);
        lemma_portion_near(x, weighted, free0, base, 0);
        let f = floor_sum(s, weighted, free0, base, hi - 1);
        let t = total(s, m, 0, hi - 1);
        if takes_part(x, weighted) {
            let q = share_of(x, weighted, free0, base);
            let p = unit(x, weighted) * free0;
            vstd::arithmetic::div_mod::lemma_fundamental_div_mod(p, base);
            vstd::arithmetic::div_mod::lemma_mod_bound(p, base);
            assert(q * base <= p) by (nonlinear_arith)
                requires
                    p == base * q + p % base,
                    p % base >= 0,
            ;
            assert(weight(x, m) == unit(x, weighted));
            assert((f + q) * base <= free0 * (t + unit(x, weighted))) by (nonlinear_arith)
                requires
                    f * base <= free0 * t,
                    q * base < unit(x, weighted) * free0 + base,
                    q * base <= unit(x, weighted) * free0,
            ;
        } else {
            assert(weight(x, m) == 0);
        }
    }
}

/// The rest of a pass is at most the rounded-down shares still to come
/// plus the leftover units still to hand out.
proof fn lemma_rest_bound(s: Seq<Sizer>, weighted: bool, free0: int, base: int, extra: int, i: int)
    requires
        0 <= i <= s.len(),
        base > 0,
        free0 >= 0,
        extra >= 0,
    ensures
        0 <= rest(s, weighted, free0, base, extra, i),
        rest(s, weighted, free0, base, extra, i) <= floor_sum(s, weighted, free0, base, s.len() as int)
            - floor_sum(s, weighted, free0, base, i) + extra,
    decreases s.len() - i,
{
    if i < s.len() {
        lemma_portion_near(s[i], weighted, free0, base, extra);
        let e2 = if takes_part(s[i], weighted) && gets_extra(s[i], weighted, free0, base, extra) {
            extra - 1
        } else {
            extra
        };
        lemma_rest_bound(s, weighted, free0, base, e2, i + 1);
        assert(floor_sum(s, weighted, free0, base, i + 1) == floor_sum(s, weighted, free0, base, i) + if takes_part(
            s[i],
            weighted,
        ) {
            share_of(s[i], weighted, free0, base)
        } else {
            0
        });
    }
}

/// The rest of a pass reads only the sizers still to come.
proof fn lemma_rest_frame(s1: Seq<Sizer>, s2: Seq<Sizer>, weighted: bool, free0: int, base: int, extra: int, i: int)
    requires
        0 <= i,
        s1.len() == s2.len(),
        forall|j: int| i <= j < s1.len() ==> #[trigger] s1[j] == s2[j],
    ensures
        rest(s1, weighted, free0, base, extra, i) == rest(s2, weighted, free0, base, extra, i),
    decreases s1.len() - i,
{
    if i < s1.len() {
        lemma_rest_frame(s1, s2, weighted, free0, base, extra, i + 1);
        let e2 = if gets_extra(s1[i], weighted, free0, base, extra) {
            extra - 1
        } else {
            extra
        };
        lemma_rest_frame(s1, s2, weighted, free0, base, e2, i + 1);
    }
}

/// While what is left covers the rest of the pass, every sizer still to
/// come is settled and those already past are left as they are.
proof fn lemma_pass_from_settles(
    s: Seq<Sizer>,
    free: int,
    grow: bool,
    weighted: bool,
    free0: int,
    base: int,
    extra: int,
    i: int,
)
    requires
        0 <= i <= s.len(),
        base > 0,
        free0 >= 0,
        extra >= 0,
        free >= rest(s, weighted, free0, base, extra, i),
    ensures
        pass_from(s, free, grow, weighted, free0, base, extra, i).0.len() == s.len(),
        forall|j: int| 0 <= j < i ==> #[trigger] pass_from(s, free, grow, weighted, free0, base, extra, i).0[j] == s[j],
        forall|j: int|
            i <= j < s.len() ==> settles(
                s[j],
                #[trigger] pass_from(s, free, grow, weighted, free0, base, extra, i).0[j],
                grow,
                weighted,
                free0,
                base,
            ),
    decreases s.len() - i,
{
    if i < s.len() {
        let x = s[i];
        let e2 = if takes_part(x, weighted) && gets_extra(x, weighted, free0, base, extra) {
            extra - 1
        } else {
            extra
        };
        lemma_rest_bound(s, weighted, free0, base, e2, i + 1);
        lemma_portion_near(x, weighted, free0, base, extra);
        if !takes_part(x, weighted) {
            lemma_pass_from_settles(s, free, grow, weighted, free0, base, extra, i + 1);
        } else {
            let p = portion(x, weighted, free0, base, extra);
            let r = turn(x, p, free, grow);
            let s2 = s.update(i, r.0);
            lemma_rest_frame(s2, s, weighted, free0, base, e2, i + 1);
            lemma_pass_from_settles(s2, r.1, grow, weighted, free0, base, e2, i + 1);
            assert(settles(x, r.0, grow, weighted, free0, base));
        }
    }
}

/// Every pass hands each sizer taking part its exact share, give or take
/// less than one unit (`stretch * free / total stretch` in the stretch
/// phase, `free / count` in the equal one), unless the sizer reaches its
/// bound first; the rounded-down shares never add up to more than the free
/// space, so the pass never runs dry before its last sizer.
pub proof fn lemma_pass_within_unit(s: Seq<Sizer>, free: int, grow: bool, weighted: bool)
    requires
        free >= 0,
        pass_base(s, weighted) > 0,
    ensures
        pass(s, free, grow, weighted).0.len() == s.len(),
        forall|j: int|
            0 <= j < s.len() ==> settles(
                s[j],
                #[trigger] pass(s, free, grow, weighted).0[j],
                grow,
                weighted,
                free,
                pass_base(s, weighted),
            ),
{
    let n = s.len() as int;
    let base = pass_base(s, weighted);
    lemma_floor_sum_bound(s, weighted, free, base, n);
    assert(total(s, base_measure(weighted), 0, n) == base);
    let f = floor_sum(s, weighted, free, base, n);
    assert(f <= free) by (nonlinear_arith)
        requires
            f * base <= free * base,
            base > 0,
    ;
    let extra = free - f;
    lemma_rest_bound(s, weighted, free, base, extra, 0);
    lemma_pass_from_settles(s, free, grow, weighted, free, base, extra, 0);
}

/// How far a drag moves the handle: the request, limited by the room the
/// growing side has to grow and the shrinking side has to shrink.
pub open spec fn moved(requested: int, grow_limit: int, shrink_limit: int) -> int {
    if requested <= grow_limit && requested <= shrink_limit {
        requested
    } else if grow_limit <= shrink_limit {
        grow_limit
    } else {
        shrink_limit
    }
}

/// The room measure a walk hands out against.
pub open spec fn room_measure(grow: bool) -> Measure {
    if grow {
        Measure::GrowRoom
    } else {
        Measure::ShrinkRoom
    }
}

/// The hint that a greedy walk over the run `[lo, hi)` leaves on sizer `i`,
/// when it hands out `m` units of growth (or shrinkage), starting at `hi - 1`
/// and going down when `downward`, starting at `lo` and going up otherwise.
/// Each sizer visited takes what it has room for, up to what is left; the
/// walk stops once nothing is left, and the sizers it does not reach keep
/// their hints.
pub open spec fn walked_hint(s: Seq<Sizer>, lo: int, hi: int, m: int, grow: bool, downward: bool, i: int) -> int {
    let k = room_measure(grow);
    let ahead = if downward {
        total(s, k, i + 1, hi)
    } else {
        total(s, k, lo, i)
    };
    if lo <= i < hi && m > ahead {
        let left = m - ahead;
        let take = if weight(s[i], k) <= left {
            weight(s[i], k)
        } else {
            left
        };
        if grow {
            s[i].size + take
        } else {
            s[i].size - take
        }
    } else {
        s[i].size_hint as int
    }
}

/// The hint of sizer `i` after a drag by `delta` of the handle at `index`.
///
/// For a positive `delta` the sizers before `index` grow, walked from
/// `index - 1` down to 0, and those after it shrink, walked from
/// `index + 1` up; a negative `delta` mirrors this. The sizer at `index`
/// keeps its hint. Nothing changes when `delta` is 0 or `index` has no
/// sizer after it.
pub open spec fn hint_after(s: Seq<Sizer>, index: int, delta: int, i: int) -> int {
    let n = s.len() as int;
    if delta == 0 || index + 1 >= n {
        s[i].size_hint as int
    } else if delta > 0 {
        let m = moved(delta, total(s, Measure::GrowRoom, 0, index), total(s, Measure::ShrinkRoom, index + 1, n));
        if i < index {
            walked_hint(s, 0, index, m, true, true, i)
        } else {
            walked_hint(s, index + 1, n, m, false, false, i)
        }
    } else {
        let m = moved(-delta, total(s, Measure::GrowRoom, index + 1, n), total(s, Measure::ShrinkRoom, 0, index));
        if i < index {
            walked_hint(s, 0, index, m, false, true, i)
        } else {
            walked_hint(s, index + 1, n, m, true, false, i)
        }
    }
}

/// The sizers differ at most in their hints.
pub open spec fn hints_only(s: Seq<Sizer>, s0: Seq<Sizer>) -> bool {
    &&& s.len() == s0.len()
    &&& forall|j: int|
        0 <= j < s.len() ==> {
            &&& (#[trigger] s[j]).same_bounds(s0[j])
            &&& s[j].size == s0[j].size
            &&& s[j].done == s0[j].done
        }
}

/// The room a sizer has to grow (or shrink).
fn room_of(s: &Sizer, grow: bool) -> (r: u32)
    ensures
        r == weight(*s, room_measure(grow)),
{
    if grow {
        let up = s.upper_size();
        if s.size <= up {
            up - s.size
        } else {
            0
        }
    } else if s.size >= s.min_size {
        s.size - s.min_size
    } else {
        0
    }
}

/// The total room of the run `[lo, hi)`.
fn room_sum(sizers: &Vec<Sizer>, lo: usize, hi: usize, grow: bool) -> (r: u128)
    requires
        lo <= hi <= sizers@.len(),
    ensures
        r == total(sizers@, room_measure(grow), lo as int, hi as int),
{
    let mut r: u128 = 0;
    let mut j: usize = lo;
    while j < hi
        invariant
            lo <= j <= hi <= sizers@.len(),
            r == total(sizers@, room_measure(grow), lo as int, j as int),
        decreases hi - j,
    {
        proof {
            lemma_total_bounds(sizers@, room_measure(grow), lo as int, j + 1);
        }
        r = r + room_of(&sizers[j], grow) as u128;
        j = j + 1;
    }
    r
}

/// Walks `[lo, hi)` from `lo` up, handing out `m`.
fn walk_up(sizers: &mut Vec<Sizer>, lo: usize, hi: usize, m: u128, grow: bool)
    requires
        lo <= hi <= old(sizers)@.len(),
    ensures
        hints_only(final(sizers)@, old(sizers)@),
        forall|i: int|
            0 <= i < old(sizers)@.len() ==> #[trigger] final(sizers)@[i].size_hint == walked_hint(
                old(sizers)@,
                lo as int,
                hi as int,
                m as int,
                grow,
                false,
                i,
            ),
{
    let ghost s0 = sizers@;
    let ghost k = room_measure(grow);
    let mut remaining = m;
    let mut j: usize = lo;
    while j < hi && remaining > 0
        invariant
            lo <= j <= hi <= s0.len(),
            k == room_measure(grow),
            hints_only(sizers@, s0),
            remaining == (if m > total(s0, k, lo as int, j as int) {
                m - total(s0, k, lo as int, j as int)
            } else {
                0
            }),
            forall|i: int|
                0 <= i < s0.len() && (i < lo || i >= j) ==> #[trigger] sizers@[i] == s0[i],
            forall|i: int|
                lo <= i < j ==> #[trigger] sizers@[i].size_hint == walked_hint(s0, lo as int, hi as int, m as int, grow, false, i),
        decreases hi - j,
    {
        let mut t = sizers[j];
        let room = room_of(&t, grow);
        let take = if (room as u128) < remaining { room as u128 } else { remaining };
        t.size_hint = if grow {
            t.size + take as u32
        } else {
            t.size - take as u32
        };
        proof {
            lemma_weight_bounds(s0[j as int], k);
            assert(total(s0, k, lo as int, j + 1) == total(s0, k, lo as int, j as int) + weight(s0[j as int], k));
            assert(t.size_hint == walked_hint(s0, lo as int, hi as int, m as int, grow, false, j as int));
        }
        remaining = remaining - take;
        sizers[j] = t;
        j = j + 1;
    }
    proof {
        assert forall|i: int| 0 <= i < s0.len() implies #[trigger] sizers@[i].size_hint == walked_hint(
            s0,
            lo as int,
            hi as int,
            m as int,
            grow,
            false,
            i,
        ) by {
            if j <= i < hi {
                lemma_total_mono(s0, k, lo as int, lo as int, j as int, i);
            }
        }
    }
}

/// Walks `[lo, hi)` from `hi - 1` down, handing out `m`.
fn walk_down(sizers: &mut Vec<Sizer>, lo: usize, hi: usize, m: u128, grow: bool)
    requires
        lo <= hi <= old(sizers)@.len(),
    ensures
        hints_only(final(sizers)@, old(sizers)@),
        forall|i: int|
            0 <= i < old(sizers)@.len() ==> #[trigger] final(sizers)@[i].size_hint == walked_hint(
                old(sizers)@,
                lo as int,
                hi as int,
                m as int,
                grow,
                true,
                i,
            ),
{
    let ghost s0 = sizers@;
    let ghost k = room_measure(grow);
    let mut remaining = m;
    let mut j: usize = hi;
    while j > lo && remaining > 0
        invariant
            lo <= j <= hi <= s0.len(),
            k == room_measure(grow),
            hints_only(sizers@, s0),
            remaining == (if m > total(s0, k, j as int, hi as int) {
                m - total(s0, k, j as int, hi as int)
            } else {
                0
            }),
            forall|i: int|
                0 <= i < s0.len() && (i < j || i >= hi) ==> #[trigger] sizers@[i] == s0[i],
            forall|i: int|
                j <= i < hi ==> #[trigger] sizers@[i].size_hint == walked_hint(s0, lo as int, hi as int, m as int, grow, true, i),
        decreases j - lo,
    {
        j = j - 1;
        proof {
            lemma_total_first(s0, k, j as int, hi as int);
        }
        let mut t = sizers[j];
        let room = room_of(&t, grow);
        let take = if (room as u128) < remaining { room as u128 } else { remaining };
        t.size_hint = if grow {
            t.size + take as u32
        } else {
            t.size - take as u32
        };
        proof {
            lemma_weight_bounds(s0[j as int], k);
            assert(t.size_hint == walked_hint(s0, lo as int, hi as int, m as int, grow, true, j as int));
        }
        remaining = remaining - take;
        sizers[j] = t;
    }
    proof {
        assert forall|i: int| 0 <= i < s0.len() implies #[trigger] sizers@[i].size_hint == walked_hint(
            s0,
            lo as int,
            hi as int,
            m as int,
            grow,
            true,
            i,
        ) by {
            if lo <= i < j {
                lemma_total_mono(s0, k, i + 1, j as int, hi as int, hi as int);
            }
        }
    }
}

/// Summing the hints that an upward walk leaves: the run's hints move by
/// what was handed out, which is `m` or all the room the run has.
proof fn lemma_walk_up_hints(s: Seq<Sizer>, t: Seq<Sizer>, lo: int, hi: int, m: int, grow: bool, h: int)
    requires
        0 <= lo <= h <= hi <= s.len(),
        t.len() == s.len(),
        0 <= m,
        forall|i: int| lo <= i < hi ==> #[trigger] t[i].size_hint == walked_hint(s, lo, hi, m, grow, false, i),
        forall|i: int| lo <= i < hi ==> (#[trigger] s[i]).size_hint == s[i].size,
    ensures
        ({
            let total_room = total(s, room_measure(grow), lo, h);
            let given = if m <= total_room { m } else { total_room };
            total(t, Measure::Hint, lo, h) == total(s, Measure::Hint, lo, h) + if grow { given } else { -given }
        }),
    decreases h - lo,
{
    if h > lo {
        lemma_walk_up_hints(s, t, lo, hi, m, grow, h - 1);
        lemma_weight_bounds(s[h - 1], room_measure(grow));
        assert(t[h - 1].size_hint == walked_hint(s, lo, hi, m, grow, false, h - 1));
    }
}

/// Summing the hints that a downward walk leaves, as for an upward one.
proof fn lemma_walk_down_hints(s: Seq<Sizer>, t: Seq<Sizer>, lo: int, hi: int, m: int, grow: bool, l: int)
    requires
        0 <= lo <= l <= hi <= s.len(),
        t.len() == s.len(),
        0 <= m,
        forall|i: int| lo <= i < hi ==> #[trigger] t[i].size_hint == walked_hint(s, lo, hi, m, grow, true, i),
        forall|i: int| lo <= i < hi ==> (#[trigger] s[i]).size_hint == s[i].size,
    ensures
        ({
            let total_room = total(s, room_measure(grow), l, hi);
            let given = if m <= total_room { m } else { total_room };
            total(t, Measure::Hint, l, hi) == total(s, Measure::Hint, l, hi) + if grow { given } else { -given }
        }),
    decreases hi - l,
{
    if l < hi {
        lemma_walk_down_hints(s, t, lo, hi, m, grow, l + 1);
        lemma_weight_bounds(s[l], room_measure(grow));
        lemma_total_first(s, room_measure(grow), l, hi);
        lemma_total_first(s, Measure::Hint, l, hi);
        lemma_total_first(t, Measure::Hint, l, hi);
        assert(t[l].size_hint == walked_hint(s, lo, hi, m, grow, true, l));
    }
}

/// A drag keeps the total of the hints: what one side of the handle gains
/// the other side gives up. This holds when every hint equals its size, as
/// after a layout that realised the hints; `s` is the row before `adjust`
/// and `t` the row it leaves.
pub proof fn lemma_adjust_conserves_hints(s: Seq<Sizer>, t: Seq<Sizer>, index: int, delta: int)
    requires
        0 <= index,
        hints_only(t, s),
        forall|i: int| 0 <= i < s.len() ==> #[trigger] t[i].size_hint == hint_after(s, index, delta, i),
        forall|i: int| 0 <= i < s.len() ==> (#[trigger] s[i]).size_hint == s[i].size,
    ensures
        sum(t, Measure::Hint) == sum(s, Measure::Hint),
{
    let n = s.len() as int;
    if delta == 0 || index + 1 >= n {
        lemma_total_eq(t, Measure::Hint, s, Measure::Hint, 0, n);
    } else {
        let (d, up, down, grow_up) = if delta > 0 {
            (delta, total(s, Measure::ShrinkRoom, index + 1, n), total(s, Measure::GrowRoom, 0, index), false)
        } else {
            (-delta, total(s, Measure::GrowRoom, index + 1, n), total(s, Measure::ShrinkRoom, 0, index), true)
        };
        let m = moved(d, down, up);
        let m = if delta > 0 { m } else { moved(d, up, down) };
        lemma_total_bounds(s, Measure::GrowRoom, 0, n);
        lemma_total_bounds(s, Measure::ShrinkRoom, 0, n);
        lemma_total_bounds(s, Measure::GrowRoom, index + 1, n);
        lemma_total_bounds(s, Measure::ShrinkRoom, index + 1, n);
        lemma_total_bounds(s, Measure::GrowRoom, 0, index);
        lemma_total_bounds(s, Measure::ShrinkRoom, 0, index);
        assert forall|i: int| index + 1 <= i < n implies #[trigger] t[i].size_hint == walked_hint(
            s,
            index + 1,
            n,
            m,
            grow_up,
            false,
            i,
        ) by {}
        assert forall|i: int| 0 <= i < index implies #[trigger] t[i].size_hint == walked_hint(
            s,
            0,
            index,
            m,
            !grow_up,
            true,
            i,
        ) by {}
        lemma_walk_up_hints(s, t, index + 1, n, m, grow_up, n);
        lemma_walk_down_hints(s, t, 0, index, m, !grow_up, 0);
        lemma_total_split(s, Measure::Hint, 0, index, n);
        lemma_total_split(t, Measure::Hint, 0, index, n);
        lemma_total_first(s, Measure::Hint, index, n);
        lemma_total_first(t, Measure::Hint, index, n);
        assert(t[index].size_hint == hint_after(s, index, delta, index));
    }
}

/// A drag never takes a hint out of its bounds: when every sizer of the
/// row has `min_size <= max_size` and both its size and its hint within
/// them, so does every hint that `adjust` leaves.
pub proof fn lemma_adjust_keeps_bounds(s: Seq<Sizer>, t: Seq<Sizer>, index: int, delta: int)
    requires
        hints_only(t, s),
        forall|i: int| 0 <= i < s.len() ==> #[trigger] t[i].size_hint == hint_after(s, index, delta, i),
        forall|i: int|
            0 <= i < s.len() ==> {
                &&& (#[trigger] s[i]).min_size <= s[i].max_size
                &&& s[i].min_size <= s[i].size <= s[i].max_size
                &&& s[i].min_size <= s[i].size_hint <= s[i].max_size
            },
    ensures
        forall|i: int|
            0 <= i < t.len() ==> (#[trigger] t[i]).min_size <= t[i].size_hint <= t[i].max_size,
{
    assert forall|i: int| 0 <= i < t.len() implies (#[trigger] t[i]).min_size <= t[i].size_hint
        <= t[i].max_size by {
        assert(t[i].size_hint == hint_after(s, index, delta, i));
        assert(s[i].min_size <= s[i].max_size);
    }
}

/// The stateless layout engine.
pub struct BoxEngine;

impl BoxEngine {
    /// A sizer with the given preferred size (0 when none), no lower bound,
    /// no upper bound and a stretch factor of 1.
    pub fn create_sizer(hint: Option<u32>) -> (s: Sizer)
        ensures
            s.size_hint == (match hint {
                Some(h) => h,
                None => 0,
            }),
            s.size == s.size_hint,
            s.min_size == 0,
            s.max_size == u32::MAX,
            s.stretch == 1,
            !s.done,
    {
        let mut size_hint: u32 = 0;
        let mut size: u32 = 0;
        if let Some(h) = hint {
            size_hint = h;
            size = h;
        }
        Sizer { size_hint, min_size: 0, max_size: u32::MAX, stretch: 1, size, done: false }
    }

    /// Lays the sizers out in `space`, writing each sizer's `size`.
    ///
    /// Every size starts at its clamped hint. When that already fills
    /// `space` the result is 0. When `space` is at most the sum of the
    /// minimums, every sizer gets its minimum and the (non-positive)
    /// shortfall `space - total minimum` is returned; when it is at least
    /// the sum of the maximums, every sizer gets its maximum and the surplus
    /// `space - total maximum` is returned. Otherwise the difference is
    /// taken from, or given to, the sizers by stretch factor first, and
    /// evenly once every stretchable sizer is at its bound; the sizes then
    /// add up to `space` exactly and the result is 0. An empty row returns
    /// `space`.
    ///
    /// The row left behind is exactly `laid_out(old, space)` and the result
    /// `leftover(old, space)`; `distributed` spells out the passes of the two
    /// phases, each judged against the free space and base at its start.
    /// Sizes are whole units: each share of a pass is rounded down, and the
    /// units this leaves over (fewer than the sizers taking part) go one
    /// each to the first sizers whose exact share has a fractional part, so
    /// every portion lies within one unit of the exact share.
    pub fn calc(sizers: &mut Vec<Sizer>, space: u64) -> (r: i128)
        ensures
            final(sizers)@ == laid_out(old(sizers)@, space as int),
            r == leftover(old(sizers)@, space as int),
            final(sizers)@.len() == old(sizers)@.len(),
            forall|i: int|
                0 <= i < old(sizers)@.len() ==> {
                    &&& (#[trigger] final(sizers)@[i]).same_bounds(old(sizers)@[i])
                    &&& final(sizers)@[i].size_hint == old(sizers)@[i].size_hint
                    &&& old(sizers)@[i].min_size <= final(sizers)@[i].size <= old(sizers)@[i].upper()
                    &&& old(sizers)@[i].min_size <= old(sizers)@[i].max_size ==> final(sizers)@[i].size
                        <= old(sizers)@[i].max_size
                },
            old(sizers)@.len() == 0 ==> r == space,
            space == sum(old(sizers)@, Measure::Clamped) ==> r == 0 && forall|i: int|
                0 <= i < old(sizers)@.len() ==> #[trigger] final(sizers)@[i].size == old(sizers)@[i].clamped(),
            space <= sum(old(sizers)@, Measure::Min) ==> r == space - sum(old(sizers)@, Measure::Min)
                && forall|i: int|
                0 <= i < old(sizers)@.len() ==> #[trigger] final(sizers)@[i].size == old(sizers)@[i].min_size,
            space >= sum(old(sizers)@, Measure::Upper) ==> r == space - sum(old(sizers)@, Measure::Upper)
                && forall|i: int|
                0 <= i < old(sizers)@.len() ==> #[trigger] final(sizers)@[i].size == old(sizers)@[i].upper(),
            sum(old(sizers)@, Measure::Min) <= space <= sum(old(sizers)@, Measure::Upper) ==> r == 0
                && sum(final(sizers)@, Measure::Size) == space,
            space <= sum(old(sizers)@, Measure::Clamped) ==> forall|i: int|
                0 <= i < old(sizers)@.len() ==> #[trigger] final(sizers)@[i].size <= old(sizers)@[i].clamped(),
            space >= sum(old(sizers)@, Measure::Clamped) ==> forall|i: int|
                0 <= i < old(sizers)@.len() ==> #[trigger] final(sizers)@[i].size >= old(sizers)@[i].clamped(),
            (exists|j: int|
                0 <= j < old(sizers)@.len() && old(sizers)@[j].stretch == 0
                    && #[trigger] final(sizers)@[j].size != old(sizers)@[j].clamped()) ==> forall|k: int|
                0 <= k < old(sizers)@.len() && old(sizers)@[k].stretch > 0 ==> {
                    ||| #[trigger] final(sizers)@[k].size == old(sizers)@[k].min_size
                    ||| final(sizers)@[k].size == old(sizers)@[k].upper()
                },
    {
        let n = sizers.len();
        if n == 0 {
            return space as i128;
        }
        let ghost s0 = sizers@;
        let mut total_min: u128 = 0;
        let mut total_max: u128 = 0;
        let mut total_size: u128 = 0;
        let mut total_stretch: u128 = 0;
        let mut stretch_count: usize = 0;
        let mut i: usize = 0;
        while i < n
            invariant
                n == sizers@.len(),
                s0.len() == n,
                0 <= i <= n,
                forall|j: int|
                    0 <= j < n ==> (#[trigger] sizers@[j]).same_bounds(s0[j]) && sizers@[j].size_hint
                        == s0[j].size_hint,
                forall|j: int|
                    0 <= j < i ==> (#[trigger] sizers@[j]).size == s0[j].clamped() && !sizers@[j].done,
                forall|j: int| 0 <= j < i ==> #[trigger] sizers@[j] == start_row(s0)[j],
                forall|j: int| i <= j < n ==> #[trigger] sizers@[j] == s0[j],
                total_min == total(s0, Measure::Min, 0, i as int),
                total_max == total(s0, Measure::Upper, 0, i as int),
                total_size == total(s0, Measure::Clamped, 0, i as int),
                total_stretch == total(sizers@, Measure::UndoneStretch, 0, i as int),
                stretch_count == total(sizers@, Measure::UndoneStretchy, 0, i as int),
                i == total(sizers@, Measure::Undone, 0, i as int),
                stretch_count <= i,
            decreases n - i,
        {
            proof {
                lemma_total_bounds(s0, Measure::Min, 0, i + 1);
                lemma_total_bounds(s0, Measure::Upper, 0, i + 1);
                lemma_total_bounds(s0, Measure::Clamped, 0, i + 1);
                lemma_total_bounds(sizers@, Measure::UndoneStretch, 0, i as int);
            }
            let mut t = sizers[i];
            let up = t.upper_size();
            total_min = total_min + t.min_size as u128;
            total_max = total_max + up as u128;
            t.done = false;
            t.size = if t.size_hint < t.min_size {
                t.min_size
            } else if t.size_hint > up {
                up
            } else {
                t.size_hint
            };
            total_size = total_size + t.size as u128;
            if t.stretch > 0 {
                total_stretch = total_stretch + t.stretch as u128;
                stretch_count = stretch_count + 1;
            }
            proof {
                lemma_total_update(sizers@, i as int, t, 0, i as int);
            }
            sizers[i] = t;
            proof {
                assert(total(sizers@, Measure::UndoneStretch, 0, i + 1) == total(
                    sizers@,
                    Measure::UndoneStretch,
                    0,
                    i as int,
                ) + weight(t, Measure::UndoneStretch));
                assert(total(sizers@, Measure::UndoneStretchy, 0, i + 1) == total(
                    sizers@,
                    Measure::UndoneStretchy,
                    0,
                    i as int,
                ) + weight(t, Measure::UndoneStretchy));
                assert(total(sizers@, Measure::Undone, 0, i + 1) == total(
                    sizers@,
                    Measure::Undone,
                    0,
                    i as int,
                ) + weight(t, Measure::Undone));
            }
            i = i + 1;
        }
        let ghost s1 = sizers@;
        proof {
            assert(s1 =~= start_row(s0));
            lemma_total_eq(s1, Measure::Size, s0, Measure::Clamped, 0, n as int);
            lemma_total_eq(s1, Measure::Min, s0, Measure::Min, 0, n as int);
            lemma_total_eq(s1, Measure::Upper, s0, Measure::Upper, 0, n as int);
            lemma_total_le(s0, Measure::Min, s0, Measure::Clamped, 0, n as int);
            lemma_total_le(s0, Measure::Clamped, s0, Measure::Upper, 0, n as int);
            lemma_total_le(s0, Measure::Min, s0, Measure::Upper, 0, n as int);
            lemma_total_bounds(s0, Measure::Clamped, 0, n as int);
        }
        if space as u128 == total_size {
            return 0;
        }
        if space as u128 <= total_min {
            let mut i: usize = 0;
            while i < n
                invariant
                    n == sizers@.len(),
                    s0.len() == n,
                    0 <= i <= n,
                    forall|j: int|
                        0 <= j < n ==> (#[trigger] sizers@[j]).same_bounds(s0[j]) && sizers@[j].size_hint
                            == s0[j].size_hint,
                    forall|j: int| 0 <= j < i ==> (#[trigger] sizers@[j]).size == s0[j].min_size,
                    forall|j: int| 0 <= j < i ==> #[trigger] sizers@[j] == min_row(s0)[j],
                    forall|j: int| i <= j < n ==> #[trigger] sizers@[j] == s1[j],
                    s1 == start_row(s0),
                decreases n - i,
            {
                let mut t = sizers[i];
                t.size = t.min_size;
                sizers[i] = t;
                i = i + 1;
            }
            proof {
                lemma_total_eq(sizers@, Measure::Size, s0, Measure::Min, 0, n as int);
                assert(sizers@ =~= min_row(s0));
            }
            return space as i128 - total_min as i128;
        }
        if space as u128 >= total_max {
            let mut i: usize = 0;
            while i < n
                invariant
                    n == sizers@.len(),
                    s0.len() == n,
                    0 <= i <= n,
                    forall|j: int|
                        0 <= j < n ==> (#[trigger] sizers@[j]).same_bounds(s0[j]) && sizers@[j].size_hint
                            == s0[j].size_hint,
                    forall|j: int| 0 <= j < i ==> (#[trigger] sizers@[j]).size == s0[j].upper(),
                    forall|j: int| 0 <= j < i ==> #[trigger] sizers@[j] == max_row(s0)[j],
                    forall|j: int| i <= j < n ==> #[trigger] sizers@[j] == s1[j],
                    s1 == start_row(s0),
                decreases n - i,
            {
                let mut t = sizers[i];
                t.size = t.upper_size();
                sizers[i] = t;
                i = i + 1;
            }
            proof {
                lemma_total_eq(sizers@, Measure::Size, s0, Measure::Upper, 0, n as int);
                assert(sizers@ =~= max_row(s0));
            }
            return space as i128 - total_max as i128;
        }
        if (space as u128) < total_size {
            let free_space = total_size - space as u128;
            BoxEngine::shrink_all_sizers(sizers, space as u128, free_space, stretch_count, total_stretch);
        } else {
            let free_space = space as u128 - total_size;
            BoxEngine::grow_all_sizers(sizers, space as u128, free_space, stretch_count, total_stretch);
        }
        0
    }

    /// Moves the boundary between two sizers. A positive `delta` widens the
    /// sizers before `index` and narrows those after it; a negative `delta`
    /// does the reverse. The move is limited to the room both sides have,
    /// and is handed out greedily from the sizers nearest `index` outward.
    /// Only hints change (see `hint_after`); the next `calc` realises them.
    /// A `delta` of 0, an empty row, or an `index` with no sizer after it
    /// changes nothing.
    pub fn adjust(sizers: &mut Vec<Sizer>, index: usize, delta: i64)
        ensures
            hints_only(final(sizers)@, old(sizers)@),
            forall|i: int|
                0 <= i < old(sizers)@.len() ==> #[trigger] final(sizers)@[i].size_hint == hint_after(
                    old(sizers)@,
                    index as int,
                    delta as int,
                    i,
                ),
    {
        let n = sizers.len();
        if n > 0 && delta != 0 && index < n - 1 {
            if delta > 0 {
                BoxEngine::grow_sizers(sizers, index, delta as u64);
            } else {
                BoxEngine::shrink_sizers(sizers, index, (0 - delta as i128) as u64);
            }
        }
    }

    /// Grows the sizers before `index` by up to `delta` and shrinks those
    /// after it by the same amount.
    fn grow_sizers(sizers: &mut Vec<Sizer>, index: usize, delta: u64)
        requires
            index + 1 < old(sizers)@.len(),
            delta > 0,
        ensures
            hints_only(final(sizers)@, old(sizers)@),
            forall|i: int|
                0 <= i < old(sizers)@.len() ==> #[trigger] final(sizers)@[i].size_hint == hint_after(
                    old(sizers)@,
                    index as int,
                    delta as int,
                    i,
                ),
    {
        let n = sizers.len();
        let ghost s0 = sizers@;
        let grow_limit = room_sum(sizers, 0, index, true);
        let shrink_limit = room_sum(sizers, index + 1, n, false);
        let mut moved = delta as u128;
        if grow_limit < moved {
            moved = grow_limit;
        }
        if shrink_limit < moved {
            moved = shrink_limit;
        }
        walk_down(sizers, 0, index, moved, true);
        let ghost s1 = sizers@;
        walk_up(sizers, index + 1, n, moved, false);
        proof {
            assert forall|i: int| index + 1 <= i <= n implies #[trigger] total(s1, Measure::ShrinkRoom, index + 1, i)
                == total(s0, Measure::ShrinkRoom, index + 1, i) by {
                lemma_total_eq(s1, Measure::ShrinkRoom, s0, Measure::ShrinkRoom, index + 1, i);
            }
        }
    }

    /// Grows the sizers after `index` by up to `delta` and shrinks those
    /// before it by the same amount.
    fn shrink_sizers(sizers: &mut Vec<Sizer>, index: usize, delta: u64)
        requires
            index + 1 < old(sizers)@.len(),
            delta > 0,
        ensures
            hints_only(final(sizers)@, old(sizers)@),
            forall|i: int|
                0 <= i < old(sizers)@.len() ==> #[trigger] final(sizers)@[i].size_hint == hint_after(
                    old(sizers)@,
                    index as int,
                    -(delta as int),
                    i,
                ),
    {
        let n = sizers.len();
        let ghost s0 = sizers@;
        let grow_limit = room_sum(sizers, index + 1, n, true);
        let shrink_limit = room_sum(sizers, 0, index, false);
        let mut moved = delta as u128;
        if grow_limit < moved {
            moved = grow_limit;
        }
        if shrink_limit < moved {
            moved = shrink_limit;
        }
        walk_up(sizers, index + 1, n, moved, true);
        let ghost s1 = sizers@;
        walk_down(sizers, 0, index, moved, false);
        proof {
            assert forall|i: int| 0 <= i < index implies #[trigger] total(s1, Measure::ShrinkRoom, i + 1, index as int)
                == total(s0, Measure::ShrinkRoom, i + 1, index as int) by {
                lemma_total_eq(s1, Measure::ShrinkRoom, s0, Measure::ShrinkRoom, i + 1, index as int);
            }
        }
    }

    /// Shrinks the sizers by `free_space` in total: first in proportion to
    /// their stretch factors, then, once no stretchable sizer can give more,
    /// evenly over all sizers that have not reached their minimum.
    fn shrink_all_sizers(
        sizers: &mut Vec<Sizer>,
        space: u128,
        free_space: u128,
        stretch_count: usize,
        total_stretch: u128,
    )
        requires
            forall|j: int|
                0 <= j < old(sizers)@.len() ==> (#[trigger] old(sizers)@[j]).min_size
                    <= old(sizers)@[j].size && !old(sizers)@[j].done,
            sum(old(sizers)@, Measure::Size) == space + free_space,
            sum(old(sizers)@, Measure::Min) <= space,
            sum(old(sizers)@, Measure::Undone) == old(sizers)@.len(),
            sum(old(sizers)@, Measure::UndoneStretchy) == stretch_count,
            sum(old(sizers)@, Measure::UndoneStretch) == total_stretch,
            free_space <= FREE_LIMIT,
        ensures
            final(sizers)@ == distributed(old(sizers)@, free_space as int, false),
            shrinking(final(sizers)@, old(sizers)@),
            sum(final(sizers)@, Measure::Size) == space,
            (exists|j: int|
                0 <= j < old(sizers)@.len() && old(sizers)@[j].stretch == 0
                    && #[trigger] final(sizers)@[j].size != old(sizers)@[j].size) ==> forall|k: int|
                0 <= k < old(sizers)@.len() && old(sizers)@[k].stretch > 0
                    ==> #[trigger] final(sizers)@[k].size == old(sizers)@[k].min_size,
    {
        let n = sizers.len();
        let ghost s0 = sizers@;
        let ghost f0 = free_space as int;
        let mut free_space = free_space;
        let mut stretch_count = stretch_count;
        let mut total_stretch = total_stretch;
        let mut not_done_count: usize = n;
        // Phase one: proportional to stretch, each pass judged against the
        // free space and total stretch at the start of the pass.
        while stretch_count > 0 && free_space > 0
            invariant
                n == sizers@.len(),
                shrinking(sizers@, s0),
                sum(sizers@, Measure::Size) == space + free_space,
                sum(sizers@, Measure::Undone) == not_done_count,
                sum(sizers@, Measure::UndoneStretchy) == stretch_count,
                sum(sizers@, Measure::UndoneStretch) == total_stretch,
                free_space <= FREE_LIMIT,
                forall|j: int| 0 <= j < n && s0[j].stretch == 0 ==> (#[trigger] sizers@[j]).size == s0[j].size,
                phase(sizers@, free_space as int, false, true) == phase(s0, f0, false, true),
            decreases free_space, not_done_count,
        {
            let dist_space = free_space;
            let dist_stretch = total_stretch;
            let ghost ps = sizers@;
            let ghost mut progressed = false;
            proof {
                assert(phase(ps, dist_space as int, false, true) == phase(s0, f0, false, true));
                assert(live(ps, dist_space as int, true));
                lemma_total_bounds(ps, Measure::UndoneStretch, 0, n as int);
                if dist_stretch == 0 {
                    assert forall|j: int| 0 <= j < n implies weight(#[trigger] ps[j], Measure::UndoneStretchy) == 0 by {
                        assert(weight(ps[j], Measure::UndoneStretch) <= 0);
                    }
                    lemma_total_zero(ps, Measure::UndoneStretchy, 0, n as int);
                }
            }
            let mut extra = pass_remainder(sizers, true, dist_space, dist_stretch);
            let ghost extra0 = extra as int;
            let mut i: usize = 0;
            while i < n
                invariant
                    n == sizers@.len(),
                    ps.len() == n,
                    0 <= i <= n,
                    shrinking(sizers@, s0),
                    sum(sizers@, Measure::Size) == space + free_space,
                    sum(sizers@, Measure::Undone) == not_done_count,
                    sum(sizers@, Measure::UndoneStretchy) == stretch_count,
                    sum(sizers@, Measure::UndoneStretch) == total_stretch,
                    forall|j: int| 0 <= j < n && s0[j].stretch == 0 ==> (#[trigger] sizers@[j]).size == s0[j].size,
                    forall|j: int| i <= j < n ==> #[trigger] sizers@[j] == ps[j],
                    dist_stretch == sum(ps, Measure::UndoneStretch),
                    sum(ps, Measure::UndoneStretchy) > 0,
                    extra0 == dist_space - floor_sum(ps, true, dist_space as int, dist_stretch as int, n as int),
                    pass_from(sizers@, free_space as int, false, true, dist_space as int, dist_stretch as int, extra as int, i as int)
                        == pass(ps, dist_space as int, false, true),
                    0 < dist_space <= FREE_LIMIT,
                    free_space <= dist_space,
                    not_done_count <= sum(ps, Measure::Undone),
                    progressed ==> free_space < dist_space || not_done_count < sum(ps, Measure::Undone),
                    !progressed ==> free_space == dist_space && extra == extra0 && forall|j: int|
                        0 <= j < i && takes_part(#[trigger] ps[j], true) ==> share_of(ps[j], true, dist_space as int, dist_stretch as int) == 0 && extra0 == 0,
                decreases n - i,
            {
                let s = sizers[i];
                if s.done || s.stretch == 0 {
                    i = i + 1;
                    continue;
                }
                proof {
                    lemma_total_bounds(ps, Measure::UndoneStretch, 0, n as int);
                    lemma_total_bounds(sizers@, Measure::Undone, 0, n as int);
                    lemma_total_bounds(sizers@, Measure::UndoneStretchy, 0, n as int);
                    lemma_total_bounds(sizers@, Measure::UndoneStretch, 0, n as int);
                }
                let ghost free_before = free_space as int;
                let share = portion_of(&s, true, dist_space, dist_stretch, &mut extra);
                let amt = if share < free_space { share } else { free_space };
                let room = s.size - s.min_size;
                let mut t = s;
                if amt >= room as u128 {
                    free_space = free_space - room as u128;
                    t.size = t.min_size;
                    t.done = true;
                    not_done_count = not_done_count - 1;
                    stretch_count = stretch_count - 1;
                    total_stretch = total_stretch - t.stretch as u128;
                } else {
                    free_space = free_space - amt;
                    t.size = s.size - amt as u32;
                }
                proof {
                    lemma_total_update(sizers@, i as int, t, 0, n as int);
                    if amt > 0 || t.done {
                        progressed = true;
                    }
                    assert(turn(s, share as int, free_before, false) == (t, free_space as int));
                }
                sizers[i] = t;
                i = i + 1;
            }
            proof {
                if !progressed {
                    if extra0 > 0 {
                        assert forall|j: int| 0 <= j < n implies weight(#[trigger] ps[j], Measure::UndoneStretchy) == 0 by {
                            if takes_part(ps[j], true) {
                                assert(extra0 == 0);
                            }
                        }
                        lemma_total_zero(ps, Measure::UndoneStretchy, 0, n as int);
                    } else {
                        lemma_floor_sum_zero(ps, true, dist_space as int, dist_stretch as int, n as int);
                    }
                }
                assert(pass(ps, dist_space as int, false, true) == (sizers@, free_space as int));
            }
        }
        proof {
            assert forall|k: int| 0 <= k < n && s0[k].stretch > 0 && stretch_count == 0 implies
                (#[trigger] sizers@[k]).done by {
                lemma_total_bounds(sizers@, Measure::UndoneStretchy, 0, n as int);
            }
        }
        let ghost a = (sizers@, free_space as int);
        proof {
            assert(phase(a.0, a.1, false, true) == a);
        }
        // Phase two: equal shares for every sizer not yet at its minimum.
        while not_done_count > 0 && free_space > 0
            invariant
                n == sizers@.len(),
                shrinking(sizers@, s0),
                sum(sizers@, Measure::Size) == space + free_space,
                sum(sizers@, Measure::Undone) == not_done_count,
                stretch_count == 0 || free_space == 0,
                stretch_count == 0 ==> forall|k: int| 0 <= k < n && s0[k].stretch > 0 ==> (#[trigger] sizers@[k]).done,
                stretch_count > 0 ==> forall|j: int| 0 <= j < n && s0[j].stretch == 0 ==> (#[trigger] sizers@[j]).size == s0[j].size,
                phase(sizers@, free_space as int, false, false) == phase(a.0, a.1, false, false),
                free_space <= FREE_LIMIT,
            decreases free_space, not_done_count,
        {
            let dist_space = free_space;
            let ghost ps = sizers@;
            let ghost mut progressed = false;
            let base = not_done_count as u128;
            proof {
                assert(phase(ps, dist_space as int, false, false) == phase(a.0, a.1, false, false));
                assert(live(ps, dist_space as int, false));
            }
            let mut extra = pass_remainder(sizers, false, dist_space, base);
            let ghost extra0 = extra as int;
            let mut i: usize = 0;
            while i < n
                invariant
                    n == sizers@.len(),
                    ps.len() == n,
                    0 <= i <= n,
                    shrinking(sizers@, s0),
                    sum(sizers@, Measure::Size) == space + free_space,
                    sum(sizers@, Measure::Undone) == not_done_count,
                    stretch_count == 0,
                    forall|k: int| 0 <= k < n && s0[k].stretch > 0 ==> (#[trigger] sizers@[k]).done,
                    forall|j: int| i <= j < n ==> #[trigger] sizers@[j] == ps[j],
                    sum(ps, Measure::Undone) > 0,
                    dist_space > 0,
                    base == sum(ps, Measure::Undone),
                    dist_space <= FREE_LIMIT,
                    extra0 == dist_space - floor_sum(ps, false, dist_space as int, base as int, n as int),
                    pass_from(sizers@, free_space as int, false, false, dist_space as int, base as int, extra as int, i as int)
                        == pass(ps, dist_space as int, false, false),
                    free_space <= dist_space,
                    not_done_count <= sum(ps, Measure::Undone),
                    progressed ==> free_space < dist_space || not_done_count < sum(ps, Measure::Undone),
                    !progressed ==> free_space == dist_space && extra == extra0 && forall|j: int|
                        0 <= j < i && takes_part(#[trigger] ps[j], false) ==> share_of(ps[j], false, dist_space as int, base as int) == 0 && extra0 == 0,
                decreases n - i,
            {
                let s = sizers[i];
                if s.done {
                    i = i + 1;
                    continue;
                }
                proof {
                    lemma_total_bounds(sizers@, Measure::Undone, 0, n as int);
                }
                let ghost free_before = free_space as int;
                let share = portion_of(&s, false, dist_space, base, &mut extra);
                let amt = if share < free_space { share } else { free_space };
                let room = s.size - s.min_size;
                let mut t = s;
                if amt >= room as u128 {
                    free_space = free_space - room as u128;
                    t.size = t.min_size;
                    t.done = true;
                    not_done_count = not_done_count - 1;
                } else {
                    free_space = free_space - amt;
                    t.size = s.size - amt as u32;
                }
                proof {
                    lemma_total_update(sizers@, i as int, t, 0, n as int);
                    if amt > 0 || t.done {
                        progressed = true;
                    }
                    assert(turn(s, share as int, free_before, false) == (t, free_space as int));
                }
                sizers[i] = t;
                i = i + 1;
            }
            proof {
                if !progressed {
                    if extra0 > 0 {
                        assert forall|j: int| 0 <= j < n implies weight(#[trigger] ps[j], Measure::Undone) == 0 by {
                            if takes_part(ps[j], false) {
                                assert(extra0 == 0);
                            }
                        }
                        lemma_total_zero(ps, Measure::Undone, 0, n as int);
                    } else {
                        lemma_floor_sum_zero(ps, false, dist_space as int, base as int, n as int);
                    }
                }
                assert(pass(ps, dist_space as int, false, false) == (sizers@, free_space as int));
            }
        }
        proof {
            if stretch_count == 0 {
                assert forall|k: int| 0 <= k < n && s0[k].stretch > 0 implies
                    (#[trigger] sizers@[k]).size == s0[k].min_size by {
                    assert(sizers@[k].done);
                }
            }
            if not_done_count == 0 {
                assert forall|k: int| 0 <= k < n implies weight(#[trigger] sizers@[k], Measure::Size)
                    == weight(sizers@[k], Measure::Min) by {
                    lemma_total_bounds(sizers@, Measure::Undone, 0, n as int);
                }
                lemma_total_eq(sizers@, Measure::Size, sizers@, Measure::Min, 0, n as int);
                lemma_total_eq(sizers@, Measure::Min, s0, Measure::Min, 0, n as int);
            }
        }
    }

    /// Grows the sizers by `free_space` in total: first in proportion to
    /// their stretch factors, then, once no stretchable sizer can take more,
    /// evenly over all sizers that have not reached their maximum.
    fn grow_all_sizers(
        sizers: &mut Vec<Sizer>,
        space: u128,
        free_space: u128,
        stretch_count: usize,
        total_stretch: u128,
    )
        requires
            forall|j: int|
                0 <= j < old(sizers)@.len() ==> (#[trigger] old(sizers)@[j]).size
                    <= old(sizers)@[j].upper() && !old(sizers)@[j].done,
            sum(old(sizers)@, Measure::Size) + free_space == space,
            sum(old(sizers)@, Measure::Upper) >= space,
            sum(old(sizers)@, Measure::Undone) == old(sizers)@.len(),
            sum(old(sizers)@, Measure::UndoneStretchy) == stretch_count,
            sum(old(sizers)@, Measure::UndoneStretch) == total_stretch,
            free_space <= FREE_LIMIT,
        ensures
            final(sizers)@ == distributed(old(sizers)@, free_space as int, true),
            growing(final(sizers)@, old(sizers)@),
            sum(final(sizers)@, Measure::Size) == space,
            (exists|j: int|
                0 <= j < old(sizers)@.len() && old(sizers)@[j].stretch == 0
                    && #[trigger] final(sizers)@[j].size != old(sizers)@[j].size) ==> forall|k: int|
                0 <= k < old(sizers)@.len() && old(sizers)@[k].stretch > 0
                    ==> #[trigger] final(sizers)@[k].size == old(sizers)@[k].upper(),
    {
        let n = sizers.len();
        let ghost s0 = sizers@;
        let ghost f0 = free_space as int;
        let mut free_space = free_space;
        let mut stretch_count = stretch_count;
        let mut total_stretch = total_stretch;
        let mut not_done_count: usize = n;
        // Phase one: proportional to stretch, each pass judged against the
        // free space and total stretch at the start of the pass.
        while stretch_count > 0 && free_space > 0
            invariant
                n == sizers@.len(),
                growing(sizers@, s0),
                sum(sizers@, Measure::Size) + free_space == space,
                sum(sizers@, Measure::Undone) == not_done_count,
                sum(sizers@, Measure::UndoneStretchy) == stretch_count,
                sum(sizers@, Measure::UndoneStretch) == total_stretch,
                free_space <= FREE_LIMIT,
                forall|j: int| 0 <= j < n && s0[j].stretch == 0 ==> (#[trigger] sizers@[j]).size == s0[j].size,
                phase(sizers@, free_space as int, true, true) == phase(s0, f0, true, true),
            decreases free_space, not_done_count,
        {
            let dist_space = free_space;
            let dist_stretch = total_stretch;
            let ghost ps = sizers@;
            let ghost mut progressed = false;
            proof {
                assert(phase(ps, dist_space as int, true, true) == phase(s0, f0, true, true));
                assert(live(ps, dist_space as int, true));
                lemma_total_bounds(ps, Measure::UndoneStretch, 0, n as int);
                if dist_stretch == 0 {
                    assert forall|j: int| 0 <= j < n implies weight(#[trigger] ps[j], Measure::UndoneStretchy) == 0 by {
                        assert(weight(ps[j], Measure::UndoneStretch) <= 0);
                    }
                    lemma_total_zero(ps, Measure::UndoneStretchy, 0, n as int);
                }
            }
            let mut extra = pass_remainder(sizers, true, dist_space, dist_stretch);
            let ghost extra0 = extra as int;
            let mut i: usize = 0;
            while i < n
                invariant
                    n == sizers@.len(),
                    ps.len() == n,
                    0 <= i <= n,
                    growing(sizers@, s0),
                    sum(sizers@, Measure::Size) + free_space == space,
                    sum(sizers@, Measure::Undone) == not_done_count,
                    sum(sizers@, Measure::UndoneStretchy) == stretch_count,
                    sum(sizers@, Measure::UndoneStretch) == total_stretch,
                    forall|j: int| 0 <= j < n && s0[j].stretch == 0 ==> (#[trigger] sizers@[j]).size == s0[j].size,
                    forall|j: int| i <= j < n ==> #[trigger] sizers@[j] == ps[j],
                    dist_stretch == sum(ps, Measure::UndoneStretch),
                    sum(ps, Measure::UndoneStretchy) > 0,
                    extra0 == dist_space - floor_sum(ps, true, dist_space as int, dist_stretch as int, n as int),
                    pass_from(sizers@, free_space as int, true, true, dist_space as int, dist_stretch as int, extra as int, i as int)
                        == pass(ps, dist_space as int, true, true),
                    0 < dist_space <= FREE_LIMIT,
                    free_space <= dist_space,
                    not_done_count <= sum(ps, Measure::Undone),
                    progressed ==> free_space < dist_space || not_done_count < sum(ps, Measure::Undone),
                    !progressed ==> free_space == dist_space && extra == extra0 && forall|j: int|
                        0 <= j < i && takes_part(#[trigger] ps[j], true) ==> share_of(ps[j], true, dist_space as int, dist_stretch as int) == 0 && extra0 == 0,
                decreases n - i,
            {
                let s = sizers[i];
                if s.done || s.stretch == 0 {
                    i = i + 1;
                    continue;
                }
                proof {
                    lemma_total_bounds(ps, Measure::UndoneStretch, 0, n as int);
                    lemma_total_bounds(sizers@, Measure::Undone, 0, n as int);
                    lemma_total_bounds(sizers@, Measure::UndoneStretchy, 0, n as int);
                    lemma_total_bounds(sizers@, Measure::UndoneStretch, 0, n as int);
                }
                let ghost free_before = free_space as int;
                let share = portion_of(&s, true, dist_space, dist_stretch, &mut extra);
                let amt = if share < free_space { share } else { free_space };
                let up = s.upper_size();
                let room = up - s.size;
                let mut t = s;
                if amt >= room as u128 {
                    free_space = free_space - room as u128;
                    t.size = up;
                    t.done = true;
                    not_done_count = not_done_count - 1;
                    stretch_count = stretch_count - 1;
                    total_stretch = total_stretch - t.stretch as u128;
                } else {
                    free_space = free_space - amt;
                    t.size = s.size + amt as u32;
                }
                proof {
                    lemma_total_update(sizers@, i as int, t, 0, n as int);
                    if amt > 0 || t.done {
                        progressed = true;
                    }
                    assert(turn(s, share as int, free_before, true) == (t, free_space as int));
                }
                sizers[i] = t;
                i = i + 1;
            }
            proof {
                if !progressed {
                    if extra0 > 0 {
                        assert forall|j: int| 0 <= j < n implies weight(#[trigger] ps[j], Measure::UndoneStretchy) == 0 by {
                            if takes_part(ps[j], true) {
                                assert(extra0 == 0);
                            }
                        }
                        lemma_total_zero(ps, Measure::UndoneStretchy, 0, n as int);
                    } else {
                        lemma_floor_sum_zero(ps, true, dist_space as int, dist_stretch as int, n as int);
                    }
                }
                assert(pass(ps, dist_space as int, true, true) == (sizers@, free_space as int));
            }
        }
        proof {
            assert forall|k: int| 0 <= k < n && s0[k].stretch > 0 && stretch_count == 0 implies
                (#[trigger] sizers@[k]).done by {
                lemma_total_bounds(sizers@, Measure::UndoneStretchy, 0, n as int);
            }
        }
        let ghost a = (sizers@, free_space as int);
        proof {
            assert(phase(a.0, a.1, true, true) == a);
        }
        // Phase two: equal shares for every sizer not yet at its maximum.
        while not_done_count > 0 && free_space > 0
            invariant
                n == sizers@.len(),
                growing(sizers@, s0),
                sum(sizers@, Measure::Size) + free_space == space,
                sum(sizers@, Measure::Undone) == not_done_count,
                stretch_count == 0 || free_space == 0,
                stretch_count == 0 ==> forall|k: int| 0 <= k < n && s0[k].stretch > 0 ==> (#[trigger] sizers@[k]).done,
                stretch_count > 0 ==> forall|j: int| 0 <= j < n && s0[j].stretch == 0 ==> (#[trigger] sizers@[j]).size == s0[j].size,
                phase(sizers@, free_space as int, true, false) == phase(a.0, a.1, true, false),
                free_space <= FREE_LIMIT,
            decreases free_space, not_done_count,
        {
            let dist_space = free_space;
            let ghost ps = sizers@;
            let ghost mut progressed = false;
            let base = not_done_count as u128;
            proof {
                assert(phase(ps, dist_space as int, true, false) == phase(a.0, a.1, true, false));
                assert(live(ps, dist_space as int, false));
            }
            let mut extra = pass_remainder(sizers, false, dist_space, base);
            let ghost extra0 = extra as int;
            let mut i: usize = 0;
            while i < n
                invariant
                    n == sizers@.len(),
                    ps.len() == n,
                    0 <= i <= n,
                    growing(sizers@, s0),
                    sum(sizers@, Measure::Size) + free_space == space,
                    sum(sizers@, Measure::Undone) == not_done_count,
                    stretch_count == 0,
                    forall|k: int| 0 <= k < n && s0[k].stretch > 0 ==> (#[trigger] sizers@[k]).done,
                    forall|j: int| i <= j < n ==> #[trigger] sizers@[j] == ps[j],
                    sum(ps, Measure::Undone) > 0,
                    dist_space > 0,
                    base == sum(ps, Measure::Undone),
                    dist_space <= FREE_LIMIT,
                    extra0 == dist_space - floor_sum(ps, false, dist_space as int, base as int, n as int),
                    pass_from(sizers@, free_space as int, true, false, dist_space as int, base as int, extra as int, i as int)
                        == pass(ps, dist_space as int, true, false),
                    free_space <= dist_space,
                    not_done_count <= sum(ps, Measure::Undone),
                    progressed ==> free_space < dist_space || not_done_count < sum(ps, Measure::Undone),
                    !progressed ==> free_space == dist_space && extra == extra0 && forall|j: int|
                        0 <= j < i && takes_part(#[trigger] ps[j], false) ==> share_of(ps[j], false, dist_space as int, base as int) == 0 && extra0 == 0,
                decreases n - i,
            {
                let s = sizers[i];
                if s.done {
                    i = i + 1;
                    continue;
                }
                proof {
                    lemma_total_bounds(sizers@, Measure::Undone, 0, n as int);
                }
                let ghost free_before = free_space as int;
                let share = portion_of(&s, false, dist_space, base, &mut extra);
                let amt = if share < free_space { share } else { free_space };
                let up = s.upper_size();
                let room = up - s.size;
                let mut t = s;
                if amt >= room as u128 {
                    free_space = free_space - room as u128;
                    t.size = up;
                    t.done = true;
                    not_done_count = not_done_count - 1;
                } else {
                    free_space = free_space - amt;
                    t.size = s.size + amt as u32;
                }
                proof {
                    lemma_total_update(sizers@, i as int, t, 0, n as int);
                    if amt > 0 || t.done {
                        progressed = true;
                    }
                    assert(turn(s, share as int, free_before, true) == (t, free_space as int));
                }
                sizers[i] = t;
                i = i + 1;
            }
            proof {
                if !progressed {
                    if extra0 > 0 {
                        assert forall|j: int| 0 <= j < n implies weight(#[trigger] ps[j], Measure::Undone) == 0 by {
                            if takes_part(ps[j], false) {
                                assert(extra0 == 0);
                            }
                        }
                        lemma_total_zero(ps, Measure::Undone, 0, n as int);
                    } else {
                        lemma_floor_sum_zero(ps, false, dist_space as int, base as int, n as int);
                    }
                }
                assert(pass(ps, dist_space as int, true, false) == (sizers@, free_space as int));
            }
        }
        proof {
            if stretch_count == 0 {
                assert forall|k: int| 0 <= k < n && s0[k].stretch > 0 implies
                    (#[trigger] sizers@[k]).size == s0[k].upper() by {
                    assert(sizers@[k].done);
                }
            }
            if not_done_count == 0 {
                assert forall|k: int| 0 <= k < n implies weight(#[trigger] sizers@[k], Measure::Size)
                    == weight(sizers@[k], Measure::Upper) by {
                    lemma_total_bounds(sizers@, Measure::Undone, 0, n as int);
                }
                lemma_total_eq(sizers@, Measure::Size, sizers@, Measure::Upper, 0, n as int);
                lemma_total_eq(sizers@, Measure::Upper, s0, Measure::Upper, 0, n as int);
            }
        }
    }
}

} // verus!
