//! Resampling kernels and per-axis coefficient tables in fixed point.
use vstd::prelude::*;

verus! {

/// Fixed-point unit of a weight: the weights of a window sum to it.
pub const WEIGHT_SCALE: i64 = 16384;

/// Largest magnitude a normalized weight may take.
pub const MAX_WEIGHT: i64 = 0x100_0000_0000;

/// Resampling kernels.
#[derive(Clone, Copy, Debug, PartialEq, Eq, Structural)]
pub enum FilterType {
    /// Box of width one: every source sample within half a pixel.
    Box,
    /// Triangle of radius one.
    Bilinear,
    /// Cubic of radius two with a = -0.5.
    CatmullRom,
    /// Cubic of radius two with B = C = 1/3.
    Mitchell,
}

impl FilterType {
    /// Support radius of the kernel, in half units.
    pub open spec fn support_halves(self) -> int {
        match self {
            FilterType::Box => 1,
            FilterType::Bilinear => 2,
            _ => 4,
        }
    }

    fn support_halves_exec(self) -> (r: i128)
        ensures
            r == self.support_halves(),
            1 <= r <= 4,
    {
        match self {
            FilterType::Box => 1,
            FilterType::Bilinear => 2,
            _ => 4,
        }
    }
}

pub open spec fn abs(v: int) -> int {
    if v < 0 { -v } else { v }
}

pub open spec fn max_len(sl: nat, dl: nat) -> nat {
    if sl > dl { sl } else { dl }
}

/// Twice the destination-length multiple of the source coordinate onto which
/// destination index `d` maps: `(d + 0.5) * sl / dl - 0.5`, times `2 * dl`.
pub open spec fn center_num(sl: nat, dl: nat, d: nat) -> int {
    (2 * d + 1) * sl - dl
}

/// Offset of source index `i` from the mapped coordinate, in units of
/// `1 / (2 * dl)`; divided by `kernel_den` it is the kernel's argument
/// (the offset widened by `sl / dl` when downscaling).
pub open spec fn sample_num(sl: nat, dl: nat, d: nat, i: int) -> int {
    2 * dl * i - center_num(sl, dl, d)
}

pub open spec fn kernel_den(sl: nat, dl: nat) -> int {
    (2 * max_len(sl, dl)) as int
}

/// The kernel's argument `|num| / den` in units of `1 / WEIGHT_SCALE`, rounded down.
pub open spec fn fixed_arg(num: int, den: int) -> int {
    abs(num) * WEIGHT_SCALE / den
}

/// Weight of the kernel at `num / den`, in units of `1 / WEIGHT_SCALE`,
/// rounded down.
pub open spec fn kernel_weight(filter: FilterType, num: int, den: int) -> int {
    let s = WEIGHT_SCALE as int;
    let t = fixed_arg(num, den);
    match filter {
        FilterType::Box => if -den <= 2 * num && 2 * num < den { s } else { 0 },
        FilterType::Bilinear => if abs(num) < den { s - t } else { 0 },
        FilterType::CatmullRom => if abs(num) < den {
            (3 * t * t * t - 5 * t * t * s + 2 * s * s * s) / (2 * s * s)
        } else if abs(num) < 2 * den {
            (-t * t * t + 5 * t * t * s - 8 * t * s * s + 4 * s * s * s) / (2 * s * s)
        } else {
            0
        },
        FilterType::Mitchell => if abs(num) < den {
            (21 * t * t * t - 36 * t * t * s + 16 * s * s * s) / (18 * s * s)
        } else if abs(num) < 2 * den {
            (-7 * t * t * t + 36 * t * t * s - 60 * t * s * s + 32 * s * s * s) / (18 * s * s)
        } else {
            0
        },
    }
}

/// Weight of source index `i` (possibly outside the source) for destination index `d`.
pub open spec fn raw_weight(filter: FilterType, sl: nat, dl: nat, d: nat, i: int) -> int {
    kernel_weight(filter, sample_num(sl, dl, d, i), kernel_den(sl, dl))
}

/// First source index that the kernel may reach for destination index `d`.
pub open spec fn lo_index(filter: FilterType, sl: nat, dl: nat, d: nat) -> int {
    (center_num(sl, dl, d) - filter.support_halves() * max_len(sl, dl)) / (2 * dl as int)
}

/// One past the last source index that the kernel may reach.
pub open spec fn hi_index(filter: FilterType, sl: nat, dl: nat, d: nat) -> int {
    (center_num(sl, dl, d) + filter.support_halves() * max_len(sl, dl)) / (2 * dl as int) + 2
}

/// Index `i` moved to the nearest index of a source of length `sl`.
pub open spec fn clamp_index(i: int, sl: nat) -> int {
    if i < 0 {
        0
    } else if i >= sl {
        sl - 1
    } else {
        i
    }
}

/// Sum of the weights of the first `n` reached indices that land, after
/// clamping to the edge, on source index `k`.
pub open spec fn folded_weight(filter: FilterType, sl: nat, dl: nat, d: nat, k: int, n: nat) -> int
    decreases n,
{
    if n == 0 {
        0
    } else {
        let i = lo_index(filter, sl, dl, d) + n - 1;
        folded_weight(filter, sl, dl, d, k, (n - 1) as nat) + if clamp_index(i, sl) == k {
            raw_weight(filter, sl, dl, d, i)
        } else {
            0
        }
    }
}

pub open spec fn window_start(filter: FilterType, sl: nat, dl: nat, d: nat) -> int {
    clamp_index(lo_index(filter, sl, dl, d), sl)
}

pub open spec fn window_len(filter: FilterType, sl: nat, dl: nat, d: nat) -> int {
    clamp_index(hi_index(filter, sl, dl, d) - 1, sl) - window_start(filter, sl, dl, d) + 1
}

/// Weights of source indices `window_start ..` before normalization.
pub open spec fn folded_weights(filter: FilterType, sl: nat, dl: nat, d: nat) -> Seq<int> {
    Seq::new(
        window_len(filter, sl, dl, d) as nat,
        |j: int|
            folded_weight(
                filter,
                sl,
                dl,
                d,
                window_start(filter, sl, dl, d) + j,
                (hi_index(filter, sl, dl, d) - lo_index(filter, sl, dl, d)) as nat,
            ),
    )
}

pub open spec fn sum_of(s: Seq<int>) -> int
    decreases s.len(),
{
    if s.len() == 0 {
        0
    } else {
        sum_of(s.drop_last()) + s.last()
    }
}

/// Index of the first weight of largest magnitude among the first `n`.
pub open spec fn argmax_abs(s: Seq<int>, n: nat) -> nat
    decreases n,
{
    if n <= 1 {
        0
    } else {
        let a = argmax_abs(s, (n - 1) as nat);
        if abs(s[n - 1]) > abs(s[a as int]) {
            (n - 1) as nat
        } else {
            a
        }
    }
}

/// Weights scaled to sum to `WEIGHT_SCALE`: each scaled and rounded down, the
/// rounding remainder added to the weight of largest magnitude. None where the
/// weights do not sum to a positive value or a result is out of range.
pub open spec fn normalized(w: Seq<int>) -> Option<Seq<int>> {
    let total = sum_of(w);
    let n = scaled_weights(w);
    let a = argmax_abs(n, n.len()) as int;
    let top = n[a] + WEIGHT_SCALE - sum_of(n);
    if total <= 0 || w.len() == 0 {
        None
    } else if (forall|k: int| 0 <= k < n.len() ==> -MAX_WEIGHT <= #[trigger] n[k] <= MAX_WEIGHT) && -MAX_WEIGHT
        <= top <= MAX_WEIGHT {
        Some(n.update(a, top))
    } else {
        None
    }
}

/// Each weight times `WEIGHT_SCALE` over the sum of the weights, rounded down.
pub open spec fn scaled_weights(w: Seq<int>) -> Seq<int> {
    Seq::new(w.len(), |k: int| w[k] * WEIGHT_SCALE / sum_of(w))
}

/// Source index nearest to the coordinate that destination index `d` maps to.
pub open spec fn nearest_index(sl: nat, dl: nat, d: nat) -> int {
    (((2 * d + 1) * sl) / (2 * dl)) as int
}

/// Start and weights of the window of destination index `d`: a single unit
/// weight at `d` when the lengths are equal, otherwise the normalized kernel
/// weights (the nearest source index where they cannot be normalized).
pub open spec fn window_spec(filter: FilterType, sl: nat, dl: nat, d: nat) -> (int, Seq<int>) {
    if sl == dl {
        (d as int, seq![WEIGHT_SCALE as int])
    } else {
        match normalized(folded_weights(filter, sl, dl, d)) {
            Some(r) => (window_start(filter, sl, dl, d), r),
            None => (nearest_index(sl, dl, d), seq![WEIGHT_SCALE as int]),
        }
    }
}

/// An axis whose destination length equals its source length gets the
/// identity table, whatever the kernel: a single unit weight at the
/// destination index itself.
pub proof fn lemma_equal_lengths_identity(filter: FilterType, n: nat, d: nat)
    ensures
        window_spec(filter, n, n, d) == (d as int, seq![WEIGHT_SCALE as int]),
{
}

/// Point sampling maps each index to itself when the lengths are equal.
pub proof fn lemma_nearest_identity(n: nat, d: nat)
    requires
        d < n,
    ensures
        nearest_index(n, n, d) == d,
{
    assert((2 * d + 1) * n == d * (2 * n) + n) by (nonlinear_arith);
    vstd::arithmetic::div_mod::lemma_fundamental_div_mod_converse(((2 * d + 1) * n) as int, (2 * n) as int, d as int, n as int);
}

/// Start index into the source and weights of one destination index.
pub struct Window {
    pub start: usize,
    pub weights: Vec<i64>,
}

impl Window {
    pub open spec fn view(&self) -> (int, Seq<int>) {
        (self.start as int, ints64(self.weights@))
    }
}

/// `a / b` rounded down, for a positive `b`.
fn floor_div(a: i128, b: i128) -> (r: i128)
    requires
        b > 0,
        -0x1_0000_0000_0000_0000_0000_0000_0000 <= a <= 0x1_0000_0000_0000_0000_0000_0000_0000,
    ensures
        r == a / b,
        a >= 0 ==> 0 <= r <= a,
        a < 0 ==> a <= r < 0,
{
    if a >= 0 {
        let q = (a as u128) / (b as u128);
        proof {
            assert(q <= a) by (nonlinear_arith)
                requires q == (a as u128) / (b as u128), a >= 0, b >= 1;
        }
        q as i128
    } else {
        let m = (-a) as u128;
        let n = m + (b as u128) - 1;
        let q = n / (b as u128);
        proof {
            vstd::arithmetic::div_mod::lemma_fundamental_div_mod(n as int, b as int);
            let rem = n as int % b as int;
            assert(q as int == n as int / b as int);
            assert(n as int == q * b + rem);
            assert(0 <= rem < b);
            assert(a == (-(q as int)) * b + (b - 1 - rem)) by (nonlinear_arith)
                requires n as int == q * b + rem, n == m + b - 1, m == -a;
            vstd::arithmetic::div_mod::lemma_fundamental_div_mod_converse(a as int, b as int, -(q as int), (b - 1 - rem) as int);
            assert(q >= 1) by (nonlinear_arith)
                requires n as int == q * b + rem, n == m + b - 1, m >= 1, rem < b;
            assert(q <= m) by (nonlinear_arith)
                requires n as int == q * b + rem, n == m + b - 1, m >= 1, rem >= 0, b >= 1;
        }
        -(q as i128)
    }
}

fn kernel_weight_exec(filter: FilterType, num: i128, den: i128) -> (r: i128)
    requires
        0 < den <= 0x4_0000_0000,
        -0x1_0000_0000_0000_0000_0000_0000_0000 <= num <= 0x1_0000_0000_0000_0000_0000_0000_0000,
    ensures
        r == kernel_weight(filter, num as int, den as int),
        -32 * WEIGHT_SCALE <= r <= 32 * WEIGHT_SCALE,
{
    let s: i128 = WEIGHT_SCALE as i128;
    let a: i128 = if num < 0 { -num } else { num };
    if a >= 2 * den {
        return 0;
    }
    let t = floor_div(a * s, den);
    proof {
        assert(t < 2 * s) by (nonlinear_arith)
            requires t as int == (a as int * s as int) / (den as int), a < 2 * den, s > 0, den > 0;
        assert(t >= 0) by (nonlinear_arith)
            requires t as int == (a as int * s as int) / (den as int), a >= 0, s > 0, den > 0;
        assert(a < den ==> t < s) by (nonlinear_arith)
            requires t as int == (a as int * s as int) / (den as int), s > 0, den > 0;
        assert(a >= den ==> t >= s) by (nonlinear_arith)
            requires t as int == (a as int * s as int) / (den as int), s > 0, den > 0;
        assert(fixed_arg(num as int, den as int) == t);
    }
    proof {
        assert(0 <= t * t <= 4 * s * s) by (nonlinear_arith)
            requires 0 <= t < 2 * s;
    }
    let t2 = t * t;
    proof {
        assert(0 <= t2 * t <= 8 * s * s * s) by (nonlinear_arith)
            requires 0 <= t < 2 * s, 0 <= t2 <= 4 * s * s;
    }
    let t3 = t2 * t;
    proof {
        assert(t2 * s <= 4 * s * s * s) by (nonlinear_arith)
            requires 0 <= t2 <= 4 * s * s, s > 0;
        assert(t * s * s <= 2 * s * s * s) by (nonlinear_arith)
            requires 0 <= t < 2 * s, s > 0;
        assert(t3 == t * t * t && t2 * s == t * t * s) by (nonlinear_arith)
            requires t2 == t * t, t3 == t2 * t;
    }
    let s2 = s * s;
    let s3 = s2 * s;
    match filter {
        FilterType::Box => if -den <= 2 * num && 2 * num < den { s } else { 0 },
        FilterType::Bilinear => if a < den { s - t } else { 0 },
        FilterType::CatmullRom => {
            if a < den {
                proof {
                    assert(3 * t3 - 5 * t2 * s + 2 * s3 == 3 * t * t * t - 5 * t * t * s + 2 * s * s * s && 2 * s2 == 2 * s * s) by (nonlinear_arith)
                        requires t2 == t * t, t3 == t2 * t, s2 == s * s, s3 == s2 * s;
                }
                let r = floor_div(3 * t3 - 5 * t2 * s + 2 * s3, 2 * s2);
                proof {
                    assert(r <= 32 * s && r >= -32 * s) by (nonlinear_arith)
                        requires r == (3 * t3 - 5 * t2 * s + 2 * s3) / (2 * s2), 0 <= t3 <= 8 * s3, 0 <= t2 * s <= 4 * s3, s2 == s * s, s3 == s2 * s, s == 16384;
                }
                r
            } else {
                proof {
                    assert(-t3 + 5 * t2 * s - 8 * t * s2 + 4 * s3 == -t * t * t + 5 * t * t * s - 8 * t * s * s + 4 * s * s * s && 2 * s2 == 2 * s * s) by (nonlinear_arith)
                        requires t2 == t * t, t3 == t2 * t, s2 == s * s, s3 == s2 * s;
                }
                let r = floor_div(-t3 + 5 * t2 * s - 8 * t * s2 + 4 * s3, 2 * s2);
                proof {
                    assert(r <= 32 * s && r >= -32 * s) by (nonlinear_arith)
                        requires r == (-t3 + 5 * t2 * s - 8 * t * s2 + 4 * s3) / (2 * s2), 0 <= t3 <= 8 * s3, 0 <= t2 * s <= 4 * s3, 0 <= t * s2 <= 2 * s3, s2 == s * s, s3 == s2 * s, s == 16384;
                }
                r
            }
        },
        FilterType::Mitchell => {
            if a < den {
                proof {
                    assert(21 * t3 - 36 * t2 * s + 16 * s3 == 21 * t * t * t - 36 * t * t * s + 16 * s * s * s && 18 * s2 == 18 * s * s) by (nonlinear_arith)
                        requires t2 == t * t, t3 == t2 * t, s2 == s * s, s3 == s2 * s;
                }
                let r = floor_div(21 * t3 - 36 * t2 * s + 16 * s3, 18 * s2);
                proof {
                    assert(r <= 32 * s && r >= -32 * s) by (nonlinear_arith)
                        requires r == (21 * t3 - 36 * t2 * s + 16 * s3) / (18 * s2), 0 <= t3 <= 8 * s3, 0 <= t2 * s <= 4 * s3, s2 == s * s, s3 == s2 * s, s == 16384;
                }
                r
            } else {
                proof {
                    assert(-7 * t3 + 36 * t2 * s - 60 * t * s2 + 32 * s3 == -7 * t * t * t + 36 * t * t * s - 60 * t * s * s + 32 * s * s * s && 18 * s2 == 18 * s * s) by (nonlinear_arith)
                        requires t2 == t * t, t3 == t2 * t, s2 == s * s, s3 == s2 * s;
                }
                let r = floor_div(-7 * t3 + 36 * t2 * s - 60 * t * s2 + 32 * s3, 18 * s2);
                proof {
                    assert(r <= 32 * s && r >= -32 * s) by (nonlinear_arith)
                        requires r == (-7 * t3 + 36 * t2 * s - 60 * t * s2 + 32 * s3) / (18 * s2), 0 <= t3 <= 8 * s3, 0 <= t2 * s <= 4 * s3, 0 <= t * s2 <= 2 * s3, s2 == s * s, s3 == s2 * s, s == 16384;
                }
                r
            }
        },
    }
}

pub proof fn lemma_sum_of_take(s: Seq<int>, k: int)
    requires
        0 <= k < s.len(),
    ensures
        sum_of(s.take(k + 1)) == sum_of(s.take(k)) + s[k],
{
    assert(s.take(k + 1).drop_last() =~= s.take(k));
}

proof fn lemma_clamp_monotone(i: int, j: int, sl: nat)
    requires
        i <= j,
        sl > 0,
    ensures
        clamp_index(i, sl) <= clamp_index(j, sl),
        0 <= clamp_index(i, sl) < sl,
{
}

fn clamp_exec(i: i128, sl: u32) -> (r: usize)
    requires
        sl > 0,
    ensures
        r as int == clamp_index(i as int, sl as nat),
        r < sl,
{
    if i < 0 {
        0
    } else if i >= sl as i128 {
        (sl - 1) as usize
    } else {
        i as usize
    }
}

/// Window start and weights before normalization, for unequal lengths.
fn fold_weights(filter: FilterType, sl: u32, dl: u32, d: u32) -> (r: (usize, Vec<i128>))
    requires
        sl > 0,
        dl > 0,
        d < dl,
    ensures
        r.0 as int == window_start(filter, sl as nat, dl as nat, d as nat),
        r.1@.map_values(|w: i128| w as int) == folded_weights(filter, sl as nat, dl as nat, d as nat),
        r.1.len() <= sl,
        r.1.len() >= 1,
        r.0 + r.1.len() <= sl,
        forall|k: int| 0 <= k < r.1.len() ==> -0x100_0000_0000_0000_0000_0000 <= #[trigger] r.1@[k] <= 0x100_0000_0000_0000_0000_0000,
{
    let ghost (gs, gd, gd_) = (sl as nat, dl as nat, d as nat);
    let m: i128 = if sl > dl { sl as i128 } else { dl as i128 };
    proof {
        assert((2 * d as int + 1) * sl as int <= 0x2_0000_0000 * 0x1_0000_0000) by (nonlinear_arith)
            requires d < 0x1_0000_0000, sl < 0x1_0000_0000;
        assert((2 * d as int + 1) * sl as int >= 0) by (nonlinear_arith);
    }
    let center: i128 = (2 * d as i128 + 1) * sl as i128 - dl as i128;
    let rh = filter.support_halves_exec();
    let step: i128 = 2 * dl as i128;
    proof {
        assert(rh * m <= 4 * 0x1_0000_0000) by (nonlinear_arith)
            requires 1 <= rh <= 4, 0 < m <= 0x1_0000_0000;
        assert(rh * m >= 0) by (nonlinear_arith)
            requires 1 <= rh <= 4, 0 < m;
    }
    let lo = floor_div(center - rh * m, step);
    let hi = floor_div(center + rh * m, step) + 2;
    proof {
        vstd::arithmetic::div_mod::lemma_div_is_ordered((center - rh * m) as int, (center + rh * m) as int, step as int);
        assert(lo == lo_index(filter, gs, gd, gd_));
        assert(hi == hi_index(filter, gs, gd, gd_));
        lemma_clamp_monotone(lo as int, (hi - 1) as int, gs);
    }
    let start = clamp_exec(lo, sl);
    let last = clamp_exec(hi - 1, sl);
    let len = last - start + 1;
    let mut w: Vec<i128> = Vec::new();
    while w.len() < len
        invariant
            w.len() <= len,
            forall|j: int| 0 <= j < w.len() ==> #[trigger] w@[j] == 0,
        decreases len - w.len(),
    {
        w.push(0);
    }
    let count = hi - lo;
    let den = 2 * m;
    let mut n: i128 = 0;
    while n < count
        invariant
            0 <= n <= count,
            count == hi - lo,
            gs == sl as nat,
            gd == dl as nat,
            gd_ == d as nat,
            sl > 0,
            lo == lo_index(filter, gs, gd, gd_),
            hi == hi_index(filter, gs, gd, gd_),
            start as int == clamp_index(lo as int, gs),
            last as int == clamp_index(hi - 1, gs),
            start <= last < sl,
            len == last - start + 1,
            w.len() == len,
            den == kernel_den(gs, gd),
            center == center_num(gs, gd, gd_),
            -0x1_0000_0000 <= center <= 0x2_0000_0000 * 0x1_0000_0000,
            -0x8_0000_0000_0000_0000 <= lo,
            hi <= 0x8_0000_0000_0000_0000,
            0 < step <= 0x2_0000_0000,
            0 < den <= 0x4_0000_0000,
            step == 2 * gd,
            forall|j: int| 0 <= j < len ==> #[trigger] w@[j] == folded_weight(filter, gs, gd, gd_, start + j, n as nat),
            forall|j: int| 0 <= j < len ==> -n * 32 * WEIGHT_SCALE <= #[trigger] w@[j] <= n * 32 * WEIGHT_SCALE,
        decreases count - n,
    {
        let i = lo + n;
        proof {
            assert(-0x2_0000_0000 * 0x8_0000_0000_0000_0000 <= step * i <= 0x2_0000_0000 * 0x8_0000_0000_0000_0000) by (nonlinear_arith)
                requires 0 < step <= 0x2_0000_0000, -0x8_0000_0000_0000_0000 <= i <= 0x8_0000_0000_0000_0000;
            lemma_clamp_monotone(lo as int, i as int, gs);
            lemma_clamp_monotone(i as int, hi - 1, gs);
        }
        let num = step * i - center;
        let raw = kernel_weight_exec(filter, num, den);
        let k = clamp_exec(i, sl);
        let idx = k - start;
        let old_v = w[idx];
        w.set(idx, old_v + raw);
        n = n + 1;
        proof {
            assert forall|j: int| 0 <= j < len implies #[trigger] w@[j] == folded_weight(filter, gs, gd, gd_, start + j, n as nat) by {
                assert(lo_index(filter, gs, gd, gd_) + n - 1 == i);
            }
            assert forall|j: int| 0 <= j < len implies -n * 32 * WEIGHT_SCALE <= #[trigger] w@[j] <= n * 32 * WEIGHT_SCALE by {
            }
        }
    }
    proof {
        assert(w@.map_values(|w: i128| w as int) =~= folded_weights(filter, gs, gd, gd_));
    }
    (start, w)
}

pub open spec fn ints128(v: Seq<i128>) -> Seq<int> {
    v.map_values(|w: i128| w as int)
}

pub open spec fn ints64(v: Seq<i64>) -> Seq<int> {
    v.map_values(|w: i64| w as int)
}

fn abs_i64(v: i64) -> (r: i128)
    ensures
        r == abs(v as int),
{
    if v < 0 {
        -(v as i128)
    } else {
        v as i128
    }
}

/// Scales `w` to sum to `WEIGHT_SCALE`, as `normalized` states.
fn normalize(w: &Vec<i128>) -> (r: Option<Vec<i64>>)
    requires
        w.len() <= u32::MAX,
        forall|k: int| 0 <= k < w.len() ==> -0x100_0000_0000_0000_0000_0000 <= #[trigger] w@[k] <= 0x100_0000_0000_0000_0000_0000,
    ensures
        r is Some <==> normalized(ints128(w@)) is Some,
        r is Some ==> ints64(r->Some_0@) == normalized(ints128(w@))->Some_0,
        r is Some ==> r->Some_0.len() == w.len(),
        r is Some ==> forall|k: int| 0 <= k < w.len() ==> -MAX_WEIGHT <= #[trigger] r->Some_0@[k] <= MAX_WEIGHT,
{
    let ghost ws = ints128(w@);
    let len = w.len();
    let mut total: i128 = 0;
    let mut k: usize = 0;
    while k < len
        invariant
            len == w.len(),
            len <= u32::MAX,
            ws == ints128(w@),
            k <= len,
            total == sum_of(ws.take(k as int)),
            -k * 0x100_0000_0000_0000_0000_0000 <= total <= k * 0x100_0000_0000_0000_0000_0000,
            forall|j: int| 0 <= j < w.len() ==> -0x100_0000_0000_0000_0000_0000 <= #[trigger] w@[j] <= 0x100_0000_0000_0000_0000_0000,
        decreases len - k,
    {
        proof {
            lemma_sum_of_take(ws, k as int);
        }
        total = total + w[k];
        k += 1;
    }
    proof {
        assert(ws.take(len as int) =~= ws);
    }
    if total <= 0 || len == 0 {
        return None;
    }
    let ghost ns = scaled_weights(ws);
    let mut n: Vec<i64> = Vec::new();
    k = 0;
    while k < len
        invariant
            len == w.len(),
            len <= u32::MAX,
            ws == ints128(w@),
            ns == scaled_weights(ws),
            total == sum_of(ws),
            total > 0,
            k <= len,
            n.len() == k,
            forall|j: int| 0 <= j < k ==> #[trigger] n@[j] as int == ns[j],
            forall|j: int| 0 <= j < k ==> -MAX_WEIGHT <= #[trigger] n@[j] <= MAX_WEIGHT,
            forall|j: int| 0 <= j < w.len() ==> -0x100_0000_0000_0000_0000_0000 <= #[trigger] w@[j] <= 0x100_0000_0000_0000_0000_0000,
        decreases len - k,
    {
        let wk = w[k];
        assert(-0x100_0000_0000_0000_0000_0000 <= w@[k as int] <= 0x100_0000_0000_0000_0000_0000);
        let v = floor_div(wk * (WEIGHT_SCALE as i128), total);
        if v < -(MAX_WEIGHT as i128) || v > MAX_WEIGHT as i128 {
            proof {
                assert(ns[k as int] == v);
            }
            return None;
        }
        n.push(v as i64);
        k += 1;
    }
    let mut sum_n: i128 = 0;
    let mut a: usize = 0;
    let ghost nv = ints64(n@);
    proof {
        assert(nv =~= ns);
    }
    k = 0;
    while k < len
        invariant
            len == n.len(),
            len >= 1,
            len <= u32::MAX,
            nv == ints64(n@),
            k <= len,
            a < len,
            k > 0 ==> a < k,
            k > 0 ==> a == argmax_abs(nv, k as nat),
            k == 0 ==> a == 0,
            sum_n == sum_of(nv.take(k as int)),
            -k * MAX_WEIGHT <= sum_n <= k * MAX_WEIGHT,
            forall|j: int| 0 <= j < len ==> -MAX_WEIGHT <= #[trigger] n@[j] <= MAX_WEIGHT,
        decreases len - k,
    {
        proof {
            lemma_sum_of_take(nv, k as int);
        }
        sum_n = sum_n + n[k] as i128;
        if k > 0 && abs_i64(n[k]) > abs_i64(n[a]) {
            a = k;
        }
        k += 1;
    }
    proof {
        assert(nv.take(len as int) =~= nv);
    }
    let top = n[a] as i128 + WEIGHT_SCALE as i128 - sum_n;
    if top < -(MAX_WEIGHT as i128) || top > MAX_WEIGHT as i128 {
        return None;
    }
    n.set(a, top as i64);
    proof {
        assert(ints64(n@) =~= ns.update(a as int, top as int));
    }
    Some(n)
}

/// Computes the window of destination index `d`, as `window_spec` states.
fn compute_window(filter: FilterType, sl: u32, dl: u32, d: u32) -> (r: Window)
    requires
        sl > 0,
        dl > 0,
        d < dl,
    ensures
        r.view() == window_spec(filter, sl as nat, dl as nat, d as nat),
        window_wf(r.view(), sl as nat),
{
    if sl == dl {
        let weights = vec![WEIGHT_SCALE];
        proof {
            assert(ints64(weights@) =~= seq![WEIGHT_SCALE as int]);
        }
        return Window { start: d as usize, weights };
    }
    let (start, folded) = fold_weights(filter, sl, dl, d);
    match normalize(&folded) {
        Some(weights) => Window { start, weights },
        None => {
            proof {
                assert(((2 * d as nat + 1) * sl as nat) / (2 * dl as nat) < sl) by (nonlinear_arith)
                    requires d < dl, dl > 0, sl > 0;
                assert(((2 * d as nat + 1) * sl as nat) <= 0x2_0000_0000 * 0x1_0000_0000) by (nonlinear_arith)
                    requires d < 0x1_0000_0000, sl < 0x1_0000_0000;
            }
            let nearest = ((2 * d as u128 + 1) * sl as u128) / (2 * dl as u128);
            let weights = vec![WEIGHT_SCALE];
            proof {
                assert(ints64(weights@) =~= seq![WEIGHT_SCALE as int]);
            }
            Window { start: nearest as usize, weights }
        },
    }
}

/// A window lies inside a source of length `sl`, is not empty, and its
/// weights are within `MAX_WEIGHT`.
pub open spec fn window_wf(w: (int, Seq<int>), sl: nat) -> bool {
    &&& 0 <= w.0
    &&& w.1.len() >= 1
    &&& w.0 + w.1.len() <= sl
    &&& forall|k: int| 0 <= k < w.1.len() ==> -MAX_WEIGHT <= #[trigger] w.1[k] <= MAX_WEIGHT
}

/// Coefficient table of one axis: the window of every destination index.
pub fn coefficients(filter: FilterType, sl: u32, dl: u32) -> (r: Vec<Window>)
    requires
        sl > 0,
        dl > 0,
    ensures
        r.len() == dl,
        forall|d: int| 0 <= d < dl ==> (#[trigger] r@[d]).view() == window_spec(filter, sl as nat, dl as nat, d as nat),
        forall|d: int| 0 <= d < dl ==> window_wf((#[trigger] r@[d]).view(), sl as nat),
{
    let mut table: Vec<Window> = Vec::new();
    let mut d: u32 = 0;
    while d < dl
        invariant
            sl > 0,
            dl > 0,
            d <= dl,
            table.len() == d,
            forall|j: int| 0 <= j < d ==> (#[trigger] table@[j]).view() == window_spec(filter, sl as nat, dl as nat, j as nat),
            forall|j: int| 0 <= j < d ==> window_wf((#[trigger] table@[j]).view(), sl as nat),
        decreases dl - d,
    {
        let w = compute_window(filter, sl, dl, d);
        table.push(w);
        d += 1;
    }
    table
}

proof fn lemma_sum_of_update(s: Seq<int>, a: int, v: int)
    requires
        0 <= a < s.len(),
    ensures
        sum_of(s.update(a, v)) == sum_of(s) - s[a] + v,
    decreases s.len(),
{
    let u = s.update(a, v);
    if a == s.len() - 1 {
        assert(u.drop_last() =~= s.drop_last());
    } else {
        lemma_sum_of_update(s.drop_last(), a, v);
        assert(u.drop_last() =~= s.drop_last().update(a, v));
    }
}

proof fn lemma_sum_of_scaled_le(a: Seq<int>, b: Seq<int>, t: int)
    requires
        a.len() == b.len(),
        t > 0,
        forall|k: int| 0 <= k < a.len() ==> #[trigger] b[k] * t <= a[k],
    ensures
        sum_of(b) * t <= sum_of(a),
    decreases a.len(),
{
    if a.len() > 0 {
        let n = a.len() - 1;
        assert forall|k: int| 0 <= k < a.drop_last().len() implies #[trigger] b.drop_last()[k] * t <= a.drop_last()[k] by {
            assert(b[k] * t <= a[k]);
        }
        lemma_sum_of_scaled_le(a.drop_last(), b.drop_last(), t);
        assert(b[n] * t <= a[n]);
        assert(sum_of(b) * t == sum_of(b.drop_last()) * t + b[n] * t) by (nonlinear_arith)
            requires sum_of(b) == sum_of(b.drop_last()) + b[n];
    }
}

proof fn lemma_folded_nonneg(filter: FilterType, sl: nat, dl: nat, d: nat, k: int, n: nat)
    requires
        forall|i: int| #[trigger] raw_weight(filter, sl, dl, d, i) >= 0,
    ensures
        folded_weight(filter, sl, dl, d, k, n) >= 0,
    decreases n,
{
    if n > 0 {
        lemma_folded_nonneg(filter, sl, dl, d, k, (n - 1) as nat);
        assert(raw_weight(filter, sl, dl, d, lo_index(filter, sl, dl, d) + n - 1) >= 0);
    }
}

/// Kernels without negative lobes.
pub open spec fn is_nonnegative_kernel(filter: FilterType) -> bool {
    filter == FilterType::Box || filter == FilterType::Bilinear
}

proof fn lemma_raw_nonneg(filter: FilterType, sl: nat, dl: nat, d: nat)
    requires
        is_nonnegative_kernel(filter),
        sl > 0,
        dl > 0,
    ensures
        forall|i: int| #[trigger] raw_weight(filter, sl, dl, d, i) >= 0,
{
    assert forall|i: int| #[trigger] raw_weight(filter, sl, dl, d, i) >= 0 by {
        let num = sample_num(sl, dl, d, i);
        let den = kernel_den(sl, dl);
        let s = WEIGHT_SCALE as int;
        if filter == FilterType::Bilinear && abs(num) < den {
            let t = abs(num) * s / den;
            assert(t < s) by (nonlinear_arith)
                requires t == abs(num) * s / den, abs(num) < den, s > 0, den > 0, abs(num) >= 0;
        }
    }
}

/// A window lies inside a source of length `sl` and is not empty.
pub proof fn lemma_window_spec_wf(filter: FilterType, sl: nat, dl: nat, d: nat)
    requires
        sl > 0,
        dl > 0,
        d < dl,
    ensures
        0 <= window_spec(filter, sl, dl, d).0,
        window_spec(filter, sl, dl, d).1.len() >= 1,
        window_spec(filter, sl, dl, d).0 + window_spec(filter, sl, dl, d).1.len() <= sl,
{
    if sl != dl {
        let c = center_num(sl, dl, d);
        let r = filter.support_halves() * max_len(sl, dl);
        vstd::arithmetic::div_mod::lemma_div_is_ordered(c - r, c + r, 2 * dl as int);
        lemma_clamp_monotone(lo_index(filter, sl, dl, d), hi_index(filter, sl, dl, d) - 1, sl);
        lemma_clamp_monotone(hi_index(filter, sl, dl, d) - 1, hi_index(filter, sl, dl, d) - 1, sl);
        assert(((2 * d + 1) * sl) / (2 * dl) < sl) by (nonlinear_arith)
            requires d < dl, dl > 0, sl > 0;
        let w = folded_weights(filter, sl, dl, d);
        assert(w.len() == window_len(filter, sl, dl, d));
        assert(window_len(filter, sl, dl, d) >= 1);
        match normalized(w) {
            Some(r) => {
                let n = scaled_weights(w);
                lemma_argmax_in_range(n, n.len());
                assert(r.len() == w.len());
            },
            None => {},
        }
    }
}

/// The windows of kernels without negative lobes have nonnegative weights
/// that sum to `WEIGHT_SCALE`.
pub proof fn lemma_nonnegative_window(filter: FilterType, sl: nat, dl: nat, d: nat)
    requires
        is_nonnegative_kernel(filter),
        sl > 0,
        dl > 0,
    ensures
        sum_of(window_spec(filter, sl, dl, d).1) == WEIGHT_SCALE,
        forall|k: int| 0 <= k < window_spec(filter, sl, dl, d).1.len() ==> #[trigger] window_spec(filter, sl, dl, d).1[k] >= 0,
{
    let unit = seq![WEIGHT_SCALE as int];
    assert(sum_of(unit) == WEIGHT_SCALE) by {
        assert(unit.drop_last() =~= Seq::<int>::empty());
        assert(sum_of(Seq::<int>::empty()) == 0);
        assert(unit.last() == WEIGHT_SCALE);
    }
    if sl != dl {
        let w = folded_weights(filter, sl, dl, d);
        match normalized(w) {
            Some(r) => {
                lemma_raw_nonneg(filter, sl, dl, d);
                let total = sum_of(w);
                let n = scaled_weights(w);
                let s = WEIGHT_SCALE as int;
                assert forall|k: int| 0 <= k < w.len() implies #[trigger] w[k] >= 0 by {
                    lemma_folded_nonneg(filter, sl, dl, d, window_start(filter, sl, dl, d) + k,
                        (hi_index(filter, sl, dl, d) - lo_index(filter, sl, dl, d)) as nat);
                }
                assert forall|k: int| 0 <= k < n.len() implies #[trigger] n[k] >= 0 && n[k] * total <= w[k] * s by {
                    assert(n[k] == w[k] * s / total);
                    assert(n[k] >= 0 && n[k] * total <= w[k] * s) by (nonlinear_arith)
                        requires n[k] == w[k] * s / total, w[k] >= 0, s > 0, total > 0;
                }
                let ws = Seq::new(w.len(), |k: int| w[k] * s);
                assert forall|k: int| 0 <= k < n.len() implies #[trigger] n[k] * total <= ws[k] by {
                    assert(n[k] * total <= w[k] * s);
                }
                lemma_sum_of_scaled_le(ws, n, total);
                lemma_sum_of_times(w, s);
                assert(ws =~= Seq::new(w.len(), |k: int| w[k] * s));
                assert(sum_of(n) <= s) by (nonlinear_arith)
                    requires sum_of(n) * total <= sum_of(ws), sum_of(ws) == sum_of(w) * s, total == sum_of(w), total > 0;
                let a = argmax_abs(n, n.len()) as int;
                lemma_argmax_in_range(n, n.len());
                lemma_sum_of_update(n, a, n[a] + s - sum_of(n));
            },
            None => {},
        }
    }
}

proof fn lemma_argmax_in_range(s: Seq<int>, n: nat)
    requires
        1 <= n <= s.len(),
    ensures
        argmax_abs(s, n) < n,
    decreases n,
{
    if n > 1 {
        lemma_argmax_in_range(s, (n - 1) as nat);
    }
}

proof fn lemma_sum_of_times(w: Seq<int>, s: int)
    ensures
        sum_of(Seq::new(w.len(), |k: int| w[k] * s)) == sum_of(w) * s,
    decreases w.len(),
{
    let ws = Seq::new(w.len(), |k: int| w[k] * s);
    if w.len() > 0 {
        lemma_sum_of_times(w.drop_last(), s);
        assert(ws.drop_last() =~= Seq::new(w.drop_last().len(), |k: int| w.drop_last()[k] * s));
        assert(sum_of(w) * s == sum_of(w.drop_last()) * s + w.last() * s) by (nonlinear_arith)
            requires sum_of(w) == sum_of(w.drop_last()) + w.last();
    }
}

} // verus!
