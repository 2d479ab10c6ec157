//! CPU extension selection and the resize engine: point sampling, or a
//! horizontal then a vertical convolution pass.
use vstd::prelude::*;

use crate::convolution::{
    coefficients, is_nonnegative_kernel, lemma_equal_lengths_identity, lemma_nearest_identity, lemma_nonnegative_window,
    lemma_sum_of_take, lemma_window_spec_wf, nearest_index, sum_of, window_spec, window_wf, FilterType, Window, MAX_WEIGHT, WEIGHT_SCALE};
use crate::image_view::{ImageView, ImageViewMut};
use crate::pixels::{PixelComponent, PixelExt};

verus! {

/// Vector instruction level used for the inner loops: it sets how many rows
/// the horizontal pass takes at once. Every level gives the same result as
/// the baseline `Scalar`.
#[derive(Clone, Copy, Debug, PartialEq, Eq, Structural)]
pub enum CpuExtensions {
    Scalar,
    Sse4_1,
    Avx2,
    Neon,
    Simd128,
}

impl Default for CpuExtensions {
    fn default() -> (r: Self)
        ensures
            r == CpuExtensions::Scalar,
    {
        CpuExtensions::Scalar
    }
}

/// Resampling method.
#[derive(Clone, Copy, Debug, PartialEq, Eq, Structural)]
pub enum ResizeAlg {
    /// Each destination pixel takes the source pixel its center maps into.
    Nearest,
    /// Weighted sums through a kernel, one axis after the other.
    Convolution(FilterType),
}

pub open spec fn max_of<P: PixelExt>() -> nat {
    <P::Component as PixelComponent>::max_value()
}

/// A fixed-point sum of weighted samples, divided by `WEIGHT_SCALE`, rounded
/// half up and clamped to [0, `max`].
pub open spec fn round_clamp(acc: int, max: nat) -> nat {
    if acc < 0 {
        0
    } else if (acc + WEIGHT_SCALE / 2) / (WEIGHT_SCALE as int) > max {
        max
    } else {
        ((acc + WEIGHT_SCALE / 2) / (WEIGHT_SCALE as int)) as nat
    }
}

/// Sum of the first `n` weights of `w` times component `c` of the pixels of
/// row `row` of `src` from column `first` on.
pub open spec fn row_sum<P: PixelExt>(src: &ImageView<P>, w: Seq<int>, first: int, row: nat, c: nat, n: nat) -> int
    decreases n,
{
    if n == 0 {
        0
    } else {
        row_sum(src, w, first, row, c, (n - 1) as nat) + w[n - 1] * src.component((first + n - 1) as nat, row, c)
    }
}

/// Result of the horizontal pass: component `c` of column `x` of row `r`
/// of the crop region resampled to width `dw`.
pub open spec fn horizontal_value<P: PixelExt>(src: &ImageView<P>, filter: FilterType, dw: nat, r: nat, x: nat, c: nat) -> nat {
    let cb = src.spec_crop_box();
    let win = window_spec(filter, cb.width as nat, dw, x);
    round_clamp(row_sum(src, win.1, cb.left + win.0, (cb.top + r) as nat, c, win.1.len()), max_of::<P>())
}

/// Sum of the first `n` weights of `w` times the horizontal pass's values of
/// column `x` from row `first` on.
pub open spec fn column_sum<P: PixelExt>(
    src: &ImageView<P>,
    filter: FilterType,
    dw: nat,
    w: Seq<int>,
    first: int,
    x: nat,
    c: nat,
    n: nat,
) -> int
    decreases n,
{
    if n == 0 {
        0
    } else {
        column_sum(src, filter, dw, w, first, x, c, (n - 1) as nat) + w[n - 1] * horizontal_value(
            src,
            filter,
            dw,
            (first + n - 1) as nat,
            x,
            c,
        )
    }
}

/// Component `c` of pixel (`x`, `y`) of the crop region of `src` resized to
/// `dw` x `dh` with `alg`.
pub open spec fn resized_value<P: PixelExt>(src: &ImageView<P>, alg: ResizeAlg, dw: nat, dh: nat, x: nat, y: nat, c: nat) -> nat {
    let cb = src.spec_crop_box();
    match alg {
        ResizeAlg::Nearest => src.component(
            (cb.left + nearest_index(cb.width as nat, dw, x)) as nat,
            (cb.top + nearest_index(cb.height as nat, dh, y)) as nat,
            c,
        ),
        ResizeAlg::Convolution(filter) => {
            let win = window_spec(filter, cb.height as nat, dh, y);
            round_clamp(column_sum(src, filter, dw, win.1, win.0, x, c, win.1.len()), max_of::<P>())
        },
    }
}

fn round_clamp_exec(acc: i128, max: u32) -> (r: u32)
    requires
        -0x1_0000_0000_0000_0000_0000_0000 <= acc <= 0x1_0000_0000_0000_0000_0000_0000,
    ensures
        r as nat == round_clamp(acc as int, max as nat),
        r <= max,
{
    if acc < 0 {
        0
    } else {
        let v = (acc as u128 + (WEIGHT_SCALE / 2) as u128) / WEIGHT_SCALE as u128;
        if v > max as u128 {
            max
        } else {
            v as u32
        }
    }
}

fn nearest_exec(sl: u32, dl: u32, d: u32) -> (r: u32)
    requires
        sl > 0,
        dl > 0,
        d < dl,
    ensures
        r as int == nearest_index(sl as nat, dl as nat, d as nat),
        r < sl,
{
    proof {
        assert(((2 * d as nat + 1) * sl as nat) / (2 * dl as nat) < sl) by (nonlinear_arith)
            requires d < dl, dl > 0, sl > 0;
        assert(((2 * d as nat + 1) * sl as nat) <= 0x2_0000_0000 * 0x1_0000_0000) by (nonlinear_arith)
            requires d < 0x1_0000_0000, sl < 0x1_0000_0000;
    }
    (((2 * d as u128 + 1) * sl as u128) / (2 * dl as u128)) as u32
}

/// One value of the horizontal pass.
fn horizontal_one<P: PixelExt>(src: &ImageView<P>, win: &Window, left: u32, row: u32, c: usize, max: u32) -> (r: u32)
    requires
        src.wf(),
        window_wf(win.view(), (src.spec_width() - left) as nat),
        left <= src.spec_width(),
        row < src.spec_height(),
        c < P::spec_count(),
        max == max_of::<P>(),
    ensures
        r as nat == round_clamp(row_sum(src, win.view().1, left + win.view().0, row as nat, c as nat, win.view().1.len()), max as nat),
{
    let ghost wv = win.view().1;
    let len = win.weights.len();
    let mut acc: i128 = 0;
    let mut j: usize = 0;
    while j < len
        invariant
            src.wf(),
            window_wf(win.view(), (src.spec_width() - left) as nat),
            wv == win.view().1,
            len == wv.len(),
            left <= src.spec_width(),
            row < src.spec_height(),
            c < P::spec_count(),
            max == max_of::<P>(),
            j <= len,
            acc == row_sum(src, wv, left + win.view().0, row as nat, c as nat, j as nat),
            -j * MAX_WEIGHT * 65535 <= acc <= j * MAX_WEIGHT * 65535,
        decreases len - j,
    {
        proof {
            src.lemma_wf();
        }
        assert(win.start + j < src.spec_width() - left);
        let x: u32 = left + (win.start + j) as u32;
        let v = src.get_component(x, row, c).to_u32();
        let w = win.weights[j];
        proof {
            assert(wv[j as int] == w as int);
            assert(-MAX_WEIGHT * 65535 <= w as int * v as int <= MAX_WEIGHT * 65535) by (nonlinear_arith)
                requires -MAX_WEIGHT <= w <= MAX_WEIGHT, 0 <= v <= 65535;
        }
        acc = acc + w as i128 * v as i128;
        j += 1;
    }
    proof {
        src.lemma_wf();
        assert(len <= 0x1_0000_0000);
    }
    round_clamp_exec(acc, max)
}

/// One value of the vertical pass, over the horizontal pass's results.
fn vertical_one<P: PixelExt>(
    src: &ImageView<P>,
    Ghost(filter): Ghost<FilterType>,
    Ghost(dw): Ghost<nat>,
    tmp: &Vec<Vec<Vec<u32>>>,
    win: &Window,
    x: usize,
    c: usize,
    max: u32,
) -> (r: u32)
    requires
        window_wf(win.view(), tmp.len() as nat),
        tmp.len() <= u32::MAX,
        x < dw,
        c < P::spec_count(),
        max == max_of::<P>(),
        max <= 65535,
        forall|r: int| 0 <= r < tmp.len() ==> (#[trigger] tmp@[r]).len() == dw,
        forall|r: int, x2: int| 0 <= r < tmp.len() && 0 <= x2 < dw ==> (#[trigger] tmp@[r]@[x2]).len() == P::spec_count(),
        forall|r: int, x2: int, c2: int|
            0 <= r < tmp.len() && 0 <= x2 < dw && 0 <= c2 < P::spec_count() ==> #[trigger] tmp@[r]@[x2]@[c2]
                == horizontal_value(src, filter, dw, r as nat, x2 as nat, c2 as nat),
        forall|r: int, x2: int, c2: int|
            0 <= r < tmp.len() && 0 <= x2 < dw && 0 <= c2 < P::spec_count() ==> #[trigger] tmp@[r]@[x2]@[c2] <= max,
    ensures
        r as nat == round_clamp(column_sum(src, filter, dw, win.view().1, win.view().0, x as nat, c as nat, win.view().1.len()), max as nat),
{
    let ghost wv = win.view().1;
    let len = win.weights.len();
    let mut acc: i128 = 0;
    let mut j: usize = 0;
    while j < len
        invariant
            window_wf(win.view(), tmp.len() as nat),
            tmp.len() <= u32::MAX,
            wv == win.view().1,
            len == wv.len(),
            x < dw,
            c < P::spec_count(),
            max == max_of::<P>(),
            max <= 65535,
            forall|r: int| 0 <= r < tmp.len() ==> (#[trigger] tmp@[r]).len() == dw,
            forall|r: int, x2: int| 0 <= r < tmp.len() && 0 <= x2 < dw ==> (#[trigger] tmp@[r]@[x2]).len() == P::spec_count(),
            forall|r: int, x2: int, c2: int|
                0 <= r < tmp.len() && 0 <= x2 < dw && 0 <= c2 < P::spec_count() ==> #[trigger] tmp@[r]@[x2]@[c2]
                    == horizontal_value(src, filter, dw, r as nat, x2 as nat, c2 as nat),
            forall|r: int, x2: int, c2: int|
                0 <= r < tmp.len() && 0 <= x2 < dw && 0 <= c2 < P::spec_count() ==> #[trigger] tmp@[r]@[x2]@[c2] <= max,
            j <= len,
            acc == column_sum(src, filter, dw, wv, win.view().0, x as nat, c as nat, j as nat),
            -j * MAX_WEIGHT * 65535 <= acc <= j * MAX_WEIGHT * 65535,
        decreases len - j,
    {
        let r = win.start + j;
        let v = tmp[r][x][c];
        let w = win.weights[j];
        proof {
            assert(wv[j as int] == w as int);
            assert(-MAX_WEIGHT * 65535 <= w as int * v as int <= MAX_WEIGHT * 65535) by (nonlinear_arith)
                requires -MAX_WEIGHT <= w <= MAX_WEIGHT, 0 <= v <= 65535;
        }
        acc = acc + w as i128 * v as i128;
        j += 1;
    }
    proof {
        assert(len <= 0x1_0000_0000);
    }
    round_clamp_exec(acc, max)
}

/// Number of rows that the inner loops of `ext` take at once.
pub open spec fn batch_rows(ext: CpuExtensions) -> nat {
    match ext {
        CpuExtensions::Scalar => 1,
        CpuExtensions::Sse4_1 => 2,
        CpuExtensions::Simd128 => 2,
        _ => 4,
    }
}

fn batch_rows_exec(ext: CpuExtensions) -> (r: u32)
    ensures
        r == batch_rows(ext),
        1 <= r <= 4,
{
    match ext {
        CpuExtensions::Scalar => 1,
        CpuExtensions::Sse4_1 => 2,
        CpuExtensions::Simd128 => 2,
        _ => 4,
    }
}

/// One row (`row`, counted in the crop region) of the horizontal pass.
fn horizontal_row<P: PixelExt>(src: &ImageView<P>, filter: FilterType, dw: u32, table: &Vec<Window>, row: u32) -> (r: Vec<Vec<u32>>)
    requires
        src.wf(),
        row < src.spec_crop_box().height,
        table.len() == dw,
        forall|d: int| 0 <= d < dw ==> (#[trigger] table@[d]).view() == window_spec(filter, src.spec_crop_box().width as nat, dw as nat, d as nat),
        forall|d: int| 0 <= d < dw ==> window_wf((#[trigger] table@[d]).view(), src.spec_crop_box().width as nat),
    ensures
        r.len() == dw,
        forall|x: int| 0 <= x < dw ==> (#[trigger] r@[x]).len() == P::spec_count(),
        forall|x: int, c: int| 0 <= x < dw && 0 <= c < P::spec_count() ==> #[trigger] r@[x]@[c]
            == horizontal_value(src, filter, dw as nat, row as nat, x as nat, c as nat),
        forall|x: int, c: int| 0 <= x < dw && 0 <= c < P::spec_count() ==> #[trigger] r@[x]@[c] <= max_of::<P>(),
{
    proof {
        src.lemma_wf();
    }
    let cb = src.crop_box();
    let ch = P::count_of_components();
    let max = P::Component::max_u32();
    let mut line: Vec<Vec<u32>> = Vec::new();
    let mut x: u32 = 0;
    while x < dw
        invariant
            src.wf(),
            src.spec_width() <= u32::MAX,
            src.spec_height() <= u32::MAX,
            cb == src.spec_crop_box(),
            cb.fits(src.spec_width(), src.spec_height()),
            ch == P::spec_count(),
            max == max_of::<P>(),
            max <= 65535,
            table.len() == dw,
            forall|d: int| 0 <= d < dw ==> (#[trigger] table@[d]).view() == window_spec(filter, cb.width as nat, dw as nat, d as nat),
            forall|d: int| 0 <= d < dw ==> window_wf((#[trigger] table@[d]).view(), cb.width as nat),
            row < cb.height,
            x <= dw,
            line.len() == x,
            forall|x2: int| 0 <= x2 < x ==> (#[trigger] line@[x2]).len() == ch,
            forall|x2: int, c: int| 0 <= x2 < x && 0 <= c < ch ==> #[trigger] line@[x2]@[c]
                == horizontal_value(src, filter, dw as nat, row as nat, x2 as nat, c as nat),
            forall|x2: int, c: int| 0 <= x2 < x && 0 <= c < ch ==> #[trigger] line@[x2]@[c] <= max,
        decreases dw - x,
    {
        let win = &table[x as usize];
        let mut pixel: Vec<u32> = Vec::new();
        let mut c: usize = 0;
        while c < ch
            invariant
                src.wf(),
                src.spec_width() <= u32::MAX,
                src.spec_height() <= u32::MAX,
                cb == src.spec_crop_box(),
                cb.fits(src.spec_width(), src.spec_height()),
                ch == P::spec_count(),
                max == max_of::<P>(),
                win.view() == window_spec(filter, cb.width as nat, dw as nat, x as nat),
                window_wf(win.view(), cb.width as nat),
                row < cb.height,
                x < dw,
                c <= ch,
                pixel.len() == c,
                forall|c2: int| 0 <= c2 < c ==> #[trigger] pixel@[c2]
                    == horizontal_value(src, filter, dw as nat, row as nat, x as nat, c2 as nat),
                forall|c2: int| 0 <= c2 < c ==> #[trigger] pixel@[c2] <= max,
            decreases ch - c,
        {
            let v = horizontal_one(src, win, cb.left, cb.top + row, c, max);
            pixel.push(v);
            c += 1;
        }
        line.push(pixel);
        x += 1;
    }
    line
}

/// Runs the horizontal pass over the crop region of `src`: `height` rows of
/// `dw` pixels of `P::spec_count()` components. Rows are taken in batches of
/// `batch_rows(ext)`, the rows past the last whole batch one at a time.
fn horizontal_pass<P: PixelExt>(src: &ImageView<P>, filter: FilterType, dw: u32, ext: CpuExtensions) -> (r: Vec<Vec<Vec<u32>>>)
    requires
        src.wf(),
        dw > 0,
    ensures
        r.len() == src.spec_crop_box().height,
        forall|row: int| 0 <= row < r.len() ==> (#[trigger] r@[row]).len() == dw,
        forall|row: int, x: int| 0 <= row < r.len() && 0 <= x < dw ==> (#[trigger] r@[row]@[x]).len() == P::spec_count(),
        forall|row: int, x: int, c: int|
            0 <= row < r.len() && 0 <= x < dw && 0 <= c < P::spec_count() ==> #[trigger] r@[row]@[x]@[c]
                == horizontal_value(src, filter, dw as nat, row as nat, x as nat, c as nat),
        forall|row: int, x: int, c: int|
            0 <= row < r.len() && 0 <= x < dw && 0 <= c < P::spec_count() ==> #[trigger] r@[row]@[x]@[c] <= max_of::<P>(),
{
    proof {
        src.lemma_wf();
    }
    let cb = src.crop_box();
    let table = coefficients(filter, cb.width, dw);
    let batch = batch_rows_exec(ext);
    let groups = src.row_groups(cb.top, cb.top + cb.height, batch);
    let mut tmp: Vec<Vec<Vec<u32>>> = Vec::new();
    let mut g: usize = 0;
    while g < groups.len()
        invariant
            src.wf(),
            cb == src.spec_crop_box(),
            cb.fits(src.spec_width(), src.spec_height()),
            1 <= batch <= 4,
            forall|i: int| 0 <= i < groups.len() ==> #[trigger] groups@[i] == cb.top + i * batch,
            forall|i: int| 0 <= i < groups.len() ==> groups@[i] + batch <= cb.top + cb.height,
            table.len() == dw,
            forall|d: int| 0 <= d < dw ==> (#[trigger] table@[d]).view() == window_spec(filter, cb.width as nat, dw as nat, d as nat),
            forall|d: int| 0 <= d < dw ==> window_wf((#[trigger] table@[d]).view(), cb.width as nat),
            g <= groups.len(),
            tmp.len() == g * batch,
            forall|r: int| 0 <= r < tmp.len() ==> (#[trigger] tmp@[r]).len() == dw,
            forall|r: int, x: int| 0 <= r < tmp.len() && 0 <= x < dw ==> (#[trigger] tmp@[r]@[x]).len() == P::spec_count(),
            forall|r: int, x: int, c: int|
                0 <= r < tmp.len() && 0 <= x < dw && 0 <= c < P::spec_count() ==> #[trigger] tmp@[r]@[x]@[c]
                    == horizontal_value(src, filter, dw as nat, r as nat, x as nat, c as nat),
            forall|r: int, x: int, c: int|
                0 <= r < tmp.len() && 0 <= x < dw && 0 <= c < P::spec_count() ==> #[trigger] tmp@[r]@[x]@[c] <= max_of::<P>(),
        decreases groups.len() - g,
    {
        let first = groups[g] - cb.top;
        let mut k: u32 = 0;
        while k < batch
            invariant
                src.wf(),
                cb == src.spec_crop_box(),
                1 <= batch <= 4,
                first == g * batch,
                first + batch <= cb.height,
                table.len() == dw,
                forall|d: int| 0 <= d < dw ==> (#[trigger] table@[d]).view() == window_spec(filter, cb.width as nat, dw as nat, d as nat),
                forall|d: int| 0 <= d < dw ==> window_wf((#[trigger] table@[d]).view(), cb.width as nat),
                k <= batch,
                tmp.len() == first + k,
                forall|r: int| 0 <= r < tmp.len() ==> (#[trigger] tmp@[r]).len() == dw,
                forall|r: int, x: int| 0 <= r < tmp.len() && 0 <= x < dw ==> (#[trigger] tmp@[r]@[x]).len() == P::spec_count(),
                forall|r: int, x: int, c: int|
                    0 <= r < tmp.len() && 0 <= x < dw && 0 <= c < P::spec_count() ==> #[trigger] tmp@[r]@[x]@[c]
                        == horizontal_value(src, filter, dw as nat, r as nat, x as nat, c as nat),
                forall|r: int, x: int, c: int|
                    0 <= r < tmp.len() && 0 <= x < dw && 0 <= c < P::spec_count() ==> #[trigger] tmp@[r]@[x]@[c] <= max_of::<P>(),
            decreases batch - k,
        {
            let line = horizontal_row(src, filter, dw, &table, first + k);
            tmp.push(line);
            k += 1;
        }
        g += 1;
        proof {
            assert(tmp.len() == g * batch) by (nonlinear_arith)
                requires tmp.len() == (g - 1) * batch + batch;
        }
    }
    while tmp.len() < cb.height as usize
        invariant
            src.wf(),
            cb == src.spec_crop_box(),
            tmp.len() <= cb.height,
            table.len() == dw,
            forall|d: int| 0 <= d < dw ==> (#[trigger] table@[d]).view() == window_spec(filter, cb.width as nat, dw as nat, d as nat),
            forall|d: int| 0 <= d < dw ==> window_wf((#[trigger] table@[d]).view(), cb.width as nat),
            forall|r: int| 0 <= r < tmp.len() ==> (#[trigger] tmp@[r]).len() == dw,
            forall|r: int, x: int| 0 <= r < tmp.len() && 0 <= x < dw ==> (#[trigger] tmp@[r]@[x]).len() == P::spec_count(),
            forall|r: int, x: int, c: int|
                0 <= r < tmp.len() && 0 <= x < dw && 0 <= c < P::spec_count() ==> #[trigger] tmp@[r]@[x]@[c]
                    == horizontal_value(src, filter, dw as nat, r as nat, x as nat, c as nat),
            forall|r: int, x: int, c: int|
                0 <= r < tmp.len() && 0 <= x < dw && 0 <= c < P::spec_count() ==> #[trigger] tmp@[r]@[x]@[c] <= max_of::<P>(),
        decreases cb.height - tmp.len(),
    {
        let line = horizontal_row(src, filter, dw, &table, tmp.len() as u32);
        tmp.push(line);
    }
    tmp
}

/// Resizes images: fills a destination view with the crop region of a
/// source view resampled to the destination's size.
#[derive(Clone, Copy, Debug, PartialEq, Eq, Structural)]
pub struct Resizer {
    pub algorithm: ResizeAlg,
    cpu_extensions: CpuExtensions,
}

impl Resizer {
    pub closed spec fn spec_algorithm(&self) -> ResizeAlg {
        self.algorithm
    }

    pub closed spec fn spec_cpu_extensions(&self) -> CpuExtensions {
        self.cpu_extensions
    }

    /// A resizer that uses `algorithm` and the baseline CPU extensions.
    pub fn new(algorithm: ResizeAlg) -> (r: Self)
        ensures
            r.spec_algorithm() == algorithm,
            r.spec_cpu_extensions() == CpuExtensions::Scalar,
    {
        Resizer { algorithm, cpu_extensions: CpuExtensions::Scalar }
    }

    pub fn cpu_extensions(&self) -> (r: CpuExtensions)
        ensures
            r == self.spec_cpu_extensions(),
    {
        self.cpu_extensions
    }

    /// Selects the CPU extensions to use. The caller answers for the
    /// processor supporting them.
    pub fn set_cpu_extensions(&mut self, extensions: CpuExtensions)
        ensures
            final(self).spec_cpu_extensions() == extensions,
            final(self).spec_algorithm() == old(self).spec_algorithm(),
    {
        self.cpu_extensions = extensions;
    }

    /// Fills `dst` with the crop region of `src` resampled to the size of `dst`.
    pub fn resize<P: PixelExt>(&self, src: &ImageView<P>, dst: &mut ImageViewMut<P>)
        requires
            src.wf(),
            old(dst).wf(),
        ensures
            final(dst).wf(),
            final(dst).same_frame(old(dst)),
            final(dst).same_outside_frame(old(dst)),
            forall|x: nat, y: nat, c: nat|
                x < old(dst).spec_width() && y < old(dst).spec_height() && c < P::spec_count()
                    ==> #[trigger] final(dst).component(x, y, c) == resized_value(
                    src,
                    self.spec_algorithm(),
                    old(dst).spec_width(),
                    old(dst).spec_height(),
                    x,
                    y,
                    c,
                ),
    {
        proof {
            src.lemma_wf();
            dst.lemma_wf();
        }
        let ghost alg = self.algorithm;
        let ghost dw_ = dst.spec_width();
        let ghost dh_ = dst.spec_height();
        let dw = dst.width();
        let dh = dst.height();
        let cb = src.crop_box();
        let ch = P::count_of_components();
        let max = P::Component::max_u32();
        let (tmp, table) = match self.algorithm {
            ResizeAlg::Nearest => (Vec::new(), Vec::new()),
            ResizeAlg::Convolution(filter) => (horizontal_pass(src, filter, dw, self.cpu_extensions), coefficients(filter, cb.height, dh)),
        };
        let mut y: u32 = 0;
        while y < dh
            invariant
                src.wf(),
                src.spec_width() <= u32::MAX,
                src.spec_height() <= u32::MAX,
                dst.wf(),
                dst.same_frame(old(dst)),
                dst.same_outside_frame(old(dst)),
                alg == self.algorithm,
                dw == dw_,
                dh == dh_,
                dw_ == old(dst).spec_width(),
                dh_ == old(dst).spec_height(),
                cb == src.spec_crop_box(),
                cb.fits(src.spec_width(), src.spec_height()),
                ch == P::spec_count(),
                max == max_of::<P>(),
                max <= 65535,
                self.algorithm is Convolution ==> {
                    let filter = self.algorithm->Convolution_0;
                    &&& tmp.len() == cb.height
                    &&& forall|r: int| 0 <= r < tmp.len() ==> (#[trigger] tmp@[r]).len() == dw
                    &&& forall|r: int, x: int| 0 <= r < tmp.len() && 0 <= x < dw ==> (#[trigger] tmp@[r]@[x]).len() == ch
                    &&& forall|r: int, x: int, c: int|
                        0 <= r < tmp.len() && 0 <= x < dw && 0 <= c < ch ==> #[trigger] tmp@[r]@[x]@[c]
                            == horizontal_value(src, filter, dw as nat, r as nat, x as nat, c as nat)
                    &&& forall|r: int, x: int, c: int|
                        0 <= r < tmp.len() && 0 <= x < dw && 0 <= c < ch ==> #[trigger] tmp@[r]@[x]@[c] <= max
                    &&& table.len() == dh
                    &&& forall|d: int| 0 <= d < dh ==> (#[trigger] table@[d]).view() == window_spec(filter, cb.height as nat, dh as nat, d as nat)
                    &&& forall|d: int| 0 <= d < dh ==> window_wf((#[trigger] table@[d]).view(), cb.height as nat)
                },
                y <= dh,
                forall|x2: nat, y2: nat, c2: nat| x2 < dw && y2 < y && c2 < ch ==> #[trigger] dst.component(x2, y2, c2)
                    == resized_value(src, alg, dw_, dh_, x2, y2, c2),
            decreases dh - y,
        {
            let sy = match self.algorithm {
                ResizeAlg::Nearest => cb.top + nearest_exec(cb.height, dh, y),
                _ => 0,
            };
            let mut x: u32 = 0;
            while x < dw
                invariant
                    src.wf(),
                    src.spec_width() <= u32::MAX,
                    src.spec_height() <= u32::MAX,
                    dst.wf(),
                    dst.same_frame(old(dst)),
                    dst.same_outside_frame(old(dst)),
                    alg == self.algorithm,
                    dw == dw_,
                    dh == dh_,
                    dw_ == old(dst).spec_width(),
                    dh_ == old(dst).spec_height(),
                    cb == src.spec_crop_box(),
                    cb.fits(src.spec_width(), src.spec_height()),
                    ch == P::spec_count(),
                    max == max_of::<P>(),
                    max <= 65535,
                    self.algorithm is Nearest ==> sy == cb.top + nearest_index(cb.height as nat, dh as nat, y as nat),
                    self.algorithm is Nearest ==> sy < src.spec_height(),
                    self.algorithm is Convolution ==> {
                        let filter = self.algorithm->Convolution_0;
                        &&& tmp.len() == cb.height
                        &&& forall|r: int| 0 <= r < tmp.len() ==> (#[trigger] tmp@[r]).len() == dw
                        &&& forall|r: int, x: int| 0 <= r < tmp.len() && 0 <= x < dw ==> (#[trigger] tmp@[r]@[x]).len() == ch
                        &&& forall|r: int, x: int, c: int|
                            0 <= r < tmp.len() && 0 <= x < dw && 0 <= c < ch ==> #[trigger] tmp@[r]@[x]@[c]
                                == horizontal_value(src, filter, dw as nat, r as nat, x as nat, c as nat)
                        &&& forall|r: int, x: int, c: int|
                            0 <= r < tmp.len() && 0 <= x < dw && 0 <= c < ch ==> #[trigger] tmp@[r]@[x]@[c] <= max
                        &&& table.len() == dh
                        &&& forall|d: int| 0 <= d < dh ==> (#[trigger] table@[d]).view() == window_spec(filter, cb.height as nat, dh as nat, d as nat)
                        &&& forall|d: int| 0 <= d < dh ==> window_wf((#[trigger] table@[d]).view(), cb.height as nat)
                    },
                    y < dh,
                    x <= dw,
                    forall|x2: nat, y2: nat, c2: nat|
                        x2 < dw && c2 < ch && (y2 < y || (y2 == y && x2 < x)) ==> #[trigger] dst.component(x2, y2, c2)
                            == resized_value(src, alg, dw_, dh_, x2, y2, c2),
                decreases dw - x,
            {
                let sx = match self.algorithm {
                    ResizeAlg::Nearest => cb.left + nearest_exec(cb.width, dw, x),
                    _ => 0,
                };
                let mut c: usize = 0;
                while c < ch
                    invariant
                        src.wf(),
                        src.spec_width() <= u32::MAX,
                        src.spec_height() <= u32::MAX,
                        dst.wf(),
                        dst.same_frame(old(dst)),
                        dst.same_outside_frame(old(dst)),
                        alg == self.algorithm,
                        dw == dw_,
                        dh == dh_,
                        dw_ == old(dst).spec_width(),
                        dh_ == old(dst).spec_height(),
                        cb == src.spec_crop_box(),
                        cb.fits(src.spec_width(), src.spec_height()),
                        ch == P::spec_count(),
                        max == max_of::<P>(),
                        max <= 65535,
                        self.algorithm is Nearest ==> sy == cb.top + nearest_index(cb.height as nat, dh as nat, y as nat),
                        self.algorithm is Nearest ==> sx == cb.left + nearest_index(cb.width as nat, dw as nat, x as nat),
                        self.algorithm is Nearest ==> sx < src.spec_width() && sy < src.spec_height(),
                        self.algorithm is Convolution ==> {
                            let filter = self.algorithm->Convolution_0;
                            &&& tmp.len() == cb.height
                            &&& forall|r: int| 0 <= r < tmp.len() ==> (#[trigger] tmp@[r]).len() == dw
                            &&& forall|r: int, x: int| 0 <= r < tmp.len() && 0 <= x < dw ==> (#[trigger] tmp@[r]@[x]).len() == ch
                            &&& forall|r: int, x: int, c: int|
                                0 <= r < tmp.len() && 0 <= x < dw && 0 <= c < ch ==> #[trigger] tmp@[r]@[x]@[c]
                                    == horizontal_value(src, filter, dw as nat, r as nat, x as nat, c as nat)
                            &&& forall|r: int, x: int, c: int|
                                0 <= r < tmp.len() && 0 <= x < dw && 0 <= c < ch ==> #[trigger] tmp@[r]@[x]@[c] <= max
                            &&& table.len() == dh
                            &&& forall|d: int| 0 <= d < dh ==> (#[trigger] table@[d]).view() == window_spec(filter, cb.height as nat, dh as nat, d as nat)
                            &&& forall|d: int| 0 <= d < dh ==> window_wf((#[trigger] table@[d]).view(), cb.height as nat)
                        },
                        y < dh,
                        x < dw,
                        c <= ch,
                        forall|x2: nat, y2: nat, c2: nat|
                            x2 < dw && c2 < ch && (y2 < y || (y2 == y && x2 < x) || (y2 == y && x2 == x && c2 < c))
                                ==> #[trigger] dst.component(x2, y2, c2) == resized_value(src, alg, dw_, dh_, x2, y2, c2),
                    decreases ch - c,
                {
                    let v: u32 = match self.algorithm {
                        ResizeAlg::Nearest => src.get_component(sx, sy, c).to_u32(),
                        ResizeAlg::Convolution(filter) => vertical_one(
                            src,
                            Ghost(filter),
                            Ghost(dw as nat),
                            &tmp,
                            &table[y as usize],
                            x as usize,
                            c,
                            max,
                        ),
                    };
                    let ghost before = *dst;
                    dst.set_component(x, y, c, P::Component::from_u32(v));
                    proof {
                        ImageViewMut::lemma_same_outside_frame_trans(old(dst), &before, dst);
                    }
                    c += 1;
                }
                x += 1;
            }
            y += 1;
        }
    }
}

proof fn lemma_round_unit(v: nat, max: nat)
    requires
        v <= max,
    ensures
        round_clamp(WEIGHT_SCALE * v, max) == v,
{
    let s = WEIGHT_SCALE as int;
    vstd::arithmetic::div_mod::lemma_fundamental_div_mod_converse(s * v + s / 2, s, v as int, s / 2);
}

/// Resizing to the size of the crop region reproduces the crop region
/// exactly, for every algorithm and kernel.
pub proof fn lemma_identity_resize<P: PixelExt>(src: &ImageView<P>, alg: ResizeAlg, x: nat, y: nat, c: nat)
    requires
        src.wf(),
        x < src.spec_crop_box().width,
        y < src.spec_crop_box().height,
    ensures
        resized_value(src, alg, src.spec_crop_box().width as nat, src.spec_crop_box().height as nat, x, y, c)
            == src.component((src.spec_crop_box().left + x) as nat, (src.spec_crop_box().top + y) as nat, c),
{
    let cb = src.spec_crop_box();
    let (w, h) = (cb.width as nat, cb.height as nat);
    match alg {
        ResizeAlg::Nearest => {
            lemma_nearest_identity(w, x);
            lemma_nearest_identity(h, y);
        },
        ResizeAlg::Convolution(filter) => {
            lemma_equal_lengths_identity(filter, h, y);
            lemma_equal_lengths_identity(filter, w, x);
            let v = src.component((cb.left + x) as nat, (cb.top + y) as nat, c);
            src.lemma_component_bound((cb.left + x) as nat, (cb.top + y) as nat, c);
            let wv = seq![WEIGHT_SCALE as int];
            assert(row_sum(src, wv, cb.left + x, (cb.top + y) as nat, c, 1) == WEIGHT_SCALE * v) by {
                assert(row_sum(src, wv, cb.left + x, (cb.top + y) as nat, c, 0) == 0);
            }
            lemma_round_unit(v, max_of::<P>());
            assert(horizontal_value(src, filter, w, y, x, c) == v);
            assert(column_sum(src, filter, w, wv, y as int, x, c, 1) == WEIGHT_SCALE * v) by {
                assert(column_sum(src, filter, w, wv, y as int, x, c, 0) == 0);
            }
        },
    }
}

/// The result of a resize depends on the algorithm alone, not on the CPU
/// extensions selected: two resizers with the same algorithm give the same
/// value for every pixel.
pub proof fn lemma_cpu_extensions_agree<P: PixelExt>(
    r1: Resizer,
    r2: Resizer,
    src: &ImageView<P>,
    dw: nat,
    dh: nat,
    x: nat,
    y: nat,
    c: nat,
)
    requires
        r1.spec_algorithm() == r2.spec_algorithm(),
    ensures
        resized_value(src, r1.spec_algorithm(), dw, dh, x, y, c) == resized_value(src, r2.spec_algorithm(), dw, dh, x, y, c),
{
}

proof fn lemma_round_clamp_bounds(acc: int, lo: nat, hi: nat, max: nat)
    requires
        WEIGHT_SCALE * lo <= acc <= WEIGHT_SCALE * hi,
        hi <= max,
    ensures
        lo <= round_clamp(acc, max) <= hi,
{
    let s = WEIGHT_SCALE as int;
    let q = (acc + s / 2) / s;
    assert(lo <= q <= hi) by (nonlinear_arith)
        requires q == (acc + s / 2) / s, s * lo <= acc <= s * hi, s == 16384;
}

proof fn lemma_row_sum_bounds<P: PixelExt>(src: &ImageView<P>, w: Seq<int>, first: int, row: nat, c: nat, n: nat, lo: nat, hi: nat)
    requires
        n <= w.len(),
        first >= 0,
        forall|k: int| 0 <= k < w.len() ==> #[trigger] w[k] >= 0,
        forall|j: int| 0 <= j < n ==> lo <= #[trigger] src.component((first + j) as nat, row, c) <= hi,
    ensures
        lo * sum_of(w.take(n as int)) <= row_sum(src, w, first, row, c, n) <= hi * sum_of(w.take(n as int)),
    decreases n,
{
    if n == 0 {
        assert(w.take(0) =~= Seq::<int>::empty());
    } else {
        let m = (n - 1) as nat;
        lemma_row_sum_bounds(src, w, first, row, c, m, lo, hi);
        lemma_sum_of_take(w, m as int);
        let v = src.component((first + m) as nat, row, c);
        assert(lo <= v <= hi);
        let wm = w[m as int];
        assert(wm >= 0);
        assert(wm * lo <= wm * v <= wm * hi) by (nonlinear_arith)
            requires wm >= 0, lo <= v <= hi;
        assert(lo * sum_of(w.take(n as int)) == lo * sum_of(w.take(m as int)) + wm * lo) by (nonlinear_arith)
            requires sum_of(w.take(n as int)) == sum_of(w.take(m as int)) + wm;
        assert(hi * sum_of(w.take(n as int)) == hi * sum_of(w.take(m as int)) + wm * hi) by (nonlinear_arith)
            requires sum_of(w.take(n as int)) == sum_of(w.take(m as int)) + wm;
    }
}

proof fn lemma_column_sum_bounds<P: PixelExt>(
    src: &ImageView<P>,
    filter: FilterType,
    dw: nat,
    w: Seq<int>,
    first: int,
    x: nat,
    c: nat,
    n: nat,
    lo: nat,
    hi: nat,
)
    requires
        n <= w.len(),
        first >= 0,
        forall|k: int| 0 <= k < w.len() ==> #[trigger] w[k] >= 0,
        forall|j: int| 0 <= j < n ==> lo <= #[trigger] horizontal_value(src, filter, dw, (first + j) as nat, x, c) <= hi,
    ensures
        lo * sum_of(w.take(n as int)) <= column_sum(src, filter, dw, w, first, x, c, n) <= hi * sum_of(w.take(n as int)),
    decreases n,
{
    if n == 0 {
        assert(w.take(0) =~= Seq::<int>::empty());
    } else {
        let m = (n - 1) as nat;
        lemma_column_sum_bounds(src, filter, dw, w, first, x, c, m, lo, hi);
        lemma_sum_of_take(w, m as int);
        let v = horizontal_value(src, filter, dw, (first + m) as nat, x, c);
        assert(lo <= v <= hi);
        let wm = w[m as int];
        assert(wm >= 0);
        assert(wm * lo <= wm * v <= wm * hi) by (nonlinear_arith)
            requires wm >= 0, lo <= v <= hi;
        assert(lo * sum_of(w.take(n as int)) == lo * sum_of(w.take(m as int)) + wm * lo) by (nonlinear_arith)
            requires sum_of(w.take(n as int)) == sum_of(w.take(m as int)) + wm;
        assert(hi * sum_of(w.take(n as int)) == hi * sum_of(w.take(m as int)) + wm * hi) by (nonlinear_arith)
            requires sum_of(w.take(n as int)) == sum_of(w.take(m as int)) + wm;
    }
}

/// With a kernel without negative lobes (Box, Bilinear), every resized value
/// lies between the smallest and the largest value of its component in the
/// crop region: interpolation never overshoots.
pub proof fn lemma_no_overshoot<P: PixelExt>(
    src: &ImageView<P>,
    filter: FilterType,
    dw: nat,
    dh: nat,
    x: nat,
    y: nat,
    c: nat,
    lo: nat,
    hi: nat,
)
    requires
        src.wf(),
        is_nonnegative_kernel(filter),
        x < dw,
        y < dh,
        forall|sx: nat, sy: nat|
            src.spec_crop_box().left <= sx < src.spec_crop_box().left + src.spec_crop_box().width
                && src.spec_crop_box().top <= sy < src.spec_crop_box().top + src.spec_crop_box().height
                ==> lo <= #[trigger] src.component(sx, sy, c) <= hi,
    ensures
        lo <= resized_value(src, ResizeAlg::Convolution(filter), dw, dh, x, y, c) <= hi,
{
    src.lemma_wf();
    let cb = src.spec_crop_box();
    let max = max_of::<P>();
    src.lemma_component_bound(cb.left as nat, cb.top as nat, c);
    let top = if hi <= max { hi } else { max };
    assert(lo <= src.component(cb.left as nat, cb.top as nat, c));
    let xwin = window_spec(filter, cb.width as nat, dw, x);
    lemma_window_spec_wf(filter, cb.width as nat, dw, x);
    lemma_nonnegative_window(filter, cb.width as nat, dw, x);
    assert(xwin.1.take(xwin.1.len() as int) =~= xwin.1);
    assert forall|r: nat| r < cb.height implies lo <= #[trigger] horizontal_value(src, filter, dw, r, x, c) <= top by {
        let first = cb.left + xwin.0;
        let row = (cb.top + r) as nat;
        assert forall|j: int| 0 <= j < xwin.1.len() implies lo <= #[trigger] src.component((first + j) as nat, row, c) <= top by {
            src.lemma_component_bound((first + j) as nat, row, c);
            assert(src.component((first + j) as nat, row, c) <= hi);
        }
        lemma_row_sum_bounds(src, xwin.1, first, row, c, xwin.1.len(), lo, top);
        lemma_round_clamp_bounds(row_sum(src, xwin.1, first, row, c, xwin.1.len()), lo, top, max);
    }
    let ywin = window_spec(filter, cb.height as nat, dh, y);
    lemma_window_spec_wf(filter, cb.height as nat, dh, y);
    lemma_nonnegative_window(filter, cb.height as nat, dh, y);
    assert(ywin.1.take(ywin.1.len() as int) =~= ywin.1);
    assert forall|j: int| 0 <= j < ywin.1.len() implies lo <= #[trigger] horizontal_value(src, filter, dw, (ywin.0 + j) as nat, x, c) <= top by {
        let r = (ywin.0 + j) as nat;
        assert(r < cb.height);
        assert(lo <= horizontal_value(src, filter, dw, r, x, c) <= top);
    }
    lemma_column_sum_bounds(src, filter, dw, ywin.1, ywin.0, x, c, ywin.1.len(), lo, top);
    lemma_round_clamp_bounds(column_sum(src, filter, dw, ywin.1, ywin.0, x, c, ywin.1.len()), lo, top, max);
}

} // verus!
