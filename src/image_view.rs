//! Non-owning strided views over component buffers, crop boxes, and
//! conversion between component representations.
use vstd::prelude::*;

use crate::pixels::{converted_value, PixelComponent, PixelExt};

verus! {

/// Denominator of a centering fraction: `CENTERING_UNIT` stands for 1.0.
pub const CENTERING_UNIT: u32 = 65536;

/// Rectangle of the active region of an image.
#[derive(Clone, Copy, Debug, PartialEq, Eq, Structural)]
pub struct CropBox {
    pub left: u32,
    pub top: u32,
    pub width: u32,
    pub height: u32,
}

impl CropBox {
    /// The box is non-empty and lies inside a `width` x `height` frame.
    pub open spec fn fits(self, width: nat, height: nat) -> bool {
        &&& self.width > 0
        &&& self.height > 0
        &&& self.left + self.width <= width
        &&& self.top + self.height <= height
    }

    /// Whether the box is non-empty and lies inside a `width` x `height` frame.
    pub fn fits_in(&self, width: u32, height: u32) -> (r: bool)
        ensures
            r == self.fits(width as nat, height as nat),
    {
        self.width > 0 && self.height > 0 && self.left <= width && self.width <= width - self.left
            && self.top <= height && self.height <= height - self.top
    }

    pub open spec fn full(width: nat, height: nat) -> CropBox {
        CropBox { left: 0, top: 0, width: width as u32, height: height as u32 }
    }
}

/// Whether `buffer_len` components hold `width` x `height` pixels of `P`,
/// with both dimensions positive: what the view constructors require.
pub fn buffer_fits<P: PixelExt>(width: u32, height: u32, buffer_len: usize) -> (r: bool)
    ensures
        r == (width > 0 && height > 0 && (width as nat) * (height as nat) * P::spec_count() <= buffer_len),
{
    if width == 0 || height == 0 {
        return false;
    }
    let ch = P::count_of_components();
    proof {
        assert(width as nat * height as nat <= 0xffff_ffff * 0xffff_ffff) by (nonlinear_arith)
            requires width <= 0xffff_ffff, height <= 0xffff_ffff;
        assert(width as nat * height as nat * ch as nat <= 0xffff_ffff * 0xffff_ffff * 4) by (nonlinear_arith)
            requires width as nat * height as nat <= 0xffff_ffff * 0xffff_ffff, ch <= 4;
    }
    let wh: u128 = width as u128 * height as u128;
    wh * ch as u128 <= buffer_len as u128
}

/// `a / b` rounded to the nearest integer, halves rounded up.
pub open spec fn round_div(a: nat, b: nat) -> nat {
    (2 * a + b) / (2 * b)
}

/// Centering fraction in units of `CENTERING_UNIT`: clamped to [0, 1], one
/// half when none is given.
pub open spec fn centering_of(centering: Option<(u32, u32)>) -> (nat, nat) {
    match centering {
        Some((x, y)) => (
            if x <= CENTERING_UNIT { x as nat } else { CENTERING_UNIT as nat },
            if y <= CENTERING_UNIT { y as nat } else { CENTERING_UNIT as nat },
        ),
        None => ((CENTERING_UNIT / 2) as nat, (CENTERING_UNIT / 2) as nat),
    }
}

/// Size of the largest region of a `w` x `h` image with the aspect ratio of
/// `dw` x `dh`: full height kept when the image is relatively wider, full
/// width kept when it is relatively taller, never empty.
pub open spec fn fit_size(w: nat, h: nat, dw: nat, dh: nat) -> (nat, nat) {
    if w * dh == dw * h {
        (w, h)
    } else if w * dh > dw * h {
        (if round_div(dw * h, dh) == 0 { 1 } else { round_div(dw * h, dh) }, h)
    } else {
        (w, if round_div(w * dh, dw) == 0 { 1 } else { round_div(w * dh, dw) })
    }
}

/// Crop box of a `w` x `h` image that keeps the aspect ratio of `dw` x `dh`,
/// placed by the centering fractions `cx`, `cy` (in units of `CENTERING_UNIT`).
/// The offset along the cropped axis is the exact leftover length (before the
/// crop length is rounded) times the centering fraction, rounded, and moved
/// back where rounding would carry the box past the far edge.
pub open spec fn fit_crop_box(w: nat, h: nat, dw: nat, dh: nat, cx: nat, cy: nat) -> CropBox {
    let (cw, ch) = fit_size(w, h, dw, dh);
    let u = CENTERING_UNIT as nat;
    let (left, top) = if w * dh == dw * h {
        (0nat, 0nat)
    } else if w * dh > dw * h {
        (round_div(((w * dh - dw * h) as nat) * cx, dh * u), 0nat)
    } else {
        (0nat, round_div(((dw * h - w * dh) as nat) * cy, dw * u))
    };
    CropBox {
        left: (if left + cw > w { (w - cw) as nat } else { left }) as u32,
        top: (if top + ch > h { (h - ch) as nat } else { top }) as u32,
        width: cw as u32,
        height: ch as u32,
    }
}

proof fn lemma_round_div_le(a: nat, b: nat, w: nat)
    requires
        b > 0,
        a <= b * w,
    ensures
        round_div(a, b) <= w,
{
    let n = 2 * a + b;
    let q = n / (2 * b);
    vstd::arithmetic::div_mod::lemma_fundamental_div_mod(n as int, (2 * b) as int);
    assert(n % (2 * b) >= 0);
    assert(q <= w) by (nonlinear_arith)
        requires
            q * (2 * b) <= n,
            n == 2 * a + b,
            a <= b * w,
            b > 0,
    {
        if q > w {
            assert(q * (2 * b) >= (w + 1) * (2 * b));
        }
    }
}

/// The fitted box's offsets and lengths lie within the image, so that they
/// are its fields unchanged.
proof fn lemma_fit_crop_box_bounds(w: nat, h: nat, dw: nat, dh: nat, cx: nat, cy: nat)
    requires
        w > 0,
        h > 0,
        dw > 0,
        dh > 0,
        w <= u32::MAX,
        h <= u32::MAX,
        cx <= CENTERING_UNIT,
        cy <= CENTERING_UNIT,
    ensures
        fit_crop_box(w, h, dw, dh, cx, cy).fits(w, h),
        1 <= fit_size(w, h, dw, dh).0 <= w,
        1 <= fit_size(w, h, dw, dh).1 <= h,
        w * dh > dw * h ==> round_div(((w * dh - dw * h) as nat) * cx, dh * (CENTERING_UNIT as nat)) <= w,
        w * dh < dw * h ==> round_div(((dw * h - w * dh) as nat) * cy, dw * (CENTERING_UNIT as nat)) <= h,
{
    let u = CENTERING_UNIT as nat;
    if w * dh > dw * h {
        assert(dw * h <= dh * w) by (nonlinear_arith)
            requires w * dh > dw * h;
        lemma_round_div_le(dw * h, dh, w);
        let a = ((w * dh - dw * h) as nat) * cx;
        assert(a <= (dh * u) * w) by (nonlinear_arith)
            requires a == ((w * dh - dw * h) as nat) * cx, cx <= u, w * dh > dw * h;
        lemma_round_div_le(a, dh * u, w);
    } else if w * dh < dw * h {
        assert(w * dh <= dw * h) by (nonlinear_arith)
            requires w * dh < dw * h;
        lemma_round_div_le(w * dh, dw, h);
        let a = ((dw * h - w * dh) as nat) * cy;
        assert(a <= (dw * u) * h) by (nonlinear_arith)
            requires a == ((dw * h - w * dh) as nat) * cy, cy <= u, w * dh < dw * h;
        lemma_round_div_le(a, dw * u, h);
    }
}

/// Computes `round_div(a, b)` for values that fit in 100 bits.
fn round_div_exec(a: u128, b: u128) -> (r: u128)
    requires
        b > 0,
        a <= 0x10_0000_0000_0000_0000_0000_0000,
        b <= 0x10_0000_0000_0000_0000_0000_0000,
    ensures
        r as nat == round_div(a as nat, b as nat),
{
    (2 * a + b) / (2 * b)
}

/// A frame of `height` rows of `width` pixels of `ch` components each, whose
/// first component is at `offset` and whose rows are `stride` components apart,
/// lies within a buffer of `len` components.
pub open spec fn frame_wf(len: nat, offset: nat, stride: nat, width: nat, height: nat, ch: nat) -> bool {
    &&& width > 0
    &&& height > 0
    &&& 1 <= ch <= 4
    &&& width * ch <= stride
    &&& offset + (height - 1) * stride + width * ch <= len
}

/// Position in the buffer of component `c` of pixel (`x`, `y`).
pub open spec fn frame_index(offset: nat, stride: nat, ch: nat, x: nat, y: nat, c: nat) -> nat {
    offset + y * stride + x * ch + c
}

/// (`y1`, `x1`, `c1`) comes before (`y2`, `x2`, `c2`) in row-major order.
pub open spec fn lex_lt(y1: nat, x1: nat, c1: nat, y2: nat, x2: nat, c2: nat) -> bool {
    y1 < y2 || (y1 == y2 && (x1 < x2 || (x1 == x2 && c1 < c2)))
}

pub proof fn lemma_frame_index_bounds(
    len: nat,
    offset: nat,
    stride: nat,
    width: nat,
    height: nat,
    ch: nat,
    x: nat,
    y: nat,
    c: nat,
)
    requires
        frame_wf(len, offset, stride, width, height, ch),
        x < width,
        y < height,
        c < ch,
    ensures
        frame_index(offset, stride, ch, x, y, c) < len,
        frame_index(offset, stride, ch, x, y, c) < offset + y * stride + width * ch,
{
    assert(x * ch + c < width * ch) by (nonlinear_arith)
        requires x < width, c < ch;
    assert(y * stride <= (height - 1) * stride) by (nonlinear_arith)
        requires y < height;
}

pub proof fn lemma_frame_index_order(
    len: nat,
    offset: nat,
    stride: nat,
    width: nat,
    height: nat,
    ch: nat,
    x1: nat,
    y1: nat,
    c1: nat,
    x2: nat,
    y2: nat,
    c2: nat,
)
    requires
        frame_wf(len, offset, stride, width, height, ch),
        x1 < width,
        y1 < height,
        c1 < ch,
        x2 < width,
        y2 < height,
        c2 < ch,
        lex_lt(y1, x1, c1, y2, x2, c2),
    ensures
        frame_index(offset, stride, ch, x1, y1, c1) < frame_index(offset, stride, ch, x2, y2, c2),
{
    lemma_frame_index_bounds(len, offset, stride, width, height, ch, x1, y1, c1);
    if y1 < y2 {
        assert((y1 + 1) * stride <= y2 * stride) by (nonlinear_arith)
            requires y1 < y2;
        assert((y1 + 1) * stride == y1 * stride + stride) by (nonlinear_arith);
    } else if x1 < x2 {
        assert((x1 + 1) * ch <= x2 * ch) by (nonlinear_arith)
            requires x1 < x2;
        assert((x1 + 1) * ch == x1 * ch + ch) by (nonlinear_arith);
    }
}

/// Computes the position of a component of a valid frame.
fn index_of(
    Ghost(len): Ghost<nat>,
    offset: usize,
    stride: usize,
    width: u32,
    height: u32,
    ch: usize,
    x: u32,
    y: u32,
    c: usize,
) -> (r: usize)
    requires
        frame_wf(len, offset as nat, stride as nat, width as nat, height as nat, ch as nat),
        len <= usize::MAX,
        x < width,
        y < height,
        c < ch,
    ensures
        r as nat == frame_index(offset as nat, stride as nat, ch as nat, x as nat, y as nat, c as nat),
        r < len,
{
    proof {
        lemma_frame_index_bounds(len, offset as nat, stride as nat, width as nat, height as nat, ch as nat, x as nat, y as nat, c as nat);
        assert(y as nat * stride as nat <= (height as nat - 1) * stride as nat) by (nonlinear_arith)
            requires y < height;
        assert(x as nat * ch as nat <= width as nat * ch as nat) by (nonlinear_arith)
            requires x < width;
    }
    let row = y as usize * stride;
    let col = x as usize * ch;
    offset + row + col + c
}

/// Immutable view over rows of pixels of a caller-owned buffer, with a crop
/// box that marks the active region.
pub struct ImageView<'a, P: PixelExt> {
    width: u32,
    height: u32,
    stride: usize,
    offset: usize,
    crop_box: CropBox,
    buffer: &'a [P::Component],
}

impl<'a, P: PixelExt> ImageView<'a, P> {
    pub closed spec fn spec_width(&self) -> nat {
        self.width as nat
    }

    pub closed spec fn spec_height(&self) -> nat {
        self.height as nat
    }

    pub closed spec fn spec_crop_box(&self) -> CropBox {
        self.crop_box
    }

    /// Value of component `c` of pixel (`x`, `y`) of the full frame.
    pub closed spec fn component(&self, x: nat, y: nat, c: nat) -> nat {
        self.buffer@[frame_index(self.offset as nat, self.stride as nat, P::spec_count(), x, y, c) as int].value()
    }

    pub closed spec fn wf(&self) -> bool {
        &&& frame_wf(
            self.buffer@.len(),
            self.offset as nat,
            self.stride as nat,
            self.width as nat,
            self.height as nat,
            P::spec_count(),
        )
        &&& self.crop_box.fits(self.width as nat, self.height as nat)
    }

    pub proof fn lemma_wf(&self)
        requires
            self.wf(),
        ensures
            0 < self.spec_width() <= u32::MAX,
            0 < self.spec_height() <= u32::MAX,
            self.spec_crop_box().fits(self.spec_width(), self.spec_height()),
    {
    }

    pub proof fn lemma_component_bound(&self, x: nat, y: nat, c: nat)
        ensures
            self.component(x, y, c) <= <P::Component as PixelComponent>::max_value(),
    {
        self.buffer@[frame_index(self.offset as nat, self.stride as nat, P::spec_count(), x, y, c) as int].lemma_bounds();
    }

    /// Views the first `width` x `height` pixels of `buffer`, row after row.
    /// Both dimensions are positive and the buffer holds them all.
    pub fn new(width: u32, height: u32, buffer: &'a [P::Component]) -> (r: Self)
        requires
            width > 0,
            height > 0,
            (width as nat) * (height as nat) * P::spec_count() <= buffer@.len(),
        ensures
            r.wf(),
            r.spec_width() == width,
            r.spec_height() == height,
            r.spec_crop_box() == CropBox::full(width as nat, height as nat),
            forall|x: nat, y: nat, c: nat|
                x < width && y < height && c < P::spec_count() ==> #[trigger] r.component(x, y, c)
                    == buffer@[((y * width + x) * P::spec_count() + c) as int].value(),
    {
        let ch = P::count_of_components();
        let _ = buffer.len();
        proof {
            assert(width as nat * ch as nat <= width as nat * height as nat * ch as nat) by (nonlinear_arith)
                requires height >= 1;
        }
        let stride = width as usize * ch;
        let v = ImageView {
            width,
            height,
            stride,
            offset: 0,
            crop_box: CropBox { left: 0, top: 0, width, height },
            buffer,
        };
        proof {
            let (w, h, n) = (width as nat, height as nat, ch as nat);
            assert((h - 1) * (w * n) + w * n == w * h * n) by (nonlinear_arith)
                requires h >= 1;
            assert forall|x: nat, y: nat, c: nat| x < w && y < h && c < n implies
                #[trigger] v.component(x, y, c) == buffer@[((y * w + x) * n + c) as int].value() by {
                assert(y * (w * n) + x * n == (y * w + x) * n) by (nonlinear_arith);
            }
        }
        v
    }

    pub fn width(&self) -> (r: u32)
        ensures
            r == self.spec_width(),
    {
        self.width
    }

    pub fn height(&self) -> (r: u32)
        ensures
            r == self.spec_height(),
    {
        self.height
    }

    pub fn crop_box(&self) -> (r: CropBox)
        ensures
            r == self.spec_crop_box(),
    {
        self.crop_box
    }

    /// Reads component `c` of pixel (`x`, `y`) of the full frame.
    pub fn get_component(&self, x: u32, y: u32, c: usize) -> (r: P::Component)
        requires
            self.wf(),
            x < self.spec_width(),
            y < self.spec_height(),
            c < P::spec_count(),
        ensures
            r.value() == self.component(x as nat, y as nat, c as nat),
    {
        let ch = P::count_of_components();
        let i = index_of(Ghost(self.buffer@.len()), self.offset, self.stride, self.width, self.height, ch, x, y, c);
        self.buffer[i]
    }

    /// Sets the active region: a non-empty box inside the image.
    pub fn set_crop_box(&mut self, crop_box: CropBox)
        requires
            old(self).wf(),
            crop_box.fits(old(self).spec_width(), old(self).spec_height()),
        ensures
            final(self).wf(),
            final(self).spec_crop_box() == crop_box,
            final(self).spec_width() == old(self).spec_width(),
            final(self).spec_height() == old(self).spec_height(),
            forall|x: nat, y: nat, c: nat| #[trigger] final(self).component(x, y, c) == old(self).component(x, y, c),
    {
        self.crop_box = crop_box;
    }

    /// Sets a crop box with the aspect ratio of a `dst_width` x `dst_height`
    /// image, as large as the image allows, placed by `centering` (fractions
    /// in units of `CENTERING_UNIT`, clamped to [0, 1]; one half by default).
    pub fn set_crop_box_to_fit_dst_size(&mut self, dst_width: u32, dst_height: u32, centering: Option<(u32, u32)>)
        requires
            old(self).wf(),
            dst_width > 0,
            dst_height > 0,
        ensures
            final(self).wf(),
            final(self).spec_crop_box() == fit_crop_box(
                old(self).spec_width(),
                old(self).spec_height(),
                dst_width as nat,
                dst_height as nat,
                centering_of(centering).0,
                centering_of(centering).1,
            ),
            final(self).spec_width() == old(self).spec_width(),
            final(self).spec_height() == old(self).spec_height(),
            forall|x: nat, y: nat, c: nat| #[trigger] final(self).component(x, y, c) == old(self).component(x, y, c),
    {
        let (cx, cy): (u32, u32) = match centering {
            Some((x, y)) => (
                if x <= CENTERING_UNIT { x } else { CENTERING_UNIT },
                if y <= CENTERING_UNIT { y } else { CENTERING_UNIT },
            ),
            None => (CENTERING_UNIT / 2, CENTERING_UNIT / 2),
        };
        let w = self.width as u128;
        let h = self.height as u128;
        let dw = dst_width as u128;
        let dh = dst_height as u128;
        let unit = CENTERING_UNIT as u128;
        proof {
            assert(w * dh <= 0xffff_ffff * 0xffff_ffff) by (nonlinear_arith)
                requires w <= 0xffff_ffff, dh <= 0xffff_ffff;
            assert(dw * h <= 0xffff_ffff * 0xffff_ffff) by (nonlinear_arith)
                requires dw <= 0xffff_ffff, h <= 0xffff_ffff;
            assert(dh * unit <= 0xffff_ffff * 65536) by (nonlinear_arith)
                requires dh <= 0xffff_ffff, unit == 65536;
            assert(dw * unit <= 0xffff_ffff * 65536) by (nonlinear_arith)
                requires dw <= 0xffff_ffff, unit == 65536;
            lemma_fit_crop_box_bounds(w as nat, h as nat, dw as nat, dh as nat, cx as nat, cy as nat);
        }
        let image_side = w * dh;
        let required_side = dw * h;
        let (cw, ch, left, top): (u128, u128, u128, u128) = if image_side == required_side {
            (w, h, 0, 0)
        } else if image_side > required_side {
            let r = round_div_exec(required_side, dh);
            proof {
                assert((image_side - required_side) * cx <= 0xffff_ffff * 0xffff_ffff * 65536) by (nonlinear_arith)
                    requires image_side - required_side <= 0xffff_ffff * 0xffff_ffff, cx <= 65536;
            }
            let left = round_div_exec((image_side - required_side) * cx as u128, dh * unit);
            (if r == 0 { 1 } else { r }, h, left, 0)
        } else {
            let r = round_div_exec(image_side, dw);
            proof {
                assert((required_side - image_side) * cy <= 0xffff_ffff * 0xffff_ffff * 65536) by (nonlinear_arith)
                    requires required_side - image_side <= 0xffff_ffff * 0xffff_ffff, cy <= 65536;
            }
            let top = round_div_exec((required_side - image_side) * cy as u128, dw * unit);
            (w, if r == 0 { 1 } else { r }, 0, top)
        };
        let left = if left + cw > w { w - cw } else { left };
        let top = if top + ch > h { h - ch } else { top };
        self.set_crop_box(CropBox { left: left as u32, top: top as u32, width: cw as u32, height: ch as u32 });
    }
}

/// Mutable view over rows of pixels of a caller-owned buffer. Cropping it
/// narrows the view itself, so that writes stay inside the region.
pub struct ImageViewMut<'a, P: PixelExt> {
    width: u32,
    height: u32,
    stride: usize,
    offset: usize,
    buffer: &'a mut [P::Component],
}

impl<'a, P: PixelExt> ImageViewMut<'a, P> {
    /// The two views have the same width and height.
    pub open spec fn same_size<Q: PixelExt>(&self, src: &ImageView<Q>) -> bool {
        self.spec_width() == src.spec_width() && self.spec_height() == src.spec_height()
    }

    pub closed spec fn spec_width(&self) -> nat {
        self.width as nat
    }

    pub closed spec fn spec_height(&self) -> nat {
        self.height as nat
    }

    /// The whole underlying buffer.
    pub closed spec fn data(&self) -> Seq<P::Component> {
        self.buffer@
    }

    /// Position in the buffer of component `c` of pixel (`x`, `y`).
    pub open spec fn index(&self, x: nat, y: nat, c: nat) -> nat {
        frame_index(self.layout().1 as nat, self.layout().0 as nat, P::spec_count(), x, y, c)
    }

    /// Buffer position `i` holds no component of the view's frame.
    pub open spec fn outside_frame(&self, i: int) -> bool {
        forall|x: nat, y: nat, c: nat|
            x < self.spec_width() && y < self.spec_height() && c < P::spec_count() ==> #[trigger] self.index(x, y, c) != i
    }

    /// Keeping the cells outside one frame is transitive across writes that
    /// keep the frame.
    pub proof fn lemma_same_outside_frame_trans(a: &Self, b: &Self, c: &Self)
        requires
            b.same_frame(a),
            b.same_outside_frame(a),
            c.same_outside_frame(b),
        ensures
            c.same_outside_frame(a),
    {
        assert forall|i: int| 0 <= i < a.data().len() && a.outside_frame(i) implies #[trigger] c.data()[i] == a.data()[i] by {
            assert forall|x: nat, y: nat, k: nat| x < b.spec_width() && y < b.spec_height() && k < P::spec_count() implies
                #[trigger] b.index(x, y, k) != i by {
                assert(a.index(x, y, k) != i);
            }
            assert(b.outside_frame(i));
        }
    }

    /// Every buffer position outside the frame of `old` holds what it held in `old`.
    pub open spec fn same_outside_frame(&self, old: &Self) -> bool {
        forall|i: int| 0 <= i < old.data().len() && old.outside_frame(i) ==> #[trigger] self.data()[i] == old.data()[i]
    }

    /// Value of component `c` of pixel (`x`, `y`).
    pub open spec fn component(&self, x: nat, y: nat, c: nat) -> nat {
        self.data()[self.index(x, y, c) as int].value()
    }

    pub closed spec fn wf(&self) -> bool {
        &&& self.buffer@.len() <= usize::MAX
        &&& frame_wf(
            self.buffer@.len(),
            self.offset as nat,
            self.stride as nat,
            self.width as nat,
            self.height as nat,
            P::spec_count(),
        )
    }

    /// Row pitch and position of the first component in the buffer.
    pub closed spec fn layout(&self) -> (usize, usize) {
        (self.stride, self.offset)
    }

    /// Same frame over a buffer of the same length.
    pub open spec fn same_frame(&self, other: &Self) -> bool {
        &&& self.spec_width() == other.spec_width()
        &&& self.spec_height() == other.spec_height()
        &&& self.layout() == other.layout()
        &&& self.data().len() == other.data().len()
    }

    pub proof fn lemma_index_bounds(&self, x: nat, y: nat, c: nat)
        requires
            self.wf(),
            x < self.spec_width(),
            y < self.spec_height(),
            c < P::spec_count(),
        ensures
            self.index(x, y, c) < self.data().len(),
    {
        lemma_frame_index_bounds(self.buffer@.len(), self.offset as nat, self.stride as nat, self.width as nat, self.height as nat, P::spec_count(), x, y, c);
    }

    pub proof fn lemma_index_order(&self, x1: nat, y1: nat, c1: nat, x2: nat, y2: nat, c2: nat)
        requires
            self.wf(),
            x1 < self.spec_width(),
            y1 < self.spec_height(),
            c1 < P::spec_count(),
            x2 < self.spec_width(),
            y2 < self.spec_height(),
            c2 < P::spec_count(),
            lex_lt(y1, x1, c1, y2, x2, c2),
        ensures
            self.index(x1, y1, c1) < self.index(x2, y2, c2),
    {
        lemma_frame_index_order(self.buffer@.len(), self.offset as nat, self.stride as nat, self.width as nat, self.height as nat, P::spec_count(), x1, y1, c1, x2, y2, c2);
    }

    pub proof fn lemma_wf(&self)
        requires
            self.wf(),
        ensures
            0 < self.spec_width() <= u32::MAX,
            0 < self.spec_height() <= u32::MAX,
    {
    }

    /// Views the first `width` x `height` pixels of `buffer`, row after row.
    /// Both dimensions are positive and the buffer holds them all.
    pub fn new(width: u32, height: u32, buffer: &'a mut [P::Component]) -> (r: Self)
        requires
            width > 0,
            height > 0,
            (width as nat) * (height as nat) * P::spec_count() <= old(buffer)@.len(),
        ensures
            r.wf(),
            r.spec_width() == width,
            r.spec_height() == height,
            r.data() == old(buffer)@,
            forall|x: nat, y: nat, c: nat|
                x < width && y < height && c < P::spec_count() ==> #[trigger] r.index(x, y, c)
                    == (y * width + x) * P::spec_count() + c,
    {
        let ch = P::count_of_components();
        let _ = buffer.len();
        proof {
            assert(width as nat * ch as nat <= width as nat * height as nat * ch as nat) by (nonlinear_arith)
                requires height >= 1;
        }
        let stride = width as usize * ch;
        let v = ImageViewMut { width, height, stride, offset: 0, buffer };
        proof {
            let (w, h, n) = (width as nat, height as nat, ch as nat);
            assert((h - 1) * (w * n) + w * n == w * h * n) by (nonlinear_arith)
                requires h >= 1;
            assert forall|x: nat, y: nat, c: nat| x < w && y < h && c < n implies
                #[trigger] v.index(x, y, c) == (y * w + x) * n + c by {
                assert(y * (w * n) + x * n == (y * w + x) * n) by (nonlinear_arith);
            }
        }
        v
    }

    pub fn width(&self) -> (r: u32)
        ensures
            r == self.spec_width(),
    {
        self.width
    }

    pub fn height(&self) -> (r: u32)
        ensures
            r == self.spec_height(),
    {
        self.height
    }

    /// Reads component `c` of pixel (`x`, `y`).
    pub fn get_component(&self, x: u32, y: u32, c: usize) -> (r: P::Component)
        requires
            self.wf(),
            x < self.spec_width(),
            y < self.spec_height(),
            c < P::spec_count(),
        ensures
            r == self.data()[self.index(x as nat, y as nat, c as nat) as int],
            r.value() == self.component(x as nat, y as nat, c as nat),
    {
        let ch = P::count_of_components();
        let i = index_of(Ghost(self.buffer@.len()), self.offset, self.stride, self.width, self.height, ch, x, y, c);
        self.buffer[i]
    }

    /// Writes component `c` of pixel (`x`, `y`); nothing else changes.
    pub fn set_component(&mut self, x: u32, y: u32, c: usize, v: P::Component)
        requires
            old(self).wf(),
            x < old(self).spec_width(),
            y < old(self).spec_height(),
            c < P::spec_count(),
        ensures
            final(self).wf(),
            final(self).same_frame(old(self)),
            final(self).data() == old(self).data().update(old(self).index(x as nat, y as nat, c as nat) as int, v),
            final(self).same_outside_frame(old(self)),
            final(self).component(x as nat, y as nat, c as nat) == v.value(),
            forall|x2: nat, y2: nat, c2: nat|
                x2 < old(self).spec_width() && y2 < old(self).spec_height() && c2 < P::spec_count()
                    && !(x2 == x && y2 == y && c2 == c) ==> #[trigger] final(self).component(x2, y2, c2)
                    == old(self).component(x2, y2, c2),
    {
        proof {
            assert forall|x2: nat, y2: nat, c2: nat|
                x2 < old(self).spec_width() && y2 < old(self).spec_height() && c2 < P::spec_count()
                    && !(x2 == x && y2 == y && c2 == c) implies
                    old(self).index(x2, y2, c2) != old(self).index(x as nat, y as nat, c as nat)
                    && old(self).index(x2, y2, c2) < old(self).data().len() by {
                old(self).lemma_index_bounds(x2, y2, c2);
                if lex_lt(y2, x2, c2, y as nat, x as nat, c as nat) {
                    old(self).lemma_index_order(x2, y2, c2, x as nat, y as nat, c as nat);
                } else {
                    old(self).lemma_index_order(x as nat, y as nat, c as nat, x2, y2, c2);
                }
            }
        }
        let ch = P::count_of_components();
        let i = index_of(Ghost(self.buffer@.len()), self.offset, self.stride, self.width, self.height, ch, x, y, c);
        self.buffer[i] = v;
    }

    /// Narrows the view to `crop_box`, a non-empty box inside the view.
    pub fn crop(self, crop_box: CropBox) -> (r: Self)
        requires
            self.wf(),
            crop_box.fits(self.spec_width(), self.spec_height()),
        ensures
            r.wf(),
            r.spec_width() == crop_box.width,
            r.spec_height() == crop_box.height,
            r.data() == self.data(),
            forall|x: nat, y: nat, c: nat|
                x < crop_box.width && y < crop_box.height && c < P::spec_count() ==> #[trigger] r.index(x, y, c)
                    == self.index((crop_box.left + x) as nat, (crop_box.top + y) as nat, c),
    {
        let ch = P::count_of_components();
        let start = index_of(Ghost(self.buffer@.len()), self.offset, self.stride, self.width, self.height, ch, crop_box.left, crop_box.top, 0);
        proof {
            let (l, t, cw, chh) = (crop_box.left as nat, crop_box.top as nat, crop_box.width as nat, crop_box.height as nat);
            let (s, n, o) = (self.stride as nat, ch as nat, self.offset as nat);
            assert((t + chh - 1) * s == t * s + (chh - 1) * s) by (nonlinear_arith);
            assert((l + cw) * n == l * n + cw * n) by (nonlinear_arith);
            assert(cw * n <= self.width as nat * n) by (nonlinear_arith)
                requires cw <= self.width as nat;
            lemma_frame_index_bounds(self.buffer@.len(), o, s, self.width as nat, self.height as nat, n, (l + cw - 1) as nat, (t + chh - 1) as nat, (n - 1) as nat);
            assert(((l + cw - 1) as nat) * n == l * n + cw * n - n) by (nonlinear_arith)
                requires cw >= 1;
            assert forall|x: nat, y: nat, c: nat| x < cw && y < chh && c < n implies
                #[trigger] frame_index(start as nat, s, n, x, y, c) == frame_index(o, s, n, l + x, t + y, c) by {
                assert((t + y) * s == t * s + y * s) by (nonlinear_arith);
                assert((l + x) * n == l * n + x * n) by (nonlinear_arith);
            }
        }
        let v = ImageViewMut {
            width: crop_box.width,
            height: crop_box.height,
            stride: self.stride,
            offset: start,
            buffer: self.buffer,
        };
        v
    }

    /// Turns the view into an immutable one over the same region, whose crop
    /// box is the whole region.
    pub fn into_view(self) -> (r: ImageView<'a, P>)
        requires
            self.wf(),
        ensures
            r.wf(),
            r.spec_width() == self.spec_width(),
            r.spec_height() == self.spec_height(),
            r.spec_crop_box() == CropBox::full(self.spec_width(), self.spec_height()),
            forall|x: nat, y: nat, c: nat| #[trigger] r.component(x, y, c) == self.component(x, y, c),
    {
        ImageView {
            width: self.width,
            height: self.height,
            stride: self.stride,
            offset: self.offset,
            crop_box: CropBox { left: 0, top: 0, width: self.width, height: self.height },
            buffer: self.buffer,
        }
    }
}

/// Converts one component between the representations of `I` and `O`.
fn convert_component<I: PixelComponent, O: PixelComponent>(v: I) -> (r: O)
    ensures
        r.value() == converted_value(v.value(), I::max_value(), O::max_value()),
{
    let value = v.to_u32();
    let from_max = I::max_u32();
    let to_max = O::max_u32();
    if from_max == to_max {
        O::from_u32(value)
    } else if from_max < to_max {
        O::from_u32(value * 257)
    } else {
        O::from_u32(value / 256)
    }
}

/// Converts every component of `src` into the component type of `dst`; both
/// have the same size and the same number of components per pixel.
pub fn change_type_of_pixel_components<S: PixelExt, D: PixelExt>(src: &ImageView<S>, dst: &mut ImageViewMut<D>)
    requires
        src.wf(),
        old(dst).wf(),
        old(dst).same_size(src),
        S::spec_count() == D::spec_count(),
    ensures
        final(dst).wf(),
        final(dst).same_frame(old(dst)),
        final(dst).same_outside_frame(old(dst)),
        forall|x: nat, y: nat, c: nat|
            x < src.spec_width() && y < src.spec_height() && c < S::spec_count() ==> #[trigger] final(dst).component(x, y, c)
                == converted_value(
                src.component(x, y, c),
                <S::Component as PixelComponent>::max_value(),
                <D::Component as PixelComponent>::max_value(),
            ),
{
    let ghost smax = <S::Component as PixelComponent>::max_value();
    let ghost dmax = <D::Component as PixelComponent>::max_value();
    let width = src.width();
    let height = src.height();
    let ch = S::count_of_components();
    let mut y: u32 = 0;
    while y < height
        invariant
            src.wf(),
            dst.wf(),
            dst.same_frame(old(dst)),
            dst.same_outside_frame(old(dst)),
            dst.same_size(src),
            width == src.spec_width(),
            height == src.spec_height(),
            ch == S::spec_count(),
            S::spec_count() == D::spec_count(),
            smax == <S::Component as PixelComponent>::max_value(),
            dmax == <D::Component as PixelComponent>::max_value(),
            y <= height,
            forall|x2: nat, y2: nat, c2: nat| x2 < width && y2 < y && c2 < ch ==> #[trigger] dst.component(x2, y2, c2)
                == converted_value(src.component(x2, y2, c2), smax, dmax),
        decreases height - y,
    {
        let mut x: u32 = 0;
        while x < width
            invariant
                src.wf(),
                dst.wf(),
                dst.same_frame(old(dst)),
                dst.same_outside_frame(old(dst)),
                dst.same_size(src),
                width == src.spec_width(),
                height == src.spec_height(),
                ch == S::spec_count(),
                S::spec_count() == D::spec_count(),
                smax == <S::Component as PixelComponent>::max_value(),
                dmax == <D::Component as PixelComponent>::max_value(),
                y < height,
                x <= width,
                forall|x2: nat, y2: nat, c2: nat|
                    x2 < width && c2 < ch && (y2 < y || (y2 == y && x2 < x)) ==> #[trigger] dst.component(x2, y2, c2)
                        == converted_value(src.component(x2, y2, c2), smax, dmax),
            decreases width - x,
        {
            let mut c: usize = 0;
            while c < ch
                invariant
                    src.wf(),
                    dst.wf(),
                    dst.same_frame(old(dst)),
                    dst.same_outside_frame(old(dst)),
                    dst.same_size(src),
                    width == src.spec_width(),
                    height == src.spec_height(),
                    ch == S::spec_count(),
                    S::spec_count() == D::spec_count(),
                    smax == <S::Component as PixelComponent>::max_value(),
                    dmax == <D::Component as PixelComponent>::max_value(),
                    y < height,
                    x < width,
                    c <= ch,
                    forall|x2: nat, y2: nat, c2: nat|
                        x2 < width && c2 < ch && (y2 < y || (y2 == y && x2 < x) || (y2 == y && x2 == x && c2 < c))
                            ==> #[trigger] dst.component(x2, y2, c2)
                            == converted_value(src.component(x2, y2, c2), smax, dmax),
                decreases ch - c,
            {
                let v = src.get_component(x, y, c);
                let out: D::Component = convert_component(v);
                let ghost before = *dst;
                dst.set_component(x, y, c, out);
                proof {
                    ImageViewMut::lemma_same_outside_frame_trans(old(dst), &before, dst);
                }
                c += 1;
            }
            x += 1;
        }
        y += 1;
    }
}

impl<'a, P: PixelExt> ImageView<'a, P> {
    /// Components of row `y` of the full frame; None past the last row.
    pub fn get_row(&self, y: u32) -> (r: Option<&'a [P::Component]>)
        requires
            self.wf(),
        ensures
            r is Some <==> y < self.spec_height(),
            r is Some ==> {
                let row = r->Some_0@;
                &&& row.len() == self.spec_width() * P::spec_count()
                &&& forall|x: nat, c: nat|
                    x < self.spec_width() && c < P::spec_count() ==> (#[trigger] row[(x * P::spec_count() + c) as int]).value()
                        == self.component(x, y as nat, c)
            },
    {
        if y >= self.height {
            return None;
        }
        let ch = P::count_of_components();
        let buffer_len = self.buffer.len();
        let start = index_of(Ghost(buffer_len as nat), self.offset, self.stride, self.width, self.height, ch, 0, y, 0);
        proof {
            lemma_frame_index_bounds(self.buffer@.len(), self.offset as nat, self.stride as nat, self.width as nat, self.height as nat, ch as nat, (self.width - 1) as nat, y as nat, (ch - 1) as nat);
            assert(((self.width - 1) as nat) * (ch as nat) + ch as nat == self.width as nat * ch as nat) by (nonlinear_arith)
                requires self.width >= 1;
        }
        let len = self.width as usize * ch;
        let row = vstd::slice::slice_subrange(self.buffer, start, start + len);
        proof {
            assert forall|x: nat, c: nat| x < self.spec_width() && c < P::spec_count() implies
                (#[trigger] row@[(x * P::spec_count() + c) as int]).value() == self.component(x, y as nat, c) by {
                assert(x * (ch as nat) + c < self.width as nat * ch as nat) by (nonlinear_arith)
                    requires x < self.width as nat, c < ch as nat;
            }
        }
        Some(row)
    }

    /// First rows of the complete groups of `group` consecutive rows in
    /// [`start_y`, min(`max_y`, height)); rows past the last complete group
    /// are left for the caller to take one at a time.
    pub fn row_groups(&self, start_y: u32, max_y: u32, group: u32) -> (r: Vec<u32>)
        requires
            group > 0,
        ensures
            r.len() == (if start_y < min_nat(max_y as nat, self.spec_height()) {
                ((min_nat(max_y as nat, self.spec_height()) - start_y) / group as int) as nat
            } else {
                0
            }),
            forall|i: int| 0 <= i < r.len() ==> #[trigger] r@[i] == start_y + i * group,
            forall|i: int| 0 <= i < r.len() ==> r@[i] + group <= min_nat(max_y as nat, self.spec_height()),
    {
        let end = if max_y < self.height { max_y } else { self.height };
        let mut out: Vec<u32> = Vec::new();
        if start_y >= end {
            return out;
        }
        let mut y = start_y;
        assert(out.len() == 0);
        assert(out.len() * group == 0) by (nonlinear_arith)
            requires out.len() == 0;
        while group <= end - y
            invariant
                start_y <= y <= end,
                end == min_nat(max_y as nat, self.spec_height()),
                group > 0,
                y == start_y + out.len() * group,
                forall|i: int| 0 <= i < out.len() ==> #[trigger] out@[i] == start_y + i * group,
                forall|i: int| 0 <= i < out.len() ==> out@[i] + group <= end,
            decreases end - y,
        {
            out.push(y);
            y = y + group;
            proof {
                assert(y == start_y + out.len() * group) by (nonlinear_arith)
                    requires y == start_y + (out.len() - 1) * group + group;
            }
        }
        proof {
            let n = out.len() as int;
            let span = (end - start_y) as int;
            assert(span == n * group + (end - y));
            assert(0 <= end - y < group);
            vstd::arithmetic::div_mod::lemma_fundamental_div_mod_converse(span, group as int, n, (end - y) as int);
        }
        out
    }

    /// Rows at the whole parts of `y`, `y + step`, `y + 2 * step`, ... (all
    /// in units of `1 / den`) that lie in the image, at most `max_count` of them.
    pub fn rows_with_step(&self, y: u64, step: u64, den: u64, max_count: usize) -> (r: Vec<u32>)
        requires
            den > 0,
        ensures
            r.len() <= max_count,
            forall|i: int| 0 <= i < r.len() ==> #[trigger] r@[i] as int == (y + i * step) / den as int,
            forall|i: int| 0 <= i < r.len() ==> r@[i] < self.spec_height(),
            r.len() < max_count ==> (y + r.len() * step) / den as int >= self.spec_height(),
    {
        let mut out: Vec<u32> = Vec::new();
        let mut pos: u128 = y as u128;
        while out.len() < max_count
            invariant
                den > 0,
                out.len() <= max_count,
                pos == y + out.len() * step,
                pos <= 0xffff_ffff_ffff_ffff + out.len() * 0xffff_ffff_ffff_ffff,
                max_count <= usize::MAX,
                forall|i: int| 0 <= i < out.len() ==> #[trigger] out@[i] as int == (y + i * step) / den as int,
                forall|i: int| 0 <= i < out.len() ==> out@[i] < self.height,
            ensures
                out.len() <= max_count,
                forall|i: int| 0 <= i < out.len() ==> #[trigger] out@[i] as int == (y + i * step) / den as int,
                forall|i: int| 0 <= i < out.len() ==> out@[i] < self.height,
                out.len() < max_count ==> (y + out.len() * step) / den as int >= self.height,
            decreases max_count - out.len(),
        {
            let row = pos / den as u128;
            if row >= self.height as u128 {
                break;
            }
            out.push(row as u32);
            proof {
                assert(out.len() * step == (out.len() - 1) * step + step) by (nonlinear_arith);
                assert(out.len() * 0xffff_ffff_ffff_ffffu64 == (out.len() - 1) * 0xffff_ffff_ffff_ffffu64 + 0xffff_ffff_ffff_ffffu64) by (nonlinear_arith);
            }
            pos = pos + step as u128;
        }
        out
    }
}

pub open spec fn min_nat(a: nat, b: nat) -> int {
    if a < b { a as int } else { b as int }
}

/// Converting a mutable view gives an immutable view of the same region,
/// whose crop box is the whole region.
pub proof fn lemma_view_from_mut<'a, P: PixelExt>(view: ImageViewMut<'a, P>)
    requires
        view.wf(),
    ensures
        ({
            let r = <ImageView<'a, P> as vstd::std_specs::convert::FromSpec<ImageViewMut<'a, P>>>::from_spec(view);
            &&& r.wf()
            &&& r.spec_width() == view.spec_width()
            &&& r.spec_height() == view.spec_height()
            &&& r.spec_crop_box() == CropBox::full(view.spec_width(), view.spec_height())
            &&& forall|x: nat, y: nat, c: nat| #[trigger] r.component(x, y, c) == view.component(x, y, c)
        }),
{
}

impl<'a, P: PixelExt> From<ImageViewMut<'a, P>> for ImageView<'a, P> {
    fn from(view: ImageViewMut<'a, P>) -> (r: Self) {
        ImageView {
            width: view.width,
            height: view.height,
            stride: view.stride,
            offset: view.offset,
            crop_box: CropBox { left: 0, top: 0, width: view.width, height: view.height },
            buffer: view.buffer,
        }
    }
}

impl<'a, P: PixelExt> vstd::std_specs::convert::FromSpecImpl<ImageViewMut<'a, P>> for ImageView<'a, P> {
    open spec fn obeys_from_spec() -> bool {
        true
    }

    closed spec fn from_spec(view: ImageViewMut<'a, P>) -> Self {
        ImageView {
            width: view.width,
            height: view.height,
            stride: view.stride,
            offset: view.offset,
            crop_box: CropBox { left: 0, top: 0, width: view.width, height: view.height },
            buffer: &*view.buffer,
        }
    }
}

} // verus!
