//! Multiplying color components by alpha and dividing them back out.
use vstd::prelude::*;

use crate::image_view::{ImageView, ImageViewMut};
use crate::pixels::{Pixel, PixelComponent, PixelExt};
use crate::resizer::CpuExtensions;

verus! {

/// Pixel formats whose last component is alpha: two or four components.
pub trait AlphaMulDiv: PixelExt {
    proof fn lemma_alpha_layout()
        ensures
            Self::spec_count() == 2 || Self::spec_count() == 4,
    ;
}

impl AlphaMulDiv for Pixel<u8, 2> {
    proof fn lemma_alpha_layout() {
    }
}

impl AlphaMulDiv for Pixel<u8, 4> {
    proof fn lemma_alpha_layout() {
    }
}

impl AlphaMulDiv for Pixel<u16, 2> {
    proof fn lemma_alpha_layout() {
    }
}

impl AlphaMulDiv for Pixel<u16, 4> {
    proof fn lemma_alpha_layout() {
    }
}

/// Color value `c` premultiplied by `alpha`: `c * alpha / max`, rounded.
pub open spec fn premultiplied(c: nat, alpha: nat, max: nat) -> nat {
    (c * alpha + max / 2) / max
}

/// Premultiplied color value `c` divided by `alpha`: `c * max / alpha`,
/// rounded and capped at `max`; zero where alpha is zero.
pub open spec fn unpremultiplied(c: nat, alpha: nat, max: nat) -> nat {
    if alpha == 0 {
        0
    } else if (c * max + alpha / 2) / alpha > max {
        max
    } else {
        (c * max + alpha / 2) / alpha
    }
}

/// Value of a component after the alpha operation: color components
/// (all but the last) are premultiplied or unpremultiplied by the alpha
/// component `alpha`; the alpha component is kept.
pub open spec fn alpha_result(multiply: bool, is_alpha: bool, c: nat, alpha: nat, max: nat) -> nat {
    if is_alpha {
        c
    } else if multiply {
        premultiplied(c, alpha, max)
    } else {
        unpremultiplied(c, alpha, max)
    }
}

/// Dividing a premultiplied color by its alpha gives back the original
/// color within one unit, for every alpha above a third of the range.
pub proof fn lemma_premultiply_round_trip(c: nat, alpha: nat, max: nat)
    requires
        max == 255 || max == 65535,
        c <= max,
        alpha <= max,
        3 * alpha > max,
    ensures
        c <= unpremultiplied(premultiplied(c, alpha, max), alpha, max) + 1,
        unpremultiplied(premultiplied(c, alpha, max), alpha, max) <= c + 1,
{
    let h = max / 2;
    let p = premultiplied(c, alpha, max);
    let n1 = c * alpha + h;
    vstd::arithmetic::div_mod::lemma_fundamental_div_mod(n1 as int, max as int);
    let r1 = n1 % max;
    assert(n1 == p * max + r1);
    let n2 = p * max + alpha / 2;
    vstd::arithmetic::div_mod::lemma_fundamental_div_mod(n2 as int, alpha as int);
    let q = n2 / alpha;
    let r2 = n2 % alpha;
    assert(n2 == q * alpha + r2);
    let e: int = h - r1 + alpha / 2 - r2;
    assert((q - c) * alpha == e) by (nonlinear_arith)
        requires
            n1 == c * alpha + h,
            n1 == p * max + r1,
            n2 == p * max + alpha / 2,
            n2 == q * alpha + r2,
            e == h - r1 + alpha / 2 - r2;
    assert(-2 * alpha < e < 2 * alpha);
    assert(-2 < q - c < 2) by (nonlinear_arith)
        requires
            (q - c) * alpha == e,
            -2 * alpha < e < 2 * alpha,
            alpha > 0;
}

/// Dividing by a zero alpha gives zero.
pub proof fn lemma_divide_zero_alpha(c: nat, max: nat)
    ensures
        unpremultiplied(c, 0, max) == 0,
{
}

fn premultiply_value(c: u32, alpha: u32, max: u32) -> (r: u32)
    requires
        c <= max,
        alpha <= max,
        max == 255 || max == 65535,
    ensures
        r as nat == premultiplied(c as nat, alpha as nat, max as nat),
        r <= max,
{
    proof {
        assert(c as nat * alpha as nat <= max as nat * max as nat) by (nonlinear_arith)
            requires c <= max, alpha <= max;
        assert((c as nat * alpha as nat + max as nat / 2) / (max as nat) <= max as nat) by (nonlinear_arith)
            requires c as nat * alpha as nat <= max as nat * max as nat, max >= 255;
    }
    let m = max as u64;
    let r = (c as u64 * alpha as u64 + m / 2) / m;
    r as u32
}

fn unpremultiply_value(c: u32, alpha: u32, max: u32) -> (r: u32)
    requires
        c <= max,
        alpha <= max,
        max == 255 || max == 65535,
    ensures
        r as nat == unpremultiplied(c as nat, alpha as nat, max as nat),
        r <= max,
{
    if alpha == 0 {
        return 0;
    }
    proof {
        assert(c as nat * max as nat <= max as nat * max as nat) by (nonlinear_arith)
            requires c <= max;
    }
    let m = max as u64;
    let r = (c as u64 * m + alpha as u64 / 2) / alpha as u64;
    if r > m {
        max
    } else {
        r as u32
    }
}

/// Multiplies or divides the color components of an image by its alpha
/// component, through the active CPU extensions.
#[derive(Clone, Copy, Debug, PartialEq, Eq, Structural)]
pub struct MulDiv {
    cpu_extensions: CpuExtensions,
}

impl Default for MulDiv {
    fn default() -> (r: Self)
        ensures
            r.spec_cpu_extensions() == CpuExtensions::Scalar,
    {
        MulDiv { cpu_extensions: CpuExtensions::Scalar }
    }
}

impl MulDiv {
    pub closed spec fn spec_cpu_extensions(&self) -> CpuExtensions {
        self.cpu_extensions
    }

    /// An instance that uses `cpu_extensions`.
    pub fn new(cpu_extensions: CpuExtensions) -> (r: Self)
        ensures
            r.spec_cpu_extensions() == cpu_extensions,
    {
        MulDiv { cpu_extensions }
    }

    pub fn cpu_extensions(&self) -> (r: CpuExtensions)
        ensures
            r == self.spec_cpu_extensions(),
    {
        self.cpu_extensions
    }

    /// Selects the CPU extensions to use. The caller answers for the
    /// processor supporting them.
    pub fn set_cpu_extensions(&mut self, extensions: CpuExtensions)
        ensures
            final(self).spec_cpu_extensions() == extensions,
    {
        self.cpu_extensions = extensions;
    }

    /// Stores into `dst` the pixels of `src` with color components
    /// premultiplied by alpha.
    pub fn multiply_alpha<P: AlphaMulDiv>(&self, src_image: &ImageView<P>, dst_image: &mut ImageViewMut<P>)
        requires
            src_image.wf(),
            old(dst_image).wf(),
            old(dst_image).same_size(src_image),
        ensures
            final(dst_image).wf(),
            final(dst_image).same_frame(old(dst_image)),
            final(dst_image).same_outside_frame(old(dst_image)),
            forall|x: nat, y: nat, c: nat|
                x < src_image.spec_width() && y < src_image.spec_height() && c < P::spec_count()
                    ==> #[trigger] final(dst_image).component(x, y, c) == alpha_result(
                    true,
                    c + 1 == P::spec_count(),
                    src_image.component(x, y, c),
                    src_image.component(x, y, (P::spec_count() - 1) as nat),
                    <P::Component as PixelComponent>::max_value(),
                ),
    {
        apply_alpha(src_image, dst_image, true);
    }

    /// Stores into `dst` the pixels of `src` with color components divided
    /// by alpha (zero where alpha is zero).
    pub fn divide_alpha<P: AlphaMulDiv>(&self, src_image: &ImageView<P>, dst_image: &mut ImageViewMut<P>)
        requires
            src_image.wf(),
            old(dst_image).wf(),
            old(dst_image).same_size(src_image),
        ensures
            final(dst_image).wf(),
            final(dst_image).same_frame(old(dst_image)),
            final(dst_image).same_outside_frame(old(dst_image)),
            forall|x: nat, y: nat, c: nat|
                x < src_image.spec_width() && y < src_image.spec_height() && c < P::spec_count()
                    ==> #[trigger] final(dst_image).component(x, y, c) == alpha_result(
                    false,
                    c + 1 == P::spec_count(),
                    src_image.component(x, y, c),
                    src_image.component(x, y, (P::spec_count() - 1) as nat),
                    <P::Component as PixelComponent>::max_value(),
                ),
    {
        apply_alpha(src_image, dst_image, false);
    }

    /// Premultiplies the color components of `image` by alpha in place.
    pub fn multiply_alpha_inplace<P: AlphaMulDiv>(&self, image: &mut ImageViewMut<P>)
        requires
            old(image).wf(),
        ensures
            final(image).wf(),
            final(image).same_frame(old(image)),
            final(image).same_outside_frame(old(image)),
            forall|x: nat, y: nat, c: nat|
                x < old(image).spec_width() && y < old(image).spec_height() && c < P::spec_count()
                    ==> #[trigger] final(image).component(x, y, c) == alpha_result(
                    true,
                    c + 1 == P::spec_count(),
                    old(image).component(x, y, c),
                    old(image).component(x, y, (P::spec_count() - 1) as nat),
                    <P::Component as PixelComponent>::max_value(),
                ),
    {
        apply_alpha_inplace(image, true);
    }

    /// Divides the color components of `image` by alpha in place (zero
    /// where alpha is zero).
    pub fn divide_alpha_inplace<P: AlphaMulDiv>(&self, image: &mut ImageViewMut<P>)
        requires
            old(image).wf(),
        ensures
            final(image).wf(),
            final(image).same_frame(old(image)),
            final(image).same_outside_frame(old(image)),
            forall|x: nat, y: nat, c: nat|
                x < old(image).spec_width() && y < old(image).spec_height() && c < P::spec_count()
                    ==> #[trigger] final(image).component(x, y, c) == alpha_result(
                    false,
                    c + 1 == P::spec_count(),
                    old(image).component(x, y, c),
                    old(image).component(x, y, (P::spec_count() - 1) as nat),
                    <P::Component as PixelComponent>::max_value(),
                ),
    {
        apply_alpha_inplace(image, false);
    }
}

fn apply_alpha<P: AlphaMulDiv>(src: &ImageView<P>, dst: &mut ImageViewMut<P>, multiply: bool)
    requires
        src.wf(),
        old(dst).wf(),
        old(dst).same_size(src),
    ensures
        final(dst).wf(),
        final(dst).same_frame(old(dst)),
        final(dst).same_outside_frame(old(dst)),
        forall|x: nat, y: nat, c: nat|
            x < src.spec_width() && y < src.spec_height() && c < P::spec_count()
                ==> #[trigger] final(dst).component(x, y, c) == alpha_result(
                multiply,
                c + 1 == P::spec_count(),
                src.component(x, y, c),
                src.component(x, y, (P::spec_count() - 1) as nat),
                <P::Component as PixelComponent>::max_value(),
            ),
{
    let ghost max = <P::Component as PixelComponent>::max_value();
    let ghost n = P::spec_count();
    let width = src.width();
    let height = src.height();
    let ch = P::count_of_components();
    let m = P::Component::max_u32();
    proof {
        P::lemma_alpha_layout();
    }
    let mut y: u32 = 0;
    while y < height
        invariant
            src.wf(),
            dst.wf(),
            dst.same_frame(old(dst)),
            dst.same_outside_frame(old(dst)),
            dst.same_size(src),
            width == src.spec_width(),
            height == src.spec_height(),
            ch == n,
            n == P::spec_count(),
            n == 2 || n == 4,
            m == max,
            max == <P::Component as PixelComponent>::max_value(),
            y <= height,
            forall|x2: nat, y2: nat, c2: nat| x2 < width && y2 < y && c2 < ch ==> #[trigger] dst.component(x2, y2, c2)
                == alpha_result(multiply, c2 + 1 == n, src.component(x2, y2, c2), src.component(x2, y2, (n - 1) as nat), max),
        decreases height - y,
    {
        let mut x: u32 = 0;
        while x < width
            invariant
                src.wf(),
                dst.wf(),
                dst.same_frame(old(dst)),
                dst.same_outside_frame(old(dst)),
                dst.same_size(src),
                width == src.spec_width(),
                height == src.spec_height(),
                ch == n,
                n == P::spec_count(),
                n == 2 || n == 4,
                m == max,
                max == <P::Component as PixelComponent>::max_value(),
                y < height,
                x <= width,
                forall|x2: nat, y2: nat, c2: nat|
                    x2 < width && c2 < ch && (y2 < y || (y2 == y && x2 < x)) ==> #[trigger] dst.component(x2, y2, c2)
                        == alpha_result(multiply, c2 + 1 == n, src.component(x2, y2, c2), src.component(x2, y2, (n - 1) as nat), max),
            decreases width - x,
        {
            let alpha = src.get_component(x, y, ch - 1).to_u32();
            let mut c: usize = 0;
            while c < ch
                invariant
                    src.wf(),
                    dst.wf(),
                    dst.same_frame(old(dst)),
                    dst.same_outside_frame(old(dst)),
                    dst.same_size(src),
                    width == src.spec_width(),
                    height == src.spec_height(),
                    ch == n,
                    n == P::spec_count(),
                    n == 2 || n == 4,
                    m == max,
                    max == <P::Component as PixelComponent>::max_value(),
                    y < height,
                    x < width,
                    c <= ch,
                    alpha == src.component(x as nat, y as nat, (n - 1) as nat),
                    alpha <= max,
                    forall|x2: nat, y2: nat, c2: nat|
                        x2 < width && c2 < ch && (y2 < y || (y2 == y && x2 < x) || (y2 == y && x2 == x && c2 < c))
                            ==> #[trigger] dst.component(x2, y2, c2)
                            == alpha_result(multiply, c2 + 1 == n, src.component(x2, y2, c2), src.component(x2, y2, (n - 1) as nat), max),
                decreases ch - c,
            {
                let v = src.get_component(x, y, c).to_u32();
                let out = if c + 1 == ch {
                    v
                } else if multiply {
                    premultiply_value(v, alpha, m)
                } else {
                    unpremultiply_value(v, alpha, m)
                };
                let ghost before = *dst;
                dst.set_component(x, y, c, P::Component::from_u32(out));
                proof {
                    ImageViewMut::lemma_same_outside_frame_trans(old(dst), &before, dst);
                }
                c += 1;
            }
            x += 1;
        }
        y += 1;
    }
}

fn apply_alpha_inplace<P: AlphaMulDiv>(image: &mut ImageViewMut<P>, multiply: bool)
    requires
        old(image).wf(),
    ensures
        final(image).wf(),
        final(image).same_frame(old(image)),
        final(image).same_outside_frame(old(image)),
        forall|x: nat, y: nat, c: nat|
            x < old(image).spec_width() && y < old(image).spec_height() && c < P::spec_count()
                ==> #[trigger] final(image).component(x, y, c) == alpha_result(
                multiply,
                c + 1 == P::spec_count(),
                old(image).component(x, y, c),
                old(image).component(x, y, (P::spec_count() - 1) as nat),
                <P::Component as PixelComponent>::max_value(),
            ),
{
    let ghost max = <P::Component as PixelComponent>::max_value();
    let ghost n = P::spec_count();
    let ghost orig = *image;
    let width = image.width();
    let height = image.height();
    let ch = P::count_of_components();
    let m = P::Component::max_u32();
    proof {
        P::lemma_alpha_layout();
    }
    let mut y: u32 = 0;
    while y < height
        invariant
            image.wf(),
            image.same_frame(&orig),
            image.same_outside_frame(&orig),
            orig.wf(),
            orig == *old(image),
            width == orig.spec_width(),
            height == orig.spec_height(),
            ch == n,
            n == P::spec_count(),
            n == 2 || n == 4,
            m == max,
            max == <P::Component as PixelComponent>::max_value(),
            y <= height,
            forall|x2: nat, y2: nat, c2: nat| x2 < width && y2 < y && c2 < ch ==> #[trigger] image.component(x2, y2, c2)
                == alpha_result(multiply, c2 + 1 == n, orig.component(x2, y2, c2), orig.component(x2, y2, (n - 1) as nat), max),
            forall|x2: nat, y2: nat, c2: nat| x2 < width && y <= y2 < height && c2 < ch ==> #[trigger] image.component(x2, y2, c2)
                == orig.component(x2, y2, c2),
        decreases height - y,
    {
        let mut x: u32 = 0;
        while x < width
            invariant
                image.wf(),
                image.same_frame(&orig),
                image.same_outside_frame(&orig),
                orig.wf(),
                orig == *old(image),
                width == orig.spec_width(),
                height == orig.spec_height(),
                ch == n,
                n == P::spec_count(),
                n == 2 || n == 4,
                m == max,
                max == <P::Component as PixelComponent>::max_value(),
                y < height,
                x <= width,
                forall|x2: nat, y2: nat, c2: nat|
                    x2 < width && c2 < ch && (y2 < y || (y2 == y && x2 < x)) ==> #[trigger] image.component(x2, y2, c2)
                        == alpha_result(multiply, c2 + 1 == n, orig.component(x2, y2, c2), orig.component(x2, y2, (n - 1) as nat), max),
                forall|x2: nat, y2: nat, c2: nat|
                    x2 < width && y2 < height && c2 < ch && (y2 > y || (y2 == y && x2 >= x)) ==> #[trigger] image.component(x2, y2, c2)
                        == orig.component(x2, y2, c2),
            decreases width - x,
        {
            let alpha = image.get_component(x, y, ch - 1).to_u32();
            let mut c: usize = 0;
            while c < ch
                invariant
                    image.wf(),
                    image.same_frame(&orig),
                    image.same_outside_frame(&orig),
                    orig.wf(),
                    orig == *old(image),
                    width == orig.spec_width(),
                    height == orig.spec_height(),
                    ch == n,
                    n == P::spec_count(),
                    n == 2 || n == 4,
                    m == max,
                    max == <P::Component as PixelComponent>::max_value(),
                    y < height,
                    x < width,
                    c <= ch,
                    alpha == orig.component(x as nat, y as nat, (n - 1) as nat),
                    alpha <= max,
                    forall|x2: nat, y2: nat, c2: nat|
                        x2 < width && c2 < ch && (y2 < y || (y2 == y && x2 < x) || (y2 == y && x2 == x && c2 < c))
                            ==> #[trigger] image.component(x2, y2, c2)
                            == alpha_result(multiply, c2 + 1 == n, orig.component(x2, y2, c2), orig.component(x2, y2, (n - 1) as nat), max),
                    forall|x2: nat, y2: nat, c2: nat|
                        x2 < width && y2 < height && c2 < ch && (y2 > y || (y2 == y && x2 > x) || (y2 == y && x2 == x && c2 >= c))
                            ==> #[trigger] image.component(x2, y2, c2) == orig.component(x2, y2, c2),
                decreases ch - c,
            {
                let v = image.get_component(x, y, c).to_u32();
                let out = if c + 1 == ch {
                    v
                } else if multiply {
                    premultiply_value(v, alpha, m)
                } else {
                    unpremultiply_value(v, alpha, m)
                };
                let ghost before = *image;
                image.set_component(x, y, c, P::Component::from_u32(out));
                proof {
                    ImageViewMut::lemma_same_outside_frame_trans(&orig, &before, image);
                }
                c += 1;
            }
            x += 1;
        }
        y += 1;
    }
}

} // verus!
