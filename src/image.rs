//! A simple owned container of image data.
use vstd::prelude::*;

use crate::image_view::{CropBox, ImageView, ImageViewMut};
use crate::pixels::{PixelComponent, PixelExt};

verus! {

/// Image of `width` x `height` pixels that owns its components, row after row.
pub struct Image<P: PixelExt> {
    width: u32,
    height: u32,
    buffer: Vec<P::Component>,
}

impl<P: PixelExt> Image<P> {
    pub closed spec fn spec_width(&self) -> nat {
        self.width as nat
    }

    pub closed spec fn spec_height(&self) -> nat {
        self.height as nat
    }

    /// All components of the image, row after row.
    pub closed spec fn data(&self) -> Seq<P::Component> {
        self.buffer@
    }

    pub closed spec fn wf(&self) -> bool {
        &&& self.width > 0
        &&& self.height > 0
        &&& (self.width as nat) * (self.height as nat) * P::spec_count() <= self.buffer@.len()
    }

    /// An image of the given size with every component zero.
    pub fn new(width: u32, height: u32) -> (r: Self)
        requires
            width > 0,
            height > 0,
            (width as nat) * (height as nat) * P::spec_count() <= usize::MAX,
        ensures
            r.wf(),
            r.spec_width() == width,
            r.spec_height() == height,
            r.data().len() == (width as nat) * (height as nat) * P::spec_count(),
            forall|i: int| 0 <= i < r.data().len() ==> (#[trigger] r.data()[i]).value() == 0,
    {
        let ch = P::count_of_components();
        proof {
            assert((width as nat) * (height as nat) <= (width as nat) * (height as nat) * (ch as nat)) by (nonlinear_arith)
                requires ch >= 1;
        }
        let size = width as usize * height as usize * ch;
        let mut buffer: Vec<P::Component> = Vec::new();
        while buffer.len() < size
            invariant
                buffer.len() <= size,
                forall|i: int| 0 <= i < buffer.len() ==> (#[trigger] buffer@[i]).value() == 0,
            decreases size - buffer.len(),
        {
            buffer.push(P::Component::from_u32(0));
        }
        Image { width, height, buffer }
    }

    /// An image over `buffer`, which holds at least `width` x `height`
    /// pixels; both dimensions are positive.
    pub fn from_vec(width: u32, height: u32, buffer: Vec<P::Component>) -> (r: Self)
        requires
            width > 0,
            height > 0,
            (width as nat) * (height as nat) * P::spec_count() <= buffer@.len(),
        ensures
            r.wf(),
            r.spec_width() == width,
            r.spec_height() == height,
            r.data() == buffer@,
    {
        Image { width, height, buffer }
    }

    /// A copy of the image with its own buffer.
    pub fn copy(&self) -> (r: Self)
        ensures
            r.spec_width() == self.spec_width(),
            r.spec_height() == self.spec_height(),
            r.data() == self.data(),
            self.wf() ==> r.wf(),
    {
        let mut buffer: Vec<P::Component> = Vec::new();
        let mut i: usize = 0;
        while i < self.buffer.len()
            invariant
                i <= self.buffer.len(),
                buffer@ == self.buffer@.take(i as int),
            decreases self.buffer.len() - i,
        {
            buffer.push(self.buffer[i]);
            i += 1;
            proof {
                assert(buffer@ =~= self.buffer@.take(i as int));
            }
        }
        proof {
            assert(buffer@ =~= self.buffer@);
        }
        Image { width: self.width, height: self.height, buffer }
    }

    pub fn width(&self) -> (r: u32)
        ensures
            r == self.spec_width(),
    {
        self.width
    }

    pub fn height(&self) -> (r: u32)
        ensures
            r == self.spec_height(),
    {
        self.height
    }

    /// The components of the image.
    pub fn buffer(&self) -> (r: &[P::Component])
        ensures
            r@ == self.data(),
    {
        self.buffer.as_slice()
    }

    /// The components of the image, for writing.
    pub fn buffer_mut(&mut self) -> (r: &mut [P::Component])
        ensures
            r@ == old(self).data(),
            final(r)@ == final(self).data(),
            final(self).spec_width() == old(self).spec_width(),
            final(self).spec_height() == old(self).spec_height(),
    {
        self.buffer.as_mut_slice()
    }

    /// The buffer of the image.
    pub fn into_vec(self) -> (r: Vec<P::Component>)
        ensures
            r@ == self.data(),
    {
        self.buffer
    }

    /// An immutable view of the whole image.
    pub fn view(&self) -> (r: ImageView<'_, P>)
        requires
            self.wf(),
        ensures
            r.wf(),
            r.spec_width() == self.spec_width(),
            r.spec_height() == self.spec_height(),
            r.spec_crop_box() == CropBox::full(self.spec_width(), self.spec_height()),
            forall|x: nat, y: nat, c: nat|
                x < self.spec_width() && y < self.spec_height() && c < P::spec_count() ==> #[trigger] r.component(x, y, c)
                    == self.data()[((y * self.spec_width() + x) * P::spec_count() + c) as int].value(),
    {
        ImageView::new(self.width, self.height, self.buffer.as_slice())
    }

    /// A mutable view of the whole image.
    pub fn view_mut(&mut self) -> (r: ImageViewMut<'_, P>)
        requires
            old(self).wf(),
        ensures
            r.wf(),
            r.spec_width() == old(self).spec_width(),
            r.spec_height() == old(self).spec_height(),
            r.data() == old(self).data(),
            forall|x: nat, y: nat, c: nat|
                x < old(self).spec_width() && y < old(self).spec_height() && c < P::spec_count() ==> #[trigger] r.index(x, y, c)
                    == (y * old(self).spec_width() + x) * P::spec_count() + c,
    {
        ImageViewMut::new(self.width, self.height, self.buffer.as_mut_slice())
    }
}

} // verus!
