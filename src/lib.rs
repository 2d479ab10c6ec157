//! Image resampling: pixel formats, strided row views over caller buffers,
//! alpha premultiplication and two-pass convolution resizing.
pub mod convolution;
pub mod image;
pub mod image_view;
pub mod mul_div;
pub mod pixels;
pub mod resizer;

pub use convolution::FilterType;
pub use image::Image;
pub use image_view::{
    buffer_fits, change_type_of_pixel_components, CropBox, ImageView, ImageViewMut, CENTERING_UNIT,
};
pub use mul_div::{AlphaMulDiv, MulDiv};
pub use resizer::{CpuExtensions, ResizeAlg, Resizer};
pub use pixels::{
    Count, GetCount, GetCountOfValues, IntoPixelComponent, Pixel, PixelComponent, PixelExt, Values,
    U16, U16x2, U16x3, U16x4, U8, U8x2, U8x3, U8x4,
};
