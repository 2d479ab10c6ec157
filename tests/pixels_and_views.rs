use fer::{
    buffer_fits, change_type_of_pixel_components, CropBox, GetCount, Count, GetCountOfValues, Values, Image, ImageView, ImageViewMut, IntoPixelComponent, Pixel, PixelComponent, PixelExt, U16, U16x4, U8,
    U8x3, U8x4, CENTERING_UNIT,
};

#[test]
fn component_counts_and_sizes() {
    assert_eq!(U8x3::size(), 3);
    assert_eq!(U8x4::size(), 4);
    assert_eq!(U8::size(), 1);
    assert_eq!(U16x4::size(), 8);
    assert_eq!(U16x4::count_of_components(), 4);
    assert_eq!(U8::count_of_component_values(), 256);
    assert_eq!(U16::count_of_component_values(), 65536);
    assert_eq!(<u8 as PixelComponent>::count_of_values(), 256);
    assert_eq!(Count::<3>::count(), 3);
    assert_eq!(Values::<256>::count_of_values(), 256);
    let p = Pixel::<u8, 3>::new([1, 2, 3]);
    assert_eq!(p.0, [1, 2, 3]);
}

#[test]
fn component_conversions() {
    let wide: u16 = 255u8.into_component();
    assert_eq!(wide, 65535);
    let wide: u16 = 0x12u8.into_component();
    assert_eq!(wide, 0x1212);
    let narrow: u8 = 0x1234u16.into_component();
    assert_eq!(narrow, 0x12);
    let narrow: u8 = 0x12ffu16.into_component();
    assert_eq!(narrow, 0x12);
    let same: u8 = 77u8.into_component();
    assert_eq!(same, 77);
}

#[test]
fn widen_then_narrow_is_identity_for_all_bytes() {
    for v in 0..=255u8 {
        let wide: u16 = v.into_component();
        let back: u8 = wide.into_component();
        assert_eq!(back, v);
    }
}

#[test]
fn buffer_fits_checks_view_preconditions() {
    assert!(!buffer_fits::<U8x4>(0, 3, 11));
    assert!(!buffer_fits::<U8x4>(3, 0, 11));
    assert!(!buffer_fits::<U8x4>(3, 1, 11));
    assert!(buffer_fits::<U8x4>(2, 1, 11));
    assert!(buffer_fits::<U8>(11, 1, 11));
    assert!(!buffer_fits::<U8>(2, 3, 5));
    assert!(buffer_fits::<U16x4>(u32::MAX, 1, usize::MAX));
}

#[test]
fn view_reads_components_row_major() {
    let buf: Vec<u8> = (0..24).collect();
    let view = ImageView::<U8x3>::new(4, 2, &buf);
    assert_eq!(view.width(), 4);
    assert_eq!(view.height(), 2);
    assert_eq!(view.get_component(1, 1, 2), 17);
    assert_eq!(view.crop_box(), CropBox { left: 0, top: 0, width: 4, height: 2 });
}

#[test]
fn set_crop_box_accepts_and_rejects() {
    let buf = vec![0u8; 100 * 50];
    let mut view = ImageView::<U8>::new(100, 50, &buf);
    let ok = CropBox { left: 10, top: 5, width: 90, height: 45 };
    assert!(ok.fits_in(100, 50));
    view.set_crop_box(ok);
    assert_eq!(view.crop_box(), ok);
    assert!(!CropBox { left: 11, top: 5, width: 90, height: 45 }.fits_in(100, 50));
    assert!(!CropBox { left: 0, top: 6, width: 10, height: 45 }.fits_in(100, 50));
    assert!(!CropBox { left: 100, top: 0, width: 1, height: 1 }.fits_in(100, 50));
    assert!(CropBox { left: 99, top: 0, width: 1, height: 1 }.fits_in(100, 50));
    assert!(!CropBox { left: 0, top: 0, width: 0, height: 1 }.fits_in(100, 50));
    assert!(!CropBox { left: u32::MAX, top: 0, width: 2, height: 1 }.fits_in(100, 50));
    let last = CropBox { left: 99, top: 49, width: 1, height: 1 };
    view.set_crop_box(last);
    assert_eq!(view.crop_box(), last);
}

#[test]
fn fit_crop_box_centered() {
    let buf = vec![0u8; 100 * 50];
    let mut view = ImageView::<U8>::new(100, 50, &buf);
    view.set_crop_box_to_fit_dst_size(40, 40, None);
    assert_eq!(view.crop_box(), CropBox { left: 25, top: 0, width: 50, height: 50 });
    view.set_crop_box_to_fit_dst_size(40, 40, Some((CENTERING_UNIT / 2, CENTERING_UNIT / 2)));
    assert_eq!(view.crop_box(), CropBox { left: 25, top: 0, width: 50, height: 50 });
}

#[test]
fn fit_crop_box_anchors_and_keeps_ratio() {
    let buf = vec![0u8; 100 * 50];
    let mut view = ImageView::<U8>::new(100, 50, &buf);
    view.set_crop_box_to_fit_dst_size(1, 1, Some((0, 0)));
    assert_eq!(view.crop_box(), CropBox { left: 0, top: 0, width: 50, height: 50 });
    view.set_crop_box_to_fit_dst_size(1, 1, Some((CENTERING_UNIT * 2, CENTERING_UNIT)));
    assert_eq!(view.crop_box(), CropBox { left: 50, top: 0, width: 50, height: 50 });
    view.set_crop_box_to_fit_dst_size(200, 100, None);
    assert_eq!(view.crop_box(), CropBox { left: 0, top: 0, width: 100, height: 50 });
    view.set_crop_box_to_fit_dst_size(4, 1, None);
    assert_eq!(view.crop_box(), CropBox { left: 0, top: 13, width: 100, height: 25 });
}

#[test]
fn fit_crop_box_offset_uses_exact_leftover() {
    let buf = vec![0u8; 100 * 50];
    let mut view = ImageView::<U8>::new(100, 50, &buf);
    view.set_crop_box_to_fit_dst_size(128, 125, None);
    assert_eq!(view.crop_box(), CropBox { left: 24, top: 0, width: 51, height: 50 });
    view.set_crop_box_to_fit_dst_size(125, 128, None);
    assert_eq!(view.crop_box(), CropBox { left: 26, top: 0, width: 49, height: 50 });
    let tall = vec![0u8; 50 * 100];
    let mut view = ImageView::<U8>::new(50, 100, &tall);
    view.set_crop_box_to_fit_dst_size(125, 128, None);
    assert_eq!(view.crop_box(), CropBox { left: 0, top: 24, width: 50, height: 51 });
}

#[test]
fn fit_crop_box_keeps_far_anchor_inside() {
    let buf = vec![0u8; 5];
    let mut view = ImageView::<U8>::new(5, 1, &buf);
    view.set_crop_box_to_fit_dst_size(5, 2, Some((CENTERING_UNIT, CENTERING_UNIT)));
    assert_eq!(view.crop_box(), CropBox { left: 2, top: 0, width: 3, height: 1 });
    view.set_crop_box_to_fit_dst_size(5, 2, Some((0, 0)));
    assert_eq!(view.crop_box(), CropBox { left: 0, top: 0, width: 3, height: 1 });
    let big = vec![0u8; 100 * 99];
    let mut view = ImageView::<U8>::new(100, 99, &big);
    view.set_crop_box_to_fit_dst_size(1, 2, Some((CENTERING_UNIT, CENTERING_UNIT)));
    assert_eq!(view.crop_box(), CropBox { left: 50, top: 0, width: 50, height: 99 });
}

#[test]
fn mutable_crop_narrows_writes() {
    let mut buf = vec![0u8; 16];
    assert!(!CropBox { left: 4, top: 0, width: 1, height: 1 }.fits_in(4, 4));
    assert!(!CropBox { left: 0, top: 1, width: 4, height: 4 }.fits_in(4, 4));
    let view = ImageViewMut::<U8>::new(4, 4, &mut buf);
    let mut cropped = view.crop(CropBox { left: 1, top: 2, width: 2, height: 2 });
    assert_eq!(cropped.width(), 2);
    assert_eq!(cropped.height(), 2);
    cropped.set_component(0, 0, 0, 7);
    cropped.set_component(1, 1, 0, 9);
    assert_eq!(cropped.get_component(1, 1, 0), 9);
    let expected = vec![0, 0, 0, 0, 0, 0, 0, 0, 0, 7, 0, 0, 0, 0, 9, 0];
    assert_eq!(buf, expected);
}

#[test]
fn mutable_view_into_view() {
    let mut buf: Vec<u8> = (0..16).collect();
    let view = ImageViewMut::<U8>::new(4, 4, &mut buf);
    let cropped = view.crop(CropBox { left: 1, top: 1, width: 3, height: 2 });
    let read = cropped.into_view();
    assert_eq!(read.width(), 3);
    assert_eq!(read.height(), 2);
    assert_eq!(read.crop_box(), CropBox { left: 0, top: 0, width: 3, height: 2 });
    assert_eq!(read.get_component(0, 0, 0), 5);
    assert_eq!(read.get_component(2, 1, 0), 11);
}

#[test]
fn change_component_type_widens_and_narrows() {
    let src_buf: Vec<u8> = vec![0, 1, 128, 255];
    let src = ImageView::<U8>::new(2, 2, &src_buf);
    let mut wide_buf = vec![0u16; 4];
    let mut dst = ImageViewMut::<U16>::new(2, 2, &mut wide_buf);
    change_type_of_pixel_components(&src, &mut dst);
    assert_eq!(wide_buf, vec![0, 257, 32896, 65535]);
    let wide_src = ImageView::<U16>::new(2, 2, &wide_buf);
    let mut back = vec![0u8; 4];
    let mut dst = ImageViewMut::<U8>::new(2, 2, &mut back);
    change_type_of_pixel_components(&wide_src, &mut dst);
    assert_eq!(back, src_buf);
}

#[test]
fn image_container() {
    let img = Image::<U8x3>::new(3, 2);
    assert_eq!(img.width(), 3);
    assert_eq!(img.height(), 2);
    assert_eq!(img.buffer(), &[0u8; 18][..]);
    let mut img = Image::<U8>::from_vec(2, 2, vec![1, 2, 3, 4]);
    img.buffer_mut()[0] = 9;
    let copy = img.copy();
    assert_eq!(copy.buffer(), &[9u8, 2, 3, 4][..]);
    assert_eq!(img.view().get_component(1, 1, 0), 4);
    {
        let mut v = img.view_mut();
        v.set_component(0, 1, 0, 5);
    }
    assert_eq!(img.into_vec(), vec![9, 2, 5, 4]);
}

#[test]
fn rows_of_a_view() {
    let buf: Vec<u8> = (0..12).collect();
    let view = ImageView::<fer::U8x2>::new(3, 2, &buf);
    assert_eq!(view.get_row(1), Some(&buf[6..12]));
    assert_eq!(view.get_row(2), None);
}

#[test]
fn row_groups_keep_whole_groups_only() {
    let buf = vec![0u8; 11];
    let view = ImageView::<U8>::new(1, 11, &buf);
    assert_eq!(view.row_groups(1, 100, 4), vec![1, 5]);
    assert_eq!(view.row_groups(0, 5, 2), vec![0, 2]);
    assert_eq!(view.row_groups(9, 100, 4), Vec::<u32>::new());
    assert_eq!(view.row_groups(12, 100, 1), Vec::<u32>::new());
}

#[test]
fn rows_with_fractional_step_truncate() {
    let buf = vec![0u8; 5];
    let view = ImageView::<U8>::new(1, 5, &buf);
    assert_eq!(view.rows_with_step(0, 3, 2, 10), vec![0, 1, 3, 4]);
    assert_eq!(view.rows_with_step(0, 3, 2, 2), vec![0, 1]);
    assert_eq!(view.rows_with_step(1, 4, 4, 10), vec![0, 1, 2, 3, 4]);
    assert_eq!(view.rows_with_step(20, 1, 1, 10), Vec::<u32>::new());
}

#[test]
fn view_from_mutable_view() {
    let mut buf: Vec<u8> = (0..16).collect();
    let view = ImageViewMut::<U8>::new(4, 4, &mut buf);
    let cropped = view.crop(CropBox { left: 2, top: 1, width: 2, height: 3 });
    let read = ImageView::from(cropped);
    assert_eq!(read.width(), 2);
    assert_eq!(read.height(), 3);
    assert_eq!(read.crop_box(), CropBox { left: 0, top: 0, width: 2, height: 3 });
    assert_eq!(read.get_component(1, 2, 0), 15);
}
