use fer::{
    CpuExtensions, FilterType, ImageView, ImageViewMut, MulDiv, ResizeAlg, Resizer, U16x2, U8, U8x2, U8x4, CropBox,
};

fn resize_u8(src: &[u8], sw: u32, sh: u32, dw: u32, dh: u32, alg: ResizeAlg) -> Vec<u8> {
    let view = ImageView::<U8>::new(sw, sh, src);
    let mut out = vec![0u8; (dw * dh) as usize];
    {
        let mut dst = ImageViewMut::<U8>::new(dw, dh, &mut out);
        Resizer::new(alg).resize(&view, &mut dst);
    }
    out
}

fn all_algorithms() -> Vec<ResizeAlg> {
    vec![
        ResizeAlg::Nearest,
        ResizeAlg::Convolution(FilterType::Box),
        ResizeAlg::Convolution(FilterType::Bilinear),
        ResizeAlg::Convolution(FilterType::CatmullRom),
        ResizeAlg::Convolution(FilterType::Mitchell),
    ]
}

#[test]
fn multiply_alpha_rgba8() {
    let src_buf: Vec<u8> = vec![255, 128, 0, 128, 10, 20, 30, 0, 200, 100, 50, 255];
    let src = ImageView::<U8x4>::new(3, 1, &src_buf);
    let mut out = vec![0u8; 12];
    {
        let mut dst = ImageViewMut::<U8x4>::new(3, 1, &mut out);
        MulDiv::default().multiply_alpha(&src, &mut dst);
    }
    assert_eq!(out, vec![128, 64, 0, 128, 0, 0, 0, 0, 200, 100, 50, 255]);
}

#[test]
fn divide_alpha_rgba8() {
    let src_buf: Vec<u8> = vec![128, 64, 0, 128, 10, 20, 30, 0, 200, 100, 50, 255, 100, 10, 0, 50];
    let src = ImageView::<U8x4>::new(4, 1, &src_buf);
    let mut out = vec![0u8; 16];
    {
        let mut dst = ImageViewMut::<U8x4>::new(4, 1, &mut out);
        MulDiv::default().divide_alpha(&src, &mut dst);
    }
    assert_eq!(out, vec![255, 128, 0, 128, 0, 0, 0, 0, 200, 100, 50, 255, 255, 51, 0, 50]);
}

#[test]
fn alpha_inplace_la8_and_la16() {
    let mut buf: Vec<u8> = vec![200, 51, 7, 0];
    {
        let mut img = ImageViewMut::<U8x2>::new(2, 1, &mut buf);
        MulDiv::default().multiply_alpha_inplace(&mut img);
    }
    assert_eq!(buf, vec![40, 51, 0, 0]);
    {
        let mut img = ImageViewMut::<U8x2>::new(2, 1, &mut buf);
        MulDiv::default().divide_alpha_inplace(&mut img);
    }
    assert_eq!(buf, vec![200, 51, 0, 0]);
    let mut wide: Vec<u16> = vec![65535, 32768, 1000, 65535];
    {
        let mut img = ImageViewMut::<U16x2>::new(2, 1, &mut wide);
        MulDiv::new(CpuExtensions::Avx2).multiply_alpha_inplace(&mut img);
    }
    assert_eq!(wide, vec![32768, 32768, 1000, 65535]);
}

#[test]
fn premultiply_round_trip_within_one_unit() {
    for alpha in 1..=255u8 {
        for c in 0..=255u8 {
            let mut buf = vec![c, alpha];
            {
                let mut img = ImageViewMut::<U8x2>::new(1, 1, &mut buf);
                let md = MulDiv::default();
                md.multiply_alpha_inplace(&mut img);
                md.divide_alpha_inplace(&mut img);
            }
            if 3 * alpha as u32 > 255 {
                assert!((buf[0] as i32 - c as i32).abs() <= 1, "c {} alpha {} -> {}", c, alpha, buf[0]);
            }
            assert_eq!(buf[1], alpha);
        }
    }
}

#[test]
fn divide_by_zero_alpha_gives_zero() {
    let mut buf: Vec<u8> = vec![10, 20, 30, 0];
    {
        let mut img = ImageViewMut::<U8x4>::new(1, 1, &mut buf);
        MulDiv::default().divide_alpha_inplace(&mut img);
    }
    assert_eq!(buf, vec![0, 0, 0, 0]);
}

#[test]
fn mul_div_cpu_extensions() {
    let mut md = MulDiv::default();
    assert_eq!(md.cpu_extensions(), CpuExtensions::Scalar);
    md.set_cpu_extensions(CpuExtensions::Sse4_1);
    assert_eq!(md.cpu_extensions(), CpuExtensions::Sse4_1);
}

#[test]
fn identity_resize_reproduces_source() {
    let src: Vec<u8> = (0..35).map(|v| (v * 7 % 256) as u8).collect();
    for alg in all_algorithms() {
        assert_eq!(resize_u8(&src, 7, 5, 7, 5, alg), src, "{:?}", alg);
    }
}

#[test]
fn identity_resize_rgba16() {
    let src: Vec<u16> = (0..48).map(|v| (v * 1371) as u16).collect();
    let view = ImageView::<fer::U16x4>::new(4, 3, &src);
    let mut out = vec![0u16; 48];
    {
        let mut dst = ImageViewMut::<fer::U16x4>::new(4, 3, &mut out);
        Resizer::new(ResizeAlg::Convolution(FilterType::CatmullRom)).resize(&view, &mut dst);
    }
    assert_eq!(out, src);
}

#[test]
fn equal_axis_is_not_blurred() {
    let src: Vec<u8> = vec![0, 255, 0, 255, 0, 255, 0, 255];
    for alg in all_algorithms() {
        assert_eq!(resize_u8(&src, 4, 2, 4, 1, alg), vec![0, 255, 0, 255], "{:?}", alg);
        assert_eq!(resize_u8(&src, 4, 2, 4, 5, alg), [0, 255, 0, 255].repeat(5), "{:?}", alg);
    }
    let mixed: Vec<u8> = vec![0, 255, 0, 255, 255, 0, 255, 0];
    let out = resize_u8(&mixed, 4, 2, 4, 1, ResizeAlg::Convolution(FilterType::Bilinear));
    assert_eq!(out, vec![128, 128, 128, 128]);
}

#[test]
fn bilinear_two_by_two_to_four_by_four() {
    let src: Vec<u8> = vec![0, 100, 100, 200];
    let out = resize_u8(&src, 2, 2, 4, 4, ResizeAlg::Convolution(FilterType::Bilinear));
    let expected: Vec<u8> = vec![0, 25, 75, 100, 25, 50, 100, 125, 75, 100, 150, 175, 100, 125, 175, 200];
    assert_eq!(out, expected);
    for v in out {
        assert!(v <= 200);
    }
}

#[test]
fn bilinear_upscale_has_no_overshoot() {
    let src: Vec<u8> = vec![10, 250, 240, 20];
    let out = resize_u8(&src, 2, 2, 9, 7, ResizeAlg::Convolution(FilterType::Bilinear));
    for v in out {
        assert!((10..=250).contains(&v));
    }
}

#[test]
fn bilinear_downscale_clamps_to_edge() {
    let src: Vec<u8> = vec![0, 40, 80, 120];
    let out = resize_u8(&src, 4, 1, 2, 1, ResizeAlg::Convolution(FilterType::Bilinear));
    assert_eq!(out, vec![25, 95]);
}

#[test]
fn nearest_downscale_and_upscale() {
    let src: Vec<u8> = vec![0, 40, 80, 120];
    assert_eq!(resize_u8(&src, 4, 1, 2, 1, ResizeAlg::Nearest), vec![40, 120]);
    assert_eq!(resize_u8(&src, 4, 1, 8, 1, ResizeAlg::Nearest), vec![0, 0, 40, 40, 80, 80, 120, 120]);
}

#[test]
fn constant_image_stays_constant() {
    let src = vec![77u8; 6 * 5];
    for alg in all_algorithms() {
        for (dw, dh) in [(3, 2), (11, 9), (1, 1), (6, 13)] {
            let out = resize_u8(&src, 6, 5, dw, dh, alg);
            assert!(out.iter().all(|&v| v == 77), "{:?} {}x{}", alg, dw, dh);
        }
    }
}

#[test]
fn resize_reads_crop_region() {
    let src: Vec<u8> = (0..16).collect();
    let mut view = ImageView::<U8>::new(4, 4, &src);
    view.set_crop_box(CropBox { left: 1, top: 2, width: 2, height: 2 });
    let mut out = vec![0u8; 4];
    {
        let mut dst = ImageViewMut::<U8>::new(2, 2, &mut out);
        Resizer::new(ResizeAlg::Convolution(FilterType::Mitchell)).resize(&view, &mut dst);
    }
    assert_eq!(out, vec![9, 10, 13, 14]);
}

#[test]
fn every_cpu_extension_gives_the_same_result() {
    let src: Vec<u8> = (0..64).map(|v| (v * 37 % 256) as u8).collect();
    let view = ImageView::<U8x4>::new(4, 4, &src);
    let mut base = vec![0u8; 7 * 3 * 4];
    {
        let mut dst = ImageViewMut::<U8x4>::new(7, 3, &mut base);
        Resizer::new(ResizeAlg::Convolution(FilterType::CatmullRom)).resize(&view, &mut dst);
    }
    for ext in [CpuExtensions::Sse4_1, CpuExtensions::Avx2, CpuExtensions::Neon, CpuExtensions::Simd128] {
        let mut resizer = Resizer::new(ResizeAlg::Convolution(FilterType::CatmullRom));
        resizer.set_cpu_extensions(ext);
        assert_eq!(resizer.cpu_extensions(), ext);
        let mut out = vec![0u8; 7 * 3 * 4];
        {
            let mut dst = ImageViewMut::<U8x4>::new(7, 3, &mut out);
            resizer.resize(&view, &mut dst);
        }
        assert_eq!(out, base);
    }
}

#[test]
fn resize_into_cropped_destination_leaves_rest() {
    let src: Vec<u8> = vec![50; 4];
    let view = ImageView::<U8>::new(2, 2, &src);
    let mut out = vec![1u8; 16];
    {
        let dst = ImageViewMut::<U8>::new(4, 4, &mut out);
        let mut inner = dst.crop(CropBox { left: 1, top: 1, width: 2, height: 2 });
        Resizer::new(ResizeAlg::Convolution(FilterType::Box)).resize(&view, &mut inner);
    }
    let expected = vec![1, 1, 1, 1, 1, 50, 50, 1, 1, 50, 50, 1, 1, 1, 1, 1];
    assert_eq!(out, expected);
}
