//! The calls into the `image` crate, on raw pixel buffers.
//!
//! Buffers are row-major, 8 bits per channel, 4 channels (RGBA) or 3
//! channels (RGB) per pixel, with no padding.

use image::imageops::FilterType;
use image::{DynamicImage, RgbImage, RgbaImage};
use vstd::prelude::*;

verus! {

/// The RGB buffer that keeps the colour channels of an RGBA buffer and
/// drops its alpha channel.
pub open spec fn drop_alpha(rgba: Seq<u8>) -> Seq<u8> {
    Seq::new((rgba.len() / 4) * 3, |i: int| rgba[(i / 3) * 4 + i % 3])
}

/// What `image::imageops::resize` with `FilterType::Lanczos3` makes of a
/// `w`×`h` RGBA buffer when asked for `nw`×`nh` pixels.
pub uninterp spec fn lanczos3_resized(src: Seq<u8>, w: u32, h: u32, nw: u32, nh: u32) -> Seq<u8>;

/// What `image::DynamicImage::resize_exact` with `FilterType::Triangle`
/// makes of a `w`×`h` RGB image when asked for `nw`×`nh` pixels.
pub uninterp spec fn triangle_resized_exact(
    src: Seq<u8>,
    w: u32,
    h: u32,
    nw: u32,
    nh: u32,
) -> Seq<u8>;

/// Calls `image::imageops::resize` with the Lanczos3 filter on a `w`×`h`
/// RGBA buffer. Trusted: the result is the named resampling of the buffer;
/// it has `nw`×`nh` pixels; asked for the image's own size it is a copy
/// of it (the function copies instead of resampling then). The
/// requirements leave out the sizes on which the function panics (an
/// intermediate or final buffer whose length overflows `usize`).
#[verifier::external_body]
pub(crate) fn resize_rgba_lanczos3(src: &Vec<u8>, w: u32, h: u32, nw: u32, nh: u32) -> (r: Vec<u8>)
    requires
        src@.len() == w * h * 4,
        nw >= 1,
        nh >= 1,
        w * nh * 4 <= usize::MAX,
        nw * nh * 4 <= usize::MAX,
    ensures
        r@ == lanczos3_resized(src@, w, h, nw, nh),
        r@.len() == nw * nh * 4,
        nw == w && nh == h ==> r@ == src@,
{
    let img = RgbaImage::from_raw(w, h, src.clone()).unwrap();
    image::imageops::resize(&img, nw, nh, FilterType::Lanczos3).into_raw()
}

/// Calls `image::DynamicImage::resize_exact` with the Triangle filter on
/// a `w`×`h` RGB buffer, and `to_rgb8` on its result. Trusted: the result
/// is the named resampling of the buffer; it has `nw`×`nh` pixels; asked
/// for the image's own size it is a copy of it. The requirements leave
/// out the sizes on which the function panics.
#[verifier::external_body]
pub(crate) fn resize_exact_rgb_triangle(
    src: &Vec<u8>,
    w: u32,
    h: u32,
    nw: u32,
    nh: u32,
) -> (r: Vec<u8>)
    requires
        src@.len() == w * h * 3,
        nw >= 1,
        nh >= 1,
        w * nh * 4 <= usize::MAX,
        nw * nh * 4 <= usize::MAX,
    ensures
        r@ == triangle_resized_exact(src@, w, h, nw, nh),
        r@.len() == nw * nh * 3,
        nw == w && nh == h ==> r@ == src@,
{
    let img = RgbImage::from_raw(w, h, src.clone()).unwrap();
    DynamicImage::ImageRgb8(img).resize_exact(nw, nh, FilterType::Triangle).to_rgb8().into_raw()
}

/// Calls `image::DynamicImage::to_rgb8` on a `w`×`h` RGBA image. Trusted:
/// each pixel keeps its red, green and blue values and loses its alpha
/// (the crate casts RGBA to RGB channel by channel).
#[verifier::external_body]
pub(crate) fn rgba_to_rgb(src: &Vec<u8>, w: u32, h: u32) -> (r: Vec<u8>)
    requires
        src@.len() == w * h * 4,
    ensures
        r@ == drop_alpha(src@),
{
    let img = RgbaImage::from_raw(w, h, src.clone()).unwrap();
    DynamicImage::ImageRgba8(img).to_rgb8().into_raw()
}

} // verus!
