//! The decisions of the background-removal pipeline: the size limits on
//! decoded images, the image handed to the model, the final composition,
//! the loading of the model, and the name of the preview file.

use crate::error::{AppError, AppResult};
use crate::imaging::{drop_alpha, lanczos3_resized, resize_rgba_lanczos3, rgba_to_rgb};
use crate::text::{decimal, decimal_string, hex_lower, hex_string};
use vstd::prelude::*;

verus! {

/// Images larger than this on their long edge are scaled down before
/// inference; the mask is brought back to the full size afterwards.
pub const MAX_INFERENCE_LONG_EDGE: u32 = 2048;

/// The largest number of pixels a decoded image may have.
pub const MAX_DECODE_PIXELS: u64 = 60_000_000;

/// What `remove_background` hands back to the frontend.
pub struct RemovalResult {
    /// Path to a temporary PNG holding the RGBA result at full size.
    pub preview_path: String,
    pub width: u32,
    pub height: u32,
}

/// A `w`×`h` image has more pixels than the pipeline accepts.
pub open spec fn too_many_pixels(w: u32, h: u32) -> bool {
    (w as int) * (h as int) > MAX_DECODE_PIXELS as int
}

/// The detail of the error for an image that is too large.
pub open spec fn too_large_detail(w: u32, h: u32) -> Seq<char> {
    decimal(w as nat) + "x"@ + decimal(h as nat) + " exceeds the supported size"@
}

/// Refuses images with more than `MAX_DECODE_PIXELS` pixels.
pub fn check_decode_size(w: u32, h: u32) -> (r: AppResult<()>)
    ensures
        r is Ok <==> !too_many_pixels(w, h),
        r is Ok <==> (w as int) * (h as int) <= 60_000_000,
        r matches Err(e) ==> e matches AppError::ImageTooLarge(s) && s@ == too_large_detail(w, h),
{
    proof {
        assert((w as u64) * (h as u64) <= 0xffff_ffffu64 * 0xffff_ffffu64) by (nonlinear_arith)
            requires
                w <= 0xffff_ffffu32,
                h <= 0xffff_ffffu32,
        ;
    }
    if (w as u64) * (h as u64) > MAX_DECODE_PIXELS {
        let mut detail = decimal_string(w as u64);
        detail.append("x");
        let hs = decimal_string(h as u64);
        detail.append(hs.as_str());
        detail.append(" exceeds the supported size");
        Err(AppError::ImageTooLarge(detail))
    } else {
        Ok(())
    }
}

/// The longer side of a `w`×`h` image.
pub open spec fn long_edge(w: u32, h: u32) -> u32 {
    if w >= h {
        w
    } else {
        h
    }
}

/// A `w`×`h` image is scaled down before inference.
pub open spec fn needs_downscale(w: u32, h: u32) -> bool {
    long_edge(w, h) > MAX_INFERENCE_LONG_EDGE
}

/// An image is scaled down for inference exactly when one of its sides
/// exceeds 2048 pixels: the decision does not depend on the orientation of
/// the image, and a larger image than one that is scaled down is scaled
/// down too.
pub proof fn lemma_downscale_when_a_side_exceeds_limit(w: u32, h: u32, w2: u32, h2: u32)
    ensures
        needs_downscale(w, h) <==> (w > 2048 || h > 2048),
        needs_downscale(w, h) == needs_downscale(h, w),
        needs_downscale(w, h) && w <= w2 && h <= h2 ==> needs_downscale(w2, h2),
        !needs_downscale(w, h) ==> w <= 2048 && h <= 2048,
{
}

/// An image is refused exactly when it has more than 60,000,000 pixels:
/// the decision does not depend on the orientation of the image, and a
/// larger image than a refused one is refused too.
pub proof fn lemma_decode_limit(w: u32, h: u32, w2: u32, h2: u32)
    ensures
        too_many_pixels(w, h) <==> (w as int) * (h as int) > 60_000_000,
        too_many_pixels(w, h) == too_many_pixels(h, w),
        too_many_pixels(w, h) && w <= w2 && h <= h2 ==> too_many_pixels(w2, h2),
{
    assert((w as int) * (h as int) == (h as int) * (w as int)) by (nonlinear_arith);
    if w <= w2 && h <= h2 {
        assert((w as int) * (h as int) <= (w2 as int) * (h2 as int)) by (nonlinear_arith)
            requires
                0 <= w <= w2,
                0 <= h <= h2,
        ;
    }
}

/// The RGBA image on which the model runs, before dropping alpha: the
/// image itself, or its Lanczos3 resampling to `sw`×`sh` when it is too
/// large.
pub open spec fn inference_rgba(rgba: Seq<u8>, w: u32, h: u32, sw: u32, sh: u32) -> Seq<u8> {
    if needs_downscale(w, h) {
        lanczos3_resized(rgba, w, h, sw, sh)
    } else {
        rgba
    }
}

/// Whether a `w`×`h` image is scaled down before inference: its long edge
/// exceeds `MAX_INFERENCE_LONG_EDGE`.
pub fn exceeds_inference_edge(w: u32, h: u32) -> (r: bool)
    ensures
        r == needs_downscale(w, h),
        r == (w > 2048 || h > 2048),
{
    let long = if w >= h {
        w
    } else {
        h
    };
    long > MAX_INFERENCE_LONG_EDGE
}

/// The RGB image on which the model runs, with its width and height.
///
/// A `w`×`h` RGBA image whose long edge exceeds `MAX_INFERENCE_LONG_EDGE`
/// is resampled with Lanczos3 to `scaled_w`×`scaled_h` (the size the
/// caller computed from the scale factor); a smaller one is used as it is.
/// Either way the alpha channel is dropped.
pub fn inference_rgb(rgba: &Vec<u8>, w: u32, h: u32, scaled_w: u32, scaled_h: u32) -> (r: (
    Vec<u8>,
    u32,
    u32,
))
    requires
        rgba@.len() == w * h * 4,
        needs_downscale(w, h) ==> {
            &&& scaled_w >= 1
            &&& scaled_h >= 1
            &&& w * scaled_h * 4 <= usize::MAX
            &&& scaled_w * scaled_h * 4 <= usize::MAX
        },
    ensures
        r.0@ == drop_alpha(inference_rgba(rgba@, w, h, scaled_w, scaled_h)),
        r.0@ == drop_alpha(
            if w > 2048 || h > 2048 {
                lanczos3_resized(rgba@, w, h, scaled_w, scaled_h)
            } else {
                rgba@
            },
        ),
        (r.1, r.2) == (if w > 2048 || h > 2048 {
            (scaled_w, scaled_h)
        } else {
            (w, h)
        }),
        r.1 == (if needs_downscale(w, h) {
            scaled_w
        } else {
            w
        }),
        r.2 == (if needs_downscale(w, h) {
            scaled_h
        } else {
            h
        }),
        r.0@.len() == r.1 * r.2 * 3,
{
    if exceeds_inference_edge(w, h) {
        let resized = resize_rgba_lanczos3(rgba, w, h, scaled_w, scaled_h);
        let rgb = rgba_to_rgb(&resized, scaled_w, scaled_h);
        proof {
            assert((scaled_w * scaled_h * 4) / 4 * 3 == scaled_w * scaled_h * 3);
        }
        (rgb, scaled_w, scaled_h)
    } else {
        let rgb = rgba_to_rgb(rgba, w, h);
        proof {
            assert((w * h * 4) / 4 * 3 == w * h * 3);
        }
        (rgb, w, h)
    }
}

/// The RGBA buffer of `n` pixels that keeps the colour of `original` and
/// takes its alpha from `alpha`.
pub open spec fn composited(original: Seq<u8>, alpha: Seq<u8>, n: nat) -> Seq<u8> {
    Seq::new(n * 4, |i: int| if i % 4 == 3 { alpha[i / 4] } else { original[i] })
}

/// Builds the cut-out: every pixel of the `w`×`h` RGBA image `original`
/// keeps its red, green and blue values and takes its alpha from the
/// matching entry of `alpha` (one byte per pixel, row-major).
pub fn composite_rgba(original: &Vec<u8>, alpha: &Vec<u8>, w: u32, h: u32) -> (out: Vec<u8>)
    requires
        original@.len() == w * h * 4,
        alpha@.len() >= w * h,
        w * h <= u32::MAX,
    ensures
        out@ == composited(original@, alpha@, (w * h) as nat),
{
    let n = (w as usize) * (h as usize);
    let total = original.len();
    let mut out: Vec<u8> = Vec::new();
    let mut i: usize = 0;
    while i < n
        invariant
            n == w * h,
            total == n * 4,
            original@.len() == n * 4,
            alpha@.len() >= n,
            i <= n,
            out@ =~= composited(original@, alpha@, i as nat),
        decreases n - i,
    {
        let base = 4 * i;
        out.push(original[base]);
        out.push(original[base + 1]);
        out.push(original[base + 2]);
        out.push(alpha[i]);
        proof {
            let c = composited(original@, alpha@, (i + 1) as nat);
            assert forall|k: int| 0 <= k < (i + 1) * 4 implies out@[k] == c[k] by {
                if k < i * 4 {
                    assert(out@[k] == composited(original@, alpha@, i as nat)[k]);
                } else {
                    assert(k / 4 == i);
                }
            }
        }
        i = i + 1;
    }
    out
}

/// The cut-out keeps the size of the image, the colour of each pixel, and
/// takes the alpha of each pixel from the mask.
pub proof fn lemma_composite_keeps_pixels(original: Seq<u8>, alpha: Seq<u8>, n: nat, p: int, c: int)
    requires
        0 <= p < n,
        0 <= c < 3,
    ensures
        composited(original, alpha, n).len() == n * 4,
        composited(original, alpha, n)[4 * p + c] == original[4 * p + c],
        composited(original, alpha, n)[4 * p + 3] == alpha[p],
{
    assert((4 * p + c) % 4 == c);
    assert((4 * p + 3) % 4 == 3);
    assert((4 * p + 3) / 4 == p);
}

/// What to do before running the model.
pub enum EngineStep {
    /// The model is loaded; use it.
    Ready,
    /// Load the model from its path, then use it.
    Load,
}

/// Decides how to get a loaded model: a loaded one is reused, otherwise it
/// is loaded from its path; without a path the model is unavailable.
pub fn engine_load_step(engine_loaded: bool, model_path_known: bool) -> (r: AppResult<EngineStep>)
    ensures
        engine_loaded ==> r matches Ok(EngineStep::Ready),
        !engine_loaded && model_path_known ==> r matches Ok(EngineStep::Load),
        !engine_loaded && !model_path_known ==> (r matches Err(AppError::ModelUnavailable(s))
            && s@ == "model path not resolved"@),
{
    if engine_loaded {
        Ok(EngineStep::Ready)
    } else if model_path_known {
        Ok(EngineStep::Load)
    } else {
        Err(AppError::ModelUnavailable(String::from_str("model path not resolved")))
    }
}

/// The file name of the preview written for one run.
pub open spec fn preview_name(suffix: Seq<char>) -> Seq<char> {
    "bgremover_preview_"@ + suffix + ".png"@
}

/// Names the preview file after `suffix`.
pub fn preview_file_name(suffix: &str) -> (r: String)
    ensures
        r@ == preview_name(suffix@),
{
    let mut r = String::from_str("bgremover_preview_");
    r.append(suffix);
    r.append(".png");
    r
}

/// Calls `std::time::SystemTime::now`, `duration_since(UNIX_EPOCH)` and
/// `Duration::as_nanos`: nanoseconds since the Unix epoch, or `None` when
/// the system clock is set before it. Trusted, and nothing is claimed of
/// the reading: it depends on the clock.
#[verifier::external_body]
fn nanos_since_epoch() -> Option<u128> {
    match std::time::SystemTime::now().duration_since(std::time::UNIX_EPOCH) {
        Ok(d) => Some(d.as_nanos()),
        Err(_) => None,
    }
}

/// The suffix for a clock reading: its nanoseconds in lowercase
/// hexadecimal, `0` when there is no reading.
pub fn suffix_from_nanos(nanos: Option<u128>) -> (r: String)
    ensures
        r@ == hex_lower(
            match nanos {
                Some(t) => t as nat,
                None => 0,
            },
        ),
{
    let t = match nanos {
        Some(t) => t,
        None => 0,
    };
    hex_string(t)
}

/// A suffix that differs from run to run: the current time in nanoseconds
/// since the Unix epoch, in lowercase hexadecimal.
pub fn uuid_like_suffix() -> (r: String)
    ensures
        exists|t: u128| r@ == hex_lower(t as nat),
{
    let nanos = nanos_since_epoch();
    let r = suffix_from_nanos(nanos);
    proof {
        let t: u128 = match nanos {
            Some(t) => t,
            None => 0,
        };
        assert(r@ == hex_lower(t as nat));
    }
    r
}

} // verus!
