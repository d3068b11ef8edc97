//! The integer side of running the segmentation model: the thread count
//! of the session, the image handed to the model, and the check of the
//! shape of its output.

use crate::error::{AppError, AppResult};
use crate::imaging::{resize_exact_rgb_triangle, triangle_resized_exact};
use crate::text::{signed_decimal, signed_decimal_string};
use vstd::prelude::*;

verus! {

/// The model takes and returns images of this many pixels on each side.
pub const MODEL_INPUT_SIZE: u32 = 1024;

/// The number of intra-op threads of the session: the number of cores
/// (4 when it is unknown), kept between 2 and 8.
pub open spec fn thread_count(available: Option<usize>) -> usize {
    let cores: usize = match available {
        Some(c) => c,
        None => 4,
    };
    if cores < 2 {
        2
    } else if cores > 8 {
        8
    } else {
        cores
    }
}

/// The thread count is the number of cores when it lies between 2 and 8,
/// 2 below that, 8 above; an unknown number of cores counts as 4. It never
/// decreases when the number of cores grows.
pub proof fn lemma_thread_count_clamps(c: usize, d: usize)
    ensures
        2 <= c <= 8 ==> thread_count(Some(c)) == c,
        c < 2 ==> thread_count(Some(c)) == 2,
        c > 8 ==> thread_count(Some(c)) == 8,
        thread_count(None) == 4,
        c <= d ==> thread_count(Some(c)) <= thread_count(Some(d)),
{
}

/// Chooses the number of intra-op threads from the number of cores, when
/// it is known.
pub fn intra_thread_count(available: Option<usize>) -> (r: usize)
    ensures
        r == thread_count(available),
        2 <= r <= 8,
        available is None ==> r == 4,
        available matches Some(c) ==> (2 <= c <= 8 ==> r == c) && (c < 2 ==> r == 2) && (c > 8
            ==> r == 8),
{
    let cores = match available {
        Some(c) => c,
        None => 4,
    };
    if cores < 2 {
        2
    } else if cores > 8 {
        8
    } else {
        cores
    }
}

/// The RGB image handed to the model: the `w`×`h` input resampled with
/// the Triangle filter to `MODEL_INPUT_SIZE`×`MODEL_INPUT_SIZE`. The
/// resampling holds a float buffer of `w`×`MODEL_INPUT_SIZE` pixels, whose
/// length must fit in `usize`.
pub fn model_input_rgb(rgb: &Vec<u8>, w: u32, h: u32) -> (r: Vec<u8>)
    requires
        rgb@.len() == w * h * 3,
        w * MODEL_INPUT_SIZE * 4 <= usize::MAX,
    ensures
        r@ == triangle_resized_exact(rgb@, w, h, MODEL_INPUT_SIZE, MODEL_INPUT_SIZE),
        r@.len() == MODEL_INPUT_SIZE * MODEL_INPUT_SIZE * 3,
{
    resize_exact_rgb_triangle(rgb, w, h, MODEL_INPUT_SIZE, MODEL_INPUT_SIZE)
}

/// The entries of a list, written as `{:?}` writes them: separated by
/// `, `.
pub open spec fn list_entries(s: Seq<i64>) -> Seq<char>
    decreases s.len(),
{
    if s.len() == 0 {
        Seq::empty()
    } else if s.len() == 1 {
        signed_decimal(s[0] as int)
    } else {
        list_entries(s.drop_last()) + ", "@ + signed_decimal(s.last() as int)
    }
}

/// A list of integers, written as `{:?}` writes it.
pub open spec fn debug_list(s: Seq<i64>) -> Seq<char> {
    "["@ + list_entries(s) + "]"@
}

/// Writes a list of integers as `format!("{:?}", shape)` does.
pub fn debug_list_string(shape: &[i64]) -> (r: String)
    ensures
        r@ == debug_list(shape@),
{
    let mut body = String::new();
    let mut i: usize = 0;
    while i < shape.len()
        invariant
            i <= shape@.len(),
            body@ == list_entries(shape@.subrange(0, i as int)),
        decreases shape@.len() - i,
    {
        let ghost prev = shape@.subrange(0, i as int);
        let ghost next = shape@.subrange(0, i + 1);
        assert(next.drop_last() =~= prev);
        if i > 0 {
            body.append(", ");
        }
        let d = signed_decimal_string(shape[i]);
        body.append(d.as_str());
        proof {
            if i == 0 {
                assert(prev =~= Seq::<i64>::empty());
                assert(body@ =~= list_entries(next));
            } else {
                assert(body@ =~= list_entries(next));
            }
        }
        i = i + 1;
    }
    assert(shape@.subrange(0, shape@.len() as int) =~= shape@);
    let mut r = String::from_str("[");
    r.append(body.as_str());
    r.append("]");
    r
}

/// The model's output has the size of its input in its last two
/// dimensions.
pub open spec fn output_shape_ok(shape: Seq<i64>) -> bool {
    &&& shape[shape.len() - 2] == MODEL_INPUT_SIZE as i64
    &&& shape[shape.len() - 1] == MODEL_INPUT_SIZE as i64
}

/// An output shape is accepted exactly when its last two dimensions are
/// both 1024: a larger or smaller square, or a shape that differs in one
/// dimension, is refused; the leading dimensions do not matter.
pub proof fn lemma_output_shape_exact(shape: Seq<i64>, other: Seq<i64>)
    requires
        shape.len() >= 2,
        other.len() >= 2,
    ensures
        output_shape_ok(shape) <==> shape[shape.len() - 2] == 1024 && shape[shape.len() - 1] == 1024,
        shape[shape.len() - 2] == other[other.len() - 2] && shape[shape.len() - 1] == other[other.len()
            - 1] ==> output_shape_ok(shape) == output_shape_ok(other),
{
}

/// Checks the shape of the model's output: its last two dimensions must
/// be `MODEL_INPUT_SIZE`; otherwise the run fails and the error shows the
/// shape.
pub fn check_output_shape(shape: &[i64]) -> (r: AppResult<()>)
    requires
        shape@.len() >= 2,
    ensures
        r is Ok <==> output_shape_ok(shape@),
        r is Ok <==> shape@[shape@.len() - 2] == 1024 && shape@[shape@.len() - 1] == 1024,
        r matches Err(e) ==> (e matches AppError::InferenceFailure(s) && s@ == "unexpected output shape "@
            + debug_list(shape@)),
{
    let n = shape.len();
    let oh = shape[n - 2];
    let ow = shape[n - 1];
    if oh != 1024i64 || ow != 1024i64 {
        let mut msg = String::from_str("unexpected output shape ");
        let listed = debug_list_string(shape);
        msg.append(listed.as_str());
        return Err(AppError::InferenceFailure(msg));
    }
    Ok(())
}

} // verus!
