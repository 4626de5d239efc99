//! The two pixel-based registration strategies: the bounding box of the
//! bright region and the brightness-weighted centroid.

use crate::fixed::{lemma_quotient_bound, nearest_quotient};
use crate::fraction::Fraction;
use crate::frame::{lemma_pixel_index, pixel_count, pixel_index, Frame, FULL_SCALE};
use crate::register::{
    AbaRegistration, AkazeRegistration, ImageRegistration, Registration, SodRegistration,
};
use vstd::arithmetic::mul::lemma_mul_upper_bound;
use vstd::prelude::*;

verus! {

/// Whether the `k`-th pixel of `frame` is lit at `threshold`: the average of
/// its three samples is at least the fraction `threshold` of the full scale.
/// A threshold below zero is reached by every pixel.
pub open spec fn lit(frame: &Frame, k: int, threshold: Fraction) -> bool {
    threshold.negative || frame.brightness(k) * threshold.denominator >= (3 * FULL_SCALE)
        * threshold.numerator
}

/// Whether a pixel of the given brightness is lit.
fn reaches(value: u32, threshold: Fraction) -> (lit: bool)
    requires
        value <= 3 * FULL_SCALE,
    ensures
        lit == (threshold.negative || value * threshold.denominator >= (3 * FULL_SCALE)
            * threshold.numerator),
{
    proof {
        lemma_mul_upper_bound(value as int, 0x2_fffd, threshold.denominator as int, 0xffff_ffff);
        lemma_mul_upper_bound(0x2_fffd, 0x2_fffd, threshold.numerator as int, 0xffff_ffff);
    }
    threshold.negative || (value as u64) * (threshold.denominator as u64) >= 0x2_fffd * (
    threshold.numerator as u64)
}

/// The box that stands for "no pixel is lit".
pub open spec fn no_box() -> SodRegistration {
    SodRegistration { left: u32::MAX, right: 0, top: u32::MAX, bottom: 0 }
}

/// Whether `sod` is the bounding box of the lit pixels among the first `n`
/// pixels of `frame`: every lit pixel lies inside and each edge passes
/// through one, or no pixel is lit and `sod` is [`no_box`].
pub open spec fn bounds_upto(
    frame: &Frame,
    threshold: Fraction,
    n: int,
    sod: SodRegistration,
) -> bool {
    let width = frame.width as int;
    if forall|k: int| 0 <= k < n ==> !lit(frame, k, threshold) {
        sod == no_box()
    } else {
        &&& forall|k: int|
            0 <= k < n && #[trigger] lit(frame, k, threshold) ==> sod.left <= k % width
                <= sod.right && sod.top <= k / width <= sod.bottom
        &&& exists|k: int|
            0 <= k < n && #[trigger] lit(frame, k, threshold) && k % width == sod.left
        &&& exists|k: int|
            0 <= k < n && #[trigger] lit(frame, k, threshold) && k % width == sod.right
        &&& exists|k: int| 0 <= k < n && #[trigger] lit(frame, k, threshold) && k / width == sod.top
        &&& exists|k: int|
            0 <= k < n && #[trigger] lit(frame, k, threshold) && k / width == sod.bottom
    }
}

/// Whether `sod` is the bounding box of the lit pixels of `frame`.
pub open spec fn is_bounding_box(frame: &Frame, threshold: Fraction, sod: SodRegistration) -> bool {
    bounds_upto(frame, threshold, pixel_count(frame.width as int, frame.height as int), sod)
}

/// Total brightness of the lit pixels among the first `n`.
pub open spec fn weight_upto(frame: &Frame, threshold: Fraction, n: int) -> int
    decreases n,
{
    if n <= 0 {
        0
    } else if lit(frame, n - 1, threshold) {
        weight_upto(frame, threshold, n - 1) + frame.brightness(n - 1)
    } else {
        weight_upto(frame, threshold, n - 1)
    }
}

/// Sum of column times brightness over the lit pixels among the first `n`.
pub open spec fn moment_x_upto(frame: &Frame, threshold: Fraction, n: int) -> int
    decreases n,
{
    if n <= 0 {
        0
    } else if lit(frame, n - 1, threshold) {
        moment_x_upto(frame, threshold, n - 1) + ((n - 1) % (frame.width as int))
            * frame.brightness(n - 1)
    } else {
        moment_x_upto(frame, threshold, n - 1)
    }
}

/// Sum of row times brightness over the lit pixels among the first `n`.
pub open spec fn moment_y_upto(frame: &Frame, threshold: Fraction, n: int) -> int
    decreases n,
{
    if n <= 0 {
        0
    } else if lit(frame, n - 1, threshold) {
        moment_y_upto(frame, threshold, n - 1) + ((n - 1) / (frame.width as int))
            * frame.brightness(n - 1)
    } else {
        moment_y_upto(frame, threshold, n - 1)
    }
}

/// The brightness-weighted centroid of the lit pixels of `frame`, rounded to
/// the nearest sub-pixel unit: `Σ x·value / Σ value` and `Σ y·value / Σ value`.
/// There is none where the lit pixels carry no weight.
pub open spec fn centroid(frame: &Frame, threshold: Fraction) -> Option<AbaRegistration> {
    let n = pixel_count(frame.width as int, frame.height as int);
    let weight = weight_upto(frame, threshold, n);
    if weight == 0 {
        None
    } else {
        Some(
            AbaRegistration {
                middlex: nearest_quotient(256 * moment_x_upto(frame, threshold, n), weight) as i32,
                middley: nearest_quotient(256 * moment_y_upto(frame, threshold, n), weight) as i32,
            },
        )
    }
}

/// `256 * moment / weight`, rounded to the nearest integer.
fn center(moment: u128, weight: u128, side: u32) -> (middle: i32)
    requires
        0 < weight <= 0x1_0000_0000_0000_0000,
        0 < side <= 0x80_0000,
        moment <= (side - 1) * weight,
    ensures
        middle == nearest_quotient(256 * moment, weight as int),
{
    proof {
        lemma_mul_upper_bound((side - 1) as int, 0x7f_ffff, weight as int, 0x1_0000_0000_0000_0000);
        assert(2 * (256 * moment) + weight < (2 * weight) * (256 * (side - 1) + 1))
            by (nonlinear_arith)
            requires
                moment <= (side - 1) * weight,
                0 < weight,
        ;
        lemma_quotient_bound(
            2 * (256 * moment) + weight,
            2 * weight as int,
            256 * (side - 1) + 1,
        );
    }
    let top: u128 = 2 * (256 * moment) + weight;
    (top / (2 * weight)) as i32
}

/// Runs both pixel-based strategies over `buf` in one pass.
///
/// The bounding box is that of the pixels whose average sample is at least
/// `threshold_sod`, and [`no_box`] where there is none. The centroid is the
/// brightness-weighted mean position of the pixels whose average sample is
/// at least `threshold_aba`, and `None` where those carry no weight.
pub fn sod_aba(buf: &Frame, threshold_sod: Fraction, threshold_aba: Fraction) -> (found: (
    SodRegistration,
    Option<AbaRegistration>,
))
    requires
        buf.wf(),
    ensures
        is_bounding_box(buf, threshold_sod, found.0),
        found.1 == centroid(buf, threshold_aba),
{
    let width = buf.width;
    let height = buf.height;
    let ghost n = pixel_count(width as int, height as int);
    let ghost ts = threshold_sod;
    let ghost ta = threshold_aba;
    let mut left: u32 = u32::MAX;
    let mut right: u32 = 0;
    let mut top: u32 = u32::MAX;
    let mut bottom: u32 = 0;
    let mut sum: u128 = 0;
    let mut weighted_sum_rows: u128 = 0;
    let mut weighted_sum_columns: u128 = 0;
    let ghost mut seen = false;
    let ghost mut at_left = 0int;
    let ghost mut at_right = 0int;
    let ghost mut at_top = 0int;
    let ghost mut at_bottom = 0int;
    let mut y: u32 = 0;
    proof {
        assert(width * height <= 0x80_0000 * 0x80_0000) by (nonlinear_arith)
            requires
                width <= 0x80_0000,
                height <= 0x80_0000,
        ;
    }
    while y < height
        invariant
            y <= height,
            buf.wf(),
            width == buf.width,
            height == buf.height,
            n == width * height,
            n <= 0x4000_0000_0000,
            ts == threshold_sod,
            ta == threshold_aba,
            y * width <= n,
            !seen ==> left == u32::MAX && right == 0 && top == u32::MAX && bottom == 0,
            !seen ==> forall|k: int| 0 <= k < y * width ==> !lit(buf, k, ts),
            forall|k: int|
                0 <= k < y * width && #[trigger] lit(buf, k, ts) ==> left <= k % (width as int)
                    <= right && top <= k / (width as int) <= bottom,
            seen ==> 0 <= at_left < y * width && lit(buf, at_left, ts) && at_left % (width as int)
                == left,
            seen ==> 0 <= at_right < y * width && lit(buf, at_right, ts) && at_right % (
            width as int) == right,
            seen ==> 0 <= at_top < y * width && lit(buf, at_top, ts) && at_top / (width as int)
                == top,
            seen ==> 0 <= at_bottom < y * width && lit(buf, at_bottom, ts) && at_bottom / (
            width as int) == bottom,
            sum == weight_upto(buf, ta, y * width),
            weighted_sum_columns == moment_x_upto(buf, ta, y * width),
            weighted_sum_rows == moment_y_upto(buf, ta, y * width),
            sum <= (y * width) * 0x2_fffd,
            width > 0 ==> weighted_sum_columns <= (width - 1) * sum,
            height > 0 ==> weighted_sum_rows <= (height - 1) * sum,
        decreases height - y,
    {
        let mut x: u32 = 0;
        proof {
            assert((y + 1) * width <= n) by (nonlinear_arith)
                requires
                    y < height,
                    n == width * height,
            ;
            assert((y + 1) * width == y * width + width) by (nonlinear_arith);
        }
        while x < width
            invariant
                x <= width,
                y < height,
                buf.wf(),
                width == buf.width,
                height == buf.height,
                n == width * height,
                n <= 0x4000_0000_0000,
                ts == threshold_sod,
                ta == threshold_aba,
                y * width + width <= n,
                !seen ==> left == u32::MAX && right == 0 && top == u32::MAX && bottom == 0,
                !seen ==> forall|k: int| 0 <= k < y * width + x ==> !lit(buf, k, ts),
                forall|k: int|
                    0 <= k < y * width + x && #[trigger] lit(buf, k, ts) ==> left <= k % (
                    width as int) <= right && top <= k / (width as int) <= bottom,
                seen ==> 0 <= at_left < y * width + x && lit(buf, at_left, ts) && at_left % (
                width as int) == left,
                seen ==> 0 <= at_right < y * width + x && lit(buf, at_right, ts) && at_right % (
                width as int) == right,
                seen ==> 0 <= at_top < y * width + x && lit(buf, at_top, ts) && at_top / (
                width as int) == top,
                seen ==> 0 <= at_bottom < y * width + x && lit(buf, at_bottom, ts) && at_bottom
                    / (width as int) == bottom,
                sum == weight_upto(buf, ta, y * width + x),
                weighted_sum_columns == moment_x_upto(buf, ta, y * width + x),
                weighted_sum_rows == moment_y_upto(buf, ta, y * width + x),
                sum <= (y * width + x) * 0x2_fffd,
                width > 0 ==> weighted_sum_columns <= (width - 1) * sum,
                weighted_sum_rows <= (height - 1) * sum,
            decreases width - x,
        {
            let value: u32 = buf.brightness_at(x, y);
            let ghost k = pixel_index(width as int, x as int, y as int);
            proof {
                lemma_pixel_index(width as int, height as int, x as int, y as int);
            }
            // single object detection
            if reaches(value, threshold_sod) {
                left = if x < left {
                    x
                } else {
                    left
                };
                right = if x > right {
                    x
                } else {
                    right
                };
                top = if y < top {
                    y
                } else {
                    top
                };
                bottom = if y > bottom {
                    y
                } else {
                    bottom
                };
                proof {
                    if !seen || left == x {
                        at_left = k;
                    }
                    if !seen || right == x {
                        at_right = k;
                    }
                    if !seen || top == y {
                        at_top = k;
                    }
                    if !seen || bottom == y {
                        at_bottom = k;
                    }
                    seen = true;
                }
            }
            // average brightness alignment
            if reaches(value, threshold_aba) {
                proof {
                    lemma_mul_upper_bound(x as int, 0x7f_ffff, value as int, 0x2_fffd);
                    lemma_mul_upper_bound(y as int, 0x7f_ffff, value as int, 0x2_fffd);
                    lemma_mul_upper_bound(
                        (width - 1) as int,
                        0x7f_ffff,
                        sum as int,
                        0x1_0000_0000_0000_0000,
                    );
                    lemma_mul_upper_bound(
                        (height - 1) as int,
                        0x7f_ffff,
                        sum as int,
                        0x1_0000_0000_0000_0000,
                    );
                    assert((width - 1) * (sum + value) == (width - 1) * sum + (width - 1) * value)
                        by (nonlinear_arith);
                    assert((height - 1) * (sum + value) == (height - 1) * sum + (height - 1)
                        * value) by (nonlinear_arith);
                    assert(x * value <= (width - 1) * value) by (nonlinear_arith)
                        requires
                            x <= width - 1,
                            0 <= value,
                    ;
                    assert(y * value <= (height - 1) * value) by (nonlinear_arith)
                        requires
                            y <= height - 1,
                            0 <= value,
                    ;
                }
                weighted_sum_rows = weighted_sum_rows + (y as u128) * (value as u128);
                weighted_sum_columns = weighted_sum_columns + (x as u128) * (value as u128);
                sum = sum + value as u128;
            }
            x += 1;
        }
        y += 1;
    }
    let sod = SodRegistration { left, right, top, bottom };
    proof {
        assert(height * width == n) by (nonlinear_arith)
            requires
                n == width * height,
        ;
        if seen {
            assert(lit(buf, at_left, ts));
        }
    }
    let aba = if sum == 0 {
        None
    } else {
        let middlex = center(weighted_sum_columns, sum, width);
        let middley = center(weighted_sum_rows, sum, height);
        Some(AbaRegistration { middlex, middley })
    };
    (sod, aba)
}

/// The bounding box of the pixels whose average sample is at least
/// `threshold`.
pub fn single_object_detection(buf: &Frame, threshold: Fraction) -> (sod: SodRegistration)
    requires
        buf.wf(),
    ensures
        is_bounding_box(buf, threshold, sod),
{
    // The centroid is not asked for: its threshold is one that no pixel reaches.
    sod_aba(buf, threshold, Fraction { negative: false, numerator: 2, denominator: 1 }).0
}

/// The brightness-weighted centroid of the pixels whose average sample is at
/// least `threshold`.
pub fn average_brightness(buf: &Frame, threshold: Fraction) -> (aba: Option<AbaRegistration>)
    requires
        buf.wf(),
    ensures
        aba == centroid(buf, threshold),
{
    // The box is not asked for: its threshold is one that no pixel reaches.
    sod_aba(buf, Fraction { negative: false, numerator: 2, denominator: 1 }, threshold).1
}

/// The record of one frame: its path, the outcome of descriptor-based
/// registration as the caller found it, and what the two pixel-based
/// strategies find in the frame.
pub fn register_frame(
    image: String,
    akaze: Option<AkazeRegistration>,
    frame: &Frame,
    threshold_sod: Fraction,
    threshold_aba: Fraction,
) -> (record: ImageRegistration)
    requires
        frame.wf(),
    ensures
        registers(record, image, akaze, frame, threshold_sod, threshold_aba),
{
    let (sod, aba) = sod_aba(frame, threshold_sod, threshold_aba);
    ImageRegistration { image, akaze, sod, aba }
}

/// Whether `record` is the registration of `frame`.
pub open spec fn registers(
    record: ImageRegistration,
    image: String,
    akaze: Option<AkazeRegistration>,
    frame: &Frame,
    threshold_sod: Fraction,
    threshold_aba: Fraction,
) -> bool {
    &&& record.image == image
    &&& record.akaze == akaze
    &&& is_bounding_box(frame, threshold_sod, record.sod)
    &&& record.aba == centroid(frame, threshold_aba)
}

/// Registers a batch: one record for each frame, in the order given, with
/// the frame at `reference_image` as the reference. `images[i]` is the path
/// of `frames[i]` and `akaze[i]` the outcome of its descriptor-based
/// registration.
pub fn register(
    images: &Vec<String>,
    akaze: &Vec<Option<AkazeRegistration>>,
    frames: &Vec<Frame>,
    reference_image: usize,
    threshold_sod: Fraction,
    threshold_aba: Fraction,
) -> (registration: Registration)
    requires
        images.len() == frames.len(),
        akaze.len() == frames.len(),
        reference_image < frames.len(),
        forall|i: int| 0 <= i < frames.len() ==> (#[trigger] frames[i]).wf(),
    ensures
        registration.wf(),
        registration.reference_image == reference_image,
        registration.images.len() == frames.len(),
        forall|i: int|
            0 <= i < frames.len() ==> registers(
                #[trigger] registration.images[i],
                images[i],
                akaze[i],
                &frames[i],
                threshold_sod,
                threshold_aba,
            ),
{
    let mut records: Vec<ImageRegistration> = Vec::new();
    let mut i: usize = 0;
    while i < frames.len()
        invariant
            i <= frames.len(),
            images.len() == frames.len(),
            akaze.len() == frames.len(),
            forall|k: int| 0 <= k < frames.len() ==> (#[trigger] frames[k]).wf(),
            records.len() == i,
            forall|k: int|
                0 <= k < i ==> registers(
                    #[trigger] records[k],
                    images[k],
                    akaze[k],
                    &frames[k],
                    threshold_sod,
                    threshold_aba,
                ),
        decreases frames.len() - i,
    {
        let record = register_frame(
            images[i].clone(),
            akaze[i],
            &frames[i],
            threshold_sod,
            threshold_aba,
        );
        records.push(record);
        i += 1;
    }
    Registration { reference_image, images: records }
}

} // verus!
