//! Rules that drop frames whose registration disagrees with the reference
//! frame or with the neighbouring frames of the sequence.

use crate::fraction::Fraction;
use crate::register::{ImageRegistration, Registration, SodRegistration, Strategy};
use crate::wide::{abs, lemma_abs_square, magnitude, times, Wide};
use vstd::arithmetic::mul::lemma_mul_upper_bound;
use vstd::prelude::*;

verus! {

/// One rejection rule with its threshold.
#[derive(Debug, Copy, Clone, PartialEq, Eq, Structural)]
pub enum Rejection {
    /// Windowed average over the bounding-box centers.
    AverageSod(Fraction),
    /// Windowed average over the brightness centroids.
    AverageAba(Fraction),
    /// Windowed regression over the descriptor-based offsets.
    RegressionAkaze(Fraction),
    /// Windowed regression over the bounding-box offsets.
    RegressionSod(Fraction),
    /// Windowed regression over the centroid offsets.
    RegressionAba(Fraction),
    /// Deviation of the bounding box's size from the reference's.
    WidthHeight(Fraction),
}

/// The first `n` elements of `s` without those that `drops` marks, in their
/// order.
pub open spec fn survivors_upto<T>(s: Seq<T>, drops: Seq<bool>, n: int) -> Seq<T>
    decreases n,
{
    if n <= 0 {
        Seq::empty()
    } else if drops[n - 1] {
        survivors_upto(s, drops, n - 1)
    } else {
        survivors_upto(s, drops, n - 1).push(s[n - 1])
    }
}

/// The elements of `s` that `drops` does not mark, in their order.
pub open spec fn survivors<T>(s: Seq<T>, drops: Seq<bool>) -> Seq<T> {
    survivors_upto(s, drops, s.len() as int)
}

/// What survives is never longer than what went in.
pub proof fn lemma_survivors_len<T>(s: Seq<T>, drops: Seq<bool>, n: int)
    requires
        0 <= n <= s.len(),
    ensures
        survivors_upto(s, drops, n).len() <= n,
    decreases n,
{
    if n > 0 {
        lemma_survivors_len(s, drops, n - 1);
    }
}

/// Where nothing is marked, everything survives.
pub proof fn lemma_survivors_all<T>(s: Seq<T>, drops: Seq<bool>, n: int)
    requires
        0 <= n <= s.len(),
        forall|i: int| 0 <= i < n ==> !drops[i],
    ensures
        survivors_upto(s, drops, n) == s.take(n),
    decreases n,
{
    if n > 0 {
        lemma_survivors_all(s, drops, n - 1);
        assert(s.take(n - 1).push(s[n - 1]) =~= s.take(n));
    } else {
        assert(s.take(0) =~= Seq::<T>::empty());
    }
}

/// An unmarked stretch at the front stays where it is.
pub proof fn lemma_front_survives<T>(s: Seq<T>, drops: Seq<bool>, m: int, n: int)
    requires
        0 <= m <= n <= s.len(),
        drops.len() == s.len(),
        forall|i: int| 0 <= i < m ==> !drops[i],
    ensures
        survivors_upto(s, drops, n).len() >= m,
        forall|j: int| 0 <= j < m ==> survivors_upto(s, drops, n)[j] == s[j],
    decreases n,
{
    if n == m {
        lemma_survivors_all(s, drops, m);
    } else {
        lemma_front_survives(s, drops, m, n - 1);
    }
}

/// An unmarked stretch at the back is appended as it is.
pub proof fn lemma_back_survives<T>(s: Seq<T>, drops: Seq<bool>, m: int, n: int)
    requires
        0 <= m <= n <= s.len(),
        drops.len() == s.len(),
        forall|i: int| m <= i < n ==> !drops[i],
    ensures
        survivors_upto(s, drops, n) == survivors_upto(s, drops, m) + s.subrange(m, n),
    decreases n,
{
    if n == m {
        assert(survivors_upto(s, drops, m) + s.subrange(m, m) =~= survivors_upto(s, drops, m));
    } else {
        lemma_back_survives(s, drops, m, n - 1);
        assert((survivors_upto(s, drops, m) + s.subrange(m, n - 1)).push(s[n - 1])
            =~= survivors_upto(s, drops, m) + s.subrange(m, n));
    }
}

/// Marks that spare the first `m` and the last `m` elements leave those in
/// place, counted from their end of the sequence.
pub proof fn lemma_ends_survive<T>(s: Seq<T>, drops: Seq<bool>, m: int)
    requires
        0 <= m,
        drops.len() == s.len(),
        forall|i: int| 0 <= i < s.len() && (i < m || i >= s.len() - m) ==> !drops[i],
    ensures
        survivors(s, drops).len() >= m || survivors(s, drops).len() >= s.len(),
        forall|j: int| 0 <= j < m && j < s.len() ==> survivors(s, drops)[j] == #[trigger] s[j],
        forall|j: int|
            0 <= j < s.len() && j >= s.len() - m ==> survivors(s, drops)[survivors(s, drops).len()
                - s.len() + j] == #[trigger] s[j],
{
    let n = s.len() as int;
    let k = if m <= n {
        m
    } else {
        n
    };
    lemma_front_survives(s, drops, k, n);
    lemma_back_survives(s, drops, n - k, n);
    lemma_survivors_len(s, drops, n - k);
}

/// Copies the records that `drops` does not mark.
pub fn keep_unmarked(images: &Vec<ImageRegistration>, drops: &Vec<bool>) -> (kept: Vec<
    ImageRegistration,
>)
    requires
        drops.len() == images.len(),
    ensures
        kept@ == survivors(images@, drops@),
{
    let mut kept: Vec<ImageRegistration> = Vec::new();
    let mut i: usize = 0;
    while i < images.len()
        invariant
            i <= images.len(),
            drops.len() == images.len(),
            kept@ == survivors_upto(images@, drops@, i as int),
        decreases images.len() - i,
    {
        if !drops[i] {
            kept.push(images[i].clone());
        }
        i += 1;
    }
    kept
}

/// Whether `dimension` differs from `reference` by at least the fraction
/// `threshold` of `reference`. A reference of zero extent has no fractions,
/// so nothing deviates from it; a threshold below zero is reached by every
/// difference.
pub open spec fn dimension_deviates(dimension: int, reference: int, threshold: Fraction) -> bool {
    let difference = if dimension >= reference {
        dimension - reference
    } else {
        reference - dimension
    };
    reference > 0 && (threshold.negative || difference * threshold.denominator
        >= threshold.numerator * reference)
}

/// Whether the size rule drops a record with bounding box `sod`: the
/// reference has a box, and this one has none or deviates in width or height.
pub open spec fn size_drops(
    sod: SodRegistration,
    reference: SodRegistration,
    threshold: Fraction,
) -> bool {
    reference.detected() && (!sod.detected() || dimension_deviates(
        sod.spec_width(),
        reference.spec_width(),
        threshold,
    ) || dimension_deviates(sod.spec_height(), reference.spec_height(), threshold))
}

/// The marks that the size rule puts on a sequence of records.
pub open spec fn size_marks(
    images: Seq<ImageRegistration>,
    reference: ImageRegistration,
    threshold: Fraction,
) -> Seq<bool> {
    Seq::new(images.len(), |i: int| size_drops(images[i].sod, reference.sod, threshold))
}

fn deviates(dimension: u32, reference: u32, threshold: Fraction) -> (b: bool)
    ensures
        b == dimension_deviates(dimension as int, reference as int, threshold),
{
    let difference: u64 = if dimension >= reference {
        (dimension - reference) as u64
    } else {
        (reference - dimension) as u64
    };
    proof {
        vstd::arithmetic::mul::lemma_mul_upper_bound(
            difference as int,
            0xffff_ffff,
            threshold.denominator as int,
            0xffff_ffff,
        );
        vstd::arithmetic::mul::lemma_mul_upper_bound(
            threshold.numerator as int,
            0xffff_ffff,
            reference as int,
            0xffff_ffff,
        );
    }
    reference > 0 && (threshold.negative || difference * (threshold.denominator as u64) >= (
    threshold.numerator as u64) * (reference as u64))
}

/// Size-deviation rejection: drops every record whose bounding box differs
/// from the reference's in width or in height by at least the fraction
/// `threshold`, and every record without a box.
pub fn width_height(
    images: &Vec<ImageRegistration>,
    threshold: Fraction,
    reference: &ImageRegistration,
) -> (kept: Vec<ImageRegistration>)
    ensures
        kept@ == survivors(images@, size_marks(images@, *reference, threshold)),
{
    let mut drops: Vec<bool> = Vec::new();
    let mut i: usize = 0;
    while i < images.len()
        invariant
            i <= images.len(),
            drops.len() == i,
            forall|k: int|
                0 <= k < i ==> drops[k] == size_drops(
                    #[trigger] images[k].sod,
                    reference.sod,
                    threshold,
                ),
        decreases images.len() - i,
    {
        let sod = images[i].sod;
        let reference_found = reference.sod.is_detected();
        let found = sod.is_detected();
        let drop = reference_found && (!found || deviates(
            sod.width(),
            reference.sod.width(),
            threshold,
        ) || deviates(sod.height(), reference.sod.height(), threshold));
        drops.push(drop);
        i += 1;
    }
    assert(drops@ =~= size_marks(images@, *reference, threshold));
    keep_unmarked(images, &drops)
}

/// The centroid that a windowed average compares.
#[derive(Debug, Copy, Clone, PartialEq, Eq, Structural)]
pub enum Anchor {
    /// Center of the bounding box, in pixels.
    Sod,
    /// Brightness-weighted centroid, in sub-pixel units.
    Aba,
}

impl Anchor {
    /// How many of this anchor's units make one pixel.
    pub open spec fn units(&self) -> int {
        match self {
            Anchor::Sod => 1,
            Anchor::Aba => 256,
        }
    }

    /// Where this anchor lies in a record, if the record has it.
    pub open spec fn position(&self, record: ImageRegistration) -> Option<(int, int)> {
        match self {
            Anchor::Sod => if record.sod.detected() {
                Some(record.sod.spec_middle())
            } else {
                None
            },
            Anchor::Aba => match record.aba {
                Some(centroid) => Some((centroid.middlex as int, centroid.middley as int)),
                None => None,
            },
        }
    }

    fn locate(&self, record: &ImageRegistration) -> (place: Option<(i64, i64)>)
        ensures
            match place {
                Some(at) => self.position(*record) == Some((at.0 as int, at.1 as int)),
                None => self.position(*record).is_none(),
            },
            place.is_some() ==> i32::MIN <= place.unwrap().0 <= i32::MAX,
            place.is_some() ==> i32::MIN <= place.unwrap().1 <= i32::MAX,
    {
        match self {
            Anchor::Sod => {
                let sod = record.sod;
                if sod.is_detected() {
                    let (x, y) = sod.middle();
                    Some((x as i64, y as i64))
                } else {
                    None
                }
            },
            Anchor::Aba => match record.aba {
                Some(centroid) => Some((centroid.middlex as i64, centroid.middley as i64)),
                None => None,
            },
        }
    }
}

/// Whether the middle one of three consecutive positions lies too far from
/// their mean.
///
/// The middle position `b` is `sqrt(ex² + ey²) / 3` units away from the mean
/// of `a`, `b` and `c`, where `ex = 2·b.x − a.x − c.x` and `ey` likewise. The
/// rule rejects when that distance, in pixels and divided by the frame's
/// diagonal `sqrt(width² + height²)`, is at least `threshold`. Both sides are
/// squared and cleared of denominators here. A threshold below zero is
/// reached by every distance. A frame without a diagonal has nothing to
/// normalize by, and nothing is rejected.
pub open spec fn average_rejects(
    a: (int, int),
    b: (int, int),
    c: (int, int),
    units: int,
    threshold: Fraction,
    width: int,
    height: int,
) -> bool {
    let ex = 2 * b.0 - a.0 - c.0;
    let ey = 2 * b.1 - a.1 - c.1;
    let deviation = ex * ex + ey * ey;
    let diagonal = width * width + height * height;
    let scale = 9 * (units * units) * diagonal;
    diagonal > 0 && (threshold.negative || deviation * (threshold.denominator
        * threshold.denominator) >= scale * (threshold.numerator * threshold.numerator))
}

/// Whether the windowed average drops record `i`: it is the middle of a full
/// window of three, all three have the anchor, and the window rejects it.
pub open spec fn average_drops(
    images: Seq<ImageRegistration>,
    i: int,
    anchor: Anchor,
    threshold: Fraction,
    width: int,
    height: int,
) -> bool {
    1 <= i && i + 1 < images.len() && anchor.position(images[i - 1]).is_some() && anchor.position(
        images[i],
    ).is_some() && anchor.position(images[i + 1]).is_some() && average_rejects(
        anchor.position(images[i - 1]).unwrap(),
        anchor.position(images[i]).unwrap(),
        anchor.position(images[i + 1]).unwrap(),
        anchor.units(),
        threshold,
        width,
        height,
    )
}

/// The windowed average is local: whether it drops a record depends on the
/// record and its two neighbours alone, so that stretches of a sequence can
/// be judged apart from each other.
pub proof fn lemma_average_is_local(
    images: Seq<ImageRegistration>,
    i: int,
    others: Seq<ImageRegistration>,
    j: int,
    anchor: Anchor,
    threshold: Fraction,
    width: int,
    height: int,
)
    requires
        1 <= i && i + 1 < images.len(),
        1 <= j && j + 1 < others.len(),
        images[i - 1] == others[j - 1],
        images[i] == others[j],
        images[i + 1] == others[j + 1],
    ensures
        average_drops(images, i, anchor, threshold, width, height) == average_drops(
            others,
            j,
            anchor,
            threshold,
            width,
            height,
        ),
{
}

/// The marks that the windowed average puts on a sequence of records.
pub open spec fn average_marks(
    images: Seq<ImageRegistration>,
    anchor: Anchor,
    threshold: Fraction,
    width: int,
    height: int,
) -> Seq<bool> {
    Seq::new(images.len(), |i: int| average_drops(images, i, anchor, threshold, width, height))
}

fn squared(x: i64) -> (s: u128)
    ensures
        s == x * x,
{
    let m: u128 = magnitude(x as i128);
    proof {
        lemma_abs_square(x as int);
    }
    times(m as u64, m as u64)
}

fn average_decides(
    a: (i64, i64),
    b: (i64, i64),
    c: (i64, i64),
    anchor: Anchor,
    threshold: Fraction,
    width: u32,
    height: u32,
) -> (rejects: bool)
    requires
        i32::MIN <= a.0 <= i32::MAX,
        i32::MIN <= a.1 <= i32::MAX,
        i32::MIN <= b.0 <= i32::MAX,
        i32::MIN <= b.1 <= i32::MAX,
        i32::MIN <= c.0 <= i32::MAX,
        i32::MIN <= c.1 <= i32::MAX,
    ensures
        rejects == average_rejects(
            (a.0 as int, a.1 as int),
            (b.0 as int, b.1 as int),
            (c.0 as int, c.1 as int),
            anchor.units(),
            threshold,
            width as int,
            height as int,
        ),
{
    let ex: i64 = 2 * b.0 - a.0 - c.0;
    let ey: i64 = 2 * b.1 - a.1 - c.1;
    let ex2: u128 = squared(ex);
    let ey2: u128 = squared(ey);
    proof {
        lemma_abs_square(ex as int);
        lemma_abs_square(ey as int);
        lemma_mul_upper_bound(abs(ex as int), 0x4_0000_0000, abs(ex as int), 0x4_0000_0000);
        lemma_mul_upper_bound(abs(ey as int), 0x4_0000_0000, abs(ey as int), 0x4_0000_0000);
    }
    let deviation: u128 = ex2 + ey2;
    proof {
        lemma_mul_upper_bound(width as int, 0xffff_ffff, width as int, 0xffff_ffff);
        lemma_mul_upper_bound(height as int, 0xffff_ffff, height as int, 0xffff_ffff);
    }
    let diagonal: u128 = times(width as u64, width as u64) + times(height as u64, height as u64);
    let units: u128 = match anchor {
        Anchor::Sod => 1,
        Anchor::Aba => 256,
    };
    let factor: u128 = 9 * (units * units);
    proof {
        lemma_mul_upper_bound(
            factor as int,
            589824,
            diagonal as int,
            0x2_0000_0000_0000_0000,
        );
    }
    let scale: u128 = factor * diagonal;
    let den2: u128 = times(threshold.denominator as u64, threshold.denominator as u64);
    let num2: u128 = times(threshold.numerator as u64, threshold.numerator as u64);
    let lhs = Wide::product(deviation, den2);
    let rhs = Wide::product(scale, num2);
    diagonal > 0 && (threshold.negative || lhs.ge(&rhs))
}

/// Windowed-average rejection: slides a window of three over the records and
/// drops the middle record of each window whose anchor lies, relative to the
/// frame's diagonal, at least `threshold` away from the window's mean. The
/// first and the last record are never the middle of a window and always
/// stay, as does the middle of a window in which a record lacks the anchor.
pub fn average(
    images: &Vec<ImageRegistration>,
    threshold: Fraction,
    width: u32,
    height: u32,
    anchor: Anchor,
) -> (kept: Vec<ImageRegistration>)
    ensures
        kept@ == survivors(
            images@,
            average_marks(images@, anchor, threshold, width as int, height as int),
        ),
        images.len() > 0 ==> kept.len() > 0 && kept[0] == images[0] && kept[kept.len() - 1]
            == images[images.len() - 1],
        images.len() < 3 ==> kept@ == images@,
{
    let n = images.len();
    let mut drops: Vec<bool> = Vec::new();
    let mut i: usize = 0;
    while i < n
        invariant
            i <= n,
            n == images.len(),
            drops.len() == i,
            forall|k: int|
                0 <= k < i ==> drops[k] == average_drops(
                    images@,
                    k,
                    anchor,
                    threshold,
                    width as int,
                    height as int,
                ),
        decreases n - i,
    {
        let mut drop = false;
        if 1 <= i && i + 1 < n {
            let before = anchor.locate(&images[i - 1]);
            let here = anchor.locate(&images[i]);
            let after = anchor.locate(&images[i + 1]);
            match (before, here, after) {
                (Some(a), Some(b), Some(c)) => {
                    drop = average_decides(a, b, c, anchor, threshold, width, height);
                },
                _ => {},
            }
        }
        drops.push(drop);
        i += 1;
    }
    let ghost marks = average_marks(images@, anchor, threshold, width as int, height as int);
    assert(drops@ =~= marks);
    let kept = keep_unmarked(images, &drops);
    proof {
        lemma_ends_survive(images@, marks, 1);
        if n < 3 {
            lemma_survivors_all(images@, marks, n as int);
            assert(images@.take(n as int) =~= images@);
        }
    }
    kept
}

/// Length of the window that a regression is fitted to.
pub const REGRESSION_WINDOW: usize = 9;

/// Sum of the x coordinates of `points`.
pub open spec fn sum_x(points: Seq<(int, int)>) -> int
    decreases points.len(),
{
    if points.len() == 0 {
        0
    } else {
        sum_x(points.drop_last()) + points.last().0
    }
}

/// Sum of the y coordinates of `points`.
pub open spec fn sum_y(points: Seq<(int, int)>) -> int
    decreases points.len(),
{
    if points.len() == 0 {
        0
    } else {
        sum_y(points.drop_last()) + points.last().1
    }
}

/// Sum of the squared x coordinates of `points`.
pub open spec fn sum_xx(points: Seq<(int, int)>) -> int
    decreases points.len(),
{
    if points.len() == 0 {
        0
    } else {
        sum_xx(points.drop_last()) + points.last().0 * points.last().0
    }
}

/// Sum of the products x·y of `points`.
pub open spec fn sum_xy(points: Seq<(int, int)>) -> int
    decreases points.len(),
{
    if points.len() == 0 {
        0
    } else {
        sum_xy(points.drop_last()) + points.last().0 * points.last().1
    }
}

/// Run of the least-squares line through `points`: the line's slope is
/// `fit_rise / fit_run`, and it passes through the mean of the points
/// ([`lemma_fit_is_least_squares`]).
pub open spec fn fit_run(points: Seq<(int, int)>) -> int {
    points.len() * sum_xx(points) - sum_x(points) * sum_x(points)
}

/// Rise of the least-squares line through `points`.
pub open spec fn fit_rise(points: Seq<(int, int)>) -> int {
    points.len() * sum_xy(points) - sum_x(points) * sum_y(points)
}

/// Vertical distance of `center` from the least-squares line through
/// `points`, multiplied by `points.len() · fit_run(points)`. It is zero on
/// the line and nowhere else.
pub open spec fn fit_residual(points: Seq<(int, int)>, center: (int, int)) -> int {
    fit_run(points) * (points.len() * center.1 - sum_y(points)) - fit_rise(points) * (points.len()
        * center.0 - sum_x(points))
}

/// Whether the center of a window of offsets lies too far from the window's
/// trend.
///
/// Let the least-squares line through `points` have run `d` and rise `n`, and
/// drop a perpendicular onto it from the center point. The foot of the
/// perpendicular lies `|r| / (k · sqrt(d² + n²))` away from the center, where
/// `r` is [`fit_residual`] and `k` the number of points
/// ([`lemma_foot_of_perpendicular`]). The rule rejects when that distance,
/// divided by `width + height`, is at least `threshold`. Both sides are
/// squared and cleared of denominators here. A threshold below zero is
/// reached by every distance. A fit without a slope
/// (`d == 0`), a level fit (`n == 0`, whose perpendicular has no slope) and a
/// frame with `width + height == 0` give the rule nothing to measure, and
/// nothing is rejected.
pub open spec fn regression_rejects(
    points: Seq<(int, int)>,
    threshold: Fraction,
    width: int,
    height: int,
) -> bool {
    let d = fit_run(points);
    let n = fit_rise(points);
    let r = fit_residual(points, points[points.len() as int / 2]);
    let extent = points.len() * (width + height);
    let scale = ((d * d + n * n) * extent) * extent;
    width + height > 0 && d != 0 && n != 0 && (threshold.negative || (r * r) * (
    threshold.denominator * threshold.denominator) >= scale * (threshold.numerator
        * threshold.numerator))
}

/// Sum of the residuals of the points `over` against the fit through
/// `points`.
pub open spec fn residual_sum(points: Seq<(int, int)>, over: Seq<(int, int)>) -> int
    decreases over.len(),
{
    if over.len() == 0 {
        0
    } else {
        residual_sum(points, over.drop_last()) + fit_residual(points, over.last())
    }
}

/// Sum of the residuals of the points `over` against the fit through
/// `points`, each weighted by the point's x coordinate.
pub open spec fn residual_moment(points: Seq<(int, int)>, over: Seq<(int, int)>) -> int
    decreases over.len(),
{
    if over.len() == 0 {
        0
    } else {
        residual_moment(points, over.drop_last()) + over.last().0 * fit_residual(
            points,
            over.last(),
        )
    }
}

/// `d·a − n·b` is additive in `(a, b)`.
proof fn lemma_combination_adds(d: int, n: int, a1: int, b1: int, a2: int, b2: int)
    ensures
        (d * a1 - n * b1) + (d * a2 - n * b2) == d * (a1 + a2) - n * (b1 + b2),
{
    assert(d * (a1 + a2) == d * a1 + d * a2) by (nonlinear_arith);
    assert(n * (b1 + b2) == n * b1 + n * b2) by (nonlinear_arith);
}

/// `d·a − n·b` is homogeneous in `(a, b)`.
proof fn lemma_combination_scales(d: int, n: int, a: int, b: int, x: int)
    ensures
        x * (d * a - n * b) == d * (x * a) - n * (x * b),
{
    assert(x * (d * a - n * b) == x * (d * a) - x * (n * b)) by (nonlinear_arith);
    assert(x * (d * a) == d * (x * a)) by (nonlinear_arith);
    assert(x * (n * b) == n * (x * b)) by (nonlinear_arith);
}

proof fn lemma_residual_sums(points: Seq<(int, int)>, over: Seq<(int, int)>)
    ensures
        residual_sum(points, over) == fit_run(points) * (points.len() * sum_y(over) - over.len()
            * sum_y(points)) - fit_rise(points) * (points.len() * sum_x(over) - over.len() * sum_x(
            points,
        )),
        residual_moment(points, over) == fit_run(points) * (points.len() * sum_xy(over) - sum_x(
            over,
        ) * sum_y(points)) - fit_rise(points) * (points.len() * sum_xx(over) - sum_x(over) * sum_x(
            points,
        )),
    decreases over.len(),
{
    if over.len() > 0 {
        lemma_residual_sums(points, over.drop_last());
        let d = fit_run(points);
        let n = fit_rise(points);
        let k = points.len() as int;
        let sx = sum_x(points);
        let sy = sum_y(points);
        let rest = over.drop_last();
        let m = rest.len() as int;
        let (x, y) = over.last();
        let (ax, ay, axx, axy) = (sum_x(rest), sum_y(rest), sum_xx(rest), sum_xy(rest));
        let u = k * y - sy;
        let v = k * x - sx;
        assert(fit_residual(points, over.last()) == d * u - n * v);
        // The plain sum.
        lemma_combination_adds(d, n, k * ay - m * sy, k * ax - m * sx, u, v);
        assert(k * ay - m * sy + u == k * (ay + y) - (m + 1) * sy) by (nonlinear_arith)
            requires
                u == k * y - sy,
        ;
        assert(k * ax - m * sx + v == k * (ax + x) - (m + 1) * sx) by (nonlinear_arith)
            requires
                v == k * x - sx,
        ;
        // The sum weighted by x.
        lemma_combination_scales(d, n, u, v, x);
        lemma_combination_adds(d, n, k * axy - ax * sy, k * axx - ax * sx, x * u, x * v);
        assert(k * axy - ax * sy + x * u == k * (axy + x * y) - (ax + x) * sy) by (nonlinear_arith)
            requires
                u == k * y - sy,
        ;
        assert(k * axx - ax * sx + x * v == k * (axx + x * x) - (ax + x) * sx) by (nonlinear_arith)
            requires
                v == k * x - sx,
        ;
        assert(sum_x(over) == ax + x && sum_y(over) == ay + y);
        assert(sum_xx(over) == axx + x * x && sum_xy(over) == axy + x * y);
        assert(residual_sum(points, over) == (d * (k * ay - m * sy) - n * (k * ax - m * sx)) + (d
            * u - n * v));
        assert(residual_moment(points, over) == (d * (k * axy - ax * sy) - n * (k * axx - ax
            * sx)) + x * (d * u - n * v));
    } else {
        let d = fit_run(points);
        let n = fit_rise(points);
        let k = points.len() as int;
        let sx = sum_x(points);
        let sy = sum_y(points);
        assert(k * 0 - 0 * sy == 0 && k * 0 - 0 * sx == 0) by (nonlinear_arith);
        assert(d * 0 - n * 0 == 0) by (nonlinear_arith);
    }
}

/// The line of run [`fit_run`] and rise [`fit_rise`] is the least-squares
/// line through `points`: it meets the two conditions that single out the
/// least-squares line. The residuals of the points sum to zero, and so do the
/// residuals weighted by x.
pub proof fn lemma_fit_is_least_squares(points: Seq<(int, int)>)
    ensures
        residual_sum(points, points) == 0,
        residual_moment(points, points) == 0,
{
    lemma_residual_sums(points, points);
    let d = fit_run(points);
    let n = fit_rise(points);
    let k = points.len() as int;
    let (sx, sy, sxx, sxy) = (sum_x(points), sum_y(points), sum_xx(points), sum_xy(points));
    assert(d == k * sxx - sx * sx);
    assert(n == k * sxy - sx * sy);
    assert(d * (k * sxy - sx * sy) - n * (k * sxx - sx * sx) == 0) by (nonlinear_arith)
        requires
            d == k * sxx - sx * sx,
            n == k * sxy - sx * sy,
    ;
}

/// The foot of the perpendicular from `center` onto the fit through `points`,
/// both coordinates multiplied by `points.len() · (d² + n²)`, where `d` and
/// `n` are run and rise of the fit.
pub open spec fn scaled_foot(points: Seq<(int, int)>, center: (int, int)) -> (int, int) {
    let d = fit_run(points);
    let n = fit_rise(points);
    let scale = points.len() * (d * d + n * n);
    (
        center.0 * scale + n * fit_residual(points, center),
        center.1 * scale - d * fit_residual(points, center),
    )
}

/// What [`regression_rejects`] measures is the distance from the center to
/// the point where the perpendicular through the center meets the fit line.
///
/// With `scale = points.len() · (d² + n²)` and `foot = scaled_foot(..)`, the
/// point `foot / scale` lies on the fit line, the step from `center` to it is
/// perpendicular to the line's direction `(d, n)`, and the square of that
/// step's length is `r² · (d² + n²) / scale²`, which is
/// `r² / (points.len()² · (d² + n²))`.
pub proof fn lemma_foot_of_perpendicular(points: Seq<(int, int)>, center: (int, int))
    ensures
        ({
            let d = fit_run(points);
            let n = fit_rise(points);
            let r = fit_residual(points, center);
            let k = points.len() as int;
            let scale = k * (d * d + n * n);
            let foot = scaled_foot(points, center);
            let step = (foot.0 - center.0 * scale, foot.1 - center.1 * scale);
            &&& d * (k * foot.1 - scale * sum_y(points)) == n * (k * foot.0 - scale * sum_x(points))
            &&& step.0 * d + step.1 * n == 0
            &&& step.0 * step.0 + step.1 * step.1 == (r * r) * (d * d + n * n)
            &&& (step.0 * step.0 + step.1 * step.1) * (k * k * (d * d + n * n)) == (r * r) * (scale
                * scale)
        }),
{
    let d = fit_run(points);
    let n = fit_rise(points);
    let r = fit_residual(points, center);
    let k = points.len() as int;
    let sx = sum_x(points);
    let sy = sum_y(points);
    let scale = k * (d * d + n * n);
    let foot = scaled_foot(points, center);
    let (cx, cy) = center;
    let u = k * cy - sy;
    let v = k * cx - sx;
    let dr = d * r;
    let nr = n * r;
    assert(r == d * u - n * v);
    assert(k * (cy * scale - dr) - scale * sy == scale * u - k * dr) by (nonlinear_arith)
        requires
            u == k * cy - sy,
    ;
    assert(k * (cx * scale + nr) - scale * sx == scale * v + k * nr) by (nonlinear_arith)
        requires
            v == k * cx - sx,
    ;
    assert(d * (scale * u - k * dr) == scale * (d * u) - k * (d * dr)) by (nonlinear_arith);
    assert(n * (scale * v + k * nr) == scale * (n * v) + k * (n * nr)) by (nonlinear_arith);
    assert(scale * (d * u) - scale * (n * v) == scale * r) by (nonlinear_arith)
        requires
            r == d * u - n * v,
    ;
    assert(d * dr == (d * d) * r) by (nonlinear_arith)
        requires
            dr == d * r,
    ;
    assert(n * nr == (n * n) * r) by (nonlinear_arith)
        requires
            nr == n * r,
    ;
    assert(k * ((d * d) * r) + k * ((n * n) * r) == scale * r) by (nonlinear_arith)
        requires
            scale == k * (d * d + n * n),
    ;
    assert(nr * d + (-dr) * n == 0) by (nonlinear_arith)
        requires
            dr == d * r,
            nr == n * r,
    ;
    let q = d * d + n * n;
    let rr = r * r;
    assert(nr * nr == rr * (n * n)) by (nonlinear_arith)
        requires
            nr == n * r,
            rr == r * r,
    ;
    assert((-dr) * (-dr) == rr * (d * d)) by (nonlinear_arith)
        requires
            dr == d * r,
            rr == r * r,
    ;
    assert(rr * (n * n) + rr * (d * d) == rr * q) by (nonlinear_arith)
        requires
            q == d * d + n * n,
    ;
    assert(scale * scale == (k * k * q) * q) by (nonlinear_arith)
        requires
            scale == k * q,
    ;
    assert((rr * q) * (k * k * q) == rr * ((k * k * q) * q)) by (nonlinear_arith);
}

/// The nine offsets of the window that starts at `start`.
pub open spec fn window_points(offsets: Seq<Option<(int, int)>>, start: int) -> Seq<(int, int)> {
    Seq::new(REGRESSION_WINDOW as nat, |k: int| offsets[start + k].unwrap())
}

/// Every record of the window that starts at `start` has an offset.
pub open spec fn window_complete(offsets: Seq<Option<(int, int)>>, start: int) -> bool {
    forall|j: int| start <= j < start + REGRESSION_WINDOW ==> (#[trigger] offsets[j]).is_some()
}

/// Whether the windowed regression drops record `i`: it is the center of a
/// full window of nine, all nine have an offset, and the window rejects it.
pub open spec fn regression_drops(
    offsets: Seq<Option<(int, int)>>,
    i: int,
    threshold: Fraction,
    width: int,
    height: int,
) -> bool {
    4 <= i && i + 4 < offsets.len() && window_complete(offsets, i - 4) && regression_rejects(
        window_points(offsets, i - 4),
        threshold,
        width,
        height,
    )
}

/// The windowed regression is local: whether it drops a record depends on
/// the nine offsets of the record's window alone.
pub proof fn lemma_regression_is_local(
    offsets: Seq<Option<(int, int)>>,
    i: int,
    others: Seq<Option<(int, int)>>,
    j: int,
    threshold: Fraction,
    width: int,
    height: int,
)
    requires
        4 <= i && i + 4 < offsets.len(),
        4 <= j && j + 4 < others.len(),
        offsets.subrange(i - 4, i + 5) == others.subrange(j - 4, j + 5),
    ensures
        regression_drops(offsets, i, threshold, width, height) == regression_drops(
            others,
            j,
            threshold,
            width,
            height,
        ),
{
    let ours = offsets.subrange(i - 4, i + 5);
    let theirs = others.subrange(j - 4, j + 5);
    assert forall|k: int| 0 <= k < REGRESSION_WINDOW implies #[trigger] ours[k] == offsets[i - 4
        + k] && theirs[k] == others[j - 4 + k] by {}
    if window_complete(offsets, i - 4) {
        assert forall|k: int| j - 4 <= k < j - 4 + REGRESSION_WINDOW implies (
        #[trigger] others[k]).is_some() by {
            assert(ours[k - (j - 4)] == theirs[k - (j - 4)]);
            assert(offsets[i - 4 + (k - (j - 4))].is_some());
        }
    }
    if window_complete(others, j - 4) {
        assert forall|k: int| i - 4 <= k < i - 4 + REGRESSION_WINDOW implies (
        #[trigger] offsets[k]).is_some() by {
            assert(ours[k - (i - 4)] == theirs[k - (i - 4)]);
            assert(others[j - 4 + (k - (i - 4))].is_some());
        }
    }
    assert forall|k: int| 0 <= k < REGRESSION_WINDOW implies window_points(offsets, i - 4)[k]
        == #[trigger] window_points(others, j - 4)[k] by {
        assert(ours[k] == theirs[k]);
    }
    assert(window_points(offsets, i - 4) =~= window_points(others, j - 4));
}

/// The marks that the windowed regression puts on a sequence of records.
pub open spec fn regression_marks(
    images: Seq<ImageRegistration>,
    strategy: Strategy,
    reference: ImageRegistration,
    threshold: Fraction,
    width: int,
    height: int,
) -> Seq<bool> {
    Seq::new(
        images.len(),
        |i: int| regression_drops(strategy.offsets(images, reference), i, threshold, width, height),
    )
}

/// The magnitude of a product is the product of the magnitudes.
proof fn lemma_abs_product(x: int, y: int)
    by (nonlinear_arith)
    ensures
        abs(x * y) == abs(x) * abs(y),
{
}

/// The product of two signed words whose magnitudes are known to be small
/// enough.
fn signed_product(x: i128, y: i128, Ghost(bx): Ghost<int>, Ghost(by): Ghost<int>) -> (p: i128)
    requires
        abs(x as int) <= bx,
        abs(y as int) <= by,
        bx * by <= i128::MAX,
    ensures
        p == x * y,
        abs(p as int) <= bx * by,
{
    proof {
        lemma_abs_product(x as int, y as int);
        lemma_mul_upper_bound(abs(x as int), bx, abs(y as int), by);
    }
    x * y
}

spec fn lifted(offsets: Seq<Option<(i32, i32)>>) -> Seq<Option<(int, int)>> {
    Seq::new(
        offsets.len(),
        |i: int|
            match offsets[i] {
                Some(by) => Some((by.0 as int, by.1 as int)),
                None => None,
            },
    )
}

/// The four sums over the window that starts at `start`, or `None` where a
/// record of the window has no offset.
fn window_sums(offsets: &Vec<Option<(i32, i32)>>, start: usize) -> (sums: Option<
    (i128, i128, i128, i128),
>)
    requires
        start + REGRESSION_WINDOW <= offsets.len(),
    ensures
        sums.is_some() == window_complete(lifted(offsets@), start as int),
        sums.is_some() ==> {
            let points = window_points(lifted(offsets@), start as int);
            let found = sums.unwrap();
            &&& found.0 == sum_x(points)
            &&& found.1 == sum_y(points)
            &&& found.2 == sum_xx(points)
            &&& found.3 == sum_xy(points)
            &&& abs(found.0 as int) <= 0x4_8000_0000
            &&& abs(found.1 as int) <= 0x4_8000_0000
            &&& 0 <= found.2 <= 0x2_4000_0000_0000_0000
            &&& abs(found.3 as int) <= 0x2_4000_0000_0000_0000
        },
{
    let ghost all = lifted(offsets@);
    let ghost points = window_points(all, start as int);
    let mut sx: i128 = 0;
    let mut sy: i128 = 0;
    let mut sxx: i128 = 0;
    let mut sxy: i128 = 0;
    let mut k: usize = 0;
    assert(points.take(0) =~= Seq::<(int, int)>::empty());
    while k < REGRESSION_WINDOW
        invariant
            k <= REGRESSION_WINDOW,
            start + REGRESSION_WINDOW <= offsets.len(),
            all == lifted(offsets@),
            points == window_points(all, start as int),
            forall|j: int| start <= j < start + k ==> (#[trigger] all[j]).is_some(),
            sx == sum_x(points.take(k as int)),
            sy == sum_y(points.take(k as int)),
            sxx == sum_xx(points.take(k as int)),
            sxy == sum_xy(points.take(k as int)),
            abs(sx as int) <= k * 0x8000_0000,
            abs(sy as int) <= k * 0x8000_0000,
            0 <= sxx <= k * 0x4000_0000_0000_0000,
            abs(sxy as int) <= k * 0x4000_0000_0000_0000,
        decreases REGRESSION_WINDOW - k,
    {
        match offsets[start + k] {
            None => {
                assert(all[start + k].is_none());
                return None;
            },
            Some((x, y)) => {
                proof {
                    let next = points.take(k + 1);
                    assert(next.drop_last() =~= points.take(k as int));
                    assert(next.last() == (x as int, y as int));
                    lemma_abs_square(x as int);
                }
                let ghost bound = 0x8000_0000int;
                let xx = signed_product(x as i128, x as i128, Ghost(bound), Ghost(bound));
                let xy = signed_product(x as i128, y as i128, Ghost(bound), Ghost(bound));
                sx = sx + x as i128;
                sy = sy + y as i128;
                sxx = sxx + xx;
                sxy = sxy + xy;
            },
        }
        k += 1;
    }
    assert(points.take(REGRESSION_WINDOW as int) =~= points);
    Some((sx, sy, sxx, sxy))
}

/// Decides the regression rule for the window that starts at `start`.
fn regression_decides(
    offsets: &Vec<Option<(i32, i32)>>,
    start: usize,
    threshold: Fraction,
    width: u32,
    height: u32,
) -> (rejects: bool)
    requires
        start + REGRESSION_WINDOW <= offsets.len(),
    ensures
        rejects == (window_complete(lifted(offsets@), start as int) && regression_rejects(
            window_points(lifted(offsets@), start as int),
            threshold,
            width as int,
            height as int,
        )),
{
    let ghost points = window_points(lifted(offsets@), start as int);
    let (sx, sy, sxx, sxy) = match window_sums(offsets, start) {
        None => {
            return false;
        },
        Some(sums) => sums,
    };
    let (px, py): (i32, i32) = match offsets[start + REGRESSION_WINDOW / 2] {
        None => {
            return false;
        },
        Some(at) => at,
    };
    assert(points[points.len() as int / 2] == (px as int, py as int));
    let sx2 = signed_product(sx, sx, Ghost(0x4_8000_0000), Ghost(0x4_8000_0000));
    let sxsy = signed_product(sx, sy, Ghost(0x4_8000_0000), Ghost(0x4_8000_0000));
    proof {
        lemma_abs_square(sx as int);
    }
    let d: i128 = 9 * sxx - sx2;
    let n: i128 = 9 * sxy - sxsy;
    assert(i32::MIN <= px <= i32::MAX && i32::MIN <= py <= i32::MAX);
    let cy: i128 = 9 * (py as i128) - sy;
    let cx: i128 = 9 * (px as i128) - sx;
    let dcy = signed_product(d, cy, Ghost(0x28_8000_0000_0000_0000), Ghost(0x9_0000_0000));
    let ncx = signed_product(n, cx, Ghost(0x28_8000_0000_0000_0000), Ghost(0x9_0000_0000));
    let r: i128 = dcy - ncx;
    assert(d == fit_run(points));
    assert(n == fit_rise(points));
    assert(r == fit_residual(points, points[points.len() as int / 2]));
    let mr: u128 = magnitude(r);
    let mn: u128 = magnitude(n);
    let md: u128 = magnitude(d);
    let deviation = Wide::product(mr, mr);
    let d2 = Wide::product(md, md);
    let n2 = Wide::product(mn, mn);
    proof {
        lemma_abs_square(r as int);
        lemma_abs_square(d as int);
        lemma_abs_square(n as int);
        lemma_mul_upper_bound(
            md as int,
            0x28_8000_0000_0000_0000,
            md as int,
            0x28_8000_0000_0000_0000,
        );
        lemma_mul_upper_bound(
            mn as int,
            0x28_8000_0000_0000_0000,
            mn as int,
            0x28_8000_0000_0000_0000,
        );
    }
    let squares = d2.plus(&n2);
    let extent: u64 = 9 * (width as u64 + height as u64);
    proof {
        lemma_mul_upper_bound(
            squares.value(),
            0xcd0_8000_0000_0000_0000_0000_0000_0000_0000int,
            extent as int,
            0x11_ffff_ffee,
        );
    }
    let once = squares.scale(extent);
    proof {
        lemma_mul_upper_bound(
            once.value(),
            0xe6a8_ffff_1957_0000_0000_0000_0000_0000_0000_0000_0000int,
            extent as int,
            0x11_ffff_ffee,
        );
    }
    let scale = once.scale(extent);
    proof {
        lemma_mul_upper_bound(
            threshold.denominator as int,
            0xffff_ffff,
            threshold.denominator as int,
            0xffff_ffff,
        );
        lemma_mul_upper_bound(
            threshold.numerator as int,
            0xffff_ffff,
            threshold.numerator as int,
            0xffff_ffff,
        );
    }
    let den2: u64 = (threshold.denominator as u64) * (threshold.denominator as u64);
    let num2: u64 = (threshold.numerator as u64) * (threshold.numerator as u64);
    let reaches = deviation.scaled_ge(den2, &scale, num2);
    extent > 0 && d != 0 && n != 0 && (threshold.negative || reaches)
}

/// Windowed-regression rejection: slides a window of nine over the records,
/// fits a least-squares line through the nine offsets of `strategy`, and
/// drops the center record of each window that [`regression_rejects`]. The
/// first four and the last four records are never the center of a window and
/// always stay, as does the center of a window in which a record has no
/// offset.
pub fn regression(
    images: &Vec<ImageRegistration>,
    threshold: Fraction,
    width: u32,
    height: u32,
    strategy: Strategy,
    reference: &ImageRegistration,
) -> (kept: Vec<ImageRegistration>)
    ensures
        kept@ == survivors(
            images@,
            regression_marks(
                images@,
                strategy,
                *reference,
                threshold,
                width as int,
                height as int,
            ),
        ),
        images.len() < REGRESSION_WINDOW ==> kept@ == images@,
        kept.len() >= 4 || kept.len() >= images.len(),
        forall|j: int| 0 <= j < 4 && j < images.len() ==> kept[j] == #[trigger] images[j],
        forall|j: int|
            0 <= j < images.len() && j >= images.len() - 4 ==> kept[kept.len() - images.len() + j]
                == #[trigger] images[j],
{
    let n = images.len();
    let mut offsets: Vec<Option<(i32, i32)>> = Vec::new();
    let mut i: usize = 0;
    while i < n
        invariant
            i <= n,
            n == images.len(),
            offsets.len() == i,
            forall|k: int|
                0 <= k < i ==> (#[trigger] lifted(offsets@)[k]) == strategy.offset(
                    images[k],
                    *reference,
                ),
        decreases n - i,
    {
        let shift = strategy.measure(&images[i], reference);
        let ghost before = offsets@;
        offsets.push(shift);
        proof {
            assert forall|k: int| 0 <= k < i + 1 implies (#[trigger] lifted(offsets@)[k])
                == strategy.offset(images[k], *reference) by {
                if k < i {
                    assert(lifted(before)[k] == strategy.offset(images[k], *reference));
                }
            }
        }
        i += 1;
    }
    let ghost all = strategy.offsets(images@, *reference);
    assert(lifted(offsets@) =~= all);
    let mut drops: Vec<bool> = Vec::new();
    let mut i: usize = 0;
    while i < n
        invariant
            i <= n,
            n == images.len(),
            offsets.len() == n,
            lifted(offsets@) == all,
            drops.len() == i,
            forall|k: int|
                0 <= k < i ==> drops[k] == regression_drops(
                    all,
                    k,
                    threshold,
                    width as int,
                    height as int,
                ),
        decreases n - i,
    {
        let drop = if 4 <= i && n - i > 4 {
            regression_decides(&offsets, i - 4, threshold, width, height)
        } else {
            false
        };
        drops.push(drop);
        i += 1;
    }
    let ghost marks = regression_marks(
        images@,
        strategy,
        *reference,
        threshold,
        width as int,
        height as int,
    );
    assert(drops@ =~= marks);
    proof {
        if n < REGRESSION_WINDOW {
            lemma_survivors_all(images@, marks, n as int);
            assert(images@.take(n as int) =~= images@);
        }
    }
    let kept = keep_unmarked(images, &drops);
    proof {
        lemma_ends_survive(images@, marks, 4);
        assert(kept@ == survivors(images@, marks));
    }
    kept
}

/// What one rule leaves of a sequence of records.
pub open spec fn apply_rule(
    images: Seq<ImageRegistration>,
    rule: Rejection,
    reference: ImageRegistration,
    width: int,
    height: int,
) -> Seq<ImageRegistration> {
    let marks = match rule {
        Rejection::AverageSod(t) => average_marks(images, Anchor::Sod, t, width, height),
        Rejection::AverageAba(t) => average_marks(images, Anchor::Aba, t, width, height),
        Rejection::RegressionAkaze(t) => regression_marks(
            images,
            Strategy::Akaze,
            reference,
            t,
            width,
            height,
        ),
        Rejection::RegressionSod(t) => regression_marks(
            images,
            Strategy::Sod,
            reference,
            t,
            width,
            height,
        ),
        Rejection::RegressionAba(t) => regression_marks(
            images,
            Strategy::Aba,
            reference,
            t,
            width,
            height,
        ),
        Rejection::WidthHeight(t) => size_marks(images, reference, t),
    };
    survivors(images, marks)
}

/// What a list of rules leaves of a sequence of records: each rule works on
/// what the rules before it left.
pub open spec fn apply_rules(
    images: Seq<ImageRegistration>,
    rules: Seq<Rejection>,
    reference: ImageRegistration,
    width: int,
    height: int,
) -> Seq<ImageRegistration>
    decreases rules.len(),
{
    if rules.len() == 0 {
        images
    } else {
        apply_rule(
            apply_rules(images, rules.drop_last(), reference, width, height),
            rules.last(),
            reference,
            width,
            height,
        )
    }
}

/// Runs the rejection pipeline: applies `rejections` in the order given to
/// `images`, the records of frames that are `width` by `height` pixels, and
/// returns the records that no rule dropped, in their order. The
/// reference record is that of `registration`.
pub fn reject(
    registration: &Registration,
    images: Vec<ImageRegistration>,
    rejections: &[Rejection],
    width: u32,
    height: u32,
) -> (kept: Vec<ImageRegistration>)
    requires
        registration.wf(),
    ensures
        kept@ == apply_rules(
            images@,
            rejections@,
            registration.images[registration.reference_image as int],
            width as int,
            height as int,
        ),
        kept.len() <= images.len(),
{
    let reference = registration.reference();
    let ghost initial = images@;
    let mut images = images;
    let mut i: usize = 0;
    proof {
        assert(rejections@.take(0) =~= Seq::<Rejection>::empty());
    }
    while i < rejections.len()
        invariant
            i <= rejections.len(),
            images.len() <= initial.len(),
            images@ == apply_rules(
                initial,
                rejections@.take(i as int),
                *reference,
                width as int,
                height as int,
            ),
        decreases rejections.len() - i,
    {
        let ghost before = images@;
        images = match rejections[i] {
            Rejection::AverageSod(t) => average(&images, t, width, height, Anchor::Sod),
            Rejection::AverageAba(t) => average(&images, t, width, height, Anchor::Aba),
            Rejection::RegressionAkaze(t) => regression(
                &images,
                t,
                width,
                height,
                Strategy::Akaze,
                reference,
            ),
            Rejection::RegressionSod(t) => regression(
                &images,
                t,
                width,
                height,
                Strategy::Sod,
                reference,
            ),
            Rejection::RegressionAba(t) => regression(
                &images,
                t,
                width,
                height,
                Strategy::Aba,
                reference,
            ),
            Rejection::WidthHeight(t) => width_height(&images, t, reference),
        };
        proof {
            let rules = rejections@.take(i + 1);
            assert(rules.drop_last() =~= rejections@.take(i as int));
            assert(rules.last() == rejections@[i as int]);
            assert(images@ == apply_rule(
                before,
                rejections@[i as int],
                *reference,
                width as int,
                height as int,
            ));
            lemma_rule_shortens(
                before,
                rejections@[i as int],
                *reference,
                width as int,
                height as int,
            );
        }
        i += 1;
    }
    proof {
        assert(rejections@.take(rejections.len() as int) =~= rejections@);
    }
    images
}

/// No rule adds a record.
pub proof fn lemma_rule_shortens(
    images: Seq<ImageRegistration>,
    rule: Rejection,
    reference: ImageRegistration,
    width: int,
    height: int,
)
    ensures
        apply_rule(images, rule, reference, width, height).len() <= images.len(),
{
    let marks = match rule {
        Rejection::AverageSod(t) => average_marks(images, Anchor::Sod, t, width, height),
        Rejection::AverageAba(t) => average_marks(images, Anchor::Aba, t, width, height),
        Rejection::RegressionAkaze(t) => regression_marks(
            images,
            Strategy::Akaze,
            reference,
            t,
            width,
            height,
        ),
        Rejection::RegressionSod(t) => regression_marks(
            images,
            Strategy::Sod,
            reference,
            t,
            width,
            height,
        ),
        Rejection::RegressionAba(t) => regression_marks(
            images,
            Strategy::Aba,
            reference,
            t,
            width,
            height,
        ),
        Rejection::WidthHeight(t) => size_marks(images, reference, t),
    };
    lemma_survivors_len(images, marks, images.len() as int);
}

} // verus!
