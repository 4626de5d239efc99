//! Additive compositing of registered frames.

use crate::frame::{lemma_pixel_index, pixel_count, pixel_index, Frame, CHANNELS, MAX_SIDE};
use crate::register::{ImageRegistration, Registration, Strategy};
use vstd::arithmetic::mul::lemma_mul_upper_bound;
use vstd::prelude::*;

verus! {

/// Most frames that one canvas can take.
pub const MAX_FRAMES: u64 = 0x8000_0000_0000;

/// An accumulator of frames: for every sample of every pixel the sum of what
/// the frames stacked so far put there, and the number of those frames.
#[derive(Debug, Clone, PartialEq, Eq)]
pub struct Canvas {
    pub width: u32,
    pub height: u32,
    pub sums: Vec<u64>,
    pub frames: u64,
}

impl Canvas {
    /// The canvas holds exactly its pixels, and no sum is larger than the
    /// frames stacked so far can have made it.
    pub open spec fn wf(&self) -> bool {
        &&& self.width <= MAX_SIDE
        &&& self.height <= MAX_SIDE
        &&& self.sums.len() == pixel_count(self.width as int, self.height as int) * CHANNELS
        &&& self.frames <= MAX_FRAMES
        &&& forall|i: int| 0 <= i < self.sums.len() ==> self.sums[i] <= self.frames * 0xffff
    }

    /// The sums as mathematical integers.
    pub open spec fn totals(&self) -> Seq<int> {
        Seq::new(self.sums.len() as nat, |i: int| self.sums[i] as int)
    }

    /// An empty canvas of the given size.
    pub fn new(width: u32, height: u32) -> (canvas: Canvas)
        requires
            width <= MAX_SIDE,
            height <= MAX_SIDE,
            pixel_count(width as int, height as int) * CHANNELS <= usize::MAX,
        ensures
            canvas.wf(),
            canvas.width == width,
            canvas.height == height,
            canvas.frames == 0,
            canvas.totals() == blank(width as int, height as int),
    {
        let ghost total = pixel_count(width as int, height as int) * CHANNELS;
        let mut sums: Vec<u64> = Vec::new();
        let mut row: u32 = 0;
        while row < height
            invariant
                row <= height,
                total == width * height * 3,
                total <= usize::MAX,
                sums.len() == row * width * 3,
                forall|i: int| 0 <= i < sums.len() ==> sums[i] == 0,
            decreases height - row,
        {
            let mut column: u32 = 0;
            while column < width
                invariant
                    column <= width,
                    row < height,
                    sums.len() == (row * width + column) * 3,
                    forall|i: int| 0 <= i < sums.len() ==> sums[i] == 0,
                decreases width - column,
            {
                sums.push(0);
                sums.push(0);
                sums.push(0);
                column += 1;
            }
            assert((row * width + width) * 3 == (row + 1) * width * 3) by (nonlinear_arith);
            row += 1;
        }
        assert(height * width * 3 == width * height * 3) by (nonlinear_arith);
        let canvas = Canvas { width, height, sums, frames: 0 };
        assert(canvas.totals() =~= blank(width as int, height as int));
        canvas
    }
}

/// The sums of a canvas on which nothing was stacked.
pub open spec fn blank(width: int, height: int) -> Seq<int> {
    Seq::new((pixel_count(width, height) * CHANNELS) as nat, |i: int| 0int)
}

/// What `img`, shifted by `(dx, dy)` pixels, adds at place `i` of the sums of
/// a canvas that is `width` pixels wide: the sample of the pixel that the
/// shift moves there, or nothing where no pixel of `img` lands there.
pub open spec fn contribution(img: &Frame, width: int, dx: int, dy: int, i: int) -> int {
    let pixel = i / (CHANNELS as int);
    let channel = i % (CHANNELS as int);
    let x = pixel % width - dx;
    let y = pixel / width - dy;
    if 0 <= x < img.width && 0 <= y < img.height {
        img.sample(pixel_index(img.width as int, x, y), channel)
    } else {
        0
    }
}

/// The sums of a canvas after `img` was stacked on it at the offset
/// `(dx, dy)`.
pub open spec fn stacked(totals: Seq<int>, width: int, img: &Frame, dx: int, dy: int) -> Seq<int> {
    Seq::new(totals.len(), |i: int| totals[i] + contribution(img, width, dx, dy, i))
}

/// The sums of a canvas after `img` was stacked on it at `shift`, or
/// unchanged where there is no shift.
pub open spec fn stacked_at(
    totals: Seq<int>,
    width: int,
    img: &Frame,
    shift: Option<(int, int)>,
) -> Seq<int> {
    match shift {
        Some(by) => stacked(totals, width, img, by.0, by.1),
        None => totals,
    }
}

/// The sums of two canvases of one size added place by place.
pub open spec fn merged(totals: Seq<int>, other: Seq<int>) -> Seq<int> {
    Seq::new(totals.len(), |i: int| totals[i] + other[i])
}

/// Stacking is commutative: two frames stacked in either order give the same
/// canvas.
pub proof fn lemma_stacking_commutes(
    totals: Seq<int>,
    width: int,
    a: &Frame,
    a_shift: (int, int),
    b: &Frame,
    b_shift: (int, int),
)
    ensures
        stacked(stacked(totals, width, a, a_shift.0, a_shift.1), width, b, b_shift.0, b_shift.1)
            == stacked(
            stacked(totals, width, b, b_shift.0, b_shift.1),
            width,
            a,
            a_shift.0,
            a_shift.1,
        ),
{
    assert(stacked(
        stacked(totals, width, a, a_shift.0, a_shift.1),
        width,
        b,
        b_shift.0,
        b_shift.1,
    ) =~= stacked(
        stacked(totals, width, b, b_shift.0, b_shift.1),
        width,
        a,
        a_shift.0,
        a_shift.1,
    ));
}

/// Merging is commutative and associative, and a frame may be stacked before
/// or after a merge: partial canvases can be combined in any grouping.
pub proof fn lemma_merging_regroups(
    a: Seq<int>,
    b: Seq<int>,
    c: Seq<int>,
    width: int,
    img: &Frame,
    shift: (int, int),
)
    requires
        a.len() == b.len(),
        b.len() == c.len(),
    ensures
        merged(a, b) == merged(b, a),
        merged(merged(a, b), c) == merged(a, merged(b, c)),
        merged(stacked(a, width, img, shift.0, shift.1), b) == stacked(
            merged(a, b),
            width,
            img,
            shift.0,
            shift.1,
        ),
        merged(a, blank_like(a)) == a,
{
    assert(merged(a, b) =~= merged(b, a));
    assert(merged(merged(a, b), c) =~= merged(a, merged(b, c)));
    assert(merged(stacked(a, width, img, shift.0, shift.1), b) =~= stacked(
        merged(a, b),
        width,
        img,
        shift.0,
        shift.1,
    ));
    assert(merged(a, blank_like(a)) =~= a);
}

/// As many zero sums as `totals` has sums.
pub open spec fn blank_like(totals: Seq<int>) -> Seq<int> {
    Seq::new(totals.len(), |i: int| 0int)
}

/// Adds `img` to `buf`, shifted by `(dx, dy)` pixels: the sample of pixel
/// `(x, y)` of `img` is added to pixel `(x + dx, y + dy)` of `buf`. Pixels
/// that the shift moves off the canvas are dropped.
pub fn stack_into(buf: &mut Canvas, img: &Frame, dx: i32, dy: i32)
    requires
        old(buf).wf(),
        img.wf(),
        old(buf).frames < MAX_FRAMES,
    ensures
        final(buf).wf(),
        final(buf).width == old(buf).width,
        final(buf).height == old(buf).height,
        final(buf).frames == old(buf).frames + 1,
        final(buf).totals() == stacked(
            old(buf).totals(),
            old(buf).width as int,
            img,
            dx as int,
            dy as int,
        ),
{
    let width = buf.width;
    let height = buf.height;
    let ghost before = buf.sums@;
    let ghost frames = buf.frames;
    let ghost n = pixel_count(width as int, height as int);
    proof {
        assert(width * height <= 0x80_0000 * 0x80_0000) by (nonlinear_arith)
            requires
                width <= 0x80_0000,
                height <= 0x80_0000,
        ;
        lemma_mul_upper_bound(frames as int, 0x8000_0000_0000, 0xffff, 0xffff);
    }
    let mut y: u32 = 0;
    while y < height
        invariant
            y <= height,
            img.wf(),
            buf.width == width,
            buf.height == height,
            buf.frames == frames,
            frames < MAX_FRAMES,
            width <= MAX_SIDE,
            height <= MAX_SIDE,
            n == width * height,
            n <= 0x4000_0000_0000,
            y * width <= n,
            buf.sums.len() == n * 3,
            before.len() == n * 3,
            forall|i: int| 0 <= i < before.len() ==> before[i] <= frames * 0xffff,
            forall|i: int|
                0 <= i < (y * width) * 3 ==> #[trigger] buf.sums[i] == before[i] + contribution(
                    img,
                    width as int,
                    dx as int,
                    dy as int,
                    i,
                ),
            forall|i: int| (y * width) * 3 <= i < n * 3 ==> #[trigger] buf.sums[i] == before[i],
        decreases height - y,
    {
        proof {
            assert((y + 1) * width <= n) by (nonlinear_arith)
                requires
                    y < height,
                    n == width * height,
            ;
            assert((y + 1) * width == y * width + width) by (nonlinear_arith);
        }
        let mut x: u32 = 0;
        while x < width
            invariant
                x <= width,
                y < height,
                img.wf(),
                buf.width == width,
                buf.height == height,
                buf.frames == frames,
                frames < MAX_FRAMES,
                width <= MAX_SIDE,
                height <= MAX_SIDE,
                n == width * height,
                n <= 0x4000_0000_0000,
                y * width + width <= n,
                buf.sums.len() == n * 3,
                before.len() == n * 3,
                forall|i: int| 0 <= i < before.len() ==> before[i] <= frames * 0xffff,
                forall|i: int|
                    0 <= i < (y * width + x) * 3 ==> #[trigger] buf.sums[i] == before[i]
                        + contribution(img, width as int, dx as int, dy as int, i),
                forall|i: int|
                    (y * width + x) * 3 <= i < n * 3 ==> #[trigger] buf.sums[i] == before[i],
            decreases width - x,
        {
            let source_x: i64 = x as i64 - dx as i64;
            let source_y: i64 = y as i64 - dy as i64;
            let ghost pixel = pixel_index(width as int, x as int, y as int);
            proof {
                lemma_pixel_index(width as int, height as int, x as int, y as int);
            }
            let at: usize = ((y as usize) * (width as usize) + (x as usize)) * 3;
            if 0 <= source_x && source_x < img.width as i64 && 0 <= source_y && source_y
                < img.height as i64 {
                proof {
                    lemma_pixel_index(
                        img.width as int,
                        img.height as int,
                        source_x as int,
                        source_y as int,
                    );
                    assert(img.width * img.height <= 0x80_0000 * 0x80_0000) by (nonlinear_arith)
                        requires
                            img.width <= 0x80_0000,
                            img.height <= 0x80_0000,
                    ;
                }
                let from: usize = ((source_y as usize) * (img.width as usize) + (
                source_x as usize)) * 3;
                let ghost earlier = buf.sums@;
                let red: u64 = buf.sums[at] + img.samples[from] as u64;
                let green: u64 = buf.sums[at + 1] + img.samples[from + 1] as u64;
                let blue: u64 = buf.sums[at + 2] + img.samples[from + 2] as u64;
                buf.sums.set(at, red);
                buf.sums.set(at + 1, green);
                buf.sums.set(at + 2, blue);
                proof {
                    let done = (y * width + x + 1) * 3;
                    assert forall|i: int| 0 <= i < done implies #[trigger] buf.sums[i] == before[i]
                        + contribution(img, width as int, dx as int, dy as int, i) by {
                        if i >= at {
                            assert(i / 3 == pixel);
                        } else {
                            assert(buf.sums[i] == earlier[i]);
                        }
                    }
                }
            } else {
                proof {
                    let done = (y * width + x + 1) * 3;
                    assert forall|i: int| 0 <= i < done implies #[trigger] buf.sums[i] == before[i]
                        + contribution(img, width as int, dx as int, dy as int, i) by {
                        if i >= at {
                            assert(i / 3 == pixel);
                        }
                    }
                }
            }
            x += 1;
        }
        y += 1;
    }
    buf.frames = buf.frames + 1;
    proof {
        assert(height * width == n) by (nonlinear_arith)
            requires
                n == width * height,
        ;
        assert(buf.totals() =~= stacked(
            old(buf).totals(),
            width as int,
            img,
            dx as int,
            dy as int,
        ));
        assert forall|i: int| 0 <= i < buf.sums.len() implies buf.sums[i] <= buf.frames
            * 0xffff by {
            assert(buf.sums[i] == before[i] + contribution(
                img,
                width as int,
                dx as int,
                dy as int,
                i,
            ));
            lemma_contribution_bounded(img, width as int, dx as int, dy as int, i);
        }
    }
}

/// A frame adds at most one full sample at any place.
pub proof fn lemma_contribution_bounded(img: &Frame, width: int, dx: int, dy: int, i: int)
    ensures
        0 <= contribution(img, width, dx, dy, i) <= 0xffff,
{
}

/// Adds `other` to `buf` place by place: the reduction step that combines
/// the partial canvases of several workers.
pub fn merge_into(buf: &mut Canvas, other: &Canvas)
    requires
        old(buf).wf(),
        other.wf(),
        old(buf).width == other.width,
        old(buf).height == other.height,
        old(buf).frames + other.frames <= MAX_FRAMES,
    ensures
        final(buf).wf(),
        final(buf).width == old(buf).width,
        final(buf).height == old(buf).height,
        final(buf).frames == old(buf).frames + other.frames,
        final(buf).totals() == merged(old(buf).totals(), other.totals()),
{
    let ghost before = buf.sums@;
    let ghost frames = buf.frames;
    let n = buf.sums.len();
    let mut i: usize = 0;
    while i < n
        invariant
            i <= n,
            n == buf.sums.len(),
            n == other.sums.len(),
            n == before.len(),
            buf.width == old(buf).width,
            buf.height == old(buf).height,
            buf.frames == frames,
            frames + other.frames <= MAX_FRAMES,
            forall|k: int| 0 <= k < n ==> before[k] <= frames * 0xffff,
            forall|k: int| 0 <= k < n ==> other.sums[k] <= other.frames * 0xffff,
            forall|k: int| 0 <= k < i ==> #[trigger] buf.sums[k] == before[k] + other.sums[k],
            forall|k: int| i <= k < n ==> #[trigger] buf.sums[k] == before[k],
        decreases n - i,
    {
        let sum: u64 = buf.sums[i] + other.sums[i];
        buf.sums.set(i, sum);
        i += 1;
    }
    buf.frames = buf.frames + other.frames;
    proof {
        assert(buf.totals() =~= merged(old(buf).totals(), other.totals()));
    }
}

/// Stacks `img` at `shift`, or leaves `buf` alone where there is no shift.
pub fn stack_at(buf: &mut Canvas, img: &Frame, shift: Option<(i32, i32)>)
    requires
        old(buf).wf(),
        img.wf(),
        old(buf).frames < MAX_FRAMES,
    ensures
        final(buf).wf(),
        final(buf).width == old(buf).width,
        final(buf).height == old(buf).height,
        final(buf).frames == old(buf).frames + (if shift.is_some() {
            1int
        } else {
            0int
        }),
        final(buf).totals() == stacked_at(
            old(buf).totals(),
            old(buf).width as int,
            img,
            lifted(shift),
        ),
{
    match shift {
        Some((dx, dy)) => stack_into(buf, img, dx, dy),
        None => {},
    }
}

/// A machine offset as a mathematical one.
pub open spec fn lifted(shift: Option<(i32, i32)>) -> Option<(int, int)> {
    match shift {
        Some(by) => Some((by.0 as int, by.1 as int)),
        None => None,
    }
}

/// Stacks one frame on the three canvases, one for each strategy, each at
/// the offset that its strategy found for the frame. A strategy that has no
/// usable result for the frame or for the reference leaves its canvas as it
/// is. The canvases do not interact.
pub fn stack_frame(
    akaze: &mut Canvas,
    sod: &mut Canvas,
    aba: &mut Canvas,
    image: &Frame,
    reg: &ImageRegistration,
    reference: &ImageRegistration,
)
    requires
        old(akaze).wf(),
        old(sod).wf(),
        old(aba).wf(),
        image.wf(),
        old(akaze).frames < MAX_FRAMES,
        old(sod).frames < MAX_FRAMES,
        old(aba).frames < MAX_FRAMES,
    ensures
        follows(*old(akaze), *final(akaze), image, Strategy::Akaze.offset(*reg, *reference)),
        follows(*old(sod), *final(sod), image, Strategy::Sod.offset(*reg, *reference)),
        follows(*old(aba), *final(aba), image, Strategy::Aba.offset(*reg, *reference)),
{
    let shift = Strategy::Akaze.measure(reg, reference);
    stack_at(akaze, image, shift);
    let shift = Strategy::Sod.measure(reg, reference);
    stack_at(sod, image, shift);
    let shift = Strategy::Aba.measure(reg, reference);
    stack_at(aba, image, shift);
}

/// Whether `after` is `before` with `image` stacked on it at `shift`, where
/// there is a shift, and `before` unchanged where there is none.
pub open spec fn follows(
    before: Canvas,
    after: Canvas,
    image: &Frame,
    shift: Option<(int, int)>,
) -> bool {
    &&& after.wf()
    &&& after.width == before.width
    &&& after.height == before.height
    &&& after.frames == before.frames + (if shift.is_some() {
        1int
    } else {
        0int
    })
    &&& after.totals() == stacked_at(before.totals(), before.width as int, image, shift)
}

/// The sums of the canvas of `strategy` after the first `n` frames were
/// stacked on an empty canvas, each at its offset against `reference`.
pub open spec fn stack_upto(
    images: Seq<ImageRegistration>,
    frames: Seq<Frame>,
    reference: ImageRegistration,
    strategy: Strategy,
    width: int,
    height: int,
    n: int,
) -> Seq<int>
    decreases n,
{
    if n <= 0 {
        blank(width, height)
    } else {
        stacked_at(
            stack_upto(images, frames, reference, strategy, width, height, n - 1),
            width,
            &frames[n - 1],
            strategy.offset(images[n - 1], reference),
        )
    }
}

/// Only the first `n` records and frames count.
proof fn lemma_stack_upto_prefix(
    images: Seq<ImageRegistration>,
    frames: Seq<Frame>,
    others: Seq<ImageRegistration>,
    other_frames: Seq<Frame>,
    reference: ImageRegistration,
    strategy: Strategy,
    width: int,
    height: int,
    n: int,
)
    requires
        0 <= n <= images.len(),
        n <= others.len(),
        n <= frames.len(),
        n <= other_frames.len(),
        forall|i: int| 0 <= i < n ==> images[i] == others[i] && frames[i] == other_frames[i],
    ensures
        stack_upto(images, frames, reference, strategy, width, height, n) == stack_upto(
            others,
            other_frames,
            reference,
            strategy,
            width,
            height,
            n,
        ),
        stack_upto(images, frames, reference, strategy, width, height, n).len() == blank(
            width,
            height,
        ).len(),
    decreases n,
{
    if n > 0 {
        lemma_stack_upto_prefix(
            images,
            frames,
            others,
            other_frames,
            reference,
            strategy,
            width,
            height,
            n - 1,
        );
    }
}

/// A batch may be split between workers: stacking two parts on canvases of
/// their own and merging the two gives what stacking the whole batch on one
/// canvas gives.
pub proof fn lemma_stack_splits(
    images: Seq<ImageRegistration>,
    frames: Seq<Frame>,
    more: Seq<ImageRegistration>,
    more_frames: Seq<Frame>,
    reference: ImageRegistration,
    strategy: Strategy,
    width: int,
    height: int,
)
    requires
        images.len() == frames.len(),
        more.len() == more_frames.len(),
    ensures
        stack_upto(
            images + more,
            frames + more_frames,
            reference,
            strategy,
            width,
            height,
            (images.len() + more.len()) as int,
        ) == merged(
            stack_upto(images, frames, reference, strategy, width, height, images.len() as int),
            stack_upto(more, more_frames, reference, strategy, width, height, more.len() as int),
        ),
    decreases more.len(),
{
    let all = images + more;
    let all_frames = frames + more_frames;
    let n = images.len() as int;
    let m = more.len() as int;
    let left = stack_upto(images, frames, reference, strategy, width, height, n);
    lemma_stack_upto_prefix(images, frames, all, all_frames, reference, strategy, width, height, n);
    if m == 0 {
        assert(merged(left, blank(width, height)) =~= left);
    } else {
        let fewer = more.drop_last();
        let fewer_frames = more_frames.drop_last();
        lemma_stack_splits(images, frames, fewer, fewer_frames, reference, strategy, width, height);
        lemma_stack_upto_prefix(
            all,
            all_frames,
            images + fewer,
            frames + fewer_frames,
            reference,
            strategy,
            width,
            height,
            n + m - 1,
        );
        lemma_stack_upto_prefix(
            more,
            more_frames,
            fewer,
            fewer_frames,
            reference,
            strategy,
            width,
            height,
            m - 1,
        );
        let right = stack_upto(fewer, fewer_frames, reference, strategy, width, height, m - 1);
        let shift = strategy.offset(more[m - 1], reference);
        assert(all[n + m - 1] == more[m - 1]);
        assert(all_frames[n + m - 1] == more_frames[m - 1]);
        assert(merged(left, stacked_at(right, width, &more_frames[m - 1], shift)) =~= stacked_at(
            merged(left, right),
            width,
            &more_frames[m - 1],
            shift,
        ));
    }
}

/// Stacks the frames of a registered batch: `frames[i]` is the decoded frame
/// of the record `images[i]`. Returns the canvases of the descriptor-based,
/// the bounding-box and the centroid strategy, each `width` by `height`
/// pixels, on which every frame was stacked at its offset against the
/// reference record of `registration`.
pub fn stack(
    registration: &Registration,
    images: &Vec<ImageRegistration>,
    frames: &Vec<Frame>,
    width: u32,
    height: u32,
) -> (canvases: (Canvas, Canvas, Canvas))
    requires
        registration.wf(),
        images.len() == frames.len(),
        images.len() <= MAX_FRAMES,
        forall|i: int| 0 <= i < frames.len() ==> (#[trigger] frames[i]).wf(),
        width <= MAX_SIDE,
        height <= MAX_SIDE,
        pixel_count(width as int, height as int) * CHANNELS <= usize::MAX,
    ensures
        canvases.0.wf() && canvases.1.wf() && canvases.2.wf(),
        canvases.0.width == width && canvases.0.height == height,
        canvases.1.width == width && canvases.1.height == height,
        canvases.2.width == width && canvases.2.height == height,
        canvases.0.totals() == stack_upto(
            images@,
            frames@,
            registration.images[registration.reference_image as int],
            Strategy::Akaze,
            width as int,
            height as int,
            images.len() as int,
        ),
        canvases.1.totals() == stack_upto(
            images@,
            frames@,
            registration.images[registration.reference_image as int],
            Strategy::Sod,
            width as int,
            height as int,
            images.len() as int,
        ),
        canvases.2.totals() == stack_upto(
            images@,
            frames@,
            registration.images[registration.reference_image as int],
            Strategy::Aba,
            width as int,
            height as int,
            images.len() as int,
        ),
{
    let reference = registration.reference();
    let mut akaze = Canvas::new(width, height);
    let mut sod = Canvas::new(width, height);
    let mut aba = Canvas::new(width, height);
    let mut i: usize = 0;
    while i < images.len()
        invariant
            i <= images.len(),
            images.len() == frames.len(),
            images.len() <= MAX_FRAMES,
            forall|k: int| 0 <= k < frames.len() ==> (#[trigger] frames[k]).wf(),
            akaze.wf() && sod.wf() && aba.wf(),
            akaze.frames <= i && sod.frames <= i && aba.frames <= i,
            akaze.width == width && akaze.height == height,
            sod.width == width && sod.height == height,
            aba.width == width && aba.height == height,
            akaze.totals() == stack_upto(
                images@,
                frames@,
                *reference,
                Strategy::Akaze,
                width as int,
                height as int,
                i as int,
            ),
            sod.totals() == stack_upto(
                images@,
                frames@,
                *reference,
                Strategy::Sod,
                width as int,
                height as int,
                i as int,
            ),
            aba.totals() == stack_upto(
                images@,
                frames@,
                *reference,
                Strategy::Aba,
                width as int,
                height as int,
                i as int,
            ),
        decreases images.len() - i,
    {
        stack_frame(&mut akaze, &mut sod, &mut aba, &frames[i], &images[i], reference);
        i += 1;
    }
    (akaze, sod, aba)
}

} // verus!
