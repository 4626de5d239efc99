//! Per-frame registration summaries.

use crate::fixed::{nearest_pixel, round_difference, round_to_pixel};
use vstd::prelude::*;

verus! {

/// Bounding box of the single bright region found in a frame, in pixels.
/// All four edges are inclusive.
#[derive(Debug, Copy, Clone, PartialEq, Eq, Structural)]
pub struct SodRegistration {
    pub left: u32,
    pub right: u32,
    pub top: u32,
    pub bottom: u32,
}

impl SodRegistration {
    /// The box encloses at least one pixel.
    pub open spec fn nonempty(&self) -> bool {
        self.left <= self.right && self.top <= self.bottom
    }

    /// The left edge is not right of the right edge.
    pub open spec fn spans_columns(&self) -> bool {
        self.left <= self.right
    }

    /// The top edge is not below the bottom edge.
    pub open spec fn spans_rows(&self) -> bool {
        self.top <= self.bottom
    }

    /// A bright region was found: the box encloses at least one pixel, and
    /// its coordinates fit a signed offset.
    pub open spec fn detected(&self) -> bool {
        self.nonempty() && self.right <= i32::MAX && self.bottom <= i32::MAX
    }

    /// Center of the box, each axis rounded down.
    pub open spec fn spec_middle(&self) -> (int, int) {
        (
            self.left + (self.right - self.left) / 2,
            self.top + (self.bottom - self.top) / 2,
        )
    }

    /// Distance from the left edge to the right edge.
    pub open spec fn spec_width(&self) -> int {
        self.right - self.left
    }

    /// Distance from the top edge to the bottom edge.
    pub open spec fn spec_height(&self) -> int {
        self.bottom - self.top
    }

    /// Displacement that moves this box's center onto the reference's center.
    pub open spec fn spec_offset(&self, reference: &SodRegistration) -> (int, int) {
        (
            reference.spec_middle().0 - self.spec_middle().0,
            reference.spec_middle().1 - self.spec_middle().1,
        )
    }

    /// Whether a bright region was found and can be compared with others.
    pub fn is_detected(&self) -> (found: bool)
        ensures
            found == self.detected(),
    {
        self.left <= self.right && self.top <= self.bottom && self.right <= 0x7fff_ffff
            && self.bottom <= 0x7fff_ffff
    }

    /// Center of the box: `left + (right - left) / 2` and
    /// `top + (bottom - top) / 2`.
    pub fn middle(&self) -> (center: (u32, u32))
        requires
            self.nonempty(),
        ensures
            center.0 == self.spec_middle().0,
            center.1 == self.spec_middle().1,
            self.left <= center.0 <= self.right,
            self.top <= center.1 <= self.bottom,
    {
        let middlex: u32 = self.left + (self.right - self.left) / 2;
        let middley: u32 = self.top + (self.bottom - self.top) / 2;
        (middlex, middley)
    }

    /// Distance from the left edge to the right edge, in pixels.
    pub fn width(&self) -> (extent: u32)
        requires
            self.spans_columns(),
        ensures
            extent == self.spec_width(),
    {
        self.right - self.left
    }

    /// Distance from the top edge to the bottom edge, in pixels.
    pub fn height(&self) -> (extent: u32)
        requires
            self.spans_rows(),
        ensures
            extent == self.spec_height(),
    {
        self.bottom - self.top
    }

    /// Offset of this frame against the reference: the difference of the
    /// centers of the two boxes, each axis by itself.
    pub fn offset(&self, reference: &SodRegistration) -> (shift: (i32, i32))
        requires
            self.detected(),
            reference.detected(),
        ensures
            shift.0 == self.spec_offset(reference).0,
            shift.1 == self.spec_offset(reference).1,
    {
        let (x1, y1) = reference.middle();
        let (x2, y2) = self.middle();
        (x1 as i32 - x2 as i32, y1 as i32 - y2 as i32)
    }
}

/// Outcome of descriptor-based registration of one frame.
#[derive(Debug, Copy, Clone, PartialEq, Eq, Structural)]
pub enum AkazeRegistration {
    /// Mean displacement of the accepted correspondences, in sub-pixel units.
    Offset(i32, i32),
    /// The strategy ran and no usable correspondence was left.
    Rejected,
}

impl AkazeRegistration {
    /// The offset in whole pixels; a rejected registration counts as no shift.
    pub open spec fn spec_offset(&self) -> (int, int) {
        match self {
            AkazeRegistration::Rejected => (0, 0),
            AkazeRegistration::Offset(dx, dy) => (
                nearest_pixel(*dx as int),
                nearest_pixel(*dy as int),
            ),
        }
    }

    /// The offset rounded to whole pixels, as it is used for compositing.
    pub fn offset(&self) -> (shift: (i32, i32))
        ensures
            shift.0 == self.spec_offset().0,
            shift.1 == self.spec_offset().1,
    {
        match self {
            AkazeRegistration::Rejected => (0, 0),
            AkazeRegistration::Offset(dx, dy) => (round_to_pixel(*dx), round_to_pixel(*dy)),
        }
    }
}

/// Brightness-weighted centroid of a frame, in sub-pixel units.
#[derive(Debug, Copy, Clone, PartialEq, Eq, Structural)]
pub struct AbaRegistration {
    pub middlex: i32,
    pub middley: i32,
}

impl AbaRegistration {
    /// Whole-pixel displacement that moves this centroid onto the
    /// reference's: the difference of the two centroids, rounded to the
    /// nearest pixel.
    pub open spec fn spec_offset(&self, reference: &AbaRegistration) -> (int, int) {
        (
            nearest_pixel(reference.middlex - self.middlex),
            nearest_pixel(reference.middley - self.middley),
        )
    }

    /// Offset of this frame against the reference: the difference of the two
    /// centroids, rounded to whole pixels.
    pub fn offset(&self, reference: &AbaRegistration) -> (shift: (i32, i32))
        ensures
            shift.0 == self.spec_offset(reference).0,
            shift.1 == self.spec_offset(reference).1,
    {
        (
            round_difference(reference.middlex, self.middlex),
            round_difference(reference.middley, self.middley),
        )
    }
}

/// Everything registration found out about one frame. The three strategies
/// stand side by side; none overrides another.
#[derive(Debug, PartialEq, Eq)]
pub struct ImageRegistration {
    /// Path of the frame's file.
    pub image: String,
    /// Descriptor-based result; `None` where the strategy was not run.
    pub akaze: Option<AkazeRegistration>,
    /// Bounding box of the bright region; empty where none was found.
    pub sod: SodRegistration,
    /// Brightness-weighted centroid; `None` where no pixel carried weight.
    pub aba: Option<AbaRegistration>,
}

impl Clone for ImageRegistration {
    fn clone(&self) -> (copy: Self)
        ensures
            copy == *self,
    {
        ImageRegistration {
            image: self.image.clone(),
            akaze: self.akaze,
            sod: self.sod,
            aba: self.aba,
        }
    }
}

impl ImageRegistration {
    /// Descriptor-based offset in whole pixels, where one is usable.
    pub open spec fn akaze_offset(&self) -> Option<(int, int)> {
        match self.akaze {
            Some(AkazeRegistration::Offset(dx, dy)) => Some(
                AkazeRegistration::Offset(dx, dy).spec_offset(),
            ),
            _ => None,
        }
    }

    /// Bounding-box offset against the reference, where both boxes were
    /// detected.
    pub open spec fn sod_offset(&self, reference: &ImageRegistration) -> Option<(int, int)> {
        if self.sod.detected() && reference.sod.detected() {
            Some(self.sod.spec_offset(&reference.sod))
        } else {
            None
        }
    }

    /// Centroid offset against the reference, where both centroids exist.
    pub open spec fn aba_offset(&self, reference: &ImageRegistration) -> Option<(int, int)> {
        match (self.aba, reference.aba) {
            (Some(own), Some(other)) => Some(own.spec_offset(&other)),
            _ => None,
        }
    }

    /// The three offsets against the reference, in the order descriptor,
    /// bounding box, centroid; a strategy without a usable result counts as
    /// no shift.
    pub open spec fn spec_offsets(&self, reference: &ImageRegistration) -> (
        (int, int),
        (int, int),
        (int, int),
    ) {
        (
            or_no_shift(self.akaze_offset()),
            or_no_shift(self.sod_offset(reference)),
            or_no_shift(self.aba_offset(reference)),
        )
    }

    /// The whole-pixel offsets of the three strategies against the
    /// reference: descriptor-based, bounding box, centroid.
    pub fn offsets(&self, reference: &ImageRegistration) -> (shifts: (
        (i32, i32),
        (i32, i32),
        (i32, i32),
    ))
        ensures
            shifts.0.0 == self.spec_offsets(reference).0.0,
            shifts.0.1 == self.spec_offsets(reference).0.1,
            shifts.1.0 == self.spec_offsets(reference).1.0,
            shifts.1.1 == self.spec_offsets(reference).1.1,
            shifts.2.0 == self.spec_offsets(reference).2.0,
            shifts.2.1 == self.spec_offsets(reference).2.1,
    {
        let akaze = match self.akaze {
            Some(AkazeRegistration::Offset(dx, dy)) => AkazeRegistration::Offset(dx, dy).offset(),
            _ => (0, 0),
        };
        let sod = if self.sod.is_detected() && reference.sod.is_detected() {
            self.sod.offset(&reference.sod)
        } else {
            (0, 0)
        };
        let aba = match (self.aba, reference.aba) {
            (Some(own), Some(other)) => own.offset(&other),
            _ => (0, 0),
        };
        (akaze, sod, aba)
    }
}

/// One of the three registration strategies.
#[derive(Debug, Copy, Clone, PartialEq, Eq, Structural)]
pub enum Strategy {
    /// Descriptor-based offset.
    Akaze,
    /// Offset of the bounding-box centers.
    Sod,
    /// Offset of the brightness centroids.
    Aba,
}

impl Strategy {
    /// The whole-pixel offset of `record` against `reference` under this
    /// strategy, where the strategy has a usable result for both.
    pub open spec fn offset(
        &self,
        record: ImageRegistration,
        reference: ImageRegistration,
    ) -> Option<(int, int)> {
        match self {
            Strategy::Akaze => record.akaze_offset(),
            Strategy::Sod => record.sod_offset(&reference),
            Strategy::Aba => record.aba_offset(&reference),
        }
    }

    /// The offsets of a sequence of records.
    pub open spec fn offsets(
        &self,
        images: Seq<ImageRegistration>,
        reference: ImageRegistration,
    ) -> Seq<Option<(int, int)>> {
        Seq::new(images.len(), |i: int| self.offset(images[i], reference))
    }

    /// The whole-pixel offset of `record` against `reference` under this
    /// strategy, or `None` where the strategy has no usable result for both.
    pub fn measure(&self, record: &ImageRegistration, reference: &ImageRegistration) -> (shift:
        Option<(i32, i32)>)
        ensures
            match shift {
                Some(by) => self.offset(*record, *reference) == Some((by.0 as int, by.1 as int)),
                None => self.offset(*record, *reference).is_none(),
            },
    {
        let (akaze, sod, aba) = record.offsets(reference);
        match self {
            Strategy::Akaze => match record.akaze {
                Some(AkazeRegistration::Offset(_, _)) => Some(akaze),
                _ => None,
            },
            Strategy::Sod => if record.sod.is_detected() && reference.sod.is_detected() {
                Some(sod)
            } else {
                None
            },
            Strategy::Aba => if record.aba.is_some() && reference.aba.is_some() {
                Some(aba)
            } else {
                None
            },
        }
    }
}

/// The offset of a strategy, or no shift where it has none.
pub open spec fn or_no_shift(offset: Option<(int, int)>) -> (int, int) {
    match offset {
        Some(shift) => shift,
        None => (0, 0),
    }
}

/// The registration of a batch: one record per frame, in acquisition order,
/// and the index of the frame all others are registered against.
#[derive(Debug, PartialEq, Eq)]
pub struct Registration {
    pub reference_image: usize,
    pub images: Vec<ImageRegistration>,
}

impl Registration {
    /// The reference frame's own record is part of the sequence.
    pub open spec fn wf(&self) -> bool {
        self.reference_image < self.images.len()
    }

    /// The record of the reference frame.
    pub fn reference(&self) -> (record: &ImageRegistration)
        requires
            self.wf(),
        ensures
            *record == self.images[self.reference_image as int],
    {
        &self.images[self.reference_image]
    }

    /// How far the offsets of the batch reach: the largest magnitude, along
    /// x and along y, of any offset of any strategy against the reference.
    pub fn extent(&self) -> (reach: (i32, i32))
        requires
            self.wf(),
        ensures
            reach.0 == reach_upto(
                self.images@,
                self.images[self.reference_image as int],
                self.images.len() as int,
            ).0,
            reach.1 == reach_upto(
                self.images@,
                self.images[self.reference_image as int],
                self.images.len() as int,
            ).1,
    {
        let reference = self.reference();
        let mut reach: (i32, i32) = (0, 0);
        let mut i: usize = 0;
        while i < self.images.len()
            invariant
                i <= self.images.len(),
                0 <= reach.0 && 0 <= reach.1,
                reach.0 == reach_upto(self.images@, *reference, i as int).0,
                reach.1 == reach_upto(self.images@, *reference, i as int).1,
            decreases self.images.len() - i,
        {
            let (a, b, c) = self.images[i].offsets(reference);
            reach = (
                larger(larger(larger(reach.0, a.0), b.0), c.0),
                larger(larger(larger(reach.1, a.1), b.1), c.1),
            );
            i += 1;
        }
        reach
    }
}

/// The larger of `reach` and the magnitude of `offset`.
pub open spec fn spec_larger(reach: int, offset: int) -> int {
    if offset >= reach {
        offset
    } else if -offset >= reach {
        -offset
    } else {
        reach
    }
}

fn larger(reach: i32, offset: i32) -> (widened: i32)
    requires
        reach >= 0,
        offset > i32::MIN,
    ensures
        widened == spec_larger(reach as int, offset as int),
        widened >= 0,
{
    if offset >= reach {
        offset
    } else if -offset >= reach {
        -offset
    } else {
        reach
    }
}

/// The largest magnitude along x and along y among the offsets of the first
/// `n` records; zero where there is none.
pub open spec fn reach_upto(
    images: Seq<ImageRegistration>,
    reference: ImageRegistration,
    n: int,
) -> (int, int)
    decreases n,
{
    if n <= 0 {
        (0, 0)
    } else {
        let before = reach_upto(images, reference, n - 1);
        let (a, b, c) = images[n - 1].spec_offsets(&reference);
        (
            spec_larger(spec_larger(spec_larger(before.0, a.0), b.0), c.0),
            spec_larger(spec_larger(spec_larger(before.1, a.1), b.1), c.1),
        )
    }
}

} // verus!
