//! Verified core of a lucky-imaging stacker: frame registration, outlier
//! rejection and additive compositing, all in exact integer arithmetic.
//!
//! A batch of near-identical frames is registered against one reference
//! frame by three strategies that stand side by side ([`matching`] for
//! feature descriptors, [`detect`] for the bounding box of the bright region
//! and for the brightness-weighted centroid). The records that result
//! ([`register`]) pass through a pipeline of rules that drop inconsistent
//! frames ([`rejection`]), and the frames that are left are added up at their
//! offsets ([`stack`]).
//!
//! Frames hold 16-bit samples ([`frame`]). Pixel positions that need more
//! than whole-pixel precision are counted in sub-pixel units,
//! [`fixed::SUBPIXEL`] of them to a pixel, and thresholds are exact fractions
//! ([`fraction`]), so that every decision is the same on every machine and
//! in every order of work.

pub mod config;
pub mod descriptor;
pub mod detect;
pub mod fixed;
pub mod fraction;
pub mod frame;
pub mod helpers;
pub mod matching;
pub mod register;
pub mod rejection;
pub mod stack;
pub mod wide;
