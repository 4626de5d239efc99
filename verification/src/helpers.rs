//! Small helpers of the stages that write files and select frames.

use crate::register::ImageRegistration;
use vstd::prelude::*;
use vstd::string::*;

verus! {

/// The path of an output file: `prefix`, an underscore and `suffix`, as in
/// `stacked` and `akaze.png` giving `stacked_akaze.png`. The prefix names a
/// file, with or without directories before it.
pub fn path_with_suffix(prefix: &str, suffix: &str) -> (path: String)
    ensures
        path@ == prefix@ + "_"@ + suffix@,
{
    let mut path = String::from_str(prefix);
    path.append("_");
    path.append(suffix);
    path
}

/// First index of the selection: `skip_files`, or the end of the sequence.
pub open spec fn clamp_start(len: int, skip_files: int) -> int {
    if skip_files < len {
        skip_files
    } else {
        len
    }
}

/// End of the selection: `num_files` behind its start, or the end of the
/// sequence.
pub open spec fn clamp_end(len: int, skip_files: int, num_files: int) -> int {
    if num_files < len - clamp_start(len, skip_files) {
        clamp_start(len, skip_files) + num_files
    } else {
        len
    }
}

/// The records that a run works on: at most `num_files` of them, behind the
/// first `skip_files`.
pub fn clamp_slice(
    images: &Vec<ImageRegistration>,
    skip_files: usize,
    num_files: usize,
) -> (selected: Vec<ImageRegistration>)
    ensures
        selected@ == images@.subrange(
            clamp_start(images.len() as int, skip_files as int),
            clamp_end(images.len() as int, skip_files as int, num_files as int),
        ),
{
    let len = images.len();
    let start = if skip_files < len {
        skip_files
    } else {
        len
    };
    let end = if num_files < len - start {
        start + num_files
    } else {
        len
    };
    let mut selected: Vec<ImageRegistration> = Vec::new();
    let mut i: usize = start;
    while i < end
        invariant
            start <= i <= end <= images.len(),
            selected@ == images@.subrange(start as int, i as int),
        decreases end - i,
    {
        selected.push(images[i].clone());
        proof {
            assert(images@.subrange(start as int, i as int).push(images@[i as int])
                =~= images@.subrange(start as int, i + 1));
        }
        i += 1;
    }
    selected
}

} // verus!
