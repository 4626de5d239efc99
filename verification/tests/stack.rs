use astrostack::frame::Frame;
use astrostack::register::{
    AbaRegistration, AkazeRegistration, ImageRegistration, Registration, SodRegistration,
};
use astrostack::stack::{merge_into, stack, stack_at, stack_frame, stack_into, Canvas};

/// A frame whose samples count up from `start`.
fn ramp(width: u32, height: u32, start: u16) -> Frame {
    let mut frame = Frame::new(width, height);
    for (i, sample) in frame.samples.iter_mut().enumerate() {
        *sample = start + i as u16;
    }
    frame
}

/// The three sums of pixel `(x, y)`.
fn pixel(canvas: &Canvas, x: u32, y: u32) -> [u64; 3] {
    let at = ((y * canvas.width + x) * 3) as usize;
    [canvas.sums[at], canvas.sums[at + 1], canvas.sums[at + 2]]
}

/// The three samples of pixel `(x, y)`, widened.
fn source(frame: &Frame, x: u32, y: u32) -> [u64; 3] {
    let at = ((y * frame.width + x) * 3) as usize;
    [frame.samples[at] as u64, frame.samples[at + 1] as u64, frame.samples[at + 2] as u64]
}

fn record(akaze: Option<AkazeRegistration>, sod: SodRegistration, aba: Option<AbaRegistration>) -> ImageRegistration {
    ImageRegistration { image: "frame".to_string(), akaze, sod, aba }
}

#[test]
fn a_new_canvas_is_empty() {
    let canvas = Canvas::new(3, 2);
    assert_eq!(canvas.sums, vec![0u64; 18]);
    assert_eq!(canvas.frames, 0);
    assert_eq!((canvas.width, canvas.height), (3, 2));
}

#[test]
fn stacking_without_shift_adds_every_sample() {
    let frame = ramp(3, 2, 100);
    let mut canvas = Canvas::new(3, 2);
    stack_into(&mut canvas, &frame, 0, 0);
    let widened: Vec<u64> = frame.samples.iter().map(|&s| s as u64).collect();
    assert_eq!(canvas.sums, widened);
    assert_eq!(canvas.frames, 1);
}

#[test]
fn stacking_moves_pixels_by_the_offset() {
    let frame = ramp(4, 3, 1);
    let mut canvas = Canvas::new(4, 3);
    stack_into(&mut canvas, &frame, 1, -1);
    // Pixel (x, y) of the frame lands on (x + 1, y - 1).
    assert_eq!(pixel(&canvas, 1, 0), source(&frame, 0, 1));
    assert_eq!(pixel(&canvas, 3, 1), source(&frame, 2, 2));
    // Nothing lands in the first column or in the last row.
    assert_eq!(pixel(&canvas, 0, 0), [0, 0, 0]);
    assert_eq!(pixel(&canvas, 0, 1), [0, 0, 0]);
    assert_eq!(pixel(&canvas, 2, 2), [0, 0, 0]);
    let total: u64 = canvas.sums.iter().sum();
    let expected: u64 = (0..3u32)
        .flat_map(|x| (1..3u32).map(move |y| (x, y)))
        .map(|(x, y)| source(&frame, x, y).iter().sum::<u64>())
        .sum();
    assert_eq!(total, expected);
}

#[test]
fn stacking_off_the_canvas_adds_nothing() {
    let frame = ramp(4, 3, 1);
    let mut canvas = Canvas::new(4, 3);
    stack_into(&mut canvas, &frame, 4, 0);
    stack_into(&mut canvas, &frame, 0, -3);
    stack_into(&mut canvas, &frame, i32::MAX, i32::MIN);
    stack_into(&mut canvas, &frame, i32::MIN, i32::MAX);
    assert_eq!(canvas.sums, vec![0u64; 36]);
    assert_eq!(canvas.frames, 4);
}

#[test]
fn stacking_clips_a_frame_of_another_size() {
    let frame = ramp(2, 2, 10);
    let mut canvas = Canvas::new(3, 3);
    stack_into(&mut canvas, &frame, 2, 2);
    assert_eq!(pixel(&canvas, 2, 2), source(&frame, 0, 0));
    let total: u64 = canvas.sums.iter().sum();
    assert_eq!(total, 10 + 11 + 12);
}

#[test]
fn stacking_in_either_order_gives_the_same_canvas() {
    let a = ramp(4, 3, 1);
    let b = ramp(4, 3, 500);
    let mut first = Canvas::new(4, 3);
    stack_into(&mut first, &a, 1, 0);
    stack_into(&mut first, &b, -1, 2);
    let mut second = Canvas::new(4, 3);
    stack_into(&mut second, &b, -1, 2);
    stack_into(&mut second, &a, 1, 0);
    assert_eq!(first, second);
}

#[test]
fn two_identical_frames_stack_to_twice_the_frame() {
    let frame = ramp(4, 3, 7);
    let mut canvas = Canvas::new(4, 3);
    stack_into(&mut canvas, &frame, 0, 0);
    stack_into(&mut canvas, &frame, 0, 0);
    let doubled: Vec<u64> = frame.samples.iter().map(|&s| 2 * s as u64).collect();
    assert_eq!(canvas.sums, doubled);
    assert_eq!(canvas.frames, 2);
}

#[test]
fn merging_adds_place_by_place() {
    let a = ramp(4, 3, 1);
    let b = ramp(4, 3, 500);
    let mut left = Canvas::new(4, 3);
    stack_into(&mut left, &a, 1, 0);
    let mut right = Canvas::new(4, 3);
    stack_into(&mut right, &b, -1, 2);
    merge_into(&mut left, &right);
    let mut both = Canvas::new(4, 3);
    stack_into(&mut both, &a, 1, 0);
    stack_into(&mut both, &b, -1, 2);
    assert_eq!(left, both);
    let before = left.clone();
    merge_into(&mut left, &Canvas::new(4, 3));
    assert_eq!(left, before);
}

#[test]
fn no_shift_leaves_the_canvas_alone() {
    let frame = ramp(2, 2, 10);
    let mut canvas = Canvas::new(2, 2);
    stack_at(&mut canvas, &frame, None);
    assert_eq!(canvas, Canvas::new(2, 2));
    stack_at(&mut canvas, &frame, Some((0, 0)));
    assert_eq!(canvas.frames, 1);
    assert_eq!(pixel(&canvas, 1, 1), source(&frame, 1, 1));
}

#[test]
fn each_strategy_stacks_on_its_own_canvas() {
    let frame = ramp(6, 6, 1);
    let reference = record(
        None,
        SodRegistration { left: 2, right: 4, top: 2, bottom: 4 },
        Some(AbaRegistration { middlex: 256 * 3, middley: 256 * 3 }),
    );
    let shifted = record(
        Some(AkazeRegistration::Offset(300, -200)),
        SodRegistration { left: 3, right: 5, top: 2, bottom: 4 },
        Some(AbaRegistration { middlex: 256 * 3, middley: 256 * 5 }),
    );
    let mut akaze = Canvas::new(6, 6);
    let mut sod = Canvas::new(6, 6);
    let mut aba = Canvas::new(6, 6);
    stack_frame(&mut akaze, &mut sod, &mut aba, &frame, &shifted, &reference);
    let mut expected = Canvas::new(6, 6);
    stack_into(&mut expected, &frame, 1, -1);
    assert_eq!(akaze, expected);
    let mut expected = Canvas::new(6, 6);
    stack_into(&mut expected, &frame, -1, 0);
    assert_eq!(sod, expected);
    let mut expected = Canvas::new(6, 6);
    stack_into(&mut expected, &frame, 0, -2);
    assert_eq!(aba, expected);
}

#[test]
fn a_strategy_without_a_result_stacks_nothing() {
    let frame = ramp(6, 6, 1);
    let none = SodRegistration { left: u32::MAX, right: 0, top: u32::MAX, bottom: 0 };
    let reference = record(None, SodRegistration { left: 2, right: 4, top: 2, bottom: 4 }, None);
    let rejected = record(Some(AkazeRegistration::Rejected), none, Some(AbaRegistration { middlex: 0, middley: 0 }));
    let mut akaze = Canvas::new(6, 6);
    let mut sod = Canvas::new(6, 6);
    let mut aba = Canvas::new(6, 6);
    stack_frame(&mut akaze, &mut sod, &mut aba, &frame, &rejected, &reference);
    assert_eq!(akaze, Canvas::new(6, 6));
    assert_eq!(sod, Canvas::new(6, 6));
    assert_eq!(aba, Canvas::new(6, 6));
}

#[test]
fn a_batch_is_stacked_against_its_reference() {
    let at = |x: u32| {
        record(
            Some(AkazeRegistration::Offset(0, 0)),
            SodRegistration { left: x, right: x + 2, top: 1, bottom: 3 },
            None,
        )
    };
    let registration = Registration { reference_image: 0, images: vec![at(2), at(3), at(1)] };
    let frames = vec![ramp(6, 5, 1), ramp(6, 5, 200), ramp(6, 5, 400)];
    let (akaze, sod, aba) = stack(&registration, &registration.images, &frames, 6, 5);
    let mut expected = Canvas::new(6, 5);
    stack_into(&mut expected, &frames[0], 0, 0);
    stack_into(&mut expected, &frames[1], 0, 0);
    stack_into(&mut expected, &frames[2], 0, 0);
    assert_eq!(akaze, expected);
    let mut expected = Canvas::new(6, 5);
    stack_into(&mut expected, &frames[0], 0, 0);
    stack_into(&mut expected, &frames[1], -1, 0);
    stack_into(&mut expected, &frames[2], 1, 0);
    assert_eq!(sod, expected);
    assert_eq!(aba, Canvas::new(6, 5));
}

#[test]
fn identical_frames_without_drift_stack_to_twice_the_frame() {
    let frame = ramp(5, 4, 3);
    let same = record(
        Some(AkazeRegistration::Offset(0, 0)),
        SodRegistration { left: 1, right: 3, top: 1, bottom: 2 },
        Some(AbaRegistration { middlex: 512, middley: 384 }),
    );
    let registration = Registration { reference_image: 0, images: vec![same.clone(), same] };
    let frames = vec![frame.clone(), frame.clone()];
    let (akaze, sod, aba) = stack(&registration, &registration.images, &frames, 5, 4);
    let doubled: Vec<u64> = frame.samples.iter().map(|&s| 2 * s as u64).collect();
    assert_eq!(akaze.sums, doubled);
    assert_eq!(sod.sums, doubled);
    assert_eq!(aba.sums, doubled);
}

#[test]
fn a_batch_split_between_workers_stacks_to_the_same_canvases() {
    let at = |x: u32, y: u32| {
        record(
            Some(AkazeRegistration::Offset(256 * x as i32, -256 * y as i32)),
            SodRegistration { left: x, right: x + 2, top: y, bottom: y + 2 },
            Some(AbaRegistration { middlex: 300 * x as i32, middley: 200 * y as i32 }),
        )
    };
    let images = vec![at(2, 1), at(3, 2), at(1, 1), at(4, 0), at(2, 3)];
    let registration = Registration { reference_image: 0, images: images.clone() };
    let frames: Vec<Frame> = (0..5).map(|i| ramp(6, 5, 100 * i + 1)).collect();
    let whole = stack(&registration, &images, &frames, 6, 5);
    for cut in 0..=5 {
        let (mut akaze, mut sod, mut aba) =
            stack(&registration, &images[..cut].to_vec(), &frames[..cut].to_vec(), 6, 5);
        let rest = stack(&registration, &images[cut..].to_vec(), &frames[cut..].to_vec(), 6, 5);
        merge_into(&mut akaze, &rest.0);
        merge_into(&mut sod, &rest.1);
        merge_into(&mut aba, &rest.2);
        assert_eq!((akaze, sod, aba), whole);
    }
}
