use astrostack::detect::{average_brightness, register, register_frame, single_object_detection, sod_aba};
use astrostack::fraction::Fraction;
use astrostack::frame::Frame;
use astrostack::register::{AbaRegistration, AkazeRegistration, SodRegistration};

fn fraction(numerator: u32, denominator: u32) -> Fraction {
    Fraction::new(numerator, denominator)
}

/// A black frame with the given gray pixels `(x, y, value)`.
fn gray(width: u32, height: u32, pixels: &[(u32, u32, u16)]) -> Frame {
    let mut frame = Frame::new(width, height);
    for &(x, y, value) in pixels {
        let at = ((y * width + x) * 3) as usize;
        frame.samples[at] = value;
        frame.samples[at + 1] = value;
        frame.samples[at + 2] = value;
    }
    frame
}

fn no_box() -> SodRegistration {
    SodRegistration { left: u32::MAX, right: 0, top: u32::MAX, bottom: 0 }
}

#[test]
fn a_new_frame_is_black_and_well_formed() {
    let frame = Frame::new(4, 3);
    assert_eq!(frame.samples, vec![0u16; 36]);
    assert!(frame.is_wf());
    assert_eq!(frame.brightness_at(3, 2), 0);
    let mut short = Frame::new(4, 3);
    short.samples.pop();
    assert!(!short.is_wf());
}

#[test]
fn brightness_is_the_sum_of_the_samples() {
    let mut frame = Frame::new(2, 2);
    frame.samples[9] = 100;
    frame.samples[10] = 20;
    frame.samples[11] = 3;
    assert_eq!(frame.brightness_at(1, 1), 123);
    assert_eq!(frame.brightness_at(0, 1), 0);
}

#[test]
fn the_box_encloses_the_lit_pixels() {
    let frame = gray(8, 6, &[(2, 1, 40000), (5, 4, 50000), (3, 2, 60000), (7, 5, 1000)]);
    let sod = single_object_detection(&frame, fraction(1, 2));
    assert_eq!(sod, SodRegistration { left: 2, right: 5, top: 1, bottom: 4 });
    let sod = single_object_detection(&frame, fraction(1, 100));
    assert_eq!(sod, SodRegistration { left: 2, right: 7, top: 1, bottom: 5 });
}

#[test]
fn a_pixel_at_the_threshold_is_lit() {
    // Half of the full scale of 65535 is 32767.5.
    let frame = gray(3, 3, &[(1, 1, 32768), (2, 2, 32767)]);
    let sod = single_object_detection(&frame, fraction(1, 2));
    assert_eq!(sod, SodRegistration { left: 1, right: 1, top: 1, bottom: 1 });
    // A fifth of the full scale is 13107 exactly.
    let frame = gray(3, 3, &[(0, 2, 13107), (2, 0, 13106)]);
    let sod = single_object_detection(&frame, fraction(2, 10));
    assert_eq!(sod, SodRegistration { left: 0, right: 0, top: 2, bottom: 2 });
}

#[test]
fn the_threshold_is_on_the_average_of_the_samples() {
    let mut frame = Frame::new(2, 1);
    // Samples 30000, 0, 0: the average is 10000, a bit above 0.15 of the scale.
    frame.samples[3] = 30000;
    assert_eq!(
        single_object_detection(&frame, fraction(15, 100)),
        SodRegistration { left: 1, right: 1, top: 0, bottom: 0 }
    );
    assert_eq!(single_object_detection(&frame, fraction(16, 100)), no_box());
}

#[test]
fn a_threshold_below_zero_lights_every_pixel() {
    let frame = gray(4, 3, &[(1, 1, 100)]);
    let below = Fraction::below_zero(1, 10);
    let (sod, aba) = sod_aba(&frame, below, below);
    assert_eq!(sod, SodRegistration { left: 0, right: 3, top: 0, bottom: 2 });
    assert_eq!(aba, Some(AbaRegistration { middlex: 256, middley: 256 }));
}

#[test]
fn nothing_lit_gives_no_box_and_no_centroid() {
    let frame = gray(4, 4, &[(1, 1, 100)]);
    let (sod, aba) = sod_aba(&frame, fraction(1, 2), fraction(1, 2));
    assert_eq!(sod, no_box());
    assert_eq!(aba, None);
    let empty = Frame::new(0, 0);
    assert_eq!(sod_aba(&empty, fraction(0, 1), fraction(0, 1)), (no_box(), None));
}

#[test]
fn lit_pixels_without_weight_give_no_centroid() {
    let frame = Frame::new(3, 3);
    let (sod, aba) = sod_aba(&frame, fraction(0, 1), fraction(0, 1));
    assert_eq!(sod, SodRegistration { left: 0, right: 2, top: 0, bottom: 2 });
    assert_eq!(aba, None);
}

#[test]
fn the_centroid_weights_by_brightness() {
    // Weights 1 at x = 0 and 3 at x = 4: the mean is 3; rows 0 and 2: 1.5.
    let frame = gray(5, 3, &[(0, 0, 10000), (4, 2, 30000)]);
    let aba = average_brightness(&frame, fraction(1, 10));
    assert_eq!(aba, Some(AbaRegistration { middlex: 3 * 256, middley: 384 }));
    // With the dim pixel below the threshold only the bright one counts.
    let aba = average_brightness(&frame, fraction(3, 10));
    assert_eq!(aba, Some(AbaRegistration { middlex: 4 * 256, middley: 2 * 256 }));
}

#[test]
fn the_centroid_is_rounded_to_the_nearest_unit() {
    // Weights 1, 1, 1 at x = 0, 0, 1: the mean is 1 / 3 = 85.33 units.
    let frame = gray(2, 3, &[(0, 0, 20000), (0, 1, 20000), (1, 2, 20000)]);
    let aba = average_brightness(&frame, fraction(1, 10));
    assert_eq!(aba, Some(AbaRegistration { middlex: 85, middley: 256 }));
    // Weights 1, 1, 1 at x = 1, 1, 0: the mean is 2 / 3 = 170.67 units.
    let frame = gray(2, 3, &[(1, 0, 20000), (1, 1, 20000), (0, 2, 20000)]);
    let aba = average_brightness(&frame, fraction(1, 10));
    assert_eq!(aba, Some(AbaRegistration { middlex: 171, middley: 256 }));
}

#[test]
fn both_strategies_run_in_one_pass_with_their_own_thresholds() {
    let frame = gray(8, 6, &[(2, 1, 40000), (5, 4, 50000), (7, 5, 10000)]);
    let (sod, aba) = sod_aba(&frame, fraction(1, 2), fraction(1, 10));
    assert_eq!(sod, SodRegistration { left: 2, right: 5, top: 1, bottom: 4 });
    // (2 * 4 + 5 * 5 + 7 * 1) / 10 = 4, (1 * 4 + 4 * 5 + 5 * 1) / 10 = 2.9
    assert_eq!(aba, Some(AbaRegistration { middlex: 1024, middley: 742 }));
}

#[test]
fn a_frame_is_registered_with_what_the_caller_found() {
    let frame = gray(8, 6, &[(2, 1, 40000), (5, 4, 50000)]);
    let record = register_frame(
        "shots/0001.png".to_string(),
        Some(AkazeRegistration::Rejected),
        &frame,
        fraction(2, 10),
        fraction(2, 10),
    );
    assert_eq!(record.image, "shots/0001.png");
    assert_eq!(record.akaze, Some(AkazeRegistration::Rejected));
    assert_eq!(record.sod, SodRegistration { left: 2, right: 5, top: 1, bottom: 4 });
    assert_eq!(record.aba, average_brightness(&frame, fraction(2, 10)));
}

#[test]
fn a_batch_is_registered_in_order_with_its_reference() {
    let frames = vec![
        gray(8, 6, &[(2, 1, 40000)]),
        gray(8, 6, &[(3, 1, 40000)]),
        gray(8, 6, &[]),
    ];
    let images = vec!["a".to_string(), "b".to_string(), "c".to_string()];
    let akaze = vec![Some(AkazeRegistration::Offset(0, 0)), None, Some(AkazeRegistration::Rejected)];
    let registration = register(&images, &akaze, &frames, 1, fraction(2, 10), fraction(2, 10));
    assert_eq!(registration.reference_image, 1);
    assert_eq!(registration.images.len(), 3);
    assert_eq!(registration.reference().image, "b");
    assert_eq!(registration.images[0].sod, SodRegistration { left: 2, right: 2, top: 1, bottom: 1 });
    assert_eq!(registration.images[0].akaze, Some(AkazeRegistration::Offset(0, 0)));
    assert_eq!(registration.images[1].aba, Some(AbaRegistration { middlex: 768, middley: 256 }));
    assert_eq!(registration.images[2].sod, no_box());
    assert_eq!(registration.images[2].aba, None);
    assert_eq!(registration.images[0].offsets(registration.reference()).1, (1, 0));
}
