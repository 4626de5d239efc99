use astrostack::fraction::Fraction;
use astrostack::register::{
    AbaRegistration, AkazeRegistration, ImageRegistration, Registration, SodRegistration, Strategy,
};
use astrostack::rejection::{average, regression, reject, width_height, Anchor, Rejection};

fn fraction(numerator: u32, denominator: u32) -> Fraction {
    Fraction::new(numerator, denominator)
}

fn no_box() -> SodRegistration {
    SodRegistration { left: u32::MAX, right: 0, top: u32::MAX, bottom: 0 }
}

/// A record whose bounding box is 20 by 20 pixels around `(x, y)`.
fn centered(name: &str, x: u32, y: u32) -> ImageRegistration {
    ImageRegistration {
        image: name.to_string(),
        akaze: None,
        sod: SodRegistration { left: x - 10, right: x + 10, top: y - 10, bottom: y + 10 },
        aba: None,
    }
}

/// A record whose centroid lies at `(x, y)` sub-pixel units.
fn weighted(name: &str, x: i32, y: i32) -> ImageRegistration {
    ImageRegistration {
        image: name.to_string(),
        akaze: None,
        sod: no_box(),
        aba: Some(AbaRegistration { middlex: x, middley: y }),
    }
}

/// A record whose descriptor-based offset is `(x, y)` pixels.
fn shifted(name: &str, x: i32, y: i32) -> ImageRegistration {
    ImageRegistration {
        image: name.to_string(),
        akaze: Some(AkazeRegistration::Offset(256 * x, 256 * y)),
        sod: no_box(),
        aba: None,
    }
}

/// A record whose bounding box is `width` by `height` pixels.
fn sized(name: &str, width: u32, height: u32) -> ImageRegistration {
    ImageRegistration {
        image: name.to_string(),
        akaze: None,
        sod: SodRegistration { left: 10, right: 10 + width, top: 20, bottom: 20 + height },
        aba: None,
    }
}

fn names(images: &[ImageRegistration]) -> Vec<&str> {
    images.iter().map(|i| i.image.as_str()).collect()
}

/// Nine offsets on the line y = x, but for the fifth, which lies 4 above it.
fn trend() -> Vec<ImageRegistration> {
    vec![
        shifted("0", 0, 0),
        shifted("1", 1, 1),
        shifted("2", 2, 2),
        shifted("3", 3, 3),
        shifted("4", 4, 8),
        shifted("5", 5, 5),
        shifted("6", 6, 6),
        shifted("7", 7, 7),
        shifted("8", 8, 8),
    ]
}

#[test]
fn size_deviation_of_three_percent() {
    let reference = sized("ref", 100, 100);
    let images = vec![sized("a", 103, 100)];
    assert_eq!(names(&width_height(&images, fraction(5, 100), &reference)), vec!["a"]);
    assert!(width_height(&images, fraction(2, 100), &reference).is_empty());
}

#[test]
fn size_deviation_is_rejected_from_the_threshold_on() {
    let reference = sized("ref", 100, 200);
    let images = vec![
        sized("same", 100, 200),
        sized("wider", 103, 200),
        sized("narrower", 97, 200),
        sized("taller", 100, 206),
        sized("lower", 100, 195),
    ];
    assert_eq!(
        names(&width_height(&images, fraction(3, 100), &reference)),
        vec!["same", "lower"]
    );
    assert_eq!(
        names(&width_height(&images, fraction(31, 1000), &reference)),
        vec!["same", "wider", "narrower", "taller", "lower"]
    );
    assert_eq!(
        names(&width_height(&images, fraction(25, 1000), &reference)),
        vec!["same"]
    );
}

#[test]
fn size_rule_drops_a_record_without_a_box() {
    let reference = sized("ref", 100, 100);
    let mut missing = sized("missing", 100, 100);
    missing.sod = no_box();
    let images = vec![sized("a", 100, 100), missing];
    assert_eq!(names(&width_height(&images, fraction(2, 100), &reference)), vec!["a"]);
}

#[test]
fn size_rule_does_not_apply_without_a_reference_box() {
    let mut reference = sized("ref", 100, 100);
    reference.sod = no_box();
    let images = vec![sized("a", 1, 500), sized("b", 100, 100)];
    assert_eq!(names(&width_height(&images, fraction(2, 100), &reference)), vec!["a", "b"]);
}

#[test]
fn a_reference_of_zero_extent_is_deviated_from_by_nothing() {
    let reference = sized("ref", 0, 100);
    let images = vec![sized("a", 50, 100), sized("b", 0, 150)];
    assert_eq!(names(&width_height(&images, fraction(2, 100), &reference)), vec!["a"]);
}

#[test]
fn windowed_average_exact_threshold() {
    // Frame 30 by 40 pixels: diagonal 50. The middle box center lies
    // (60 - 45, 50 - 50) from the mean of 30, 60, 45: 15 pixels, 0.3 diagonals.
    let images = vec![centered("a", 30, 50), centered("b", 60, 50), centered("c", 45, 50)];
    assert_eq!(names(&average(&images, fraction(3, 10), 30, 40, Anchor::Sod)), vec!["a", "c"]);
    assert_eq!(
        names(&average(&images, fraction(31, 100), 30, 40, Anchor::Sod)),
        vec!["a", "b", "c"]
    );
    assert_eq!(names(&average(&images, fraction(29, 100), 30, 40, Anchor::Sod)), vec!["a", "c"]);
}

#[test]
fn windowed_average_measures_both_axes() {
    // Middle at (3, 4) pixels from the mean: 5 pixels, a tenth of the diagonal.
    let images = vec![centered("a", 100, 100), centered("b", 109, 112), centered("c", 100, 100)];
    // ex = 2 * 109 - 200 = 18 = 3 * 6, ey = 24 = 3 * 8: distance 10, 0.2 diagonals.
    assert_eq!(names(&average(&images, fraction(2, 10), 30, 40, Anchor::Sod)), vec!["a", "c"]);
    assert_eq!(
        names(&average(&images, fraction(201, 1000), 30, 40, Anchor::Sod)),
        vec!["a", "b", "c"]
    );
}

#[test]
fn windowed_average_over_centroids_counts_sub_pixels() {
    // Centroids at 0, 7.5 and 0 pixels: the middle lies 5 pixels from the mean.
    let images = vec![weighted("a", 0, 0), weighted("b", 1920, 0), weighted("c", 0, 0)];
    assert_eq!(names(&average(&images, fraction(1, 10), 30, 40, Anchor::Aba)), vec!["a", "c"]);
    assert_eq!(
        names(&average(&images, fraction(101, 1000), 30, 40, Anchor::Aba)),
        vec!["a", "b", "c"]
    );
}

#[test]
fn windowed_average_never_drops_the_ends() {
    let images = vec![
        centered("a", 1000, 1000),
        centered("b", 50, 50),
        centered("c", 52, 50),
        centered("d", 51, 50),
        centered("e", 2000, 2000),
    ];
    // With a threshold of zero every evaluated record is dropped: the three
    // in the middle, never the two at the ends.
    assert_eq!(names(&average(&images, fraction(0, 1), 100, 100, Anchor::Sod)), vec!["a", "e"]);
}

#[test]
fn windowed_average_passes_short_sequences() {
    let none: Vec<ImageRegistration> = Vec::new();
    assert!(average(&none, fraction(0, 1), 100, 100, Anchor::Sod).is_empty());
    let one = vec![centered("a", 50, 50)];
    assert_eq!(names(&average(&one, fraction(0, 1), 100, 100, Anchor::Sod)), vec!["a"]);
    let two = vec![centered("a", 50, 50), centered("b", 500, 500)];
    assert_eq!(names(&average(&two, fraction(0, 1), 100, 100, Anchor::Sod)), vec!["a", "b"]);
}

#[test]
fn windowed_average_passes_a_window_with_a_missing_anchor() {
    let mut missing = centered("b", 90, 50);
    missing.sod = no_box();
    let images = vec![centered("a", 50, 50), missing, centered("c", 51, 50), centered("d", 500, 50)];
    // "b" has no box, so neither "b" nor "c" is evaluated.
    assert_eq!(
        names(&average(&images, fraction(0, 1), 100, 100, Anchor::Sod)),
        vec!["a", "b", "c", "d"]
    );
}

#[test]
fn windowed_average_passes_a_frame_without_a_diagonal() {
    let images = vec![centered("a", 50, 50), centered("b", 90, 50), centered("c", 50, 50)];
    assert_eq!(
        names(&average(&images, fraction(0, 1), 0, 0, Anchor::Sod)),
        vec!["a", "b", "c"]
    );
}

#[test]
fn drifting_frame_is_accepted_and_outlier_rejected() {
    // Box centers at (50, 50), (51, 50) and (90, 50) in a frame of 100 by 100.
    // The middle one lies 12.67 pixels from the mean, 0.0896 diagonals.
    let images = vec![centered("first", 50, 50), centered("drift", 51, 50), centered("outlier", 90, 50)];
    let kept = average(&images, fraction(1, 10), 100, 100, Anchor::Sod);
    assert_eq!(names(&kept), vec!["first", "drift", "outlier"]);
    // Once the outlier is the middle of a window, it lies 25.67 pixels from
    // the mean of 51, 90 and 52, 0.18 diagonals, and is dropped.
    let images = vec![
        centered("first", 50, 50),
        centered("drift", 51, 50),
        centered("outlier", 90, 50),
        centered("next", 52, 50),
    ];
    let kept = average(&images, fraction(1, 10), 100, 100, Anchor::Sod);
    assert_eq!(names(&kept), vec!["first", "drift", "next"]);
}

#[test]
fn windowed_regression_exact_threshold() {
    // Offsets along y = 3 x / 4, but for the center (0, 45). The fit keeps the
    // slope 3 / 4 and passes through (0, 5); the center lies 40 above it and
    // 40 * 4 / 5 = 32 away from it. Divided by width + height = 100: 0.32.
    let images: Vec<ImageRegistration> = (0..9)
        .map(|i| shifted(&format!("{i}"), 4 * i - 16, if i == 4 { 45 } else { 3 * i - 12 }))
        .collect();
    let reference = shifted("ref", 0, 0);
    let kept = regression(&images, fraction(32, 100), 50, 50, Strategy::Akaze, &reference);
    assert_eq!(names(&kept), vec!["0", "1", "2", "3", "5", "6", "7", "8"]);
    let kept = regression(&images, fraction(321, 1000), 50, 50, Strategy::Akaze, &reference);
    assert_eq!(kept.len(), 9);
    let kept = regression(&images, fraction(319, 1000), 50, 50, Strategy::Akaze, &reference);
    assert_eq!(kept.len(), 8);
}

#[test]
fn windowed_regression_measures_the_distance_to_the_fit() {
    // The fit through the nine offsets has slope 1. The center (4, 8) lies
    // 32 / (9 * sqrt(2)) = 2.514 away from it; divided by width + height = 100
    // that is 0.02514.
    let images = trend();
    let reference = shifted("ref", 0, 0);
    let kept = regression(&images, fraction(251, 10000), 50, 50, Strategy::Akaze, &reference);
    assert_eq!(names(&kept), vec!["0", "1", "2", "3", "5", "6", "7", "8"]);
    let kept = regression(&images, fraction(252, 10000), 50, 50, Strategy::Akaze, &reference);
    assert_eq!(kept.len(), 9);
}

#[test]
fn windowed_regression_does_not_add_up_the_axes() {
    // The center (0, 8) lies 64 / (9 * sqrt(2)) = 5.03 from the fit, 0.025 of
    // width + height = 200; along the axes it is 3.56 each, 0.036 together.
    let images: Vec<ImageRegistration> = (0..9)
        .map(|i| shifted(&format!("{i}"), i - 4, if i == 4 { 8 } else { i - 4 }))
        .collect();
    let reference = shifted("ref", 0, 0);
    let kept = regression(&images, fraction(3, 100), 100, 100, Strategy::Akaze, &reference);
    assert_eq!(kept.len(), 9);
    let kept = regression(&images, fraction(25, 1000), 100, 100, Strategy::Akaze, &reference);
    assert_eq!(kept.len(), 8);
}

#[test]
fn windowed_regression_second_example() {
    // Offsets along y = x / 2, the center (8, 5) one above: it lies 0.795
    // from the fit, 0.004969 of width + height = 160.
    let images = vec![
        shifted("0", 0, 0),
        shifted("1", 2, 1),
        shifted("2", 4, 2),
        shifted("3", 6, 3),
        shifted("4", 8, 5),
        shifted("5", 10, 5),
        shifted("6", 12, 6),
        shifted("7", 14, 7),
        shifted("8", 16, 8),
    ];
    let reference = shifted("ref", 0, 0);
    let kept = regression(&images, fraction(496, 100000), 100, 60, Strategy::Akaze, &reference);
    assert_eq!(kept.len(), 8);
    let kept = regression(&images, fraction(497, 100000), 100, 60, Strategy::Akaze, &reference);
    assert_eq!(kept.len(), 9);
}

#[test]
fn windowed_regression_never_drops_the_first_and_last_four() {
    let mut images = trend();
    images.push(shifted("9", 900, -900));
    images.push(shifted("10", 10, 10));
    let reference = shifted("ref", 0, 0);
    // Eleven records: only those at 4, 5 and 6 are evaluated. With a
    // threshold of zero each of them is dropped unless its fit is degenerate.
    let kept = regression(&images, fraction(0, 1), 50, 50, Strategy::Akaze, &reference);
    assert_eq!(names(&kept), vec!["0", "1", "2", "3", "7", "8", "9", "10"]);
}

#[test]
fn windowed_regression_passes_short_sequences() {
    let mut images = trend();
    images.pop();
    let reference = shifted("ref", 0, 0);
    let kept = regression(&images, fraction(0, 1), 50, 50, Strategy::Akaze, &reference);
    assert_eq!(kept.len(), 8);
}

#[test]
fn windowed_regression_passes_a_fit_without_slope() {
    // All offsets share one x: the fit is vertical.
    let images: Vec<ImageRegistration> =
        (0..9).map(|i| shifted(&format!("{i}"), 3, if i == 4 { 50 } else { i })).collect();
    let reference = shifted("ref", 0, 0);
    let kept = regression(&images, fraction(0, 1), 50, 50, Strategy::Akaze, &reference);
    assert_eq!(kept.len(), 9);
}

#[test]
fn windowed_regression_passes_a_level_fit() {
    // y does not depend on x: the fit is level.
    let images: Vec<ImageRegistration> =
        (0..9).map(|i| shifted(&format!("{i}"), i, if i == 1 || i == 7 { 9 } else { 0 })).collect();
    let reference = shifted("ref", 0, 0);
    let kept = regression(&images, fraction(0, 1), 50, 50, Strategy::Akaze, &reference);
    assert_eq!(kept.len(), 9);
}

#[test]
fn windowed_regression_passes_a_window_with_a_missing_offset() {
    let mut images = trend();
    images[0].akaze = Some(AkazeRegistration::Rejected);
    let reference = shifted("ref", 0, 0);
    let kept = regression(&images, fraction(0, 1), 50, 50, Strategy::Akaze, &reference);
    assert_eq!(kept.len(), 9);
    let mut images = trend();
    images[8].akaze = None;
    let kept = regression(&images, fraction(0, 1), 50, 50, Strategy::Akaze, &reference);
    assert_eq!(kept.len(), 9);
}

#[test]
fn windowed_regression_reads_offsets_against_the_reference() {
    // Box centers move along y = x but for the fifth; the reference box is
    // centered at (100, 100), so the offsets are (100 - x, 100 - y).
    let images: Vec<ImageRegistration> = (0..9u32)
        .map(|i| centered(&format!("{i}"), 50 + i, if i == 4 { 58 } else { 50 + i }))
        .collect();
    let reference = centered("ref", 100, 100);
    let kept = regression(&images, fraction(251, 10000), 50, 50, Strategy::Sod, &reference);
    assert_eq!(names(&kept), vec!["0", "1", "2", "3", "5", "6", "7", "8"]);
    let kept = regression(&images, fraction(252, 10000), 50, 50, Strategy::Sod, &reference);
    assert_eq!(kept.len(), 9);
    // Without a reference box there are no offsets, and nothing is dropped.
    let mut blind = centered("ref", 100, 100);
    blind.sod = no_box();
    let kept = regression(&images, fraction(0, 1), 50, 50, Strategy::Sod, &blind);
    assert_eq!(kept.len(), 9);
}

#[test]
fn windowed_regression_handles_the_largest_offsets() {
    let far = i32::MAX / 256;
    let images: Vec<ImageRegistration> = (0..9)
        .map(|i| {
            let sign = if i % 2 == 0 { 1 } else { -1 };
            shifted(&format!("{i}"), sign * far, if i == 4 { -far } else { sign * far })
        })
        .collect();
    let reference = shifted("ref", 0, 0);
    let kept = regression(&images, fraction(u32::MAX, 1), u32::MAX, u32::MAX, Strategy::Akaze, &reference);
    assert_eq!(kept.len(), 9);
    let kept = regression(&images, fraction(0, u32::MAX), u32::MAX, u32::MAX, Strategy::Akaze, &reference);
    assert_eq!(kept.len(), 8);
}

#[test]
fn windowed_regression_handles_the_largest_box_offsets() {
    let far = i32::MAX as u32;
    let at = |name: &str, x: u32, y: u32| ImageRegistration {
        image: name.to_string(),
        akaze: None,
        sod: SodRegistration { left: x, right: x, top: y, bottom: y },
        aba: None,
    };
    let images: Vec<ImageRegistration> = (0..9)
        .map(|i| {
            let x = if i % 2 == 0 { 0 } else { far };
            at(&format!("{i}"), x, if i == 4 { far } else { x })
        })
        .collect();
    let reference = at("ref", 0, 0);
    let kept = regression(&images, fraction(u32::MAX, 1), u32::MAX, u32::MAX, Strategy::Sod, &reference);
    assert_eq!(kept.len(), 9);
    let kept = regression(&images, fraction(0, 1), 1, 0, Strategy::Sod, &reference);
    assert_eq!(kept.len(), 8);
    // The center lies 1341522398.99 pixels from the fit, and width + height = 1.
    let kept = regression(&images, fraction(1_341_522_398, 1), 1, 0, Strategy::Sod, &reference);
    assert_eq!(kept.len(), 8);
    let kept = regression(&images, fraction(1_341_522_399, 1), 1, 0, Strategy::Sod, &reference);
    assert_eq!(kept.len(), 9);
}

#[test]
fn a_threshold_below_zero_is_reached_by_everything_that_is_measured() {
    let below = Fraction::below_zero(1, 2);
    // The average still spares the ends.
    let images = vec![centered("a", 50, 50), centered("b", 50, 50), centered("c", 50, 50)];
    assert_eq!(names(&average(&images, below, 100, 100, Anchor::Sod)), vec!["a", "c"]);
    assert_eq!(names(&average(&images, fraction(0, 1), 100, 100, Anchor::Sod)), vec!["a", "c"]);
    assert_eq!(average(&images, below, 0, 0, Anchor::Sod).len(), 3);
    // The regression still spares the first and last four, and degenerate fits.
    let reference = shifted("ref", 0, 0);
    assert_eq!(regression(&trend(), below, 50, 50, Strategy::Akaze, &reference).len(), 8);
    let level: Vec<ImageRegistration> = (0..9).map(|i| shifted(&format!("{i}"), i, 0)).collect();
    assert_eq!(regression(&level, below, 50, 50, Strategy::Akaze, &reference).len(), 9);
    // The size rule drops every record, also one of the reference's size.
    let reference = sized("ref", 100, 100);
    let images = vec![sized("same", 100, 100), sized("other", 90, 100)];
    assert!(width_height(&images, below, &reference).is_empty());
    assert!(width_height(&images, fraction(0, 1), &reference).is_empty());
    assert_eq!(names(&width_height(&images, fraction(1, 100), &reference)), vec!["same"]);
}

#[test]
fn rules_run_in_the_order_given() {
    let registration = Registration { reference_image: 0, images: vec![sized("ref", 100, 100)] };
    let mut odd = centered("odd", 90, 50);
    odd.sod = SodRegistration { left: 60, right: 120, top: 40, bottom: 60 };
    let images = vec![centered("a", 50, 50), odd, centered("c", 51, 50), centered("d", 52, 50)];
    let reference_sized = Registration { reference_image: 0, images: vec![centered("ref", 50, 50)] };
    // The size rule first removes "odd"; the average then sees 50, 51, 52.
    let rules = [Rejection::WidthHeight(fraction(2, 100)), Rejection::AverageSod(fraction(1, 100))];
    let kept = reject(&reference_sized, images.clone(), &rules, 100, 100);
    assert_eq!(names(&kept), vec!["a", "c", "d"]);
    // The average first: "odd" pulls the mean, and "c" goes with it.
    let rules = [Rejection::AverageSod(fraction(1, 100)), Rejection::WidthHeight(fraction(2, 100))];
    let kept = reject(&reference_sized, images.clone(), &rules, 100, 100);
    assert_eq!(names(&kept), vec!["a", "d"]);
    // No rule, no change.
    let kept = reject(&registration, images.clone(), &[], 100, 100);
    assert_eq!(kept, images);
}

#[test]
fn every_rule_can_be_run() {
    let reference = centered("ref", 50, 50);
    let registration = Registration { reference_image: 0, images: vec![reference] };
    let images: Vec<ImageRegistration> = (0..12u32)
        .map(|i| {
            let mut record = centered(&format!("{i}"), 50 + i, 50 + i);
            record.akaze = Some(AkazeRegistration::Offset(256 * i as i32, 256 * i as i32));
            record.aba = Some(AbaRegistration { middlex: 256 * i as i32, middley: 256 * i as i32 });
            record
        })
        .collect();
    let rules = [
        Rejection::AverageSod(fraction(1, 100)),
        Rejection::AverageAba(fraction(1, 100)),
        Rejection::RegressionAkaze(fraction(1, 1000)),
        Rejection::RegressionSod(fraction(1, 1000)),
        Rejection::RegressionAba(fraction(1, 1000)),
        Rejection::WidthHeight(fraction(2, 100)),
    ];
    let kept = reject(&registration, images.clone(), &rules, 1000, 1000);
    assert_eq!(kept, images);
}
