use astrostack::helpers::{clamp_slice, path_with_suffix};
use astrostack::register::{ImageRegistration, SodRegistration};
use astrostack::wide::{magnitude, times, Wide};

fn records(count: usize) -> Vec<ImageRegistration> {
    (0..count)
        .map(|i| ImageRegistration {
            image: format!("{i}"),
            akaze: None,
            sod: SodRegistration { left: 0, right: 1, top: 0, bottom: 1 },
            aba: None,
        })
        .collect()
}

fn names(images: &[ImageRegistration]) -> Vec<&str> {
    images.iter().map(|i| i.image.as_str()).collect()
}

#[test]
fn the_suffix_follows_an_underscore() {
    assert_eq!(path_with_suffix("stacked", "akaze.png"), "stacked_akaze.png");
    assert_eq!(path_with_suffix("out/video_aligned", "sod.mp4"), "out/video_aligned_sod.mp4");
    assert_eq!(path_with_suffix("a", ""), "a_");
    assert_eq!(path_with_suffix("out/", "sod.png"), "out/_sod.png");
    assert_eq!(path_with_suffix("", "sod.png"), "_sod.png");
}

#[test]
fn the_selection_skips_first_and_then_takes() {
    let images = records(6);
    assert_eq!(names(&clamp_slice(&images, 0, 100)), vec!["0", "1", "2", "3", "4", "5"]);
    assert_eq!(names(&clamp_slice(&images, 2, 3)), vec!["2", "3", "4"]);
    assert_eq!(names(&clamp_slice(&images, 4, 3)), vec!["4", "5"]);
    assert_eq!(names(&clamp_slice(&images, 0, 0)), Vec::<&str>::new());
    assert_eq!(names(&clamp_slice(&images, 6, 1)), Vec::<&str>::new());
    assert_eq!(names(&clamp_slice(&images, 7, 1)), Vec::<&str>::new());
    assert_eq!(names(&clamp_slice(&images, usize::MAX, usize::MAX)), Vec::<&str>::new());
    assert_eq!(names(&clamp_slice(&images, 1, usize::MAX)), vec!["1", "2", "3", "4", "5"]);
}

#[test]
fn wide_products_are_exact() {
    assert_eq!(Wide::product(0, u128::MAX), Wide { hi: 0, lo: 0 });
    assert_eq!(Wide::product(1, u128::MAX), Wide { hi: 0, lo: u128::MAX });
    assert_eq!(Wide::product(2, u128::MAX), Wide { hi: 1, lo: u128::MAX - 1 });
    assert_eq!(Wide::product(u128::MAX, u128::MAX), Wide { hi: u128::MAX - 1, lo: 1 });
    assert_eq!(Wide::product(1 << 64, 1 << 64), Wide { hi: 1, lo: 0 });
    assert_eq!(Wide::product(3 << 100, 5 << 90), Wide { hi: 15 << 62, lo: 0 });
    assert_eq!(Wide::product((1 << 64) + 1, (1 << 64) + 1), Wide { hi: 1, lo: (1 << 65) + 1 });
}

#[test]
fn wide_sums_carry() {
    let a = Wide { hi: 1, lo: u128::MAX };
    let b = Wide { hi: 2, lo: 2 };
    assert_eq!(a.plus(&b), Wide { hi: 4, lo: 1 });
    assert_eq!(b.plus(&b), Wide { hi: 4, lo: 4 });
}

#[test]
fn wide_scaling_carries() {
    let a = Wide { hi: 3, lo: 1 << 127 };
    assert_eq!(a.scale(4), Wide { hi: 14, lo: 0 });
    assert_eq!(a.scale(0), Wide { hi: 0, lo: 0 });
    assert_eq!(a.scale(1), a);
}

#[test]
fn wide_magnitudes_compare() {
    let small = Wide { hi: 1, lo: u128::MAX };
    let large = Wide { hi: 2, lo: 0 };
    assert!(large.ge(&small));
    assert!(!small.ge(&large));
    assert!(small.ge(&small));
    assert!(Wide { hi: 2, lo: 1 }.ge(&large));
}

#[test]
fn magnitudes_and_products_of_words() {
    assert_eq!(magnitude(-5), 5);
    assert_eq!(magnitude(5), 5);
    assert_eq!(magnitude(i128::MIN), 1 << 127);
    assert_eq!(times(u64::MAX, u64::MAX), (u64::MAX as u128) * (u64::MAX as u128));
}
