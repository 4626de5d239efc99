use astrostack::matching::{AkazeData, Match, ARC_TOLERANCE, NO_CANDIDATE};
use astrostack::register::AkazeRegistration;

/// A descriptor whose first `ones` bits are set.
fn descriptor(ones: usize) -> [u8; 64] {
    let mut bytes = [0u8; 64];
    for bit in 0..ones {
        bytes[bit / 8] |= 1 << (bit % 8);
    }
    bytes
}

fn features(descriptions: Vec<[u8; 64]>) -> AkazeData {
    let keypoints = (0..descriptions.len()).map(|i| (256 * i as i32, 0)).collect();
    AkazeData { keypoints, descriptions }
}

fn angled(arc: i32, arcdeg: i32) -> Match {
    Match::new((0, 0), (0, 0), arc, arcdeg)
}

fn degrees(matches: &[Match]) -> Vec<i32> {
    matches.iter().map(|m| m.arcdeg()).collect()
}

#[test]
fn a_list_held_against_itself_pairs_every_descriptor_with_itself() {
    let data = features(vec![descriptor(0), descriptor(7), descriptor(100), descriptor(512)]);
    assert_eq!(data.matches_unrejected(&data), vec![(0, 0), (1, 1), (2, 2), (3, 3)]);
}

#[test]
fn a_repeated_descriptor_is_ambiguous_against_its_own_list() {
    let data = features(vec![descriptor(3), descriptor(3), descriptor(200)]);
    assert_eq!(data.matches_unrejected(&data), vec![(2, 2)]);
}

#[test]
fn the_distance_counts_differing_bits() {
    // Distances from descriptor(10): 10 to descriptor(0), 30 to descriptor(40).
    // 5 * 10 < 4 * 30 accepts the first candidate.
    let ours = features(vec![descriptor(10)]);
    let theirs = features(vec![descriptor(0), descriptor(40)]);
    assert_eq!(ours.matches_unrejected(&theirs), vec![(0, 0)]);
    // Distances 8 and 10: 5 * 8 = 40 is not below 4 * 10 = 40.
    let theirs = features(vec![descriptor(18), descriptor(0)]);
    assert_eq!(ours.matches_unrejected(&theirs), vec![]);
    // Distances 7 and 10: 35 < 40, and the nearest is the second candidate.
    let theirs = features(vec![descriptor(0), descriptor(17)]);
    assert_eq!(ours.matches_unrejected(&theirs), vec![(0, 1)]);
}

#[test]
fn the_second_best_is_the_runner_up_wherever_it_stands() {
    // Distances 20, 4, 5: the best is 4, the second-best 5, not 20.
    let ours = features(vec![descriptor(20)]);
    let theirs = features(vec![descriptor(0), descriptor(16), descriptor(25)]);
    assert_eq!(ours.matches_unrejected(&theirs), vec![]);
    // Distances 20, 4, 6: 5 * 4 = 20 < 4 * 6 = 24.
    let theirs = features(vec![descriptor(0), descriptor(16), descriptor(26)]);
    assert_eq!(ours.matches_unrejected(&theirs), vec![(0, 1)]);
}

#[test]
fn a_single_candidate_has_no_rival() {
    let ours = features(vec![descriptor(0)]);
    let theirs = features(vec![descriptor(512)]);
    assert_eq!(ours.matches_unrejected(&theirs), vec![(0, 0)]);
    assert_eq!(NO_CANDIDATE, u32::MAX);
}

#[test]
fn no_candidate_gives_no_pair() {
    let ours = features(vec![descriptor(1), descriptor(2)]);
    let theirs = features(vec![]);
    assert_eq!(ours.matches_unrejected(&theirs), vec![]);
    assert_eq!(theirs.matches_unrejected(&ours), vec![]);
}

#[test]
fn displacement_is_left_minus_right() {
    let m = Match::new((1000, 200), (900, 260), 17, -31);
    assert_eq!(m.dx(), 100);
    assert_eq!(m.dy(), -60);
    assert_eq!(m.arc(), 17);
    assert_eq!(m.arcdeg(), -31);
    let far = Match::new((i32::MAX, i32::MIN), (i32::MIN, i32::MAX), 0, 0);
    assert_eq!(far.dx(), 0xffff_ffff);
    assert_eq!(far.dy(), -0xffff_ffff);
}

#[test]
fn arc_rejection_sorts_and_keeps_what_is_near_the_median() {
    let mut matches = vec![angled(900, 90), angled(10, 1), angled(-20, -2), angled(60, 6), angled(0, 0)];
    AkazeData::reject_matches(&mut matches);
    // Sorted: -2, 0, 1, 6, 90; the median is 1; 90 is out.
    assert_eq!(degrees(&matches), vec![-2, 0, 1, 6]);
    assert_eq!(ARC_TOLERANCE, 5);
}

#[test]
fn arc_rejection_keeps_the_boundary_of_five_degrees() {
    let mut matches = vec![angled(50, 5), angled(0, 0), angled(-50, -5), angled(60, 6), angled(-60, -6)];
    AkazeData::reject_matches(&mut matches);
    assert_eq!(degrees(&matches), vec![-5, 0, 5]);
}

#[test]
fn arc_rejection_takes_the_upper_middle_of_an_even_count() {
    let mut matches = vec![angled(0, 0), angled(100, 10), angled(40, 4), angled(70, 7)];
    AkazeData::reject_matches(&mut matches);
    // Sorted: 0, 4, 7, 10; the median is 7.
    assert_eq!(degrees(&matches), vec![4, 7, 10]);
}

#[test]
fn arc_rejection_keeps_the_order_of_equal_angles() {
    let first = Match::new((1, 1), (0, 0), 5, 0);
    let second = Match::new((2, 2), (0, 0), 5, 0);
    let third = Match::new((3, 3), (0, 0), 4, 0);
    let mut matches = vec![first, second, third];
    AkazeData::reject_matches(&mut matches);
    assert_eq!(matches, vec![third, first, second]);
}

#[test]
fn arc_rejection_of_nothing_is_nothing() {
    let mut matches: Vec<Match> = Vec::new();
    AkazeData::reject_matches(&mut matches);
    assert!(matches.is_empty());
    assert!(AkazeData::matches(Vec::new()).is_empty());
}

#[test]
fn arc_rejection_again_changes_nothing_once_settled() {
    let candidates = vec![angled(900, 90), angled(10, 1), angled(-20, -2), angled(60, 6), angled(0, 0)];
    let once = AkazeData::matches(candidates);
    let twice = AkazeData::matches(once.clone());
    assert_eq!(once, twice);
}

#[test]
fn arc_rejection_again_can_remove_more_where_the_median_moves() {
    let candidates = vec![
        angled(0, 0),
        angled(1, 0),
        angled(2, 0),
        angled(50, 5),
        angled(100, 10),
        angled(900, 90),
        angled(901, 90),
    ];
    let once = AkazeData::matches(candidates);
    assert_eq!(degrees(&once), vec![0, 0, 0, 5, 10]);
    let twice = AkazeData::matches(once);
    assert_eq!(degrees(&twice), vec![0, 0, 0, 5]);
}

#[test]
fn registration_is_the_mean_displacement_of_the_survivors() {
    let candidates = vec![
        Match::new((1000, 500), (900, 520), 10, 1),
        Match::new((2000, 700), (1897, 715), 11, 1),
        Match::new((3000, 900), (2000, 100), 500, 60),
    ];
    // The third is out; the means are (100 + 103) / 2 = 101.5 and (-20 - 15) / 2 = -17.5.
    assert_eq!(AkazeData::akaze_registration(candidates), AkazeRegistration::Offset(102, -18));
}

#[test]
fn the_mean_offset_does_not_depend_on_the_order() {
    let a = Match::new((1000, 500), (900, 520), 10, 1);
    let b = Match::new((2000, 700), (1897, 715), 10, 1);
    let c = Match::new((300, 900), (280, 100), 10, 1);
    let d = Match::new((77, 12), (0, 400), 10, 1);
    let expected = AkazeRegistration::Offset(75, 94);
    assert_eq!(AkazeData::akaze_registration(vec![a, b, c, d]), expected);
    assert_eq!(AkazeData::akaze_registration(vec![d, c, b, a]), expected);
    assert_eq!(AkazeData::akaze_registration(vec![c, a, d, b]), expected);
}

#[test]
fn no_candidate_means_rejected() {
    assert_eq!(AkazeData::akaze_registration(Vec::new()), AkazeRegistration::Rejected);
}

#[test]
fn identical_frames_register_without_drift() {
    let data = features(vec![descriptor(1), descriptor(90), descriptor(300)]);
    let pairs = data.matches_unrejected(&data);
    assert_eq!(pairs.len(), 3);
    let candidates: Vec<Match> = pairs
        .iter()
        .map(|&(left, right)| {
            let from = data.keypoints[left];
            let to = data.keypoints[right];
            let dx = (from.0 - to.0) as f32;
            let dy = (from.1 - to.1) as f32;
            let arc = (dy / dx).atan();
            let arcdeg = (arc / std::f32::consts::PI * 180.).round() as i32;
            Match::new(from, to, 0, arcdeg)
        })
        .collect();
    assert_eq!(AkazeData::akaze_registration(candidates), AkazeRegistration::Offset(0, 0));
}

#[test]
fn whole_degrees_must_follow_the_keys() {
    let agree = vec![angled(-3, -1), angled(0, 0), angled(1, 0), angled(40, 3), angled(40, 3)];
    assert!(AkazeData::angles_follow_keys(&agree));
    assert!(AkazeData::angles_follow_keys(&Vec::new()));
    // One key, two angles.
    assert!(!AkazeData::angles_follow_keys(&vec![angled(7, 0), angled(7, 50)]));
    // A larger key with a smaller angle.
    assert!(!AkazeData::angles_follow_keys(&vec![angled(7, 10), angled(8, 9)]));
    assert!(!AkazeData::angles_follow_keys(&vec![angled(8, 9), angled(7, 10)]));
}

#[test]
fn registration_does_not_depend_on_the_order_of_the_candidates() {
    let candidates = vec![
        Match::new((1000, 500), (900, 520), -20, -2),
        Match::new((2000, 700), (1897, 715), 10, 1),
        Match::new((300, 900), (280, 100), 10, 1),
        Match::new((77, 12), (0, 400), 61, 6),
        Match::new((5000, 5000), (0, 0), 62, 7),
        Match::new((9, 9), (900, 0), 900, 90),
    ];
    let expected = AkazeData::akaze_registration(candidates.clone());
    // Sorted by key the whole degrees are -2, 1, 1, 6, 7, 90: the median is
    // 6, and the first and the last are out.
    assert_eq!(expected, AkazeRegistration::Offset(1300, 1349));
    for rotation in 0..6 {
        let mut shuffled = candidates.clone();
        shuffled.rotate_left(rotation);
        assert!(AkazeData::angles_follow_keys(&shuffled));
        assert_eq!(AkazeData::akaze_registration(shuffled.clone()), expected);
        shuffled.reverse();
        assert_eq!(AkazeData::akaze_registration(shuffled), expected);
    }
}
