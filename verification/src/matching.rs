//! Correspondences between the features of two frames.

use crate::descriptor::{distance, hamming, lemma_hamming_bound, lemma_hamming_zero, Descriptor};
use crate::fixed::{lemma_quotient_bound, nearest_quotient};
use crate::register::AkazeRegistration;
use vstd::prelude::*;
use vstd::seq_lib::{commutative_foldl, lemma_fold_left_permutation};

verus! {

/// The features found in one frame: where each lies, in sub-pixel units, and
/// what it looks like.
#[derive(Debug, Clone, PartialEq, Eq)]
pub struct AkazeData {
    pub keypoints: Vec<(i32, i32)>,
    pub descriptions: Vec<Descriptor>,
}

/// Distance given for the best and the second-best candidate where there
/// is none.
pub const NO_CANDIDATE: u32 = u32::MAX;

/// Distances from `descriptor` to each of `candidates`.
pub open spec fn distances(descriptor: Descriptor, candidates: Seq<Descriptor>) -> Seq<int> {
    Seq::new(candidates.len(), |j: int| hamming(descriptor@, candidates[j]@) as int)
}

/// Index of the nearest among the first `n` candidates, the earliest of
/// several equally near ones.
pub open spec fn best_upto(distance: Seq<int>, n: int) -> int
    decreases n,
{
    if n <= 1 {
        0
    } else {
        let best = best_upto(distance, n - 1);
        if distance[n - 1] < distance[best] {
            n - 1
        } else {
            best
        }
    }
}

/// Second-best distance among the first `n` candidates: the smallest distance
/// of a candidate other than the best one.
pub open spec fn second_upto(distance: Seq<int>, n: int) -> int
    decreases n,
{
    if n <= 1 {
        NO_CANDIDATE as int
    } else {
        let best = best_upto(distance, n - 1);
        let second = second_upto(distance, n - 1);
        if distance[n - 1] < distance[best] {
            distance[best]
        } else if distance[n - 1] < second {
            distance[n - 1]
        } else {
            second
        }
    }
}

/// Index of the nearest candidate.
pub open spec fn best_index(distance: Seq<int>) -> int {
    best_upto(distance, distance.len() as int)
}

/// Distance of the nearest candidate.
pub open spec fn best_distance(distance: Seq<int>) -> int {
    if distance.len() == 0 {
        NO_CANDIDATE as int
    } else {
        distance[best_index(distance)]
    }
}

/// Distance of the second-nearest candidate.
pub open spec fn second_distance(distance: Seq<int>) -> int {
    second_upto(distance, distance.len() as int)
}

/// The ratio test: the best distance is less than 0.8 times the second-best.
pub open spec fn unambiguous(best: int, second: int) -> bool {
    5 * best < 4 * second
}

/// What [`best_upto`] and [`second_upto`] select among the first `n`
/// candidates: the best is the earliest candidate of least distance, and the
/// second-best distance bounds every other candidate from below and is
/// reached by one of them, if there is another.
pub proof fn lemma_nearest_two(distance: Seq<int>, n: int)
    requires
        1 <= n <= distance.len(),
        forall|j: int| 0 <= j < n ==> distance[j] <= NO_CANDIDATE,
    ensures
        0 <= best_upto(distance, n) < n,
        forall|j: int| 0 <= j < n ==> distance[best_upto(distance, n)] <= #[trigger] distance[j],
        forall|j: int|
            0 <= j < best_upto(distance, n) ==> distance[best_upto(distance, n)]
                < #[trigger] distance[j],
        forall|j: int|
            0 <= j < n && j != best_upto(distance, n) ==> second_upto(distance, n)
                <= #[trigger] distance[j],
        distance[best_upto(distance, n)] <= second_upto(distance, n) <= NO_CANDIDATE,
        n == 1 ==> second_upto(distance, n) == NO_CANDIDATE,
        n > 1 ==> exists|j: int|
            0 <= j < n && j != best_upto(distance, n) && #[trigger] distance[j] == second_upto(
                distance,
                n,
            ),
    decreases n,
{
    if n > 1 {
        lemma_nearest_two(distance, n - 1);
        let best = best_upto(distance, n - 1);
        let second = second_upto(distance, n - 1);
        if distance[n - 1] < distance[best] {
            assert(distance[best] == second_upto(distance, n));
        } else if distance[n - 1] < second {
            assert(distance[n - 1] == second_upto(distance, n));
        } else {
            if n - 1 == 1 {
                assert(distance[n - 1] == second_upto(distance, n));
            } else {
                let j = choose|j: int|
                    0 <= j < n - 1 && j != best && #[trigger] distance[j] == second;
                assert(distance[j] == second_upto(distance, n));
            }
        }
    }
}

/// The pairs that the ratio test accepts among the first `n` descriptors of
/// `ours`: each with the index of its nearest descriptor in `theirs`.
pub open spec fn pairs_upto(ours: Seq<Descriptor>, theirs: Seq<Descriptor>, n: int) -> Seq<
    (usize, usize),
>
    decreases n,
{
    if n <= 0 {
        Seq::empty()
    } else {
        let earlier = pairs_upto(ours, theirs, n - 1);
        let distance = distances(ours[n - 1], theirs);
        if unambiguous(best_distance(distance), second_distance(distance)) {
            earlier.push(((n - 1) as usize, best_index(distance) as usize))
        } else {
            earlier
        }
    }
}

/// No descriptor occurs twice in `list`.
pub open spec fn distinct(list: Seq<Descriptor>) -> bool {
    forall|a: int, b: int| 0 <= a < b < list.len() ==> list[a]@ != list[b]@
}

/// Held against its own list, a descriptor finds itself at distance 0 and
/// passes the ratio test, where no descriptor occurs twice in the list.
pub proof fn lemma_self_match(list: Seq<Descriptor>, i: int)
    requires
        distinct(list),
        0 <= i < list.len(),
    ensures
        best_index(distances(list[i], list)) == i,
        best_distance(distances(list[i], list)) == 0,
        unambiguous(
            best_distance(distances(list[i], list)),
            second_distance(distances(list[i], list)),
        ),
{
    let distance = distances(list[i], list);
    let n = list.len() as int;
    assert forall|j: int| 0 <= j < n implies 0 <= #[trigger] distance[j] <= NO_CANDIDATE && (
    distance[j] == 0 <==> j == i) by {
        lemma_hamming_bound(list[i]@, list[j]@);
        lemma_hamming_zero(list[i]@, list[j]@);
    }
    lemma_nearest_two(distance, n);
    assert(distance[best_index(distance)] <= distance[i]);
}

/// A list of descriptors without repetition, held against itself, pairs every
/// descriptor with itself.
pub proof fn lemma_self_pairs(list: Seq<Descriptor>, n: int)
    requires
        distinct(list),
        0 <= n <= list.len() <= usize::MAX,
    ensures
        pairs_upto(list, list, n) == Seq::new(n as nat, |i: int| (i as usize, i as usize)),
    decreases n,
{
    if n > 0 {
        lemma_self_pairs(list, n - 1);
        lemma_self_match(list, n - 1);
        assert(Seq::new((n - 1) as nat, |i: int| (i as usize, i as usize)).push(
            ((n - 1) as usize, (n - 1) as usize),
        ) =~= Seq::new(n as nat, |i: int| (i as usize, i as usize)));
    } else {
        assert(pairs_upto(list, list, n) =~= Seq::new(
            n as nat,
            |i: int| (i as usize, i as usize),
        ));
    }
}

/// Finds the nearest and the second-nearest of `candidates`.
fn nearest_two(descriptor: &Descriptor, candidates: &Vec<Descriptor>) -> (found: (usize, u32, u32))
    ensures
        found.0 == best_index(distances(*descriptor, candidates@)),
        found.1 == best_distance(distances(*descriptor, candidates@)),
        found.2 == second_distance(distances(*descriptor, candidates@)),
        candidates.len() > 0 ==> found.0 < candidates.len(),
{
    let ghost all = distances(*descriptor, candidates@);
    let mut best: (u32, usize) = (NO_CANDIDATE, 0);
    let mut vice: u32 = NO_CANDIDATE;
    let mut j: usize = 0;
    while j < candidates.len()
        invariant
            j <= candidates.len(),
            all == distances(*descriptor, candidates@),
            best.1 == best_upto(all, j as int),
            vice == second_upto(all, j as int),
            j > 0 ==> best.1 < j && best.0 == all[best.1 as int],
            j == 0 ==> best.0 == NO_CANDIDATE,
        decreases candidates.len() - j,
    {
        let dist = distance(descriptor, &candidates[j]);
        assert(dist == all[j as int]);
        if dist < best.0 {
            vice = best.0;
            best = (dist, j);
        } else if dist < vice {
            vice = dist;
        }
        j += 1;
    }
    (best.1, best.0, vice)
}

impl AkazeData {
    /// Every feature has both a position and a descriptor.
    pub open spec fn wf(&self) -> bool {
        self.keypoints.len() == self.descriptions.len()
    }

    /// The correspondences between the features of this frame and those of
    /// `other`, as pairs of indices into the two feature lists.
    ///
    /// Each feature of this frame is held against every feature of `other`.
    /// It is paired with the nearest one, in Hamming distance of the
    /// descriptors, if that one is unambiguous: its distance is less than 0.8
    /// times the second-best distance. A feature without a second candidate
    /// is held against [`NO_CANDIDATE`].
    pub fn matches_unrejected(&self, other: &AkazeData) -> (pairs: Vec<(usize, usize)>)
        ensures
            pairs@ == pairs_upto(
                self.descriptions@,
                other.descriptions@,
                self.descriptions.len() as int,
            ),
            forall|k: int|
                0 <= k < pairs.len() ==> (#[trigger] pairs[k]).0 < self.descriptions.len()
                    && pairs[k].1 < other.descriptions.len(),
    {
        let mut pairs: Vec<(usize, usize)> = Vec::new();
        let mut i: usize = 0;
        while i < self.descriptions.len()
            invariant
                i <= self.descriptions.len(),
                pairs@ == pairs_upto(self.descriptions@, other.descriptions@, i as int),
                forall|k: int|
                    0 <= k < pairs.len() ==> (#[trigger] pairs[k]).0 < self.descriptions.len()
                        && pairs[k].1 < other.descriptions.len(),
            decreases self.descriptions.len() - i,
        {
            let (index, best, vice) = nearest_two(&self.descriptions[i], &other.descriptions);
            if 5 * (best as u64) < 4 * (vice as u64) {
                assert(other.descriptions.len() > 0);
                pairs.push((i, index));
            }
            i += 1;
        }
        pairs
    }
}

/// A correspondence between a feature of the reference frame (`left`) and a
/// feature of another frame (`right`), both in sub-pixel units, with the
/// angle of the displacement between them.
#[derive(Debug, Copy, Clone, PartialEq, Eq)]
pub struct Match {
    pub left: (i32, i32),
    pub right: (i32, i32),
    /// The angle of the displacement, in a unit of the caller's choice. Only
    /// the order of these values is read.
    pub arc: i32,
    /// The same angle in whole degrees. It follows `arc`: a correspondence
    /// of larger `arc` has no smaller `arcdeg` ([`angles_agree`]).
    pub arcdeg: i32,
}

/// Largest difference in whole degrees from the median angle at which a
/// correspondence is kept.
pub const ARC_TOLERANCE: i64 = 5;

impl Match {
    /// A correspondence between `left` and `right` whose displacement has
    /// the angle `arc`, which is `arcdeg` in whole degrees.
    pub fn new(left: (i32, i32), right: (i32, i32), arc: i32, arcdeg: i32) -> (m: Match)
        ensures
            m == (Match { left, right, arc, arcdeg }),
    {
        Match { left, right, arc, arcdeg }
    }

    /// Both positions lie in a frame: no coordinate is negative.
    pub open spec fn in_frame(&self) -> bool {
        self.left.0 >= 0 && self.left.1 >= 0 && self.right.0 >= 0 && self.right.1 >= 0
    }

    /// Horizontal displacement, in sub-pixel units.
    pub open spec fn spec_dx(&self) -> int {
        self.left.0 - self.right.0
    }

    /// Vertical displacement, in sub-pixel units.
    pub open spec fn spec_dy(&self) -> int {
        self.left.1 - self.right.1
    }

    /// Horizontal displacement, in sub-pixel units.
    pub fn dx(&self) -> (d: i64)
        ensures
            d == self.spec_dx(),
    {
        self.left.0 as i64 - self.right.0 as i64
    }

    /// Vertical displacement, in sub-pixel units.
    pub fn dy(&self) -> (d: i64)
        ensures
            d == self.spec_dy(),
    {
        self.left.1 as i64 - self.right.1 as i64
    }

    /// The angle of the displacement, as an ordering key.
    pub fn arc(&self) -> (a: i32)
        ensures
            a == self.arc,
    {
        self.arc
    }

    /// The angle of the displacement in whole degrees.
    pub fn arcdeg(&self) -> (a: i32)
        ensures
            a == self.arcdeg,
    {
        self.arcdeg
    }

    /// Whether this correspondence's angle is within the tolerance of
    /// `median` degrees.
    pub open spec fn near(&self, median: int) -> bool {
        -ARC_TOLERANCE <= median - self.arcdeg <= ARC_TOLERANCE
    }
}

/// `sorted` with `m` put in behind every element whose angle is not larger.
pub open spec fn insert_by_arc(sorted: Seq<Match>, m: Match) -> Seq<Match>
    decreases sorted.len(),
{
    if sorted.len() == 0 || sorted.last().arc <= m.arc {
        sorted.push(m)
    } else {
        insert_by_arc(sorted.drop_last(), m).push(sorted.last())
    }
}

/// `matches` in ascending order of angle, correspondences of equal angle in
/// the order they came in.
pub open spec fn sort_by_arc(matches: Seq<Match>) -> Seq<Match>
    decreases matches.len(),
{
    if matches.len() == 0 {
        matches
    } else {
        insert_by_arc(sort_by_arc(matches.drop_last()), matches.last())
    }
}

/// The angles of `matches` ascend.
pub open spec fn ascending(matches: Seq<Match>) -> bool {
    forall|i: int, j: int| 0 <= i < j < matches.len() ==> matches[i].arc <= matches[j].arc
}

/// The elements of `matches` that are near `median` degrees, in order.
pub open spec fn near_median(matches: Seq<Match>, median: int) -> Seq<Match>
    decreases matches.len(),
{
    if matches.len() == 0 {
        matches
    } else if matches.last().near(median) {
        near_median(matches.drop_last(), median).push(matches.last())
    } else {
        near_median(matches.drop_last(), median)
    }
}

/// The median angle of `matches`, in whole degrees: that of the middle
/// element in ascending order of angle, the upper of two middle ones.
pub open spec fn median_arcdeg(matches: Seq<Match>) -> int {
    sort_by_arc(matches)[matches.len() as int / 2].arcdeg as int
}

/// Arc rejection: `matches` in ascending order of angle, without those whose
/// angle differs from the median angle by more than [`ARC_TOLERANCE`] degrees.
pub open spec fn arc_filter(matches: Seq<Match>) -> Seq<Match> {
    if matches.len() == 0 {
        matches
    } else {
        near_median(sort_by_arc(matches), median_arcdeg(matches))
    }
}

/// Where [`insert_by_arc`] puts `m`: behind the last element whose angle is
/// not larger.
proof fn lemma_insert_position(sorted: Seq<Match>, m: Match, at: int)
    requires
        0 <= at <= sorted.len(),
        at == 0 || sorted[at - 1].arc <= m.arc,
        forall|k: int| at <= k < sorted.len() ==> sorted[k].arc > m.arc,
    ensures
        insert_by_arc(sorted, m) == sorted.insert(at, m),
    decreases sorted.len(),
{
    if sorted.len() == 0 || sorted.last().arc <= m.arc {
        assert(sorted.push(m) =~= sorted.insert(at, m));
    } else {
        lemma_insert_position(sorted.drop_last(), m, at);
        assert(sorted.drop_last().insert(at, m).push(sorted.last()) =~= sorted.insert(at, m));
    }
}

/// Inserting adds one element, and keeps whatever holds of every element.
pub proof fn lemma_insert_keeps(sorted: Seq<Match>, m: Match, holds: spec_fn(Match) -> bool)
    ensures
        insert_by_arc(sorted, m).len() == sorted.len() + 1,
        (forall|i: int| 0 <= i < sorted.len() ==> holds(sorted[i])) && holds(m) ==> forall|i: int|
            0 <= i < insert_by_arc(sorted, m).len() ==> holds(
                #[trigger] insert_by_arc(sorted, m)[i],
            ),
    decreases sorted.len(),
{
    if !(sorted.len() == 0 || sorted.last().arc <= m.arc) {
        lemma_insert_keeps(sorted.drop_last(), m, holds);
    }
}

/// Sorting keeps the number of elements, and keeps whatever holds of every
/// element.
pub proof fn lemma_sort_keeps(matches: Seq<Match>, holds: spec_fn(Match) -> bool)
    ensures
        sort_by_arc(matches).len() == matches.len(),
        (forall|i: int| 0 <= i < matches.len() ==> holds(matches[i])) ==> forall|i: int|
            0 <= i < sort_by_arc(matches).len() ==> holds(#[trigger] sort_by_arc(matches)[i]),
    decreases matches.len(),
{
    if matches.len() > 0 {
        lemma_sort_keeps(matches.drop_last(), holds);
        lemma_insert_keeps(sort_by_arc(matches.drop_last()), matches.last(), holds);
    }
}

/// Filtering keeps whatever holds of every element and never adds one.
pub proof fn lemma_near_median_keeps(
    matches: Seq<Match>,
    median: int,
    holds: spec_fn(Match) -> bool,
)
    ensures
        near_median(matches, median).len() <= matches.len(),
        forall|i: int|
            0 <= i < near_median(matches, median).len() ==> (#[trigger] near_median(
                matches,
                median,
            )[i]).near(median),
        (forall|i: int| 0 <= i < matches.len() ==> holds(matches[i])) ==> forall|i: int|
            0 <= i < near_median(matches, median).len() ==> holds(
                #[trigger] near_median(matches, median)[i],
            ),
    decreases matches.len(),
{
    if matches.len() > 0 {
        lemma_near_median_keeps(matches.drop_last(), median, holds);
    }
}

/// Sorts `matches` by angle; correspondences of equal angle keep their order.
fn sort_matches(matches: &mut Vec<Match>)
    ensures
        final(matches)@ == sort_by_arc(old(matches)@),
{
    let mut sorted: Vec<Match> = Vec::new();
    let mut i: usize = 0;
    proof {
        assert(matches@.take(0) =~= Seq::<Match>::empty());
    }
    while i < matches.len()
        invariant
            i <= matches.len(),
            matches@ == old(matches)@,
            sorted@ == sort_by_arc(matches@.take(i as int)),
        decreases matches.len() - i,
    {
        let m = matches[i];
        let mut at: usize = sorted.len();
        while at > 0 && sorted[at - 1].arc > m.arc
            invariant
                at <= sorted.len(),
                forall|k: int| at <= k < sorted.len() ==> sorted[k].arc > m.arc,
            decreases at,
        {
            at -= 1;
        }
        proof {
            lemma_insert_position(sorted@, m, at as int);
            assert(matches@.take(i + 1).drop_last() =~= matches@.take(i as int));
        }
        sorted.insert(at, m);
        i += 1;
    }
    proof {
        assert(matches@.take(matches.len() as int) =~= matches@);
    }
    *matches = sorted;
}

impl AkazeData {
    /// Arc rejection in place: sorts `matches` by angle, takes the angle of
    /// the middle one as the median, and removes every correspondence whose
    /// whole-degree angle differs from the median by more than
    /// [`ARC_TOLERANCE`]. An empty list stays empty.
    pub fn reject_matches(matches: &mut Vec<Match>)
        ensures
            final(matches)@ == arc_filter(old(matches)@),
    {
        if matches.len() == 0 {
            return ;
        }
        sort_matches(matches);
        proof {
            lemma_sort_keeps(old(matches)@, |m: Match| true);
        }
        let median: i32 = matches[matches.len() / 2].arcdeg;
        let mut kept: Vec<Match> = Vec::new();
        let mut i: usize = 0;
        proof {
            assert(matches@.take(0) =~= Seq::<Match>::empty());
        }
        while i < matches.len()
            invariant
                i <= matches.len(),
                kept@ == near_median(matches@.take(i as int), median as int),
            decreases matches.len() - i,
        {
            let m = matches[i];
            let difference: i64 = median as i64 - m.arcdeg as i64;
            proof {
                assert(matches@.take(i + 1).drop_last() =~= matches@.take(i as int));
            }
            if -ARC_TOLERANCE <= difference && difference <= ARC_TOLERANCE {
                kept.push(m);
            }
            i += 1;
        }
        proof {
            assert(matches@.take(matches.len() as int) =~= matches@);
        }
        *matches = kept;
    }

    /// The correspondences that survive arc rejection.
    pub fn matches(candidates: Vec<Match>) -> (kept: Vec<Match>)
        ensures
            kept@ == arc_filter(candidates@),
    {
        let mut kept = candidates;
        AkazeData::reject_matches(&mut kept);
        kept
    }
}

/// Inserting into an ascending sequence leaves it ascending.
pub proof fn lemma_insert_ascending(sorted: Seq<Match>, m: Match)
    requires
        ascending(sorted),
    ensures
        ascending(insert_by_arc(sorted, m)),
    decreases sorted.len(),
{
    if !(sorted.len() == 0 || sorted.last().arc <= m.arc) {
        let last = sorted.last();
        lemma_insert_ascending(sorted.drop_last(), m);
        lemma_insert_keeps(sorted.drop_last(), m, |x: Match| x.arc <= last.arc);
    }
}

/// What [`sort_by_arc`] returns ascends.
pub proof fn lemma_sort_ascending(matches: Seq<Match>)
    ensures
        ascending(sort_by_arc(matches)),
    decreases matches.len(),
{
    if matches.len() > 0 {
        lemma_sort_ascending(matches.drop_last());
        lemma_insert_ascending(sort_by_arc(matches.drop_last()), matches.last());
    }
}

/// The elements of `matches` whose angle is `arc`, in order.
pub open spec fn with_arc(matches: Seq<Match>, arc: int) -> Seq<Match>
    decreases matches.len(),
{
    if matches.len() == 0 {
        matches
    } else if matches.last().arc == arc {
        with_arc(matches.drop_last(), arc).push(matches.last())
    } else {
        with_arc(matches.drop_last(), arc)
    }
}

/// Inserting puts the new element behind those of the same angle and leaves
/// the others as they are.
pub proof fn lemma_insert_stable(sorted: Seq<Match>, m: Match, arc: int)
    ensures
        with_arc(insert_by_arc(sorted, m), arc) == if m.arc == arc {
            with_arc(sorted, arc).push(m)
        } else {
            with_arc(sorted, arc)
        },
    decreases sorted.len(),
{
    if sorted.len() == 0 || sorted.last().arc <= m.arc {
        assert(sorted.push(m).drop_last() =~= sorted);
    } else {
        lemma_insert_stable(sorted.drop_last(), m, arc);
        assert(insert_by_arc(sorted.drop_last(), m).push(sorted.last()).drop_last()
            =~= insert_by_arc(sorted.drop_last(), m));
    }
}

/// Sorting is stable: the correspondences of any one angle stand in the
/// result in the order they came in.
pub proof fn lemma_sort_stable(matches: Seq<Match>, arc: int)
    ensures
        with_arc(sort_by_arc(matches), arc) == with_arc(matches, arc),
    decreases matches.len(),
{
    if matches.len() > 0 {
        lemma_sort_stable(matches.drop_last(), arc);
        lemma_insert_stable(sort_by_arc(matches.drop_last()), matches.last(), arc);
    }
}

/// Inserting adds the new element and nothing else.
pub proof fn lemma_insert_permutes(sorted: Seq<Match>, m: Match)
    ensures
        insert_by_arc(sorted, m).to_multiset() == sorted.to_multiset().insert(m),
    decreases sorted.len(),
{
    broadcast use vstd::seq_lib::group_to_multiset_ensures;

    if !(sorted.len() == 0 || sorted.last().arc <= m.arc) {
        lemma_insert_permutes(sorted.drop_last(), m);
        assert(sorted.drop_last().push(sorted.last()) =~= sorted);
        assert(sorted.drop_last().to_multiset().insert(m).insert(sorted.last())
            =~= sorted.drop_last().to_multiset().insert(sorted.last()).insert(m));
    }
}

/// Sorting rearranges: it neither adds nor loses a correspondence.
pub proof fn lemma_sort_permutes(matches: Seq<Match>)
    ensures
        sort_by_arc(matches).to_multiset() == matches.to_multiset(),
    decreases matches.len(),
{
    broadcast use vstd::seq_lib::group_to_multiset_ensures;

    if matches.len() > 0 {
        lemma_sort_permutes(matches.drop_last());
        lemma_insert_permutes(sort_by_arc(matches.drop_last()), matches.last());
        assert(matches.drop_last().push(matches.last()) =~= matches);
    }
}

/// Sorting an ascending sequence changes nothing.
pub proof fn lemma_sort_fixed(matches: Seq<Match>)
    requires
        ascending(matches),
    ensures
        sort_by_arc(matches) == matches,
    decreases matches.len(),
{
    if matches.len() > 0 {
        lemma_sort_fixed(matches.drop_last());
        assert(matches.drop_last().push(matches.last()) =~= matches);
    }
}

/// Filtering an ascending sequence leaves it ascending.
pub proof fn lemma_near_median_ascending(matches: Seq<Match>, median: int)
    requires
        ascending(matches),
    ensures
        ascending(near_median(matches, median)),
    decreases matches.len(),
{
    if matches.len() > 0 {
        let last = matches.last();
        lemma_near_median_ascending(matches.drop_last(), median);
        lemma_near_median_keeps(matches.drop_last(), median, |x: Match| x.arc <= last.arc);
    }
}

/// Filtering a sequence whose elements are all near the median changes
/// nothing.
pub proof fn lemma_near_median_all(matches: Seq<Match>, median: int)
    requires
        forall|i: int| 0 <= i < matches.len() ==> matches[i].near(median),
    ensures
        near_median(matches, median) == matches,
    decreases matches.len(),
{
    if matches.len() > 0 {
        lemma_near_median_all(matches.drop_last(), median);
        assert(matches.drop_last().push(matches.last()) =~= matches);
    }
}

/// An element that is near the median survives the filter.
pub proof fn lemma_near_median_nonempty(matches: Seq<Match>, median: int, i: int)
    requires
        0 <= i < matches.len(),
        matches[i].near(median),
    ensures
        near_median(matches, median).len() > 0,
    decreases matches.len(),
{
    if i < matches.len() - 1 {
        lemma_near_median_nonempty(matches.drop_last(), median, i);
    }
}

/// Arc rejection never empties a list: the median correspondence stays.
pub proof fn lemma_median_survives(matches: Seq<Match>)
    requires
        matches.len() > 0,
    ensures
        arc_filter(matches).len() > 0,
{
    lemma_sort_keeps(matches, |m: Match| true);
    lemma_near_median_nonempty(
        sort_by_arc(matches),
        median_arcdeg(matches),
        matches.len() as int / 2,
    );
}

/// Every element is within tolerance of the middle element's angle.
pub open spec fn settled(matches: Seq<Match>) -> bool {
    forall|i: int|
        0 <= i < matches.len() ==> (#[trigger] matches[i]).near(
            matches[matches.len() as int / 2].arcdeg as int,
        )
}

/// Applying arc rejection to its own result changes nothing exactly where
/// every survivor is within tolerance of the survivors' own median. (The
/// survivors' median can differ from the first one, so a second pass can
/// remove more.)
pub proof fn lemma_arc_filter_again(matches: Seq<Match>)
    ensures
        arc_filter(arc_filter(matches)) == arc_filter(matches) <==> settled(arc_filter(matches)),
{
    let kept = arc_filter(matches);
    if kept.len() > 0 {
        lemma_sort_ascending(matches);
        lemma_near_median_ascending(sort_by_arc(matches), median_arcdeg(matches));
        lemma_sort_fixed(kept);
        let median = kept[kept.len() as int / 2].arcdeg as int;
        assert(median_arcdeg(kept) == median);
        if settled(kept) {
            lemma_near_median_all(kept, median);
        }
        if arc_filter(kept) == kept {
            lemma_near_median_keeps(kept, median, |m: Match| true);
        }
    }
}

/// Sum of the horizontal displacements of `matches`.
pub open spec fn sum_dx(matches: Seq<Match>) -> int
    decreases matches.len(),
{
    if matches.len() == 0 {
        0
    } else {
        sum_dx(matches.drop_last()) + matches.last().spec_dx()
    }
}

/// Sum of the vertical displacements of `matches`.
pub open spec fn sum_dy(matches: Seq<Match>) -> int
    decreases matches.len(),
{
    if matches.len() == 0 {
        0
    } else {
        sum_dy(matches.drop_last()) + matches.last().spec_dy()
    }
}

/// Component-wise mean of the displacements of `matches`, in sub-pixel units.
pub open spec fn mean_offset(matches: Seq<Match>) -> (int, int) {
    (
        nearest_quotient(sum_dx(matches), matches.len() as int),
        nearest_quotient(sum_dy(matches), matches.len() as int),
    )
}

/// The descriptor-based registration that follows from the candidate
/// correspondences of a frame: the mean displacement of those that survive
/// arc rejection, or a rejection where there are none.
pub open spec fn registration_of(candidates: Seq<Match>) -> AkazeRegistration {
    let kept = arc_filter(candidates);
    if kept.len() == 0 {
        AkazeRegistration::Rejected
    } else {
        AkazeRegistration::Offset(mean_offset(kept).0 as i32, mean_offset(kept).1 as i32)
    }
}

proof fn lemma_sums_fold(matches: Seq<Match>)
    ensures
        sum_dx(matches) == matches.fold_left(0int, |sum: int, m: Match| sum + m.spec_dx()),
        sum_dy(matches) == matches.fold_left(0int, |sum: int, m: Match| sum + m.spec_dy()),
    decreases matches.len(),
{
    if matches.len() > 0 {
        lemma_sums_fold(matches.drop_last());
    }
}

/// The mean offset does not depend on the order of the correspondences.
pub proof fn lemma_mean_offset_unordered(a: Seq<Match>, b: Seq<Match>)
    requires
        a.to_multiset() == b.to_multiset(),
    ensures
        sum_dx(a) == sum_dx(b),
        sum_dy(a) == sum_dy(b),
        mean_offset(a) == mean_offset(b),
{
    lemma_sums_fold(a);
    lemma_sums_fold(b);
    let fx = |sum: int, m: Match| sum + m.spec_dx();
    let fy = |sum: int, m: Match| sum + m.spec_dy();
    assert(commutative_foldl(fx));
    assert(commutative_foldl(fy));
    lemma_fold_left_permutation(a, b, fx, 0int);
    lemma_fold_left_permutation(a, b, fy, 0int);
    vstd::seq_lib::to_multiset_len(a);
    vstd::seq_lib::to_multiset_len(b);
}

/// The whole-degree angles follow the ordering keys: a correspondence whose
/// key is not larger than another's has a whole-degree angle that is not
/// larger either. Correspondences of one key then have one whole-degree
/// angle.
pub open spec fn angles_agree(matches: Seq<Match>) -> bool {
    forall|i: int, j: int|
        0 <= i < matches.len() && 0 <= j < matches.len() && matches[i].arc <= matches[j].arc
            ==> matches[i].arcdeg <= matches[j].arcdeg
}

/// The ordering keys of `matches`, in order.
pub open spec fn arcs(matches: Seq<Match>) -> Seq<int> {
    Seq::new(matches.len(), |i: int| matches[i].arc as int)
}

/// Rearranged correspondences have rearranged keys.
proof fn lemma_arcs_permute(a: Seq<Match>, b: Seq<Match>)
    requires
        a.to_multiset() == b.to_multiset(),
    ensures
        arcs(a).to_multiset() == arcs(b).to_multiset(),
    decreases a.len(),
{
    broadcast use vstd::seq_lib::group_to_multiset_ensures;

    vstd::seq_lib::to_multiset_len(a);
    vstd::seq_lib::to_multiset_len(b);
    if a.len() == 0 {
        assert(arcs(a) =~= arcs(b));
    } else {
        let last = a.last();
        assert(a.contains(last));
        vstd::seq_lib::to_multiset_contains(a, last);
        vstd::seq_lib::to_multiset_contains(b, last);
        assert(b.contains(last));
        let j = choose|j: int| 0 <= j < b.len() && b[j] == last;
        let fewer = a.drop_last();
        let other = b.remove(j);
        assert(fewer =~= a.remove(a.len() - 1));
        vstd::seq_lib::to_multiset_remove(a, a.len() - 1);
        vstd::seq_lib::to_multiset_remove(b, j);
        lemma_arcs_permute(fewer, other);
        assert(arcs(a) =~= arcs(fewer).push(last.arc as int));
        assert(arcs(b) =~= arcs(other).insert(j, last.arc as int));
        vstd::seq_lib::to_multiset_build(arcs(fewer), last.arc as int);
        vstd::seq_lib::to_multiset_insert(arcs(other), j, last.arc as int);
    }
}

/// Two rearrangements of the same correspondences have, once sorted, the
/// same key at every place.
proof fn lemma_sorted_arcs(a: Seq<Match>, b: Seq<Match>)
    requires
        a.to_multiset() == b.to_multiset(),
    ensures
        arcs(sort_by_arc(a)) == arcs(sort_by_arc(b)),
        sort_by_arc(a).len() == a.len(),
        sort_by_arc(b).len() == a.len(),
{
    let x = sort_by_arc(a);
    let y = sort_by_arc(b);
    lemma_sort_permutes(a);
    lemma_sort_permutes(b);
    lemma_sort_ascending(a);
    lemma_sort_ascending(b);
    lemma_sort_keeps(a, |m: Match| true);
    lemma_sort_keeps(b, |m: Match| true);
    vstd::seq_lib::to_multiset_len(a);
    vstd::seq_lib::to_multiset_len(b);
    lemma_arcs_permute(x, y);
    let leq = |p: int, q: int| p <= q;
    assert(vstd::relations::total_ordering(leq));
    assert(vstd::relations::sorted_by(arcs(x), leq));
    assert(vstd::relations::sorted_by(arcs(y), leq));
    vstd::seq_lib::lemma_sorted_unique(arcs(x), arcs(y), leq);
}

/// How often a correspondence stands among those near the median: as often
/// as in the whole list if it is near, and never if it is not.
proof fn lemma_near_median_count(matches: Seq<Match>, median: int, m: Match)
    ensures
        near_median(matches, median).to_multiset().count(m) == if m.near(median) {
            matches.to_multiset().count(m)
        } else {
            0
        },
    decreases matches.len(),
{
    broadcast use vstd::seq_lib::group_to_multiset_ensures;
    broadcast use vstd::multiset::group_multiset_axioms;

    if matches.len() == 0 {
        assert(matches.to_multiset().count(m) == 0) by {
            vstd::seq_lib::to_multiset_len(matches);
        }
    } else {
        lemma_near_median_count(matches.drop_last(), median, m);
        assert(matches.drop_last().push(matches.last()) =~= matches);
        vstd::seq_lib::to_multiset_build(matches.drop_last(), matches.last());
        vstd::seq_lib::to_multiset_build(
            near_median(matches.drop_last(), median),
            matches.last(),
        );
    }
}

/// Arc rejection and the registration that follows from it do not depend on
/// the order of the candidates, where their whole-degree angles follow their
/// ordering keys: the same correspondences survive, and their mean
/// displacement is the same.
pub proof fn lemma_registration_unordered(a: Seq<Match>, b: Seq<Match>)
    requires
        a.to_multiset() == b.to_multiset(),
        angles_agree(a),
    ensures
        median_arcdeg(a) == median_arcdeg(b) || a.len() == 0,
        arc_filter(a).to_multiset() == arc_filter(b).to_multiset(),
        registration_of(a) == registration_of(b),
{
    broadcast use vstd::seq_lib::group_to_multiset_ensures;

    vstd::seq_lib::to_multiset_len(a);
    vstd::seq_lib::to_multiset_len(b);
    if a.len() > 0 {
        let x = sort_by_arc(a);
        let y = sort_by_arc(b);
        lemma_sorted_arcs(a, b);
        lemma_sort_permutes(a);
        lemma_sort_permutes(b);
        let h = a.len() as int / 2;
        assert(arcs(x)[h] == arcs(y)[h]);
        assert(x[h].arc == y[h].arc);
        // Both middle elements are candidates of `a`, and share their key.
        assert(x.contains(x[h]));
        assert(y.contains(y[h]));
        vstd::seq_lib::to_multiset_contains(x, x[h]);
        vstd::seq_lib::to_multiset_contains(y, y[h]);
        vstd::seq_lib::to_multiset_contains(a, x[h]);
        vstd::seq_lib::to_multiset_contains(a, y[h]);
        assert(a.contains(x[h]));
        assert(a.contains(y[h]));
        let i = choose|i: int| 0 <= i < a.len() && a[i] == x[h];
        let j = choose|j: int| 0 <= j < a.len() && a[j] == y[h];
        assert(a[i].arcdeg <= a[j].arcdeg && a[j].arcdeg <= a[i].arcdeg);
        let median = median_arcdeg(a);
        assert(median == median_arcdeg(b));
        assert forall|m: Match|
            near_median(x, median).to_multiset().count(m) == near_median(
                y,
                median,
            ).to_multiset().count(m) by {
            lemma_near_median_count(x, median, m);
            lemma_near_median_count(y, median, m);
        }
        assert(near_median(x, median).to_multiset() =~= near_median(y, median).to_multiset());
        lemma_mean_offset_unordered(arc_filter(a), arc_filter(b));
        vstd::seq_lib::to_multiset_len(arc_filter(a));
        vstd::seq_lib::to_multiset_len(arc_filter(b));
    } else {
        assert(a =~= b);
    }
}

/// Displacements between positions in a frame are bounded, and so is their
/// sum.
proof fn lemma_sums_bounded(matches: Seq<Match>)
    requires
        forall|i: int| 0 <= i < matches.len() ==> matches[i].in_frame(),
    ensures
        -matches.len() * 0x7fff_ffff <= sum_dx(matches) <= matches.len() * 0x7fff_ffff,
        -matches.len() * 0x7fff_ffff <= sum_dy(matches) <= matches.len() * 0x7fff_ffff,
    decreases matches.len(),
{
    if matches.len() > 0 {
        lemma_sums_bounded(matches.drop_last());
        assert(matches.last().in_frame());
    }
}

/// `sum / count`, rounded to the nearest integer.
fn mean_component(sum: i128, count: usize) -> (mean: i32)
    requires
        count > 0,
        -count * 0x7fff_ffff <= sum <= count * 0x7fff_ffff,
    ensures
        mean == nearest_quotient(sum as int, count as int),
{
    let n: i128 = count as i128;
    if sum >= 0 {
        let top: i128 = 2 * sum + n;
        proof {
            lemma_quotient_bound(top as int, 2 * n as int, 0x8000_0000);
        }
        (top / (2 * n)) as i32
    } else {
        let top: i128 = n - 2 * sum;
        proof {
            lemma_quotient_bound(top as int, 2 * n as int, 0x8000_0000);
        }
        (-(top / (2 * n))) as i32
    }
}

impl AkazeData {
    /// Whether the whole-degree angles of `matches` follow their ordering
    /// keys, as [`AkazeData::akaze_registration`] asks.
    pub fn angles_follow_keys(matches: &Vec<Match>) -> (agree: bool)
        ensures
            agree == angles_agree(matches@),
    {
        let n = matches.len();
        let mut i: usize = 0;
        while i < n
            invariant
                i <= n,
                n == matches.len(),
                forall|p: int, q: int|
                    0 <= p < i && 0 <= q < n && matches[p].arc <= matches[q].arc
                        ==> matches[p].arcdeg <= matches[q].arcdeg,
            decreases n - i,
        {
            let own = matches[i];
            let mut j: usize = 0;
            while j < n
                invariant
                    i < n,
                    j <= n,
                    n == matches.len(),
                    own == matches[i as int],
                    forall|q: int|
                        0 <= q < j && own.arc <= matches[q].arc ==> own.arcdeg <= matches[q].arcdeg,
                decreases n - j,
            {
                if own.arc <= matches[j].arc && own.arcdeg > matches[j].arcdeg {
                    return false;
                }
                j += 1;
            }
            i += 1;
        }
        true
    }

    /// Descriptor-based registration of a frame from its candidate
    /// correspondences with the reference frame: runs arc rejection and
    /// averages the displacements that survive. The frame is rejected exactly
    /// where there is no candidate. The whole-degree angles of the candidates
    /// follow their ordering keys, so that the order in which the candidates
    /// are handed in plays no part ([`lemma_registration_unordered`]).
    pub fn akaze_registration(candidates: Vec<Match>) -> (registration: AkazeRegistration)
        requires
            forall|i: int| 0 <= i < candidates.len() ==> (#[trigger] candidates[i]).in_frame(),
            angles_agree(candidates@),
        ensures
            registration == registration_of(candidates@),
            registration == AkazeRegistration::Rejected <==> candidates.len() == 0,
    {
        let kept = AkazeData::matches(candidates);
        proof {
            if candidates.len() > 0 {
                lemma_median_survives(candidates@);
                lemma_sort_keeps(candidates@, |m: Match| m.in_frame());
                lemma_near_median_keeps(
                    sort_by_arc(candidates@),
                    median_arcdeg(candidates@),
                    |m: Match| m.in_frame(),
                );
            }
        }
        if kept.len() == 0 {
            return AkazeRegistration::Rejected;
        }
        let mut sx: i128 = 0;
        let mut sy: i128 = 0;
        let mut i: usize = 0;
        proof {
            assert(kept@.take(0) =~= Seq::<Match>::empty());
        }
        while i < kept.len()
            invariant
                i <= kept.len(),
                forall|k: int| 0 <= k < kept.len() ==> (#[trigger] kept[k]).in_frame(),
                sx == sum_dx(kept@.take(i as int)),
                sy == sum_dy(kept@.take(i as int)),
                -i * 0x7fff_ffff <= sx <= i * 0x7fff_ffff,
                -i * 0x7fff_ffff <= sy <= i * 0x7fff_ffff,
            decreases kept.len() - i,
        {
            let m = kept[i];
            proof {
                assert(kept@.take(i + 1).drop_last() =~= kept@.take(i as int));
                assert(m.in_frame());
            }
            sx = sx + m.dx() as i128;
            sy = sy + m.dy() as i128;
            i += 1;
        }
        proof {
            assert(kept@.take(kept.len() as int) =~= kept@);
        }
        let dx = mean_component(sx, kept.len());
        let dy = mean_component(sy, kept.len());
        AkazeRegistration::Offset(dx, dy)
    }
}

} // verus!
