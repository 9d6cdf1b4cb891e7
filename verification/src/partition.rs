//! Random partitions of a range of rows.

use vstd::prelude::*;
use vstd::seq_lib::to_multiset_insert;
use crate::random::{draw_samples, RandomSource};

verus! {

/// The row that a sample stands for in a range of `range_height` rows: the
/// sample, read as a fraction of `2^32`, times the height, rounded down.
pub open spec fn scale_sample(raw: u32, range_height: usize) -> int {
    (raw as int * range_height as int) / 0x1_0000_0000
}

/// The number of splits that a draw selects from `split_min..=split_max`.
pub open spec fn split_count(raw: u32, split_min: usize, split_max: usize) -> int {
    split_min + (raw as int) % (split_max - split_min + 1)
}

/// The boundaries and the split points of a range before they are sorted.
pub open spec fn split_points(range_height: usize, samples: Seq<u32>) -> Seq<usize> {
    Seq::new(
        samples.len() + 2,
        |i: int|
            if i == 0 {
                0usize
            } else if i == 1 {
                range_height
            } else {
                scale_sample(samples[i - 2], range_height) as usize
            },
    )
}

/// No point is smaller than one before it.
pub open spec fn is_sorted(points: Seq<usize>) -> bool {
    forall|i: int, j: int| 0 <= i <= j < points.len() ==> points[i] <= points[j]
}

/// `points` cuts the rows `0..range_height` into consecutive cells: it starts
/// at 0, ends at `range_height` and never descends.
pub open spec fn is_partition(points: Seq<usize>, range_height: usize) -> bool {
    &&& points.len() >= 2
    &&& points[0] == 0
    &&& points.last() == range_height
    &&& is_sorted(points)
}

/// `points` is what the samples give: the two boundaries and one point for
/// each sample, in ascending order.
pub open spec fn is_partition_of(points: Seq<usize>, range_height: usize, samples: Seq<u32>) -> bool {
    &&& is_sorted(points)
    &&& points.to_multiset() == split_points(range_height, samples).to_multiset()
}

/// `points` is what `draws` give when the first draw selects the number of
/// splits and each further draw places one.
pub open spec fn is_drawn_from(
    points: Seq<usize>,
    range_height: usize,
    split_min: usize,
    split_max: usize,
    draws: Seq<u32>,
) -> bool {
    &&& draws.len() >= 1
    &&& draws.len() - 1 == split_count(draws[0], split_min, split_max)
    &&& is_partition_of(points, range_height, draws.skip(1))
}

proof fn lemma_scale_in_range(raw: u32, range_height: usize)
    ensures
        0 <= scale_sample(raw, range_height) <= range_height,
        range_height > 0 ==> scale_sample(raw, range_height) < range_height,
{
    let p = raw as int * range_height as int;
    assert(0 <= p <= 0xffff_ffff * range_height) by (nonlinear_arith)
        requires
            p == raw as int * range_height as int,
            0 <= raw <= 0xffff_ffff,
            0 <= range_height,
    ;
}

/// Split points in ascending order: entry `i` and entry `i + 1` bound cell `i`.
#[derive(Debug)]
pub struct Partition {
    points: Vec<usize>,
}

impl View for Partition {
    type V = Seq<usize>;

    closed spec fn view(&self) -> Seq<usize> {
        self.points@
    }
}

impl Partition {
    #[verifier::type_invariant]
    spec fn inv(self) -> bool {
        is_partition(self.points@, self.points@.last())
    }

    /// The number of splits that `raw` selects from `split_min..=split_max`.
    pub fn count_from_draw(raw: u32, split_min: usize, split_max: usize) -> (count: usize)
        requires
            split_min <= split_max,
        ensures
            count == split_count(raw, split_min, split_max),
            split_min <= count <= split_max,
    {
        let choices: u128 = (split_max - split_min) as u128 + 1;
        let offset: u128 = (raw as u128) % choices;
        split_min + offset as usize
    }

    /// The partition of `0..range_height` whose split points are the samples,
    /// each scaled to the range.
    pub fn from_samples(range_height: usize, samples: &[u32]) -> (p: Partition)
        ensures
            is_partition(p@, range_height),
            is_partition_of(p@, range_height, samples@),
            p@.len() == samples@.len() + 2,
    {
        let mut points: Vec<usize> = Vec::new();
        points.push(0);
        points.push(range_height);
        assert(points@ =~= split_points(range_height, samples@.take(0)));
        let mut k: usize = 0;
        while k < samples.len()
            invariant
                k <= samples@.len(),
                points@.len() == k + 2,
                is_partition(points@, range_height),
                points@.to_multiset() == split_points(
                    range_height,
                    samples@.take(k as int),
                ).to_multiset(),
            decreases samples@.len() - k,
        {
            let raw: u32 = samples[k];
            proof {
                lemma_scale_in_range(raw, range_height);
            }
            let point: usize = (((raw as u128) * (range_height as u128)) / 0x1_0000_0000u128) as usize;
            let mut i: usize = 1;
            while points[i] < point
                invariant
                    1 <= i < points@.len(),
                    points@.len() == k + 2,
                    is_partition(points@, range_height),
                    point <= range_height,
                    forall|j: int| 0 <= j < i ==> points@[j] <= point,
                decreases points@.len() - i,
            {
                assert(points@.last() == range_height);
                assert(i + 1 < points.len());
                i += 1;
            }
            let ghost before = points@;
            points.insert(i, point);
            proof {
                to_multiset_insert(before, i as int, point);
                let prefix = samples@.take(k as int);
                let longer = samples@.take(k + 1);
                assert(split_points(range_height, longer) =~= split_points(
                    range_height,
                    prefix,
                ).push(point));
                vstd::seq_lib::to_multiset_build(split_points(range_height, prefix), point);
                assert forall|a: int, b: int| 0 <= a <= b < points@.len() implies points@[a]
                    <= points@[b] by {
                    let a0 = if a < i { a } else { a - 1 };
                    let b0 = if b < i { b } else { b - 1 };
                    if a != i && b != i {
                        assert(before[a0] <= before[b0]);
                    } else if a == i && b != i {
                        assert(before[i as int] <= before[b0]);
                    } else if a != i && b == i {
                        assert(before[a0] <= point);
                    }
                }
            }
            k += 1;
        }
        assert(samples@.take(k as int) =~= samples@);
        Partition { points }
    }

    /// A random partition of `0..range_height`: the first draw selects the
    /// number of splits from `split_min..=split_max`, each further draw places
    /// one split.
    pub fn generate<R: RandomSource>(
        range_height: usize,
        split_min: usize,
        split_max: usize,
        rng: &mut R,
    ) -> (p: Partition)
        requires
            split_min <= split_max,
        ensures
            is_partition(p@, range_height),
            split_min + 2 <= p@.len() <= split_max + 2,
            exists|draws: Seq<u32>|
                #[trigger] is_drawn_from(p@, range_height, split_min, split_max, draws),
    {
        let first: u32 = rng.next_u32();
        let count: usize = Partition::count_from_draw(first, split_min, split_max);
        let samples: Vec<u32> = draw_samples(rng, count);
        let p = Partition::from_samples(range_height, samples.as_slice());
        proof {
            let draws = seq![first] + samples@;
            assert(draws.skip(1) =~= samples@);
            assert(is_drawn_from(p@, range_height, split_min, split_max, draws));
        }
        p
    }

    /// The number of points: one more than the number of cells.
    pub fn len(&self) -> (n: usize)
        ensures
            n == self@.len(),
            is_partition(self@, self@.last()),
    {
        proof {
            use_type_invariant(self);
        }
        self.points.len()
    }

    /// The point at `index`, where there is one.
    pub fn point(&self, index: usize) -> (r: Option<usize>)
        ensures
            index < self@.len() ==> r == Some(self@[index as int]),
            index >= self@.len() ==> r is None,
    {
        if index < self.points.len() {
            Some(self.points[index])
        } else {
            None
        }
    }
}

/// Every row of the range lies in one cell of a partition.
pub proof fn lemma_row_has_cell(points: Seq<usize>, y: int) -> (i: int)
    requires
        is_partition(points, points.last()),
        0 <= y < points.last(),
    ensures
        0 <= i < points.len() - 1,
        points[i] <= y < points[i + 1],
{
    lemma_row_has_cell_below(points, y, points.len() - 1)
}

proof fn lemma_row_has_cell_below(points: Seq<usize>, y: int, k: int) -> (i: int)
    requires
        is_partition(points, points.last()),
        0 < k < points.len(),
        points[0] <= y < points[k],
    ensures
        0 <= i < k,
        points[i] <= y < points[i + 1],
    decreases k,
{
    if points[k - 1] <= y {
        k - 1
    } else {
        lemma_row_has_cell_below(points, y, k - 1)
    }
}

/// No row lies in two cells of a partition.
pub proof fn lemma_cells_are_disjoint(points: Seq<usize>, i: int, j: int, y: int)
    requires
        is_sorted(points),
        0 <= i < j < points.len() - 1,
        points[i] <= y < points[i + 1],
    ensures
        !(points[j] <= y < points[j + 1]),
{
    assert(points[i + 1] <= points[j]);
}

} // verus!
