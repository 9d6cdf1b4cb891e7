use glitch_slice::partition::Partition;
use glitch_slice::random::{draw_samples, RandomSource};

struct Replay {
    values: Vec<u32>,
    next: usize,
}

impl Replay {
    fn new(values: Vec<u32>) -> Replay {
        Replay { values, next: 0 }
    }
}

impl RandomSource for Replay {
    fn next_u32(&mut self) -> u32 {
        let value: u32 = self.values[self.next % self.values.len()];
        self.next += 1;
        value
    }
}

struct Counter {
    state: u64,
}

impl RandomSource for Counter {
    fn next_u32(&mut self) -> u32 {
        self.state = self
            .state
            .wrapping_mul(6_364_136_223_846_793_005)
            .wrapping_add(1_442_695_040_888_963_407);
        (self.state >> 32) as u32
    }
}

fn points(p: &Partition) -> Vec<usize> {
    let mut out: Vec<usize> = Vec::new();
    for i in 0..p.len() {
        out.push(p.point(i).unwrap());
    }
    out
}

#[test]
fn draw_samples_takes_the_numbers_in_order() {
    let mut rng = Replay::new(vec![5, 6, 7, 8]);
    assert_eq!(draw_samples(&mut rng, 3), vec![5, 6, 7]);
    assert_eq!(draw_samples(&mut rng, 0), Vec::<u32>::new());
    assert_eq!(draw_samples(&mut rng, 2), vec![8, 5]);
}

#[test]
fn samples_are_scaled_to_the_range_and_sorted() {
    let p = Partition::from_samples(100, &[0x8000_0000, 0x4000_0000, 0xFFFF_FFFF]);
    assert_eq!(points(&p), vec![0, 25, 50, 99, 100]);
}

#[test]
fn scaling_rounds_down() {
    // 0x0A3D_70A3 / 2^32 is just below 0.04, 0x0A3D_70A4 just above
    let p = Partition::from_samples(100, &[0x0A3D_70A3, 0x0A3D_70A4]);
    assert_eq!(points(&p), vec![0, 3, 4, 100]);
}

#[test]
fn no_sample_gives_one_cell() {
    let p = Partition::from_samples(20, &[]);
    assert_eq!(points(&p), vec![0, 20]);
    assert_eq!(p.len(), 2);
    assert_eq!(p.point(2), None);
}

#[test]
fn equal_points_are_kept() {
    let p = Partition::from_samples(10, &[0, 0, 0x8000_0000, 0x8000_0001, 0xFFFF_FFFF]);
    assert_eq!(points(&p), vec![0, 0, 0, 5, 5, 9, 10]);
}

#[test]
fn a_range_without_rows_has_only_empty_cells() {
    let p = Partition::from_samples(0, &[1, 0x8000_0000, 0xFFFF_FFFF]);
    assert_eq!(points(&p), vec![0, 0, 0, 0, 0]);
}

#[test]
fn a_huge_range_does_not_overflow() {
    let p = Partition::from_samples(usize::MAX, &[0xFFFF_FFFF, 0]);
    let got = points(&p);
    assert_eq!(got.len(), 4);
    assert_eq!(got[0], 0);
    assert_eq!(got[1], 0);
    assert_eq!(got[2] as u128, (0xFFFF_FFFFu128 * usize::MAX as u128) >> 32);
    assert_eq!(got[3], usize::MAX);
}

#[test]
fn the_first_draw_selects_the_split_count() {
    assert_eq!(Partition::count_from_draw(0, 4, 8), 4);
    assert_eq!(Partition::count_from_draw(4, 4, 8), 8);
    assert_eq!(Partition::count_from_draw(5, 4, 8), 4);
    assert_eq!(Partition::count_from_draw(7, 4, 8), 6);
    assert_eq!(Partition::count_from_draw(0xFFFF_FFFF, 10, 19), 15);
    assert_eq!(Partition::count_from_draw(123, 3, 3), 3);
    assert_eq!(Partition::count_from_draw(123, 0, 0), 0);
    assert_eq!(Partition::count_from_draw(9, 0, usize::MAX), 9);
}

#[test]
fn generate_draws_the_count_and_then_the_splits() {
    let mut rng = Replay::new(vec![6, 0x8000_0000, 0x4000_0000, 0xC000_0000, 0, 77]);
    // 4 + 6 % 5 = 5 splits, placed by the next five draws
    let p = Partition::generate(1000, 4, 8, &mut rng);
    assert_eq!(points(&p), vec![0, 0, 0, 250, 500, 750, 1000]);
    assert_eq!(rng.next, 6);
}

#[test]
fn generate_with_an_empty_split_range_gives_one_cell() {
    let mut rng = Counter { state: 42 };
    let p = Partition::generate(20, 0, 0, &mut rng);
    assert_eq!(points(&p), vec![0, 20]);
}

#[test]
fn partitions_start_at_zero_end_at_the_height_and_never_descend() {
    let mut rng = Counter { state: 7 };
    let heights: [usize; 6] = [0, 1, 2, 20, 480, 100_000];
    for height in heights {
        for _ in 0..50 {
            let p = Partition::generate(height, 4, 8, &mut rng);
            let got = points(&p);
            assert!(6 <= got.len() && got.len() <= 10);
            assert_eq!(got[0], 0);
            assert_eq!(got[got.len() - 1], height);
            for i in 1..got.len() {
                assert!(got[i - 1] <= got[i]);
            }
        }
    }
}

#[test]
fn generation_is_reproducible() {
    let mut first = Counter { state: 99 };
    let mut second = Counter { state: 99 };
    for _ in 0..20 {
        let a = Partition::generate(300, 10, 19, &mut first);
        let b = Partition::generate(300, 10, 19, &mut second);
        assert_eq!(points(&a), points(&b));
    }
}
