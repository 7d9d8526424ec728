use pbr::perlin::{Perlin, POINT_COUNT};
use rand::rngs::StdRng;
use rand::SeedableRng;

#[test]
fn hashes_name_a_slot() {
    let mut rng = StdRng::seed_from_u64(3);
    let p = Perlin::new(&mut rng);
    for i in -300i64..300 {
        assert!(p.corner_hash(i, i / 3, -i) < POINT_COUNT);
    }
}

#[test]
fn coordinates_wrap_around_the_slot_count() {
    let mut rng = StdRng::seed_from_u64(4);
    let p = Perlin::new(&mut rng);
    assert_eq!(p.corner_hash(-1, 0, 0), p.corner_hash(255, 0, 0));
    assert_eq!(p.corner_hash(256, 2, 3), p.corner_hash(0, 2, 3));
    assert_eq!(p.corner_hash(1, -257, 3), p.corner_hash(1, 255, 3));
    assert_eq!(p.corner_hash(i64::MIN, 0, i64::MAX), p.corner_hash(0, 0, 255));
}

#[test]
fn tables_are_shuffled_permutations() {
    let mut rng = StdRng::seed_from_u64(5);
    let p = Perlin::new(&mut rng);
    let row: Vec<usize> = (0..256i64).map(|i| p.corner_hash(i, 0, 0)).collect();
    let mut sorted = row.clone();
    sorted.sort();
    assert_eq!(sorted, (0..256).collect::<Vec<_>>());
    let base = p.corner_hash(0, 0, 0);
    assert!((0..256i64).any(|i| p.corner_hash(i, 0, 0) != (i as usize) ^ base));
}
