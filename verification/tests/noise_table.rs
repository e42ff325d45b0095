use video_sandbox::noise::{CellDistance, CellFeature, Cellular, Perm};

fn table(p: &Perm) -> Vec<usize> {
    (0..512).map(|i| p.hash(i)).collect()
}

#[test]
fn seeded_table_is_a_doubled_permutation() {
    for seed in [0u64, 1, 42, 7] {
        let p = Perm::new(seed);
        let t = table(&p);
        let mut seen = [false; 256];
        for &v in &t[..256] {
            assert!(v < 256);
            assert!(!seen[v]);
            seen[v] = true;
        }
        for i in 0..256 {
            assert_eq!(t[i + 256], t[i]);
        }
    }
}

#[test]
fn same_seed_same_table_different_seed_different_table() {
    assert_eq!(table(&Perm::new(7)), table(&Perm::new(7)));
    assert_ne!(table(&Perm::new(7)), table(&Perm::new(8)));
}

#[test]
fn zero_draws_rotate_the_identity() {
    // every step exchanges position i with position 0
    let p = Perm::from_draws(&vec![0u32; 255]);
    for i in 0..256 {
        assert_eq!(p.hash(i), ((i + 1) % 256) as usize);
    }
}

#[test]
fn hash_wraps_with_period_512_including_negative_coordinates() {
    let p = Perm::new(3);
    for i in -600i32..600 {
        assert_eq!(p.hash(i), p.hash(i + 512));
        assert_eq!(p.hash(i), p.hash(i.rem_euclid(512)));
    }
}

#[test]
fn hash3_nests_the_one_dimensional_hash() {
    let p = Perm::new(11);
    for (x, y, z) in [(0, 0, 0), (5, -3, 1000), (-7, 2, -9), (i32::MAX, i32::MAX, i32::MIN)] {
        let a = p.hash(x) as i32;
        let b = p.hash(a.wrapping_add(y)) as i32;
        assert_eq!(p.hash3(x, y, z), p.hash(b.wrapping_add(z)));
    }
    let (ox, oy, oz) = p.feature_hashes(1, 2, 3);
    let h = p.hash3(1, 2, 3) as i32;
    assert_eq!((ox, oy, oz), (p.hash(h), p.hash(h + 1), p.hash(h + 2)));
}

#[test]
fn cellular_builders() {
    let c = Cellular::new();
    assert_eq!(c, Cellular { distance: CellDistance::Euclidean, feature: CellFeature::F1 });
    let c = c.distance(CellDistance::Chebyshev).feature(CellFeature::F2MinusF1);
    assert_eq!(c.distance, CellDistance::Chebyshev);
    assert_eq!(c.feature, CellFeature::F2MinusF1);
    assert_eq!(Cellular::default(), Cellular::new());
}
