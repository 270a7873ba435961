use drive::typ::FruitType;

#[test]
fn test_next() {
    assert_eq!(FruitType::Blueberry.next(), Some(FruitType::Cherry));
    assert_eq!(FruitType::Cherry.next(), Some(FruitType::Apricot));
    assert_eq!(FruitType::Apricot.next(), Some(FruitType::Plum));
    assert_eq!(FruitType::Plum.next(), Some(FruitType::Orange));
    assert_eq!(FruitType::Orange.next(), Some(FruitType::Apple));
    assert_eq!(FruitType::Apple.next(), Some(FruitType::Grapefruit));
    assert_eq!(FruitType::Grapefruit.next(), Some(FruitType::Honeydew));
    assert_eq!(FruitType::Honeydew.next(), Some(FruitType::Basketball));
    assert_eq!(FruitType::Basketball.next(), Some(FruitType::Watermelon));
    assert_eq!(FruitType::Watermelon.next(), None);
}

#[test]
fn test_radius_table() {
    let all = [
        FruitType::Blueberry,
        FruitType::Cherry,
        FruitType::Apricot,
        FruitType::Plum,
        FruitType::Orange,
        FruitType::Apple,
        FruitType::Grapefruit,
        FruitType::Honeydew,
        FruitType::Basketball,
        FruitType::Watermelon,
    ];
    let radii: Vec<i64> = all.iter().map(|t| t.radius()).collect();
    assert_eq!(
        radii,
        vec![
            655360, 926819, 1310720, 1853638, 2621440, 3707276, 5242880, 7414552, 10485760,
            14829104
        ]
    );
    // each successor's radius is sqrt(2) times its class's, within
    // floating tolerance
    for w in radii.windows(2) {
        let ratio = w[1] as f64 / w[0] as f64;
        assert!((ratio - std::f64::consts::SQRT_2).abs() < 1e-5);
    }
    // two promotions double the radius exactly
    for (i, t) in all.iter().enumerate() {
        if let Some(s) = t.next() {
            if let Some(ss) = s.next() {
                assert_eq!(ss.radius(), 2 * radii[i]);
            }
        }
    }
}

#[test]
fn test_mass_table() {
    // mass = radius^2 (in units) times the density constant, truncated
    let expected: [i64; 10] = [
        10000, 19999, 40000, 79999, 160000, 319999, 640000, 1279999, 2560000, 5119999,
    ];
    let all = [
        FruitType::Blueberry,
        FruitType::Cherry,
        FruitType::Apricot,
        FruitType::Plum,
        FruitType::Orange,
        FruitType::Apple,
        FruitType::Grapefruit,
        FruitType::Honeydew,
        FruitType::Basketball,
        FruitType::Watermelon,
    ];
    for (t, m) in all.iter().zip(expected.iter()) {
        assert_eq!(t.mass(), *m);
        let r = t.radius() as i128;
        assert_eq!(t.mass() as i128, r * r * 100 / (65536 * 65536));
    }
}

#[test]
fn test_index_roundtrip() {
    for i in 0..10usize {
        assert_eq!(FruitType::of_index(i).index(), i);
    }
}

#[test]
fn test_rand_up_to() {
    // only one class is allowed at the lower bound, so the draw is
    // forced; at a higher bound every draw respects it
    assert_eq!(FruitType::rand_up_to(FruitType::Blueberry), FruitType::Blueberry);
    for _ in 0..50 {
        let t = FruitType::rand_up_to(FruitType::Apricot);
        assert!(t.index() <= FruitType::Apricot.index());
    }
}
