use roguelike::rng::{choose_item, gen_range_i32, gen_range_u32, gen_range_usize, gen_ratio, pcg_from_seed, shuffle};

#[test]
fn ranges_are_half_open() {
    let mut rng = pcg_from_seed(9);
    for _ in 0..200 {
        let a = gen_range_i32(&mut rng, -3, 4);
        assert!((-3..4).contains(&a));
        let b = gen_range_u32(&mut rng, 7, 10);
        assert!((7..10).contains(&b));
        let c = gen_range_usize(&mut rng, 0, 1);
        assert_eq!(c, 0);
    }
}

#[test]
fn certain_ratios_are_certain() {
    let mut rng = pcg_from_seed(3);
    for _ in 0..100 {
        assert!(!gen_ratio(&mut rng, 0, 7));
        assert!(gen_ratio(&mut rng, 7, 7));
    }
}

#[test]
fn choosing_and_shuffling_keep_to_the_items() {
    let mut rng = pcg_from_seed(4);
    let items = [3u32, 5, 8];
    for _ in 0..50 {
        let x = choose_item(&items, &mut rng).unwrap();
        assert!(items.contains(&x));
    }
    let empty: [u32; 0] = [];
    assert_eq!(choose_item(&empty, &mut rng), None);
    let mut v = vec![1, 2, 3, 4, 5, 6];
    shuffle(&mut v, &mut rng);
    let mut sorted = v.clone();
    sorted.sort();
    assert_eq!(sorted, vec![1, 2, 3, 4, 5, 6]);
}

#[test]
fn the_same_seed_draws_the_same_numbers() {
    let mut a = pcg_from_seed(42);
    let mut b = pcg_from_seed(42);
    for _ in 0..20 {
        assert_eq!(gen_range_u32(&mut a, 0, 1000), gen_range_u32(&mut b, 0, 1000));
    }
}
