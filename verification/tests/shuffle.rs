use cb2vec::trainer::{shuffle, Rng64};

#[test]
fn the_generator_is_xorshift64() {
    let mut rng = Rng64::new(1);
    assert_eq!(rng.next_u64(), 0x4082_2041);
    assert_eq!(rng.state, 0x4082_2041);
    assert_eq!(Rng64::new(0).state, 0x9E37_79B9_7F4A_7C15);
    assert_eq!(Rng64::new(0).spare_normal_bits, None);
}

#[test]
fn shuffling_is_a_deterministic_permutation() {
    let mut first = (0..10).collect::<Vec<usize>>();
    let mut second = first.clone();
    let mut rng_a = Rng64::new(7);
    let mut rng_b = Rng64::new(7);
    shuffle(&mut first, &mut rng_a);
    shuffle(&mut second, &mut rng_b);
    assert_eq!(first, second);
    assert_eq!(rng_a, rng_b);
    assert_ne!(first, (0..10).collect::<Vec<usize>>());
    let mut sorted = first.clone();
    sorted.sort();
    assert_eq!(sorted, (0..10).collect::<Vec<usize>>());

    // One draw per position from the last down to the second.
    let mut counted = Rng64::new(7);
    for _ in 0..9 {
        counted.next_u64();
    }
    assert_eq!(counted.state, rng_a.state);
}

#[test]
fn short_orders_are_left_alone() {
    let mut rng = Rng64::new(3);
    let mut empty: Vec<usize> = Vec::new();
    shuffle(&mut empty, &mut rng);
    assert!(empty.is_empty());
    let mut single = vec![42];
    shuffle(&mut single, &mut rng);
    assert_eq!(single, vec![42]);
    assert_eq!(rng.state, 3);
}
