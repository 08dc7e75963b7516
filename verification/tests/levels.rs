use boost_rs::level_generator::{DefaultLevelGenerator, GenerateLevel};

#[test]
fn invalid_total() {
    assert!(DefaultLevelGenerator::new(0, 500).is_err())
}

#[test]
fn invalid_p_0() {
    let res = DefaultLevelGenerator::new(1, 0).is_err();
    println!("res: {}", res);
    assert!(res)
}

#[test]
fn invalid_p_1() {
    assert!(DefaultLevelGenerator::new(1, 1000).is_err())
}

#[test]
fn level_generator_new() {
    DefaultLevelGenerator::new(1, 500).unwrap();
}

#[test]
fn random() {
    let level_bound = 5;
    let mut g = DefaultLevelGenerator::new(level_bound, 500).unwrap();
    for _ in 0..10 {
        let level = g.random();
        println!("current level: {}", level);
        assert!(level < level_bound);
    }
}

#[test]
fn many_draws_stay_in_range() {
    let mut g = DefaultLevelGenerator::new(5, 500).unwrap();
    for _ in 0..10000 {
        let level = g.random();
        assert!(1 <= level && level <= 4);
    }
}

#[test]
fn bound_of_one_always_draws_one() {
    let mut g = DefaultLevelGenerator::new(1, 500).unwrap();
    for _ in 0..100 {
        assert_eq!(g.random(), 1);
    }
}
