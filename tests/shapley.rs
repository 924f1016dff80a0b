use std::collections::hash_map::DefaultHasher;
use std::hash::{Hash, Hasher};

use shapley::coalition::Coalition;
use shapley::shapley::{Shapley, ShapleyError, ShapleyValue, MAX_PLAYERS};

fn table(rows: &[(Vec<u64>, i64)]) -> Vec<(Coalition, i64)> {
    rows.iter()
        .map(|(m, w)| (Coalition::new(m.clone()), *w))
        .collect()
}

fn as_f64(v: ShapleyValue) -> f64 {
    v.numerator as f64 / v.denominator as f64
}

fn value(engine: &Shapley, player: u64) -> f64 {
    as_f64(engine.shapley_value(player).unwrap())
}

fn almost_eq(a: f64, b: f64, tolerance: f64) -> bool {
    (a - b).abs() <= tolerance
}

fn divide_dollar() -> Shapley {
    Shapley::new(
        vec![1, 2, 3],
        table(&[
            (vec![1], 0),
            (vec![2], 0),
            (vec![3], 0),
            (vec![2, 3], 0),
            (vec![1, 2], 300),
            (vec![1, 3], 300),
            (vec![1, 2, 3], 300),
        ]),
    )
}

fn logistics() -> Shapley {
    Shapley::new(
        vec![1, 2, 3, 4],
        table(&[
            (vec![1], 0),
            (vec![2], 0),
            (vec![3], 0),
            (vec![4], 0),
            (vec![1, 2], 0),
            (vec![1, 3], 0),
            (vec![1, 4], 0),
            (vec![2, 3], 0),
            (vec![2, 4], 0),
            (vec![3, 4], 0),
            (vec![1, 2, 3], 0),
            (vec![2, 3, 4], 0),
            (vec![1, 2, 4], 45),
            (vec![1, 3, 4], 40),
            (vec![1, 2, 3, 4], 65),
        ]),
    )
}

#[test]
fn test_empty_coalition_handling() {
    let shapley = Shapley::new(vec![1], table(&[(vec![1], 5)]));
    assert_eq!(shapley.worth(&Coalition::new(vec![])), Some(0));
}

#[test]
fn test_missing_data() {
    let shapley = Shapley::new(vec![1, 2], table(&[(vec![1, 2], 10)]));
    assert!(shapley.shapley_value(1).is_err());
}

#[test]
fn test_simple_shapley_value() {
    let shapley = Shapley::new(
        vec![1, 2],
        table(&[(vec![], 0), (vec![1], 10), (vec![2], 20), (vec![1, 2], 30)]),
    );
    assert_eq!(value(&shapley, 1), 10.0);
    assert_eq!(value(&shapley, 2), 20.0);
}

#[test]
fn test_divide_dollar_game() {
    let shapley = divide_dollar();
    assert!(almost_eq(value(&shapley, 1), 200.0, 1e-10));
    assert!(almost_eq(value(&shapley, 2), 50.0, 1e-10));
    assert!(almost_eq(value(&shapley, 3), 50.0, 1e-10));
}

#[test]
fn test_logistics_game() {
    let shapley = logistics();
    assert!(almost_eq(value(&shapley, 1), 23.333333333333332, 1e-10));
    assert!(almost_eq(value(&shapley, 2), 10.0, 1e-10));
    assert!(almost_eq(value(&shapley, 3), 8.333333333333332, 1e-10));
    assert!(almost_eq(value(&shapley, 4), 23.333333333333332, 1e-10));
}

#[test]
fn exact_fractions_of_the_logistics_game() {
    let shapley = logistics();
    let v = shapley.shapley_value(3).unwrap();
    // 25/3, scaled by 4! = 24
    assert_eq!(v.denominator, 24);
    assert_eq!(v.numerator, 200);
}

#[test]
fn two_player_fractions() {
    let shapley = Shapley::new(
        vec![1, 2],
        table(&[(vec![], 0), (vec![1], 10), (vec![2], 20), (vec![1, 2], 30)]),
    );
    assert_eq!(
        shapley.shapley_value(1).unwrap(),
        ShapleyValue { numerator: 20, denominator: 2 }
    );
}

#[test]
fn coalition_order_and_repetition_do_not_matter() {
    let a = Coalition::new(vec![1, 2, 3]);
    let b = Coalition::new(vec![3, 2, 1]);
    let c = Coalition::new(vec![2, 3, 1, 3, 2]);
    assert_eq!(a, b);
    assert_eq!(a, c);
    let hash = |x: &Coalition| {
        let mut h = DefaultHasher::new();
        x.hash(&mut h);
        h.finish()
    };
    assert_eq!(hash(&a), hash(&b));
    assert_eq!(hash(&a), hash(&c));
    assert_eq!(c.members(), vec![1, 2, 3]);
    assert_ne!(a, Coalition::new(vec![1, 2]));
}

#[test]
fn coalition_size_contains_subtract() {
    let a = Coalition::new(vec![5, 1, 5, 9]);
    assert_eq!(a.size(), 3);
    assert!(a.contains(9));
    assert!(!a.contains(2));
    let b = a.subtract(5);
    assert_eq!(b.members(), vec![1, 9]);
    assert_eq!(b.size(), 2);
    assert_eq!(a.subtract(7), a);
    assert_eq!(Coalition::new(vec![]).size(), 0);
    assert_eq!(Coalition::new(vec![4]).subtract(4), Coalition::new(vec![]));
}

#[test]
fn missing_data_names_the_absent_coalition() {
    let shapley = Shapley::new(vec![1, 2], table(&[(vec![1, 2], 10)]));
    match shapley.shapley_value(1) {
        Err(ShapleyError::MissingCoalitionData { coalition }) => {
            assert_eq!(coalition, Coalition::new(vec![2]))
        }
        other => panic!("unexpected result {:?}", other),
    }
}

#[test]
fn explicit_empty_worth_is_kept() {
    let shapley = Shapley::new(vec![1], table(&[(vec![], 7), (vec![1], 5)]));
    assert_eq!(shapley.worth(&Coalition::new(vec![])), Some(7));
    assert_eq!(shapley.worth(&Coalition::new(vec![1])), Some(5));
    assert_eq!(shapley.worth(&Coalition::new(vec![2])), None);
    assert_eq!(shapley.players(), 1);
    assert_eq!(shapley.shapley_value(1).unwrap(), ShapleyValue { numerator: -2, denominator: 1 });
}

#[test]
fn player_absent_from_every_coalition() {
    let shapley = divide_dollar();
    match shapley.shapley_value(4) {
        Err(ShapleyError::InsufficientData { player }) => assert_eq!(player, 4),
        other => panic!("unexpected result {:?}", other),
    }
}

#[test]
fn coalition_larger_than_the_game() {
    let shapley = Shapley::new(vec![1], table(&[(vec![1], 3), (vec![2], 1), (vec![1, 2], 6)]));
    match shapley.shapley_value(1) {
        Err(ShapleyError::MissingWeight { size }) => assert_eq!(size, 1),
        other => panic!("unexpected result {:?}", other),
    }
}

#[test]
fn sums_beyond_128_bits() {
    let mut rows = vec![(vec![1], 0)];
    for x in 2..1600u64 {
        rows.push((vec![x], i64::MIN));
        rows.push((vec![1, x], i64::MAX));
    }
    let shapley = Shapley::new((1..=MAX_PLAYERS as u64).collect(), table(&rows));
    match shapley.shapley_value(1) {
        Err(ShapleyError::Overflow { player }) => assert_eq!(player, 1),
        other => panic!("unexpected result {:?}", other),
    }
}

#[test]
fn efficiency_on_full_games() {
    let shapley = divide_dollar();
    let total: f64 = (1..=3).map(|p| value(&shapley, p)).sum();
    assert!(almost_eq(total, 300.0, 1e-9));
    let shapley = logistics();
    let total: f64 = (1..=4).map(|p| value(&shapley, p)).sum();
    assert!(almost_eq(total, 65.0, 1e-9));
}

#[test]
fn symmetric_players_get_equal_values() {
    let shapley = divide_dollar();
    assert_eq!(shapley.shapley_value(2).unwrap(), shapley.shapley_value(3).unwrap());
}

#[test]
fn weights_of_a_three_player_game() {
    // players 1, 2, 3 with only singletons and the empty coalition: each
    // player's value is its own worth, weighted 0! * 2! = 2
    let shapley = Shapley::new(vec![1, 2, 3], table(&[(vec![1], 4), (vec![2], 6)]));
    assert_eq!(shapley.shapley_value(1).unwrap(), ShapleyValue { numerator: 8, denominator: 2 });
    let full = Shapley::new(vec![1, 2, 3], table(&[(vec![1, 2, 3], 9), (vec![2, 3], 3)]));
    // only {1,2,3} contains player 1: weight 2! * 0! = 2
    assert_eq!(full.shapley_value(1).unwrap(), ShapleyValue { numerator: 12, denominator: 2 });
}
