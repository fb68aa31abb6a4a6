use pso_rs::{
    assert_config, place_in_bounds, ConfigCheck, NeighborhoodType, OrderKey, Placement, PsoError,
};

fn key(x: f64) -> OrderKey {
    OrderKey::from_bits(x.to_bits())
}

fn default_check(c1: f64, c2: f64, dims: Vec<usize>, bounds: Vec<(f64, f64)>) -> ConfigCheck {
    ConfigCheck {
        coefficient_sum: key(c1 + c2),
        dimensions: dims,
        population_size: 100,
        bounds: bounds.iter().map(|&(lo, hi)| (key(lo), key(hi))).collect(),
    }
}

#[test]
fn keys_order_as_floats() {
    let values = [
        f64::NEG_INFINITY,
        -1e300,
        -2.5,
        -1.0,
        -f64::MIN_POSITIVE,
        -0.0,
        0.0,
        5e-324,
        1.0,
        2.5,
        1e300,
        f64::INFINITY,
        f64::NAN,
    ];
    for &a in &values {
        for &b in &values {
            assert_eq!(key(a).lt(&key(b)), a < b, "{} < {}", a, b);
            assert_eq!(key(a).ge(&key(b)), a >= b, "{} >= {}", a, b);
        }
    }
}

#[test]
fn key_values() {
    assert_eq!(key(0.0), OrderKey::Ranked(0x8000_0000_0000_0000));
    assert_eq!(key(-0.0), OrderKey::Ranked(0x8000_0000_0000_0000));
    assert_eq!(key(1.0), OrderKey::Ranked(0x8000_0000_0000_0000 + 0x3FF0_0000_0000_0000));
    assert_eq!(key(-1.0), OrderKey::Ranked(0x8000_0000_0000_0000 - 0x3FF0_0000_0000_0000));
    assert_eq!(key(f64::NAN), OrderKey::Unordered);
    assert_eq!(OrderKey::from_bits(0xFFF8_0000_0000_0001), OrderKey::Unordered);
}

#[test]
fn rejects_bad_coefficients() {
    let check = default_check(1.0, 1.0, vec![2], vec![(-1.0, 1.0); 2]);
    assert!(matches!(assert_config(&check), Err(PsoError::InvalidConfig(_))));
}

#[test]
fn rejects_mismatched_bounds() {
    let check = default_check(2.05, 2.05, vec![3], vec![(-1.0, 1.0); 2]);
    assert!(matches!(assert_config(&check), Err(PsoError::InvalidConfig(_))));
}

#[test]
fn config_errors_come_in_order() {
    let ok = default_check(2.05, 2.05, vec![2], vec![(-1.0, 1.0); 2]);
    assert_eq!(assert_config(&ok), Ok(()));
    let low = default_check(1.0, 2.0, vec![], vec![]);
    assert_eq!(
        assert_config(&low),
        Err(PsoError::InvalidConfig("c1 + c2 must be at least 4"))
    );
    let no_dims = default_check(2.05, 2.05, vec![], vec![]);
    assert_eq!(
        assert_config(&no_dims),
        Err(PsoError::InvalidConfig("dimensions must be set"))
    );
    let mut no_pop = default_check(2.05, 2.05, vec![2], vec![]);
    no_pop.population_size = 0;
    assert_eq!(
        assert_config(&no_pop),
        Err(PsoError::InvalidConfig("population_size must be at least 1"))
    );
    let no_bounds = default_check(2.05, 2.05, vec![2], vec![]);
    assert_eq!(
        assert_config(&no_bounds),
        Err(PsoError::InvalidConfig("bounds must be set"))
    );
    let inverted = default_check(2.05, 2.05, vec![3], vec![(-1.0, 1.0), (2.0, 2.0)]);
    assert_eq!(
        assert_config(&inverted),
        Err(PsoError::InvalidConfig(
            "each bound must have a strictly lower start than end"
        ))
    );
    let nan_bound = default_check(2.05, 2.05, vec![1], vec![(f64::NAN, 1.0)]);
    assert_eq!(
        assert_config(&nan_bound),
        Err(PsoError::InvalidConfig(
            "each bound must have a strictly lower start than end"
        ))
    );
    let nan_upper = default_check(2.05, 2.05, vec![1], vec![(0.0, f64::NAN)]);
    assert_eq!(
        assert_config(&nan_upper),
        Err(PsoError::InvalidConfig(
            "each bound must have a strictly lower start than end"
        ))
    );
    let nan_coefficient = default_check(f64::NAN, 2.05, vec![2], vec![(-1.0, 1.0); 2]);
    assert_eq!(
        assert_config(&nan_coefficient),
        Err(PsoError::InvalidConfig("c1 + c2 must be at least 4"))
    );
    let exactly_four = default_check(2.0, 2.0, vec![2], vec![(-1.0, 1.0); 2]);
    assert_eq!(assert_config(&exactly_four), Ok(()));
    let mismatch = default_check(2.05, 2.05, vec![4, 3], vec![(-1.0, 1.0); 2]);
    assert_eq!(
        assert_config(&mismatch),
        Err(PsoError::InvalidConfig(
            "bounds vector must have the same length as the last dimension of the model"
        ))
    );
}

#[test]
fn error_messages() {
    assert_eq!(PsoError::NanCoefficient.message(), "a particle coefficient became NaN");
    assert_eq!(PsoError::InvalidConfig("x").message(), "x");
    assert_eq!(NeighborhoodType::Lbest.label(), "Local neighborhood (lbest)");
    assert_eq!(NeighborhoodType::Gbest.label(), "Global neighborhood (gbest)");
}

#[test]
fn positions_are_placed_in_bounds() {
    let (lo, hi) = (key(-1.0), key(1.0));
    assert_eq!(place_in_bounds(key(1.5), lo, hi), Placement::AboveUpper);
    assert_eq!(place_in_bounds(key(-1.5), lo, hi), Placement::BelowLower);
    assert_eq!(place_in_bounds(key(1.0), lo, hi), Placement::Inside);
    assert_eq!(place_in_bounds(key(-1.0), lo, hi), Placement::Inside);
    assert_eq!(place_in_bounds(key(0.0), lo, hi), Placement::Inside);
    assert_eq!(place_in_bounds(key(f64::INFINITY), lo, hi), Placement::AboveUpper);
}
