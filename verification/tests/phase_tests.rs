use zx_graph::phase::Phase;

fn parts(p: Phase) -> (u64, u64) {
    (p.numerator(), p.denominator())
}

#[test]
fn default_phase_is_zero() {
    let p = Phase::default();
    assert_eq!(parts(p), (0, 1));
    assert_eq!(p, Phase::zero());
}

#[test]
fn construction_reduces_to_lowest_terms() {
    assert_eq!(parts(Phase::new(2, 4)), (1, 2));
    assert_eq!(parts(Phase::new(6, 4)), (3, 2));
    assert_eq!(parts(Phase::new(9, 3)), (1, 1));
}

#[test]
fn construction_normalizes_modulo_two() {
    assert_eq!(parts(Phase::new(5, 2)), (1, 2));
    assert_eq!(parts(Phase::new(4, 1)), (0, 1));
    assert_eq!(parts(Phase::new(7, 1)), (1, 1));
}

#[test]
fn construction_handles_negative_values() {
    // -1/2 is congruent to 3/2 modulo 2
    assert_eq!(parts(Phase::new(-1, 2)), (3, 2));
    // 3/-2 == -3/2, congruent to 1/2 modulo 2
    assert_eq!(parts(Phase::new(3, -2)), (1, 2));
    // -4 is congruent to 0
    assert_eq!(parts(Phase::new(-4, 1)), (0, 1));
    assert_eq!(parts(Phase::new(-3, -2)), (3, 2));
}

#[test]
fn equal_phases_compare_equal() {
    assert_eq!(Phase::new(1, 2), Phase::new(2, 4));
    assert_eq!(Phase::new(-1, 2), Phase::new(3, 2));
    assert_ne!(Phase::new(1, 2), Phase::new(1, 3));
}

#[test]
fn addition_wraps_modulo_two() {
    let half = Phase::new(1, 2);
    let three_half = Phase::new(3, 2);
    assert_eq!(parts(half.add(three_half)), (0, 1));
    let three_quarter = Phase::new(3, 4);
    assert_eq!(parts(three_quarter.add(three_quarter)), (3, 2));
    assert_eq!(parts(half.add(Phase::zero())), (1, 2));
    assert_eq!(parts(Phase::new(1, 3).add(Phase::new(1, 2))), (5, 6));
}

#[test]
fn negation_reflects_modulo_two() {
    assert_eq!(parts(Phase::new(1, 2).neg()), (3, 2));
    assert_eq!(parts(Phase::new(3, 2).neg()), (1, 2));
    assert_eq!(parts(Phase::zero().neg()), (0, 1));
    // negating twice restores the phase
    let p = Phase::new(5, 3);
    assert_eq!(p.neg().neg(), p);
}

#[test]
fn ordering_follows_rational_value() {
    let third = Phase::new(1, 3);
    let half = Phase::new(1, 2);
    assert!(third < half);
    assert!(half > third);
    assert!(half <= Phase::new(2, 4));
    assert_eq!(
        half.partial_cmp(&Phase::new(2, 4)),
        Some(std::cmp::Ordering::Equal)
    );
}
