use pixel_based::fixed::{
    DEFAULT_STRENGTH, DEFAULT_SUBSTEPS, LEVEL_LIMIT, ONE, SEED_LEVEL, SEED_VELOCITY_X,
    SEED_VELOCITY_Y,
};
use pixel_based::relaxation::relax_cell;

#[test]
fn constants_have_their_fixed_point_values() {
    assert_eq!(ONE, 1u64 << 32);
    assert_eq!(SEED_LEVEL, 100 * ONE);
    assert_eq!(SEED_VELOCITY_X, -5 * (ONE as i64));
    assert_eq!(SEED_VELOCITY_Y, ONE as i64);
    assert_eq!(DEFAULT_SUBSTEPS, 20);
    assert_eq!(DEFAULT_STRENGTH, 2 * ONE);
    assert_eq!(LEVEL_LIMIT, 1u64 << 61);
    assert!(SEED_LEVEL <= LEVEL_LIMIT);
}

#[test]
fn lone_hot_cell_halves_at_strength_one() {
    assert_eq!(relax_cell(100 * ONE, 0, 0, 0, 0, ONE), 50 * ONE);
    assert_eq!(relax_cell(100 * ONE, 0, 0, 0, 0, ONE), 214748364800);
}

#[test]
fn cold_cell_between_two_hot_neighbors() {
    // 2 * 200 / (4 * 3) = 33.33..., rounded down to the next stored level
    assert_eq!(relax_cell(0, 100 * ONE, 100 * ONE, 0, 0, 2 * ONE), 143165576533);
}

#[test]
fn mixed_levels_at_strength_three() {
    // (7 + 3 * (1 + 2 + 3 + 4) / 4) / 4 = 3.625
    assert_eq!(relax_cell(7 * ONE, ONE, 2 * ONE, 3 * ONE, 4 * ONE, 3 * ONE), 15569256448);
    assert_eq!(15569256448, 3 * ONE + ONE / 2 + ONE / 8);
}

#[test]
fn strength_zero_keeps_the_own_level() {
    assert_eq!(relax_cell(5, 1, 2, 3, 4, 0), 5);
    assert_eq!(relax_cell(SEED_LEVEL, 0, 0, 0, 0, 0), SEED_LEVEL);
}

#[test]
fn small_raw_levels_round_down() {
    // (4 * 10 + 0.25 * 140) / (4 * 1.25) = 15
    assert_eq!(relax_cell(10, 20, 30, 40, 50, ONE / 4), 15);
    // (4 * 1 + 1 * 2) / 8 = 0.75, rounded down
    assert_eq!(relax_cell(1, 1, 1, 0, 0, ONE), 0);
}

#[test]
fn equal_levels_stay() {
    for strength in [0, 1, ONE / 3, ONE, 2 * ONE, 1000 * ONE, u64::MAX] {
        for level in [0, 1, ONE, SEED_LEVEL, LEVEL_LIMIT] {
            assert_eq!(relax_cell(level, level, level, level, level, strength), level);
        }
    }
}

#[test]
fn largest_arguments_do_not_overflow() {
    assert_eq!(
        relax_cell(LEVEL_LIMIT, LEVEL_LIMIT, LEVEL_LIMIT, LEVEL_LIMIT, LEVEL_LIMIT, u64::MAX),
        LEVEL_LIMIT
    );
    assert_eq!(relax_cell(0, LEVEL_LIMIT, 0, 0, 0, u64::MAX), 576460752169205760);
}

#[test]
fn relaxed_level_lies_between_the_levels_read() {
    let samples = [0u64, 1, 7, ONE / 2, ONE, 3 * ONE + 5, 42 * ONE, SEED_LEVEL];
    let strengths = [0u64, 1, ONE / 10, ONE, 2 * ONE, 50 * ONE, u64::MAX];
    for (i, &own) in samples.iter().enumerate() {
        for (j, &right) in samples.iter().enumerate() {
            let left = samples[(i + j) % samples.len()];
            let up = samples[(i * 3 + 1) % samples.len()];
            let down = samples[(j * 5 + 2) % samples.len()];
            let lo = own.min(right).min(left).min(up).min(down);
            let hi = own.max(right).max(left).max(up).max(down);
            for &strength in strengths.iter() {
                let next = relax_cell(own, right, left, up, down, strength);
                assert!(lo <= next && next <= hi);
            }
        }
    }
}

#[test]
fn stronger_diffusion_pulls_further_towards_the_neighbors() {
    let weak = relax_cell(100 * ONE, 0, 0, 0, 0, ONE / 2);
    let even = relax_cell(100 * ONE, 0, 0, 0, 0, ONE);
    let strong = relax_cell(100 * ONE, 0, 0, 0, 0, 3 * ONE);
    assert_eq!(weak, 286331153066);
    assert_eq!(even, 50 * ONE);
    assert_eq!(strong, 25 * ONE);
    assert!(strong < even && even < weak);
}
