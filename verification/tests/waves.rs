use lcd_effects::wave::{wave, wave2};

#[test]
fn wave_exact_value() {
    // fold(5) = 5, arch = 5 * (10 - 5) * 100 / 10 / 10 / 4 = 6
    assert_eq!(wave(5, 10, 100), 6);
    // second half of the interval is the negated arch
    assert_eq!(wave(15, 10, 100), -6);
    // zero at the fold points
    assert_eq!(wave(0, 10, 100), 0);
    assert_eq!(wave(10, 10, 100), 0);
    assert_eq!(wave(20, 10, 100), 0);
}

#[test]
fn wave_periodic_in_two_periods() {
    for p in 1..30i32 {
        for a in [0, 1, 7, 150, 1000] {
            for x in -200..200i32 {
                assert_eq!(wave(x, p, a), wave(x + 2 * p, p, a));
            }
        }
    }
}

#[test]
fn wave_half_period_flips_sign() {
    for p in 1..30i32 {
        for a in [0, 3, 128, 999] {
            for x in -200..200i32 {
                assert_eq!(wave(x + p, p, a), -wave(x, p, a));
            }
        }
    }
}

#[test]
fn wave_zero_amplitude_is_zero() {
    for p in 1..50i32 {
        for x in -500..500i32 {
            assert_eq!(wave(x, p, 0), 0);
        }
    }
}

#[test]
fn wave_bounded_by_amplitude() {
    for p in 1..40i32 {
        for a in [0, 1, 50, 1000] {
            for x in -300..300i32 {
                let v = wave(x, p, a);
                assert!(-a <= v && v <= a);
            }
        }
    }
}

#[test]
fn wave2_exact_value() {
    // wave(5, 10, 128) = 8; 100 * 64 / 128 = 50; 50 / 16 = 3
    assert_eq!(wave2(5, 10, 100), 3);
    // a non-positive argument squares the same wave value and negates:
    // wave(-5, 10, 128) = -8, squared 64, scaled 50, damped 3, negated
    assert_eq!(wave2(-5, 10, 100), -3);
}

#[test]
fn wave2_zero_amplitude_is_zero() {
    for p in 1..20i32 {
        for x in -100..100i32 {
            assert_eq!(wave2(x, p, 0), 0);
        }
    }
}
