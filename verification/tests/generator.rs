use lcd_effects::rng::{Random, DEFAULT_SEED};

#[test]
fn default_seed_value() {
    let r = Random::new();
    assert_eq!(r.0, 12345);
    assert_eq!(r.0, DEFAULT_SEED);
}

#[test]
fn first_draw_matches_recurrence() {
    let mut r = Random::new();
    let v = r.get_u32();
    assert_eq!(v, 12345u32.wrapping_mul(1664525).wrapping_add(1013904223));
    assert_eq!(v, 87628868);
    assert_eq!(r.0, v);
}

#[test]
fn every_draw_matches_recurrence() {
    let mut r = Random::new();
    let mut state: u32 = r.0;
    for _ in 0..1000 {
        let expected = state.wrapping_mul(1664525).wrapping_add(1013904223);
        let v = r.get_u32();
        assert_eq!(v, expected);
        state = expected;
    }
}

#[test]
fn same_seed_same_sequence() {
    let mut a = Random::new();
    let mut b = Random::new();
    for _ in 0..1000 {
        assert_eq!(a.get_u32(), b.get_u32());
    }
    let mut a = Random::new();
    let mut b = Random::new();
    for _ in 0..1000 {
        assert_eq!(a.get_u16(), b.get_u16());
        assert_eq!(a.get_u8(), b.get_u8());
    }
}

#[test]
fn narrow_draws_divide_and_mask() {
    let mut a = Random::new();
    let mut b = Random::new();
    let w = a.get_u16();
    let v = b.get_u32();
    assert_eq!(w as u32, (v / 23) & 0xFFFF);
    let mut a = Random::new();
    let w8 = a.get_u8();
    assert_eq!(w8 as u32, (v / 23) & 0xFF);
}
