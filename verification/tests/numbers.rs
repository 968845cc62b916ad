use neat::policy::{choose_action, Action};
use neat::scalar::{greater, key_of, not_a_number, ONE, ZERO};

fn samples() -> Vec<f32> {
    vec![
        f32::NEG_INFINITY,
        f32::MIN,
        -1000.0,
        -2.5,
        -1.0,
        -f32::MIN_POSITIVE,
        -1e-45,
        -0.0,
        0.0,
        1e-45,
        f32::MIN_POSITIVE,
        0.5,
        1.0,
        1.0000001,
        14.0,
        1000.0,
        f32::MAX,
        f32::INFINITY,
    ]
}

#[test]
fn zero_and_one_are_the_encodings_of_zero_and_one() {
    assert_eq!(ZERO, 0.0f32.to_bits());
    assert_eq!(ONE, 1.0f32.to_bits());
    assert_eq!(f32::from_bits(ZERO), 0.0);
    assert_eq!(f32::from_bits(ONE), 1.0);
}

#[test]
fn keys_order_encodings_as_the_numbers_are_ordered() {
    let all = samples();
    for a in &all {
        for b in &all {
            let (x, y) = (a.to_bits(), b.to_bits());
            assert_eq!(key_of(x) < key_of(y), a < b);
            assert_eq!(key_of(x) == key_of(y), a == b);
            assert_eq!(greater(x, y), a > b);
        }
    }
}

#[test]
fn keys_have_the_stated_values() {
    assert_eq!(key_of(0.0f32.to_bits()), 0);
    assert_eq!(key_of((-0.0f32).to_bits()), 0);
    assert_eq!(key_of(1.0f32.to_bits()), 0x3f80_0000);
    assert_eq!(key_of((-1.0f32).to_bits()), -0x3f80_0000);
    assert_eq!(key_of(f32::INFINITY.to_bits()), 0x7f80_0000);
    assert_eq!(key_of(f32::NEG_INFINITY.to_bits()), -0x7f80_0000);
    assert_eq!(key_of(0xffff_ffff), -0x7fff_ffff);
}

#[test]
fn nan_is_told_apart_and_exceeds_nothing() {
    assert!(not_a_number(f32::NAN.to_bits()));
    assert!(not_a_number(0x7f80_0001));
    assert!(not_a_number(0xffc0_0000));
    for x in samples() {
        assert!(!not_a_number(x.to_bits()));
        assert!(!greater(f32::NAN.to_bits(), x.to_bits()));
        assert!(!greater(x.to_bits(), f32::NAN.to_bits()));
    }
}

fn action(left: f32, stay: f32, right: f32) -> Action {
    choose_action(&vec![left.to_bits(), stay.to_bits(), right.to_bits()])
}

#[test]
fn the_largest_output_decides_the_move() {
    assert_eq!(action(3.0, 1.0, 2.0), Action::Left);
    assert_eq!(action(-1.0, -3.0, -2.0), Action::Left);
    assert_eq!(action(1.0, 2.0, 3.0), Action::Right);
    assert_eq!(action(1.0, 3.0, 2.0), Action::Stay);
}

#[test]
fn a_tie_or_a_nan_means_stay() {
    assert_eq!(action(2.0, 1.0, 2.0), Action::Stay);
    assert_eq!(action(2.0, 2.0, 1.0), Action::Stay);
    assert_eq!(action(1.0, 2.0, 2.0), Action::Stay);
    assert_eq!(action(0.0, 0.0, 0.0), Action::Stay);
    assert_eq!(action(0.0, -0.0, -0.0), Action::Stay);
    assert_eq!(action(f32::NAN, 1.0, 2.0), Action::Stay);
    assert_eq!(action(3.0, f32::NAN, 2.0), Action::Stay);
    assert_eq!(action(3.0, 1.0, f32::NAN), Action::Stay);
}

#[test]
fn outputs_past_the_third_are_not_read() {
    let outputs = vec![1.0f32.to_bits(), 0.0f32.to_bits(), 5.0f32.to_bits(), 100.0f32.to_bits()];
    assert_eq!(choose_action(&outputs), Action::Right);
}
