//! The unquantised pitch and code gains on hand-computed cases (Q12 for
//! the pitch gain).

use tetra_acelp::encoder::{code_gain, pitch_gain};

#[test]
fn equal_vectors_have_unit_pitch_gain() {
    assert_eq!(pitch_gain(&[1000i16; 60], &[1000i16; 60], 60), 4096);
}

#[test]
fn pitch_gain_is_capped_at_1_2() {
    assert_eq!(pitch_gain(&[2000i16; 60], &[1000i16; 60], 60), 4915);
}

#[test]
fn code_gain_is_not_capped() {
    assert_eq!(code_gain(&[2000i16; 60], &[1000i16; 60], 60), 8192);
    assert_eq!(code_gain(&[1000i16; 60], &[1000i16; 60], 60), 4096);
}

#[test]
fn negative_correlation_gives_zero_gain() {
    assert_eq!(pitch_gain(&[-1000i16; 60], &[1000i16; 60], 60), 0);
    assert_eq!(code_gain(&[-1000i16; 60], &[1000i16; 60], 60), 0);
}

#[test]
fn silent_target_gives_zero_pitch_gain() {
    assert_eq!(pitch_gain(&[0i16; 60], &[1000i16; 60], 60), 0);
}
