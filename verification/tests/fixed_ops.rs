use tetra_acelp::fixed::ops;
use tetra_acelp::fixed::overflow::{self, OverflowFlag};
use tetra_acelp::fixed::{MAX_16, MAX_32, MIN_16, MIN_32};

#[test]
fn saturating_add_sub() {
    let mut f = OverflowFlag::new();
    assert_eq!(ops::add(MAX_16, 1, &mut f), MAX_16);
    assert_eq!(ops::add(MIN_16, -1, &mut f), MIN_16);
    assert_eq!(ops::sub(MIN_16, 1, &mut f), MIN_16);
    assert_eq!(ops::sub(MAX_16, -1, &mut f), MAX_16);
    assert_eq!(ops::add(100, 200, &mut f), 300);
}

#[test]
fn multiply_edges() {
    let mut f = OverflowFlag::new();
    assert_eq!(ops::l_mult(MIN_16, MIN_16, &mut f), MAX_32);
    assert_eq!(ops::mult(MIN_16, MIN_16, &mut f), MAX_16);
    assert_eq!(ops::mult_r(MIN_16, MIN_16, &mut f), MAX_16);
    assert_eq!(ops::l_mult(0x4000, 0x4000, &mut f), 0x2000_0000);
}

#[test]
fn abs_and_negate_edges() {
    assert_eq!(ops::abs_s(MIN_16), MAX_16);
    assert_eq!(ops::negate(MIN_16), MAX_16);
    assert_eq!(ops::l_abs(MIN_32), MAX_32);
    assert_eq!(ops::l_negate(MIN_32), MAX_32);
}

#[test]
fn shifts() {
    let mut f = OverflowFlag::new();
    assert_eq!(ops::shl(0x4000, 1, &mut f), MAX_16);
    assert_eq!(ops::shr(-4, 1, &mut f), -2);
    assert_eq!(ops::shr(-3, 1, &mut f), -2);
    assert_eq!(ops::l_shl(0x4000_0000, 1, &mut f), MAX_32);
    assert_eq!(ops::l_shr(-1, 5, &mut f), -1);
    assert_eq!(ops::l_shr_r(3, 1, &mut f), 2);
}

#[test]
fn norms() {
    assert_eq!(ops::norm_s(0x4000), 0);
    assert_eq!(ops::norm_s(0x2000), 1);
    assert_eq!(ops::norm_l(0x4000_0000), 0);
    assert_eq!(ops::norm_l(0x2000_0000), 1);
    assert_eq!(ops::norm_l(-1), 31);
}

#[test]
fn division() {
    let mut f = OverflowFlag::new();
    assert_eq!(ops::div_s(0, 100, &mut f), 0);
    assert_eq!(ops::div_s(100, 100, &mut f), MAX_16);
    assert_eq!(ops::div_s(0x2000, 0x4000, &mut f), 0x4000);
}

#[test]
fn saturation_raises_the_overflow_flag() {
    let mut f = OverflowFlag::new();
    overflow::reset(&mut f);
    let _ = ops::l_add(MAX_32, 1, &mut f);
    assert!(overflow::occurred(&f));
    // The 32-bit operators never clear it.
    let _ = ops::l_add(1, 1, &mut f);
    assert!(overflow::occurred(&f));
    // The 16-bit operators built on `sature` clear it when they do not clamp.
    let _ = ops::add(1, 1, &mut f);
    assert!(!overflow::occurred(&f));
    assert_eq!(ops::sature(40000, &mut f), MAX_16);
    assert!(overflow::occurred(&f));
    assert_eq!(ops::sature(-40000, &mut f), MIN_16);
    assert!(overflow::occurred(&f));
    assert_eq!(ops::sature(1234, &mut f), 1234);
    assert!(!overflow::occurred(&f));
}

#[test]
fn shifts_and_products_raise_the_flag_only_when_they_clamp() {
    let mut f = OverflowFlag::new();
    let _ = ops::l_mult(MIN_16, MIN_16, &mut f);
    assert!(overflow::occurred(&f));
    overflow::reset(&mut f);
    let _ = ops::l_mult(0x4000, 0x4000, &mut f);
    let _ = ops::l_shl(0x2000_0000, 1, &mut f);
    let _ = ops::shr(0x4000, 1, &mut f);
    assert!(!overflow::occurred(&f));
    let _ = ops::shr(0x4000, -1, &mut f);
    assert!(overflow::occurred(&f));
    overflow::reset(&mut f);
    let _ = ops::l_shr_r(0x4000_0000, -1, &mut f);
    assert!(overflow::occurred(&f));
    // `div_s` accumulates its quotient with `add`, which leaves the flag clear.
    assert_eq!(ops::div_s(0x2000, 0x4000, &mut f), 0x4000);
    assert!(!overflow::occurred(&f));
}
