//! Differential bit-exactness check for the fixed-point basic operators:
//! replays a deterministic input sweep and folds every operator result into
//! an FNV-style checksum whose expected value comes from the reference
//! operator library.

use tetra_acelp::fixed::dsp_ops::{
    add_high16, add_shifted, load_high16, load_shifted, normalize_capped, store_high, sub_high16,
    sub_shifted,
};
use tetra_acelp::fixed::ext::{div_dpf, dpf_compose, dpf_split, mul_dpf, mul_word_dpf};
use tetra_acelp::fixed::math::{inv_sqrt, log2, pow2};
use tetra_acelp::fixed::ops;
use tetra_acelp::fixed::overflow::OverflowFlag;

const EXPECTED_CHECKSUM: u64 = 3446111561188545445;
const FNV_PRIME: u64 = 1099511628211;
const FNV_OFFSET: u64 = 1469598103934665603;

/// Interpolation table for log2 (Q15).
const TAB_LOG2: [i16; 33] = [
    0, 1455, 2866, 4236, 5568, 6863, 8124, 9352, 10549, 11716, 12855, 13967, 15054, 16117, 17156,
    18172, 19167, 20142, 21097, 22033, 22951, 23852, 24735, 25603, 26455, 27291, 28113, 28922,
    29716, 30497, 31266, 32023, 32767,
];

struct Lcg(u32);
impl Lcg {
    fn next(&mut self) -> u32 {
        self.0 = self.0.wrapping_mul(1103515245).wrapping_add(12345);
        self.0
    }
    fn r16(&mut self) -> i16 {
        (self.next() >> 8) as i16
    }
    fn r32(&mut self) -> i32 {
        let hi = self.next();
        let lo = self.next();
        ((hi << 8) ^ lo) as i32
    }
}

struct Checksum(u64);
impl Checksum {
    fn mix16(&mut self, v: i16) {
        self.0 = self.0.wrapping_mul(FNV_PRIME).wrapping_add(v as u16 as u64);
    }
    fn mix32(&mut self, v: i32) {
        self.0 = self.0.wrapping_mul(FNV_PRIME).wrapping_add(v as u32 as u64);
    }
}

#[test]
fn basic_operators_match_reference() {
    let mut f = OverflowFlag::new();
    let mut rng = Lcg(0x12345678);
    let mut ck = Checksum(FNV_OFFSET);

    for _ in 0..2_000_000 {
        let a = rng.r16();
        let b = rng.r16();
        let la = rng.r32();
        let lb = rng.r32();
        let sh = ((rng.next() % 63) as i32 - 31) as i16;
        let sh16 = (rng.next() % 16) as i16;
        let sh32 = (rng.next() % 32) as i16;

        ck.mix16(ops::abs_s(a));
        ck.mix16(ops::add(a, b, &mut f));
        ck.mix16(ops::sub(a, b, &mut f));
        ck.mix16(ops::negate(a));
        ck.mix16(ops::mult(a, b, &mut f));
        ck.mix16(ops::mult_r(a, b, &mut f));
        ck.mix16(ops::extract_h(la));
        ck.mix16(ops::extract_l(la));
        ck.mix16(ops::round_(la, &mut f));
        ck.mix16(ops::shl(a, sh, &mut f));
        ck.mix16(ops::shr(a, sh, &mut f));
        ck.mix16(ops::norm_s(a));
        ck.mix16(ops::norm_l(la));

        ck.mix32(ops::l_mult(a, b, &mut f));
        ck.mix32(ops::l_mult0(a, b));
        ck.mix32(ops::l_mac(la, a, b, &mut f));
        ck.mix32(ops::l_mac0(la, a, b, &mut f));
        ck.mix32(ops::l_msu(la, a, b, &mut f));
        ck.mix32(ops::l_msu0(la, a, b, &mut f));
        ck.mix32(ops::l_add(la, lb, &mut f));
        ck.mix32(ops::l_sub(la, lb, &mut f));
        ck.mix32(ops::l_negate(la));
        ck.mix32(ops::l_abs(la));
        ck.mix32(ops::l_deposit_h(a));
        ck.mix32(ops::l_deposit_l(a));
        ck.mix32(ops::l_shl(la, sh, &mut f));
        ck.mix32(ops::l_shr(la, sh, &mut f));
        ck.mix32(ops::l_shr_r(la, sh, &mut f));
        ck.mix32(ops::l_shl(la, sh16, &mut f));
        ck.mix32(ops::l_shr(la, sh32, &mut f));

        let x = ops::abs_s(a) >> 1;
        let y = ops::abs_s(b) | 1;
        let (x, y) = if x > y { (y, x) } else { (x, y) };
        ck.mix16(ops::div_s(x, y, &mut f));
    }

    for _ in 0..500_000 {
        let a = rng.r16();
        let b = rng.r16();
        let la = rng.r32();
        let lb = rng.r32();
        let sh = (rng.next() % 16) as i16;
        let v2 = (rng.next() % 8) as i16;
        let ms = (rng.next() % 16) as i16;
        let e = (rng.next() % 31) as i16;
        let fr = rng.r16() & 0x7fff;
        let dh = (0x4001 + (rng.next() % 0x3ffe)) as i16;
        let dl = (rng.next() % 0x8000) as i16;
        let k = (1 + (rng.next() % 14)) as i16;
        let lxpos = la & 0x7fff_ffff;
        let den = dpf_compose(dh, dl);
        let num = ops::l_shr(den, k, &mut f);

        ck.mix32(add_shifted(la, a, sh));
        ck.mix32(add_high16(la, a));
        ck.mix32(sub_shifted(la, a, sh));
        ck.mix32(sub_high16(la, a));
        ck.mix32(load_shifted(a, sh));
        ck.mix32(load_high16(a));
        ck.mix16(store_high(la, v2));

        let (nv, ns) = normalize_capped(la, ms);
        ck.mix32(nv);
        ck.mix16(ns);
        ck.mix32(dpf_compose(a, b));
        let (hi, lo) = dpf_split(lxpos);
        ck.mix16(hi);
        ck.mix16(lo);
        ck.mix32(mul_word_dpf(a, b, ops::sub(b, a, &mut f)));
        ck.mix32(mul_dpf(a, b, ops::extract_h(lb), ops::extract_l(lb)));
        ck.mix32(inv_sqrt(lxpos));
        let (ex, frc) = log2(lxpos, &TAB_LOG2);
        ck.mix16(ex);
        ck.mix16(frc);
        ck.mix32(pow2(e, fr));
        ck.mix32(div_dpf(num, dh, dl));
    }

    assert_eq!(ck.0, EXPECTED_CHECKSUM, "operator sweep diverged from reference");
}
