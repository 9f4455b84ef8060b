//! The filtering primitives on small hand-computed cases.

use tetra_acelp::decoder::LSP_INIT;
use tetra_acelp::dsp::{interpolate_lp, lp_residual, lsp_to_lp, postprocess, synthesis_filter, weight_lp};

#[test]
fn residual_of_a_first_difference_filter() {
    // A(z) = 1 - z^-1 in Q12.
    let mut a = [0i16; 11];
    a[0] = 4096;
    a[1] = -4096;
    let x = [0i16, 0, 0, 0, 0, 0, 0, 0, 0, 7, 10, 20, 35, -5];
    let mut y = [99i16; 5];
    lp_residual(&a, &x, &mut y, 4);
    assert_eq!(y, [3, 10, 15, -40, 99]);
}

#[test]
fn synthesis_of_a_one_pole_filter_rounds_half_down() {
    // 1 / A(z) with A(z) = 1 - 0.5 z^-1: y[n] = x[n] + y[n-1] / 2.
    let mut a = [0i16; 11];
    a[0] = 4096;
    a[1] = -2048;
    let x = [100i16, 0, 0, 1];
    let mut y = [0i16; 4];
    let mut mem = [0i16; 10];
    synthesis_filter(&a, &x, &mut y, 4, &mut mem, false);
    assert_eq!(y, [100, 50, 25, 14]);
    assert_eq!(mem, [0i16; 10]);
}

#[test]
fn synthesis_keeps_its_last_outputs_as_memory() {
    let mut a = [0i16; 11];
    a[0] = 4096;
    let x: Vec<i16> = (1..=12).map(|v| v * 100).collect();
    let mut y = [0i16; 12];
    let mut mem = [5i16; 10];
    synthesis_filter(&a, &x, &mut y, 12, &mut mem, true);
    assert_eq!(y.to_vec(), x);
    assert_eq!(mem.to_vec(), x[2..12].to_vec());
}

#[test]
fn weighting_scales_each_coefficient() {
    let mut a = [0i16; 11];
    a[0] = 4096;
    a[1] = 8192;
    a[2] = -8192;
    let fac = [16384i16; 10];
    let mut out = [1i16; 11];
    weight_lp(&a, &fac, &mut out);
    let mut want = [0i16; 11];
    want[0] = 4096;
    want[1] = 4096;
    want[2] = -4096;
    assert_eq!(out, want);
}

#[test]
fn postprocessing_doubles_with_saturation() {
    let mut s = [1000i16, -20000, 20000, 0, -1];
    postprocess(&mut s);
    assert_eq!(s, [2000, -32768, 32767, 0, -2]);
}

#[test]
fn last_interpolated_filter_is_the_new_filter() {
    let mut a = [0i16; 11];
    lsp_to_lp(&LSP_INIT, &mut a);
    assert_eq!(a[0], 4096);
    let mut all = [0i16; 44];
    interpolate_lp(&LSP_INIT, &LSP_INIT, &mut all);
    assert_eq!(all[33..44].to_vec(), a.to_vec());
    // Interpolating between equal sets gives the same filter every time.
    for k in 0..3 {
        assert_eq!(all[11 * k..11 * k + 11].to_vec(), a.to_vec());
    }
}
