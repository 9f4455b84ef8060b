//! End-to-end checks of the speech codec front ends.
//!
//! The ETSI codebooks are not part of this crate, so these tests build a
//! set of tables of the right shapes and plausible magnitudes. Every
//! property checked here (local synthesis equals the far-end decoder's
//! output, frames survive the byte format, concealment ignores the bits)
//! holds for any table values.

use tetra_acelp::frame::{
    Decoder, Encoder, FrameQuality, SpeechFrame, FRAME_BITS, FRAME_SAMPLES,
};
use tetra_acelp::tables::{CodecTables, TableError, TABLE_LENGTHS};

const TAB_LOG2: [i16; 33] = [
    0, 1455, 2866, 4236, 5568, 6863, 8124, 9352, 10549, 11716, 12855, 13967, 15054, 16117, 17156,
    18172, 19167, 20142, 21097, 22033, 22951, 23852, 24735, 25603, 26455, 27291, 28113, 28922,
    29716, 30497, 31266, 32023, 32767,
];

struct Lcg(u32);
impl Lcg {
    fn next(&mut self) -> u32 {
        self.0 = self.0.wrapping_mul(1103515245).wrapping_add(12345);
        self.0
    }
    fn range(&mut self, lo: i32, hi: i32) -> i16 {
        let span = (hi - lo + 1) as u32;
        (lo + ((self.next() >> 8) % span) as i32) as i16
    }
}

fn q15(x: f64) -> i16 {
    (x * 32768.0).round().clamp(-32768.0, 32767.0) as i16
}

fn interpolation_filter(taps: usize, frac: f64) -> Vec<i16> {
    let half = (taps / 2) as f64;
    (0..taps)
        .map(|k| {
            let t = k as f64 - half + 1.0 - frac;
            let sinc = if t.abs() < 1e-9 {
                1.0
            } else {
                (std::f64::consts::PI * t).sin() / (std::f64::consts::PI * t)
            };
            let w = 0.5 + 0.5 * (std::f64::consts::PI * t / (half + 1.0)).cos();
            q15(0.9 * sinc * w)
        })
        .collect()
}

fn table_values() -> Vec<Vec<i16>> {
    let pi = std::f64::consts::PI;
    let window: Vec<i16> = (0..256)
        .map(|n| q15(0.54 - 0.46 * (2.0 * pi * n as f64 / 255.0).cos()))
        .collect();
    let mut lag_h = Vec::new();
    let mut lag_l = Vec::new();
    for i in 1..=10 {
        let f = 2.0 * pi * 60.0 * i as f64 / 8000.0;
        let w = (-0.5 * f * f).exp();
        let v = (w * 2147483647.0) as i64;
        let hi = v >> 16;
        lag_h.push(hi as i16);
        lag_l.push(((v - (hi << 16)) >> 1) as i16);
    }
    let grid: Vec<i16> = (0..61)
        .map(|k| q15(0.99975 * (pi * k as f64 / 60.0).cos()))
        .collect();
    let mut rng = Lcg(0x5eed_1234);
    let mut codebook = |n: usize, lo: i32, hi: i32| -> Vec<i16> {
        (0..n).map(|_| rng.range(lo, hi)).collect()
    };
    let dico1 = codebook(768, -1500, 1500);
    let dico2 = codebook(1536, -1000, 1000);
    let dico3 = codebook(2048, -800, 800);
    let t_qua_ener = codebook(128, -3000, 3000);
    vec![
        window,
        lag_h,
        lag_l,
        grid,
        dico1,
        dico2,
        dico3,
        t_qua_ener,
        TAB_LOG2.to_vec(),
        interpolation_filter(8, -1.0 / 3.0),
        interpolation_filter(8, 1.0 / 3.0),
        interpolation_filter(32, -1.0 / 3.0),
        interpolation_filter(32, 1.0 / 3.0),
    ]
}

fn tables() -> CodecTables {
    CodecTables::from_values(&table_values()).expect("table shapes are right")
}

fn tone(frame: usize, amplitude: f64, freq: f64) -> [i16; FRAME_SAMPLES] {
    let mut pcm = [0i16; FRAME_SAMPLES];
    for (i, s) in pcm.iter_mut().enumerate() {
        let n = (frame * FRAME_SAMPLES + i) as f64;
        *s = (amplitude * (2.0 * std::f64::consts::PI * freq * n / 8000.0).sin()) as i16;
    }
    pcm
}

#[test]
fn encode_decode_roundtrip_is_clean() {
    let t = tables();
    let mut enc = Encoder::new(&t);
    let mut dec = Decoder::new(&t);
    let pcm = [1234i16; FRAME_SAMPLES];
    let (frame, synth) = enc.encode_with_synthesis(&pcm);
    let out = dec.decode(&frame, FrameQuality::good());
    assert_eq!(out, synth);
    // Round-tripping the frame through bits/bytes changes nothing.
    let frame2 = SpeechFrame::from_bytes(frame.to_bytes());
    assert_eq!(frame2, frame);
}

#[test]
fn clean_channel_stays_in_step_over_many_frames() {
    let t = tables();
    let mut enc = Encoder::new(&t);
    let mut dec = Decoder::new(&t);
    for k in 0..25 {
        let pcm = tone(k, 6000.0 + 400.0 * k as f64, 300.0 + 37.0 * k as f64);
        let (frame, synth) = enc.encode_with_synthesis(&pcm);
        let received = SpeechFrame::from_bytes(frame.to_bytes());
        let out = dec.decode(&received, FrameQuality::good());
        assert_eq!(out, synth, "frame {k}");
    }
}

#[test]
fn encode_equals_encode_with_synthesis_frame() {
    let t = tables();
    let mut a = Encoder::new(&t);
    let mut b = Encoder::new(&t);
    for k in 0..6 {
        let pcm = tone(k, 9000.0, 440.0);
        let (f, _) = a.encode_with_synthesis(&pcm);
        assert_eq!(b.encode(&pcm), f);
    }
}

#[test]
fn encoded_parameters_fit_their_fields() {
    let t = tables();
    let mut enc = Encoder::new(&t);
    for k in 0..8 {
        let p = enc.encode(&tone(k, 12000.0, 700.0)).parameters();
        assert!(p.lsp_indices[0] < 256);
        assert!(p.lsp_indices[1] < 512);
        assert!(p.lsp_indices[2] < 512);
        for (s, sub) in p.subframes.iter().enumerate() {
            assert!(sub.pitch_index < if s == 0 { 256 } else { 32 });
            assert!(sub.code_index < 16384);
            assert!(sub.sign < 2 && sub.shift < 2);
            assert!(sub.gain_index < 64);
        }
    }
}

#[test]
fn bad_frame_ignores_the_received_bits() {
    let t = tables();
    let mut enc = Encoder::new(&t);
    let mut d1 = Decoder::new(&t);
    let mut d2 = Decoder::new(&t);
    for k in 0..3 {
        let f = enc.encode(&tone(k, 8000.0, 500.0));
        assert_eq!(
            d1.decode(&f, FrameQuality::good()),
            d2.decode(&f, FrameQuality::good())
        );
    }
    let x = SpeechFrame::from_bits(&[true; FRAME_BITS]);
    let y = SpeechFrame::from_bits(&[false; FRAME_BITS]);
    let ox = d1.decode(&x, FrameQuality::bad());
    let oy = d2.decode(&y, FrameQuality::bad());
    assert_eq!(ox, oy);
    // Both decoders are still in the same state afterwards.
    let f = enc.encode(&tone(3, 8000.0, 500.0));
    assert_eq!(
        d1.decode(&f, FrameQuality::good()),
        d2.decode(&f, FrameQuality::good())
    );
}

#[test]
fn silence_roundtrip_is_clean() {
    let t = tables();
    let mut enc = Encoder::new(&t);
    let mut dec = Decoder::new(&t);
    let (f, synth) = enc.encode_with_synthesis(&[0i16; FRAME_SAMPLES]);
    let out = dec.decode(&f, FrameQuality::good());
    assert_eq!(out, synth);
}

#[test]
fn quality_constructors() {
    assert!(!FrameQuality::good().bad_frame);
    assert!(FrameQuality::bad().bad_frame);
}

#[test]
fn tables_of_the_wrong_length_are_refused() {
    let mut values = table_values();
    values[3].pop();
    match CodecTables::from_values(&values) {
        Err(TableError::WrongLength {
            table,
            expected,
            found,
        }) => {
            assert_eq!(table, 3);
            assert_eq!(expected, 61);
            assert_eq!(found, 60);
        }
        Ok(_) => panic!("a short grid must be refused"),
    }
    let mut values = table_values();
    values[12].push(0);
    values[7].clear();
    assert_eq!(
        CodecTables::from_values(&values).err(),
        Some(TableError::WrongLength {
            table: 7,
            expected: 128,
            found: 0
        })
    );
    assert_eq!(TABLE_LENGTHS.iter().sum::<usize>(), 4930);
}

#[test]
fn tables_keep_their_values() {
    let values = table_values();
    let t = CodecTables::from_values(&values).unwrap();
    assert_eq!(t.window.to_vec(), values[0]);
    assert_eq!(t.grid.to_vec(), values[3]);
    assert_eq!(t.dico3_clsp.to_vec(), values[6]);
    assert_eq!(t.tab_log2, TAB_LOG2);
    assert_eq!(t.inter32_1_3.to_vec(), values[12]);
}
