use tetra_acelp::frame::{SpeechFrame, FRAME_BITS};

#[test]
fn frame_bit_byte_roundtrip() {
    let mut bits = [false; FRAME_BITS];
    for (i, b) in bits.iter_mut().enumerate() {
        *b = (i * 7 + 3) % 5 < 2;
    }
    let frame = SpeechFrame::from_bits(&bits);
    assert_eq!(frame.to_bits(), bits);
    assert_eq!(SpeechFrame::from_bytes(frame.to_bytes()), frame);
}

#[test]
fn tch_s_block_is_concatenation() {
    let a = SpeechFrame::from_bits(&[true; FRAME_BITS]);
    let b = SpeechFrame::from_bits(&[false; FRAME_BITS]);
    let block = SpeechFrame::tch_s_block(&a, &b);
    assert!(block[..FRAME_BITS].iter().all(|&x| x));
    assert!(block[FRAME_BITS..].iter().all(|&x| !x));
}

#[test]
fn fields_are_msb_first_integers_of_the_bits() {
    const W: [usize; 23] = [8, 9, 9, 8, 14, 1, 1, 6, 5, 14, 1, 1, 6, 5, 14, 1, 1, 6, 5, 14, 1, 1, 6];
    let mut bits = [false; FRAME_BITS];
    let mut x: u32 = 0x9e37_79b9;
    for b in bits.iter_mut() {
        x = x.wrapping_mul(1103515245).wrapping_add(12345);
        *b = (x >> 16) & 1 == 1;
    }
    let f = SpeechFrame::from_bits(&bits);
    let mut vals = Vec::new();
    let mut pos = 0;
    for w in W {
        let mut v: u16 = 0;
        for b in &bits[pos..pos + w] {
            v = 2 * v + *b as u16;
        }
        vals.push(v);
        pos += w;
    }
    let p = f.parameters();
    assert_eq!(p.lsp_indices.to_vec(), vals[0..3].to_vec());
    for s in 0..4 {
        let sub = p.subframes[s];
        assert_eq!(
            [sub.pitch_index, sub.code_index, sub.sign, sub.shift, sub.gain_index].to_vec(),
            vals[3 + 5 * s..8 + 5 * s].to_vec()
        );
    }
}

#[test]
fn from_bytes_reads_the_bits_of_the_bytes() {
    let mut b = [0u8; 18];
    for (i, v) in b.iter_mut().enumerate() {
        *v = (i as u8).wrapping_mul(37).wrapping_add(11);
    }
    b[17] = 0xff;
    let mut bits = [false; FRAME_BITS];
    for (i, bit) in bits.iter_mut().enumerate() {
        *bit = (b[i / 8] >> (7 - i % 8)) & 1 == 1;
    }
    let f = SpeechFrame::from_bytes(b);
    assert_eq!(f, SpeechFrame::from_bits(&bits));
    assert_eq!(f.to_bytes()[17], b[17] & 0x80);
    assert_eq!(SpeechFrame::from_bytes(f.to_bytes()), f);
}
