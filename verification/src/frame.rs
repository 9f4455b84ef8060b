//! The [`SpeechFrame`] transport type: one 30 ms coded frame of exactly 137
//! ordered source-coded bits (`B1..B137`), stored packed MSB first in 18
//! bytes. Frame-quality metadata such as the Bad Frame Indicator is kept
//! separate (see [`FrameQuality`]).

use crate::decoder::{
    bits_to_params, decode_result, lemma_good_frame_depends_on_synthesis_part, params_fit,
    postprocessed, synthesis_part, Decoder as CoreDecoder, DecoderState, LSP_INIT, frame_params,
    next_lsp,
};
use crate::analysis::encode_step;
use crate::encoder::{fresh_view, mirror_state, params_to_bits, Encoder as CoreEncoder, SynthesisView};
use crate::layout::lemma_fields_fit;
use crate::tables::CodecTables;
use crate::fixed::Word16;
use crate::layout::{bits_msb_first, field_value, lemma_layout, offset, param_fits, width};
use vstd::prelude::*;

verus! {

/// Number of PCM samples in one 30 ms frame (8 kHz).
pub const FRAME_SAMPLES: usize = 240;

/// Number of source-coded bits in one frame.
pub const FRAME_BITS: usize = 137;

/// Packed size of a [`SpeechFrame`] in bytes (`ceil(137 / 8)`).
pub const FRAME_BYTES: usize = 18;

/// Bit `i` of a packed byte sequence, MSB first: bit 7 of byte `i / 8`
/// down to bit 0.
pub open spec fn packed_bit(bytes: Seq<u8>, i: int) -> bool {
    ((bytes[i / 8] >> ((7 - i % 8) as u8)) & 1u8) == 1u8
}

/// The 137 bits held by a packed byte sequence.
pub open spec fn packed_bits(bytes: Seq<u8>) -> Seq<bool> {
    Seq::new(137, |i: int| packed_bit(bytes, i))
}

/// A packed frame: 18 bytes whose last byte uses only its top bit.
pub open spec fn well_formed_bytes(bytes: Seq<u8>) -> bool {
    bytes.len() == 18 && bytes[17] & 0x7fu8 == 0
}

/// The serial form of a frame's bits: the BFI slot (0) followed by each bit
/// as 0 or 1.
pub open spec fn serial_of(bits: Seq<bool>) -> Seq<Word16> {
    seq![0i16] + bits.map_values(|b: bool| if b { 1i16 } else { 0i16 })
}

/// One 30 ms coded speech frame: 137 ordered bits, stored packed MSB first.
/// The final 7 bits of the 18-byte storage are unused and always zero.
#[derive(Clone, Copy, PartialEq, Eq, Debug)]
pub struct SpeechFrame {
    bytes: [u8; 18],
}

impl View for SpeechFrame {
    type V = Seq<bool>;

    closed spec fn view(&self) -> Seq<bool> {
        packed_bits(self.bytes@)
    }
}

/// Setting one bit of a byte changes only that bit; the zero byte has no
/// bit set.
proof fn lemma_or_bit(b: u8, s: u8, t: u8)
    requires
        s < 8,
        t < 8,
    ensures
        ((b | (0x80u8 >> s)) >> (7 - t) as u8) & 1u8 == if s == t {
            1u8
        } else {
            (b >> (7 - t) as u8) & 1u8
        },
        (0u8 >> (7 - t) as u8) & 1u8 == 0u8,
{
    assert(((b | (0x80u8 >> s)) >> (7 - t) as u8) & 1u8 == if s == t {
        1u8
    } else {
        (b >> (7 - t) as u8) & 1u8
    } && (0u8 >> (7 - t) as u8) & 1u8 == 0u8) by (bit_vector)
        requires
            s < 8,
            t < 8,
    ;
}

/// Facts about the last byte: its unused bits are clear exactly when bits
/// 1..=7 (MSB first) are, and masking with `0x80` keeps bit 0.
proof fn lemma_last_byte(b: u8)
    ensures
        (((b >> 6u8) & 1u8) != 1 && ((b >> 5u8) & 1u8) != 1 && ((b >> 4u8) & 1u8) != 1 && ((b
            >> 3u8) & 1u8) != 1 && ((b >> 2u8) & 1u8) != 1 && ((b >> 1u8) & 1u8) != 1 && ((b >> 0u8)
            & 1u8) != 1) ==> b & 0x7fu8 == 0,
        ((b & 0x80u8) >> 7u8) & 1u8 == (b >> 7u8) & 1u8,
        (b & 0x80u8) & 0x7fu8 == 0,
        b & 0x7fu8 == 0 ==> b & 0x80u8 == b,
{
    assert((((b >> 6u8) & 1u8) != 1 && ((b >> 5u8) & 1u8) != 1 && ((b >> 4u8) & 1u8) != 1 && ((b
        >> 3u8) & 1u8) != 1 && ((b >> 2u8) & 1u8) != 1 && ((b >> 1u8) & 1u8) != 1 && ((b >> 0u8)
        & 1u8) != 1) ==> b & 0x7fu8 == 0) by (bit_vector);
    assert(((b & 0x80u8) >> 7u8) & 1u8 == (b >> 7u8) & 1u8 && (b & 0x80u8) & 0x7fu8 == 0 && (b
        & 0x7fu8 == 0 ==> b & 0x80u8 == b)) by (bit_vector);
}

impl SpeechFrame {
    /// The unused low 7 bits of the last byte are zero.
    #[verifier::type_invariant]
    spec fn unused_bits_clear(&self) -> bool {
        self.bytes[17] & 0x7fu8 == 0
    }

    /// The 18 packed bytes of the frame.
    pub closed spec fn packed(&self) -> Seq<u8> {
        self.bytes@
    }

    /// Build a frame from its 137 bits (MSB first, `bits[0]` = `B1`).
    pub fn from_bits(bits: &[bool; 137]) -> (f: Self)
        ensures
            f@ == bits@,
            well_formed_bytes(f.packed()),
    {
        let mut bytes = [0u8; 18];
        let mut i: usize = 0;
        proof {
            assert forall|p: int| 0 <= p < 144 implies !#[trigger] packed_bit(bytes@, p) by {
                lemma_or_bit(0, 0, (p % 8) as u8);
            }
        }
        while i < 137
            invariant
                i <= 137,
                forall|p: int|
                    0 <= p < 144 ==> #[trigger] packed_bit(bytes@, p) == (p < i && bits@[p]),
            decreases 137 - i,
        {
            if bits[i] {
                let j = i / 8;
                let s = (i % 8) as u8;
                let ghost old_bytes = bytes@;
                bytes[j] = bytes[j] | (0x80u8 >> s);
                proof {
                    assert forall|p: int| 0 <= p < 144 implies #[trigger] packed_bit(bytes@, p) == (p
                        < i + 1 && bits@[p]) by {
                        if p / 8 == j {
                            lemma_or_bit(old_bytes[j as int], s, (p % 8) as u8);
                            assert(((p % 8) as u8 == s) == (p == i));
                            assert(bytes@[p / 8] == (old_bytes[p / 8] | (0x80u8 >> s)));
                            if p == i {
                                assert(packed_bit(bytes@, p));
                            } else {
                                assert(packed_bit(bytes@, p) == packed_bit(old_bytes, p));
                            }
                        } else {
                            assert(bytes@[p / 8] == old_bytes[p / 8]);
                            assert(packed_bit(bytes@, p) == packed_bit(old_bytes, p));
                        }
                        assert(packed_bit(old_bytes, p) == (p < i && bits@[p]));
                    }
                }
            }
            i = i + 1;
        }
        proof {
            let b = bytes@[17];
            assert(!packed_bit(bytes@, 137) && !packed_bit(bytes@, 138) && !packed_bit(bytes@, 139)
                && !packed_bit(bytes@, 140) && !packed_bit(bytes@, 141) && !packed_bit(bytes@, 142)
                && !packed_bit(bytes@, 143));
            assert(((b >> 6u8) & 1u8) != 1 && ((b >> 5u8) & 1u8) != 1 && ((b >> 4u8) & 1u8) != 1
                && ((b >> 3u8) & 1u8) != 1 && ((b >> 2u8) & 1u8) != 1 && ((b >> 1u8) & 1u8) != 1
                && ((b >> 0u8) & 1u8) != 1);
            lemma_last_byte(b);
            assert(b & 0x7fu8 == 0);
            assert(packed_bits(bytes@) =~= bits@);
        }
        SpeechFrame { bytes }
    }

    /// Return the 137 bits (MSB first, `bits[0]` = `B1`).
    pub fn to_bits(&self) -> (bits: [bool; 137])
        ensures
            bits@ == self@,
    {
        let mut bits = [false; 137];
        let mut i: usize = 0;
        while i < 137
            invariant
                i <= 137,
                forall|p: int| 0 <= p < i ==> #[trigger] bits@[p] == packed_bit(self.bytes@, p),
            decreases 137 - i,
        {
            bits[i] = (self.bytes[i / 8] >> ((7 - i % 8) as u8)) & 1u8 == 1u8;
            i = i + 1;
        }
        proof {
            assert(bits@ =~= packed_bits(self.bytes@));
        }
        bits
    }

    /// Build a frame from its packed bytes. The 7 unused low bits of the last
    /// byte are cleared, so they never take part in the frame's value.
    pub fn from_bytes(bytes: [u8; 18]) -> (f: Self)
        ensures
            f.packed() == bytes@.update(17, bytes@[17] & 0x80u8),
            f@ == packed_bits(bytes@),
            well_formed_bytes(f.packed()),
    {
        let mut b = bytes;
        b[17] = b[17] & 0x80u8;
        proof {
            lemma_last_byte(bytes@[17]);
            assert forall|p: int| 0 <= p < 137 implies #[trigger] packed_bit(b@, p) == packed_bit(
                bytes@,
                p,
            ) by {
                if p / 8 != 17 {
                    assert(b@[p / 8] == bytes@[p / 8]);
                }
            }
            assert(packed_bits(b@) =~= packed_bits(bytes@));
        }
        SpeechFrame { bytes: b }
    }

    /// Return the packed byte representation (137 bits MSB first, 7 zero
    /// padding bits).
    pub fn to_bytes(&self) -> (bytes: [u8; 18])
        ensures
            bytes@ == self.packed(),
            well_formed_bytes(bytes@),
            packed_bits(bytes@) == self@,
    {
        proof {
            use_type_invariant(self);
        }
        self.bytes
    }

    /// Concatenate two frames into the 274-bit TETRA TCH/S speech block of
    /// one transmission time slot: the bits of `first` (frame A) followed by
    /// the bits of `second` (frame B).
    pub fn tch_s_block(first: &SpeechFrame, second: &SpeechFrame) -> (block: [bool; 274])
        ensures
            block@ == first@ + second@,
    {
        let a = first.to_bits();
        let b = second.to_bits();
        let mut out = [false; 274];
        let mut i: usize = 0;
        while i < 137
            invariant
                i <= 137,
                forall|p: int| 0 <= p < i ==> #[trigger] out@[p] == a@[p],
                forall|p: int| 0 <= p < i ==> #[trigger] out@[137 + p] == b@[p],
            decreases 137 - i,
        {
            out[i] = a[i];
            out[137 + i] = b[i];
            i = i + 1;
        }
        proof {
            assert forall|q: int| 0 <= q < 274 implies #[trigger] out@[q] == (first@ + second@)[q] by {
                if q >= 137 {
                    let p = q - 137;
                    assert(out@[137 + p] == b@[p]);
                }
            }
            assert(out@ =~= first@ + second@);
        }
        out
    }

    /// The serial bit stream of this frame: BFI slot 0, then the 137 bits as
    /// 0/1 words.
    fn serial(&self) -> (serial: [Word16; 138])
        ensures
            serial@ == serial_of(self@),
    {
        let bits = self.to_bits();
        let mut serial = [0i16; 138];
        let mut i: usize = 0;
        while i < 137
            invariant
                i <= 137,
                bits@ == self@,
                serial@[0] == 0,
                forall|p: int|
                    0 <= p < i ==> #[trigger] serial@[p + 1] == if bits@[p] {
                        1i16
                    } else {
                        0i16
                    },
            decreases 137 - i,
        {
            serial[i + 1] = if bits[i] {
                1
            } else {
                0
            };
            i = i + 1;
        }
        proof {
            assert forall|q: int| 0 <= q < 138 implies #[trigger] serial@[q] == serial_of(self@)[q] by {
                if q >= 1 {
                    let p = q - 1;
                    assert(serial@[p + 1] == if bits@[p] { 1i16 } else { 0i16 });
                }
            }
            assert(serial@ =~= serial_of(self@));
        }
        serial
    }

    /// The 23 codec parameters carried by the frame.
    pub fn raw_params(&self) -> (raw: [Word16; 23])
        ensures
            forall|k: int| 0 <= k < 23 ==> #[trigger] raw[k] == field_value(serial_of(self@), k),
    {
        let serial = self.serial();
        let prm = bits_to_params(&serial);
        let mut out = [0i16; 23];
        let mut k: usize = 0;
        while k < 23
            invariant
                k <= 23,
                forall|j: int| 0 <= j < 23 ==> #[trigger] prm[j + 1] == field_value(serial@, j),
                forall|j: int| 0 <= j < k ==> #[trigger] out[j] == prm[j + 1],
            decreases 23 - k,
        {
            out[k] = prm[k + 1];
            k = k + 1;
        }
        out
    }

    /// Build a frame from its 23 codec parameters, each written MSB first
    /// into its field.
    pub fn from_raw_params(params: &[Word16; 23]) -> (f: Self)
        ensures
            forall|k: int|
                0 <= k < 23 ==> #[trigger] serial_of(f@).subrange(offset(k), offset(k) + width(k))
                    == bits_msb_first(params[k] as int, width(k) as nat),
    {
        let mut serial = [0i16; 138];
        params_to_bits(params, &mut serial);
        let mut bits = [false; 137];
        let mut i: usize = 0;
        while i < 137
            invariant
                i <= 137,
                forall|p: int| 0 <= p < i ==> #[trigger] bits@[p] == (serial@[p + 1] != 0),
            decreases 137 - i,
        {
            bits[i] = serial[i + 1] != 0;
            i = i + 1;
        }
        let f = Self::from_bits(&bits);
        proof {
            assert forall|k: int| 0 <= k < 23 implies #[trigger] serial_of(f@).subrange(
                offset(k),
                offset(k) + width(k),
            ) == bits_msb_first(params[k] as int, width(k) as nat) by {
                lemma_layout(k);
                let field = serial@.subrange(offset(k), offset(k) + width(k));
                assert(field == bits_msb_first(params[k] as int, width(k) as nat));
                assert forall|t: int| 0 <= t < width(k) implies #[trigger] serial_of(f@).subrange(
                    offset(k),
                    offset(k) + width(k),
                )[t] == field[t] by {
                    let p = offset(k) + t;
                    assert(field[t] == bits_msb_first(params[k] as int, width(k) as nat)[t]);
                    assert(field[t] == 0 || field[t] == 1);
                }
                assert(serial_of(f@).subrange(offset(k), offset(k) + width(k)) =~= field);
            }
        }
        f
    }

    /// The frame's named codec parameters (for inspection and testing).
    pub fn parameters(&self) -> (p: FrameParameters)
        ensures
            forall|j: int|
                0 <= j < 3 ==> #[trigger] p.lsp_indices[j] == field_value(serial_of(self@), j),
            forall|s: int|
                0 <= s < 4 ==> {
                    &&& #[trigger] p.subframes[s].pitch_index == field_value(
                        serial_of(self@),
                        3 + 5 * s,
                    )
                    &&& p.subframes[s].code_index == field_value(serial_of(self@), 4 + 5 * s)
                    &&& p.subframes[s].sign == field_value(serial_of(self@), 5 + 5 * s)
                    &&& p.subframes[s].shift == field_value(serial_of(self@), 6 + 5 * s)
                    &&& p.subframes[s].gain_index == field_value(serial_of(self@), 7 + 5 * s)
                },
    {
        let raw = self.raw_params();
        proof {
            assert forall|k: int| 0 <= k < 23 implies 0 <= #[trigger] raw[k] < 16384 by {
                lemma_layout(k);
                let s = serial_of(self@);
                crate::fixed::dsp_ops::lemma_short_reads(s.subrange(offset(k), offset(k) + width(k)));
                crate::fixed::shift_facts::lemma_pow2_le(width(k) as nat, 14);
                vstd::arithmetic::power2::lemma2_to64();
            }
        }
        let mut subframes = [SubframeParameters {
            pitch_index: 0,
            code_index: 0,
            sign: 0,
            shift: 0,
            gain_index: 0,
        }; 4];
        let mut s: usize = 0;
        while s < 4
            invariant
                s <= 4,
                forall|k: int| 0 <= k < 23 ==> 0 <= #[trigger] raw[k] < 16384,
                forall|k: int| 0 <= k < 23 ==> #[trigger] raw[k] == field_value(serial_of(self@), k),
                forall|q: int|
                    0 <= q < s ==> {
                        &&& #[trigger] subframes@[q].pitch_index == raw[3 + 5 * q]
                        &&& subframes@[q].code_index == raw[4 + 5 * q]
                        &&& subframes@[q].sign == raw[5 + 5 * q]
                        &&& subframes@[q].shift == raw[6 + 5 * q]
                        &&& subframes@[q].gain_index == raw[7 + 5 * q]
                    },
            decreases 4 - s,
        {
            proof {
                assert(0 <= raw[3 + 5 * s] < 16384);
                assert(0 <= raw[4 + 5 * s] < 16384);
                assert(0 <= raw[5 + 5 * s] < 16384);
                assert(0 <= raw[6 + 5 * s] < 16384);
                assert(0 <= raw[7 + 5 * s] < 16384);
            }
            let sp = SubframeParameters {
                pitch_index: raw[3 + 5 * s] as u16,
                code_index: raw[4 + 5 * s] as u16,
                sign: raw[5 + 5 * s] as u16,
                shift: raw[6 + 5 * s] as u16,
                gain_index: raw[7 + 5 * s] as u16,
            };
            let ghost before = subframes@;
            subframes[s] = sp;
            proof {
                assert forall|q: int| 0 <= q < s + 1 implies {
                    &&& #[trigger] subframes@[q].pitch_index == raw[3 + 5 * q]
                    &&& subframes@[q].code_index == raw[4 + 5 * q]
                    &&& subframes@[q].sign == raw[5 + 5 * q]
                    &&& subframes@[q].shift == raw[6 + 5 * q]
                    &&& subframes@[q].gain_index == raw[7 + 5 * q]
                } by {
                    if q < s {
                        assert(subframes@[q] == before[q]);
                        assert(before[q].pitch_index == raw[3 + 5 * q]);
                    } else {
                        assert(subframes@[q] == sp);
                    }
                }
            }
            s = s + 1;
        }
        let p = FrameParameters {
            lsp_indices: [raw[0] as u16, raw[1] as u16, raw[2] as u16],
            subframes,
        };
        proof {
            assert forall|q: int| 0 <= q < 4 implies {
                &&& #[trigger] p.subframes[q].pitch_index == field_value(serial_of(self@), 3 + 5 * q)
                &&& p.subframes[q].code_index == field_value(serial_of(self@), 4 + 5 * q)
                &&& p.subframes[q].sign == field_value(serial_of(self@), 5 + 5 * q)
                &&& p.subframes[q].shift == field_value(serial_of(self@), 6 + 5 * q)
                &&& p.subframes[q].gain_index == field_value(serial_of(self@), 7 + 5 * q)
            } by {
                assert(subframes@[q].pitch_index == raw[3 + 5 * q]);
                assert(raw[3 + 5 * q] == field_value(serial_of(self@), 3 + 5 * q));
                assert(raw[4 + 5 * q] == field_value(serial_of(self@), 4 + 5 * q));
                assert(raw[5 + 5 * q] == field_value(serial_of(self@), 5 + 5 * q));
                assert(raw[6 + 5 * q] == field_value(serial_of(self@), 6 + 5 * q));
                assert(raw[7 + 5 * q] == field_value(serial_of(self@), 7 + 5 * q));
            }
        }
        p
    }
}

/// Law: reading the bits of a frame built from bits gives those bits back.
pub proof fn law_bits_roundtrip(bits: Seq<bool>, f: SpeechFrame)
    requires
        bits.len() == 137,
        f@ == bits,
    ensures
        f@ =~= bits,
{
}

/// Law: a frame is determined by its packed bytes.
pub proof fn law_packed_determines_frame(a: SpeechFrame, b: SpeechFrame)
    requires
        a.packed() == b.packed(),
    ensures
        a == b,
{
    assert(a.bytes@ =~= b.bytes@);
    assert(a.bytes == b.bytes);
}

/// Law: packing a well-formed frame to bytes and reading them back gives the
/// same frame (`from_bytes(f.to_bytes()) == f`).
pub proof fn law_bytes_roundtrip(f: SpeechFrame, g: SpeechFrame)
    requires
        well_formed_bytes(f.packed()),
        g.packed() == f.packed().update(17, f.packed()[17] & 0x80u8),
    ensures
        g == f,
{
    lemma_last_byte(f.packed()[17]);
    assert(g.packed() =~= f.packed());
    law_packed_determines_frame(f, g);
}

/// Law: the parameters read back from a frame built from parameters are
/// those parameters, for every parameter that fits its field.
pub proof fn law_params_roundtrip(params: Seq<Word16>, f: SpeechFrame)
    requires
        params.len() == 23,
        forall|k: int|
            0 <= k < 23 ==> #[trigger] serial_of(f@).subrange(offset(k), offset(k) + width(k))
                == bits_msb_first(params[k] as int, width(k) as nat),
    ensures
        forall|k: int|
            0 <= k < 23 && param_fits(k, params[k] as int) ==> #[trigger] field_value(
                serial_of(f@),
                k,
            ) == params[k],
{
    assert(serial_of(f@).len() == 138);
    crate::layout::law_serial_fields_roundtrip(params, serial_of(f@));
}

/// Named codec parameters for one subframe (indices into the codebooks).
#[derive(Clone, Copy, PartialEq, Eq, Debug)]
pub struct SubframeParameters {
    /// Pitch-delay index (8 bits in the first subframe, 5 bits otherwise).
    pub pitch_index: u16,
    /// Algebraic (innovative) codebook index (14 bits).
    pub code_index: u16,
    /// Global sign of the algebraic pulses (0 or 1).
    pub sign: u16,
    /// Pulse-position shift flag (0 or 1).
    pub shift: u16,
    /// Gain vector-quantiser index (6 bits).
    pub gain_index: u16,
}

/// Named codec parameters for one frame (for inspection; the transport
/// representation is [`SpeechFrame`]).
#[derive(Clone, Copy, PartialEq, Eq, Debug)]
pub struct FrameParameters {
    /// The three split-VQ LSP codebook indices (8, 9, 9 bits).
    pub lsp_indices: [u16; 3],
    /// Per-subframe parameters for the four subframes.
    pub subframes: [SubframeParameters; 4],
}

/// Per-frame quality metadata, kept separate from the coded bits.
#[derive(Clone, Copy, PartialEq, Eq, Debug, Default)]
pub struct FrameQuality {
    /// Bad Frame Indicator: when `true`, the decoder conceals the frame using
    /// the previous good frame instead of the received parameters.
    pub bad_frame: bool,
}

impl FrameQuality {
    /// A good (error-free) frame.
    pub fn good() -> (q: Self)
        ensures
            !q.bad_frame,
    {
        FrameQuality { bad_frame: false }
    }

    /// A bad frame, triggering error concealment.
    pub fn bad() -> (q: Self)
        ensures
            q.bad_frame,
    {
        FrameQuality { bad_frame: true }
    }
}

/// The decoder input read from a frame's bits: the Bad Frame Indicator,
/// then the 23 parameters.
pub open spec fn decoder_input(bits: Seq<bool>, bad: bool) -> Seq<Word16> {
    seq![if bad { 1i16 } else { 0i16 }] + Seq::new(23, |k: int| field_value(serial_of(bits), k) as i16)
}

/// What encoding one frame does: the encoder's synthesis state moves as a
/// decoder's would on the frame, and the local synthesis is that decoder's
/// output.
pub open spec fn encodes(
    tables: CodecTables,
    before: SynthesisView,
    after: SynthesisView,
    frame: Seq<bool>,
    synth: Seq<Word16>,
) -> bool {
    let d = decode_result(tables, mirror_state(before), decoder_input(frame, false));
    &&& after == synthesis_part(d.0)
    &&& synth == postprocessed(d.1)
}

/// What decoding one frame does.
pub open spec fn decodes(
    tables: CodecTables,
    before: DecoderState,
    after: DecoderState,
    frame: Seq<bool>,
    bad: bool,
    out: Seq<Word16>,
) -> bool {
    let d = decode_result(tables, before, decoder_input(frame, bad));
    &&& after == d.0
    &&& out == postprocessed(d.1)
}

/// The synthesis state of a freshly created encoder or decoder: empty
/// excitation history and filter memory, the initial LSPs, no pitch lag.
pub open spec fn reset_view() -> SynthesisView {
    (Seq::new(398, |i: int| 0i16), Seq::new(10, |i: int| 0i16), LSP_INIT@, 0int, 0int)
}

/// The TETRA source speech encoder: one per audio stream, fed 240 samples
/// at a time.
pub struct Encoder {
    inner: CoreEncoder,
}

impl Encoder {
    /// The underlying encoder.
    pub closed spec fn codec(&self) -> CoreEncoder {
        self.inner
    }

    /// Create an encoder with reset state.
    pub fn new(tables: &CodecTables) -> (e: Self)
        ensures
            e.codec().wf(),
            e.codec().codec_tables() == *tables,
            e.codec().synthesis_view() == reset_view(),
            e.codec().state_view() == fresh_view(),
    {
        Encoder { inner: CoreEncoder::new(tables) }
    }

    /// Encode one frame, also returning the local synthesis: the speech a
    /// decoder in step with this encoder reconstructs on a clean channel.
    pub fn encode_with_synthesis(&mut self, pcm: &[i16; 240]) -> (r: (SpeechFrame, [i16; 240]))
        requires
            old(self).codec().wf(),
        ensures
            final(self).codec().wf(),
            final(self).codec().codec_tables() == old(self).codec().codec_tables(),
            encodes(
                old(self).codec().codec_tables(),
                old(self).codec().synthesis_view(),
                final(self).codec().synthesis_view(),
                r.0@,
                r.1@,
            ),
            ({
                let step = encode_step(old(self).codec().codec_tables(), old(self).codec().state_view(), pcm@);
                &&& decoder_input(r.0@, false) == seq![0i16] + step.0
                &&& final(self).codec().state_view() == step.1
            }),
    {
        let (params, synth) = self.inner.encode_frame(pcm);
        let f = SpeechFrame::from_raw_params(&params);
        proof {
            law_params_roundtrip(params@, f);
            assert(decoder_input(f@, false) =~= seq![0i16] + params@);
        }
        (f, synth)
    }

    /// Encode one 30 ms frame of 16-bit PCM (240 samples).
    pub fn encode(&mut self, pcm: &[i16; 240]) -> (f: SpeechFrame)
        requires
            old(self).codec().wf(),
        ensures
            final(self).codec().wf(),
            final(self).codec().codec_tables() == old(self).codec().codec_tables(),
            exists|synth: Seq<Word16>|
                encodes(
                    old(self).codec().codec_tables(),
                    old(self).codec().synthesis_view(),
                    final(self).codec().synthesis_view(),
                    f@,
                    synth,
                ),
            ({
                let step = encode_step(old(self).codec().codec_tables(), old(self).codec().state_view(), pcm@);
                &&& decoder_input(f@, false) == seq![0i16] + step.0
                &&& final(self).codec().state_view() == step.1
            }),
    {
        let (f, synth) = self.encode_with_synthesis(pcm);
        f
    }
}

/// The TETRA source speech decoder: one per audio stream.
pub struct Decoder {
    inner: CoreDecoder,
}

impl Decoder {
    /// The underlying decoder.
    pub closed spec fn codec(&self) -> CoreDecoder {
        self.inner
    }

    /// Create a decoder with reset state.
    pub fn new(tables: &CodecTables) -> (d: Self)
        ensures
            d.codec().wf(),
            d.codec().codec_tables() == *tables,
            synthesis_part(d.codec().state()) == reset_view(),
    {
        Decoder { inner: CoreDecoder::new(tables) }
    }

    /// Decode one frame into 240 PCM samples. A bad frame (see
    /// [`FrameQuality`]) is concealed from the previous good frame's
    /// parameters; its bits are ignored.
    pub fn decode(&mut self, frame: &SpeechFrame, quality: FrameQuality) -> (out: [i16; 240])
        requires
            old(self).codec().wf(),
        ensures
            final(self).codec().wf(),
            final(self).codec().codec_tables() == old(self).codec().codec_tables(),
            decodes(
                old(self).codec().codec_tables(),
                old(self).codec().state(),
                final(self).codec().state(),
                frame@,
                quality.bad_frame,
                out@,
            ),
    {
        let raw = frame.raw_params();
        let mut parm = [0i16; 24];
        parm[0] = if quality.bad_frame {
            1
        } else {
            0
        };
        let mut k: usize = 0;
        while k < 23
            invariant
                k <= 23,
                parm[0] == (if quality.bad_frame { 1i16 } else { 0i16 }),
                forall|q: int| 0 <= q < k ==> #[trigger] parm@[q + 1] == raw@[q],
            decreases 23 - k,
        {
            parm[k + 1] = raw[k];
            k = k + 1;
        }
        proof {
            assert(serial_of(frame@).len() == 138);
            lemma_fields_fit(serial_of(frame@));
            assert forall|q: int| 0 <= q < 24 implies #[trigger] parm@[q] == decoder_input(frame@, quality.bad_frame)[q] by {
                if q > 0 {
                    assert(parm@[(q - 1) + 1] == raw@[q - 1]);
                    assert(raw@[q - 1] == field_value(serial_of(frame@), q - 1));
                }
            }
            assert(parm@ =~= decoder_input(frame@, quality.bad_frame));
            assert forall|q: int| 0 <= q < 23 implies #[trigger] param_fits(q, parm@.subrange(1, 24)[q] as int) by {
                assert(parm@.subrange(1, 24)[q] == parm@[q + 1]);
            }
        }
        self.inner.decode_frame(&parm)
    }
}

/// A decoder is in step with an encoder when both read the same tables and
/// the decoder's synthesis state is the encoder's.
pub open spec fn in_step(tables_e: CodecTables, view: SynthesisView, tables_d: CodecTables, dec: DecoderState) -> bool {
    tables_e == tables_d && synthesis_part(dec) == view
}

/// Law (clean channel): when a decoder in step with an encoder decodes, as
/// a good frame, the frame the encoder produced, its output is the
/// encoder's local synthesis and the two stay in step.
pub proof fn law_clean_channel(
    tables_e: CodecTables,
    enc_before: SynthesisView,
    enc_after: SynthesisView,
    tables_d: CodecTables,
    dec_before: DecoderState,
    dec_after: DecoderState,
    frame: Seq<bool>,
    synth: Seq<Word16>,
    out: Seq<Word16>,
)
    requires
        in_step(tables_e, enc_before, tables_d, dec_before),
        encodes(tables_e, enc_before, enc_after, frame, synth),
        decodes(tables_d, dec_before, dec_after, frame, false, out),
    ensures
        out == synth,
        in_step(tables_e, enc_after, tables_d, dec_after),
{
    let input = decoder_input(frame, false);
    assert(input.len() == 24);
    assert(input[0] == 0);
    assert(synthesis_part(mirror_state(enc_before)) == synthesis_part(dec_before));
    lemma_good_frame_depends_on_synthesis_part(tables_e, mirror_state(enc_before), dec_before, input);
}

/// Law (clean channel, any history): along a run of frames, each encoded
/// from `enc[i]` to `enc[i + 1]` and decoded as a good frame from `dec[i]`
/// to `dec[i + 1]`, a decoder that starts in step with the encoder stays
/// in step, and every decoded frame is the encoder's local synthesis.
pub proof fn law_clean_channel_history(
    tables: CodecTables,
    enc: Seq<SynthesisView>,
    dec: Seq<DecoderState>,
    frames: Seq<Seq<bool>>,
    synth: Seq<Seq<Word16>>,
    out: Seq<Seq<Word16>>,
)
    requires
        enc.len() == frames.len() + 1,
        dec.len() == frames.len() + 1,
        synth.len() == frames.len(),
        out.len() == frames.len(),
        in_step(tables, enc[0], tables, dec[0]),
        forall|i: int|
            0 <= i < frames.len() ==> {
                &&& encodes(tables, enc[i], enc[i + 1], #[trigger] frames[i], synth[i])
                &&& decodes(tables, dec[i], dec[i + 1], frames[i], false, out[i])
            },
    ensures
        forall|i: int| 0 <= i <= frames.len() ==> in_step(tables, #[trigger] enc[i], tables, dec[i]),
        forall|i: int| 0 <= i < frames.len() ==> #[trigger] out[i] == synth[i],
{
    assert forall|i: int| 0 <= i <= frames.len() implies in_step(tables, #[trigger] enc[i], tables, dec[i]) by {
        lemma_in_step_after(tables, enc, dec, frames, synth, out, i);
    }
    assert forall|i: int| 0 <= i < frames.len() implies #[trigger] out[i] == synth[i] by {
        lemma_in_step_after(tables, enc, dec, frames, synth, out, i);
        assert(encodes(tables, enc[i], enc[i + 1], frames[i], synth[i]));
        law_clean_channel(tables, enc[i], enc[i + 1], tables, dec[i], dec[i + 1], frames[i], synth[i], out[i]);
    }
}

/// The induction behind [`law_clean_channel_history`]: in step after `k`
/// frames.
proof fn lemma_in_step_after(
    tables: CodecTables,
    enc: Seq<SynthesisView>,
    dec: Seq<DecoderState>,
    frames: Seq<Seq<bool>>,
    synth: Seq<Seq<Word16>>,
    out: Seq<Seq<Word16>>,
    k: int,
)
    requires
        enc.len() == frames.len() + 1,
        dec.len() == frames.len() + 1,
        synth.len() == frames.len(),
        out.len() == frames.len(),
        in_step(tables, enc[0], tables, dec[0]),
        forall|i: int|
            0 <= i < frames.len() ==> {
                &&& encodes(tables, enc[i], enc[i + 1], #[trigger] frames[i], synth[i])
                &&& decodes(tables, dec[i], dec[i + 1], frames[i], false, out[i])
            },
        0 <= k <= frames.len(),
    ensures
        in_step(tables, enc[k], tables, dec[k]),
    decreases k,
{
    if k > 0 {
        lemma_in_step_after(tables, enc, dec, frames, synth, out, k - 1);
        assert(encodes(tables, enc[k - 1], enc[k], frames[k - 1], synth[k - 1]));
        law_clean_channel(
            tables,
            enc[k - 1],
            enc[k],
            tables,
            dec[k - 1],
            dec[k],
            frames[k - 1],
            synth[k - 1],
            out[k - 1],
        );
    }
}

/// Law: with the Bad Frame Indicator set, the frame's bits do not matter:
/// two decoders in the same state decoding any two frames as bad reach the
/// same state and give the same output (the last good frame's parameters
/// are used).
pub proof fn law_bad_frame_ignores_bits(
    tables: CodecTables,
    st: DecoderState,
    f1: Seq<bool>,
    f2: Seq<bool>,
    after1: DecoderState,
    after2: DecoderState,
    out1: Seq<Word16>,
    out2: Seq<Word16>,
)
    requires
        decodes(tables, st, after1, f1, true, out1),
        decodes(tables, st, after2, f2, true, out2),
    ensures
        after1 == after2,
        out1 == out2,
{
    let p1 = decoder_input(f1, true);
    let p2 = decoder_input(f2, true);
    assert(p1[0] == 1 && p2[0] == 1);
    assert(frame_params(st, p1) == frame_params(st, p2));
    assert(next_lsp(tables, st, p1) == next_lsp(tables, st, p2));
    assert(decode_result(tables, st, p1) == decode_result(tables, st, p2));
}

/// Law: encoding depends only on the tables, the encoder's state and the
/// PCM: two encoders in the same state, given the same frame of PCM, send
/// the same parameters and move to the same state (see [`Encoder::encode`]
/// and [`Encoder::encode_with_synthesis`]).
pub proof fn law_equal_encoders_agree(e1: Encoder, e2: Encoder, pcm: Seq<Word16>)
    requires
        e1.codec().codec_tables() == e2.codec().codec_tables(),
        e1.codec().state_view() == e2.codec().state_view(),
    ensures
        encode_step(e1.codec().codec_tables(), e1.codec().state_view(), pcm) == encode_step(
            e2.codec().codec_tables(),
            e2.codec().state_view(),
            pcm,
        ),
{
}

/// The unsigned integer read MSB first from a sequence of bits.
pub open spec fn msb_value(bits: Seq<bool>) -> int
    decreases bits.len(),
{
    if bits.len() == 0 {
        0
    } else {
        2 * msb_value(bits.drop_last()) + if bits.last() {
            1int
        } else {
            0int
        }
    }
}

/// Reading up to 14 bits as serial words gives their plain MSB-first
/// integer, below `2^len`.
proof fn lemma_short_field(b: Seq<bool>)
    requires
        b.len() <= 14,
    ensures
        crate::fixed::dsp_ops::bits_accumulate(b.map_values(|x: bool| if x { 1i16 } else { 0i16 }))
            == msb_value(b),
        0 <= msb_value(b) < vstd::arithmetic::power2::pow2(b.len()),
    decreases b.len(),
{
    vstd::arithmetic::power2::lemma2_to64();
    if b.len() > 0 {
        let d = b.drop_last();
        lemma_short_field(d);
        assert(b.map_values(|x: bool| if x { 1i16 } else { 0i16 }).drop_last() =~= d.map_values(
            |x: bool| if x { 1i16 } else { 0i16 },
        ));
        vstd::arithmetic::power2::lemma_pow2_unfold(b.len());
        crate::fixed::shift_facts::lemma_pow2_le(d.len(), 13);
    }
}

/// Law: each of the 23 fields of a frame (as [`SpeechFrame::parameters`]
/// and the decoder read them) is the plain MSB-first unsigned integer of
/// its bits: field `k` is bits `offset(k) - 1 .. offset(k) - 1 + width(k)`
/// of the frame, with widths 8, 9, 9 and then 8 or 5, 14, 1, 1, 6 per
/// subframe.
pub proof fn law_fields_are_msb_integers(bits: Seq<bool>, k: int)
    requires
        bits.len() == 137,
        0 <= k < 23,
    ensures
        field_value(serial_of(bits), k) == msb_value(
            bits.subrange(offset(k) - 1, offset(k) - 1 + width(k)),
        ),
{
    lemma_layout(k);
    let b = bits.subrange(offset(k) - 1, offset(k) - 1 + width(k));
    assert(serial_of(bits).subrange(offset(k), offset(k) + width(k)) =~= b.map_values(
        |x: bool| if x { 1i16 } else { 0i16 },
    ));
    lemma_short_field(b);
}

/// `(8 c + t) / 8 == c` and `(8 c + t) % 8 == t` for `0 <= t < 8`.
proof fn lemma_div8(c: int, t: int)
    requires
        0 <= t < 8,
    ensures
        (8 * c + t) / 8 == c,
        (8 * c + t) % 8 == t,
{
    vstd::arithmetic::div_mod::lemma_fundamental_div_mod_converse(8 * c + t, 8, c, t);
}

/// Two bytes with the same eight bits are equal.
proof fn lemma_byte_from_bits(x: u8, y: u8)
    requires
        ((x >> 7u8) & 1u8 == 1u8) == ((y >> 7u8) & 1u8 == 1u8),
        ((x >> 6u8) & 1u8 == 1u8) == ((y >> 6u8) & 1u8 == 1u8),
        ((x >> 5u8) & 1u8 == 1u8) == ((y >> 5u8) & 1u8 == 1u8),
        ((x >> 4u8) & 1u8 == 1u8) == ((y >> 4u8) & 1u8 == 1u8),
        ((x >> 3u8) & 1u8 == 1u8) == ((y >> 3u8) & 1u8 == 1u8),
        ((x >> 2u8) & 1u8 == 1u8) == ((y >> 2u8) & 1u8 == 1u8),
        ((x >> 1u8) & 1u8 == 1u8) == ((y >> 1u8) & 1u8 == 1u8),
        ((x >> 0u8) & 1u8 == 1u8) == ((y >> 0u8) & 1u8 == 1u8),
    ensures
        x == y,
{
    assert(x == y) by (bit_vector)
        requires
            ((x >> 7u8) & 1u8 == 1u8) == ((y >> 7u8) & 1u8 == 1u8),
            ((x >> 6u8) & 1u8 == 1u8) == ((y >> 6u8) & 1u8 == 1u8),
            ((x >> 5u8) & 1u8 == 1u8) == ((y >> 5u8) & 1u8 == 1u8),
            ((x >> 4u8) & 1u8 == 1u8) == ((y >> 4u8) & 1u8 == 1u8),
            ((x >> 3u8) & 1u8 == 1u8) == ((y >> 3u8) & 1u8 == 1u8),
            ((x >> 2u8) & 1u8 == 1u8) == ((y >> 2u8) & 1u8 == 1u8),
            ((x >> 1u8) & 1u8 == 1u8) == ((y >> 1u8) & 1u8 == 1u8),
            ((x >> 0u8) & 1u8 == 1u8) == ((y >> 0u8) & 1u8 == 1u8),
    ;
}

/// Two last bytes with clear unused bits and the same top bit are equal.
proof fn lemma_last_byte_from_bit(x: u8, y: u8)
    requires
        ((x >> 7u8) & 1u8 == 1u8) == ((y >> 7u8) & 1u8 == 1u8),
        x & 0x7fu8 == 0,
        y & 0x7fu8 == 0,
    ensures
        x == y,
{
    assert(x == y) by (bit_vector)
        requires
            ((x >> 7u8) & 1u8 == 1u8) == ((y >> 7u8) & 1u8 == 1u8),
            x & 0x7fu8 == 0,
            y & 0x7fu8 == 0,
    ;
}

/// Frames with the same bits agree on the packed bit at position `p`.
proof fn lemma_same_bit(a: SpeechFrame, b: SpeechFrame, p: int)
    requires
        0 <= p < 137,
        a@ == b@,
    ensures
        packed_bit(a.packed(), p) == packed_bit(b.packed(), p),
{
    assert(a@[p] == packed_bit(a.bytes@, p));
    assert(b@[p] == packed_bit(b.bytes@, p));
}

/// Law: a well-formed frame is determined by its 137 bits.
pub proof fn law_bits_determine_frame(a: SpeechFrame, b: SpeechFrame)
    requires
        well_formed_bytes(a.packed()),
        well_formed_bytes(b.packed()),
        a@ == b@,
    ensures
        a == b,
{
    let x = a.packed();
    let y = b.packed();
    assert forall|c: int| 0 <= c < 17 implies x[c] == y[c] by {
        lemma_same_bit(a, b, 8 * c + 0);
        lemma_same_bit(a, b, 8 * c + 1);
        lemma_same_bit(a, b, 8 * c + 2);
        lemma_same_bit(a, b, 8 * c + 3);
        lemma_same_bit(a, b, 8 * c + 4);
        lemma_same_bit(a, b, 8 * c + 5);
        lemma_same_bit(a, b, 8 * c + 6);
        lemma_same_bit(a, b, 8 * c + 7);
        lemma_div8(c, 0);
        lemma_div8(c, 1);
        lemma_div8(c, 2);
        lemma_div8(c, 3);
        lemma_div8(c, 4);
        lemma_div8(c, 5);
        lemma_div8(c, 6);
        lemma_div8(c, 7);
        assert(packed_bit(x, 8 * c + 0) == packed_bit(y, 8 * c + 0));
        assert(packed_bit(x, 8 * c + 1) == packed_bit(y, 8 * c + 1));
        assert(packed_bit(x, 8 * c + 2) == packed_bit(y, 8 * c + 2));
        assert(packed_bit(x, 8 * c + 3) == packed_bit(y, 8 * c + 3));
        assert(packed_bit(x, 8 * c + 4) == packed_bit(y, 8 * c + 4));
        assert(packed_bit(x, 8 * c + 5) == packed_bit(y, 8 * c + 5));
        assert(packed_bit(x, 8 * c + 6) == packed_bit(y, 8 * c + 6));
        assert(packed_bit(x, 8 * c + 7) == packed_bit(y, 8 * c + 7));
        lemma_byte_from_bits(x[c], y[c]);
    }
    lemma_same_bit(a, b, 136);
    lemma_div8(17, 0);
    lemma_last_byte_from_bit(x[17], y[17]);
    assert(x =~= y);
    law_packed_determines_frame(a, b);
}

/// Law: reading bytes is reading their bits: the frame `from_bytes` makes
/// of 18 bytes is the frame `from_bits` makes of the 137 bits they carry
/// (the seven unused low bits of the last byte are ignored, and the
/// frame's last byte keeps only its top bit).
pub proof fn law_from_bytes_is_from_bits(bytes: Seq<u8>, f: SpeechFrame, g: SpeechFrame)
    requires
        bytes.len() == 18,
        f.packed() == bytes.update(17, bytes[17] & 0x80u8),
        f@ == packed_bits(bytes),
        g@ == packed_bits(bytes),
        well_formed_bytes(g.packed()),
    ensures
        f == g,
        f.packed()[17] == bytes[17] & 0x80u8,
{
    lemma_last_byte(bytes[17]);
    law_bits_determine_frame(f, g);
}

/// The field that bit position `p` of a frame belongs to, searching from
/// field `k` on.
proof fn field_from(p: int, k: int) -> (j: int)
    requires
        0 <= k < 23,
        offset(k) - 1 <= p < 137,
    ensures
        0 <= j < 23,
        offset(j) - 1 <= p < offset(j) + width(j) - 1,
    decreases 23 - k,
{
    reveal_with_fuel(offset, 24);
    assert(offset(23) == 138);
    lemma_layout(k);
    if p < offset(k) + width(k) - 1 {
        k
    } else {
        if k == 22 {
            assert(offset(23) == offset(22) + width(22));
        }
        field_from(p, k + 1)
    }
}

/// Equal MSB-first integers of equally long bit sequences mean equal bits.
proof fn lemma_msb_injective(a: Seq<bool>, b: Seq<bool>)
    requires
        a.len() == b.len(),
        msb_value(a) == msb_value(b),
    ensures
        a == b,
    decreases a.len(),
{
    if a.len() > 0 {
        lemma_msb_injective(a.drop_last(), b.drop_last());
        assert(a =~= a.drop_last().push(a.last()));
        assert(b =~= b.drop_last().push(b.last()));
    } else {
        assert(a =~= b);
    }
}

/// Law: a well-formed frame is determined by its 23 parameters: two frames
/// whose fields read the same are the same frame.
pub proof fn law_fields_determine_frame(a: SpeechFrame, b: SpeechFrame)
    requires
        well_formed_bytes(a.packed()),
        well_formed_bytes(b.packed()),
        a@.len() == 137,
        b@.len() == 137,
        forall|k: int| 0 <= k < 23 ==> #[trigger] field_value(serial_of(a@), k) == field_value(serial_of(b@), k),
    ensures
        a == b,
{
    assert forall|k: int| 0 <= k < 23 implies #[trigger] a@.subrange(offset(k) - 1, offset(k) - 1 + width(k))
        == b@.subrange(offset(k) - 1, offset(k) - 1 + width(k)) by {
        lemma_layout(k);
        law_fields_are_msb_integers(a@, k);
        law_fields_are_msb_integers(b@, k);
        assert(field_value(serial_of(a@), k) == field_value(serial_of(b@), k));
        lemma_msb_injective(
            a@.subrange(offset(k) - 1, offset(k) - 1 + width(k)),
            b@.subrange(offset(k) - 1, offset(k) - 1 + width(k)),
        );
    }
    assert forall|p: int| 0 <= p < 137 implies a@[p] == b@[p] by {
        reveal_with_fuel(offset, 2);
        let k = field_from(p, 0);
        lemma_layout(k);
        let o = offset(k) - 1;
        assert(a@.subrange(offset(k) - 1, offset(k) - 1 + width(k)) == b@.subrange(
            offset(k) - 1,
            offset(k) - 1 + width(k),
        ));
        assert(a@.subrange(o, o + width(k))[p - o] == a@[p]);
        assert(b@.subrange(o, o + width(k))[p - o] == b@[p]);
    }
    assert(a@ =~= b@);
    law_bits_determine_frame(a, b);
}

/// Law: two encoders in the same state, given the same PCM, send the same
/// frame (see [`Encoder::encode`] and [`Encoder::encode_with_synthesis`],
/// whose frames carry the parameters of [`encode_step`]).
pub proof fn law_equal_encoders_send_equal_frames(
    e1: Encoder,
    e2: Encoder,
    pcm: Seq<Word16>,
    f1: SpeechFrame,
    f2: SpeechFrame,
)
    requires
        e1.codec().codec_tables() == e2.codec().codec_tables(),
        e1.codec().state_view() == e2.codec().state_view(),
        well_formed_bytes(f1.packed()),
        well_formed_bytes(f2.packed()),
        decoder_input(f1@, false) == seq![0i16] + encode_step(e1.codec().codec_tables(), e1.codec().state_view(), pcm).0,
        decoder_input(f2@, false) == seq![0i16] + encode_step(e2.codec().codec_tables(), e2.codec().state_view(), pcm).0,
    ensures
        f1 == f2,
{
    assert(f1@.len() == 137 && f2@.len() == 137);
    assert forall|k: int| 0 <= k < 23 implies #[trigger] field_value(serial_of(f1@), k) == field_value(
        serial_of(f2@),
        k,
    ) by {
        law_fields_are_msb_integers(f1@, k);
        law_fields_are_msb_integers(f2@, k);
        lemma_layout(k);
        let o = offset(k) - 1;
        lemma_short_field(f1@.subrange(o, o + width(k)));
        lemma_short_field(f2@.subrange(o, o + width(k)));
        crate::fixed::shift_facts::lemma_pow2_le(width(k) as nat, 14);
        vstd::arithmetic::power2::lemma2_to64();
        assert(decoder_input(f1@, false)[k + 1] == decoder_input(f2@, false)[k + 1]);
    }
    law_fields_determine_frame(f1, f2);
}

/// One core-level clean frame: the encoder's synthesis moves from `enc[i]`
/// as a mirrored decoder's would on `[0] + params[i]`, the decoder moves
/// from `dec[i]` on the same input.
pub open spec fn core_clean_step(
    tables: CodecTables,
    enc: Seq<SynthesisView>,
    dec: Seq<DecoderState>,
    params: Seq<Seq<Word16>>,
    i: int,
) -> bool {
    let input = seq![0i16] + params[i];
    &&& params[i].len() == 23
    &&& enc[i + 1] == synthesis_part(decode_result(tables, mirror_state(enc[i]), input).0)
    &&& dec[i + 1] == decode_result(tables, dec[i], input).0
}

/// Law (clean channel, core level, any history): when the core encoder's
/// parameters (`encode_frame`) reach the core decoder as good frames
/// (`decode_frame` on `[0] + params`), a decoder that starts in step stays
/// in step and each decoded frame is the encoder's local synthesis.
pub proof fn law_core_clean_channel_history(
    tables: CodecTables,
    enc: Seq<SynthesisView>,
    dec: Seq<DecoderState>,
    params: Seq<Seq<Word16>>,
)
    requires
        enc.len() == params.len() + 1,
        dec.len() == params.len() + 1,
        synthesis_part(dec[0]) == enc[0],
        forall|i: int| 0 <= i < params.len() ==> #[trigger] core_clean_step(tables, enc, dec, params, i),
    ensures
        forall|i: int| 0 <= i <= params.len() ==> #[trigger] synthesis_part(dec[i]) == enc[i],
        forall|i: int|
            0 <= i < params.len() ==> #[trigger] decode_result(tables, dec[i], seq![0i16] + params[i]).1
                == decode_result(tables, mirror_state(enc[i]), seq![0i16] + params[i]).1,
{
    assert forall|i: int| 0 <= i <= params.len() implies #[trigger] synthesis_part(dec[i]) == enc[i] by {
        lemma_core_in_step_after(tables, enc, dec, params, i);
    }
    assert forall|i: int| 0 <= i < params.len() implies #[trigger] decode_result(
        tables,
        dec[i],
        seq![0i16] + params[i],
    ).1 == decode_result(tables, mirror_state(enc[i]), seq![0i16] + params[i]).1 by {
        lemma_core_in_step_after(tables, enc, dec, params, i);
        assert(core_clean_step(tables, enc, dec, params, i));
        lemma_good_frame_depends_on_synthesis_part(tables, dec[i], mirror_state(enc[i]), seq![0i16] + params[i]);
    }
}

/// The induction behind [`law_core_clean_channel_history`].
proof fn lemma_core_in_step_after(
    tables: CodecTables,
    enc: Seq<SynthesisView>,
    dec: Seq<DecoderState>,
    params: Seq<Seq<Word16>>,
    k: int,
)
    requires
        enc.len() == params.len() + 1,
        dec.len() == params.len() + 1,
        synthesis_part(dec[0]) == enc[0],
        forall|i: int| 0 <= i < params.len() ==> #[trigger] core_clean_step(tables, enc, dec, params, i),
        0 <= k <= params.len(),
    ensures
        synthesis_part(dec[k]) == enc[k],
    decreases k,
{
    if k > 0 {
        lemma_core_in_step_after(tables, enc, dec, params, k - 1);
        assert(core_clean_step(tables, enc, dec, params, k - 1));
        let input = seq![0i16] + params[k - 1];
        assert(input.len() == 24 && input[0] == 0);
        assert(synthesis_part(mirror_state(enc[k - 1])) == enc[k - 1]);
        lemma_good_frame_depends_on_synthesis_part(tables, dec[k - 1], mirror_state(enc[k - 1]), input);
    }
}

/// Law: a freshly created encoder and decoder on the same tables are in
/// step.
pub proof fn law_fresh_codecs_in_step(tables: CodecTables, e: Encoder, d: Decoder)
    requires
        e.codec().codec_tables() == tables,
        d.codec().codec_tables() == tables,
        e.codec().synthesis_view() == reset_view(),
        synthesis_part(d.codec().state()) == reset_view(),
    ensures
        in_step(tables, e.codec().synthesis_view(), tables, d.codec().state()),
{
}

} // verus!
