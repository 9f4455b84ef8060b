//! The numeric data tables of the codec (EN 300 395-2): LSP and gain
//! codebooks, the analysis and lag windows, the root-search grid, the log2
//! table and the fractional interpolation filters.
//!
//! The tables belong to the ETSI reference and are not distributed with this
//! crate. They are read at run time from the reference sources (see
//! [`crate::reference`]) into a [`CodecTables`] value that the encoder,
//! decoder and signal-processing routines borrow.

use crate::fixed::Word16;
use vstd::prelude::*;

verus! {

/// All data tables the codec needs, at their fixed sizes.
#[derive(Clone, Copy, Debug)]
pub struct CodecTables {
    /// Asymmetric analysis window for LP autocorrelation (256 samples, Q15).
    pub window: [Word16; 256],
    /// Lag-window coefficients, high DPF part.
    pub lag_h: [Word16; 10],
    /// Lag-window coefficients, low DPF part.
    pub lag_l: [Word16; 10],
    /// Cosine grid used when locating LSP roots (Q15).
    pub grid: [Word16; 61],
    /// LSP split-VQ sub-codebook 1: 256 x 3.
    pub dico1_clsp: [Word16; 768],
    /// LSP split-VQ sub-codebook 2: 512 x 3.
    pub dico2_clsp: [Word16; 1536],
    /// LSP split-VQ sub-codebook 3: 512 x 4.
    pub dico3_clsp: [Word16; 2048],
    /// Gain prediction-error VQ codebook: 64 x 2 (Q8).
    pub t_qua_ener: [Word16; 128],
    /// Interpolation table for log2 (Q15).
    pub tab_log2: [Word16; 33],
    /// 8-tap fractional interpolation at -1/3.
    pub inter8_m1_3: [Word16; 8],
    /// 8-tap fractional interpolation at +1/3.
    pub inter8_1_3: [Word16; 8],
    /// 32-tap fractional interpolation at -1/3.
    pub inter32_m1_3: [Word16; 32],
    /// 32-tap fractional interpolation at +1/3.
    pub inter32_1_3: [Word16; 32],
}

/// Why a set of table values could not be turned into [`CodecTables`].
#[derive(Clone, Copy, Debug, PartialEq, Eq)]
pub enum TableError {
    /// A table had the wrong number of values.
    WrongLength {
        /// Position of the table in [`TABLE_LENGTHS`] order.
        table: usize,
        /// The length the table must have.
        expected: usize,
        /// The length that was supplied.
        found: usize,
    },
}

/// The required length of each table, in the order
/// window, lag_h, lag_l, grid, dico1, dico2, dico3, t_qua_ener, log2,
/// inter8(-1/3), inter8(+1/3), inter32(-1/3), inter32(+1/3).
pub const TABLE_LENGTHS: [usize; 13] = [256, 10, 10, 61, 768, 1536, 2048, 128, 33, 8, 8, 32, 32];

/// Copy a slice of exactly `N` values into an array.
fn fill<const N: usize>(values: &Vec<Word16>) -> (a: [Word16; N])
    requires
        values@.len() == N,
    ensures
        a@ == values@,
{
    let mut a = [0i16; N];
    let mut i: usize = 0;
    while i < N
        invariant
            i <= N,
            values@.len() == N,
            a@.len() == N,
            forall|k: int| 0 <= k < i ==> #[trigger] a@[k] == values@[k],
        decreases N - i,
    {
        a[i] = values[i];
        i = i + 1;
    }
    assert(a@ =~= values@);
    a
}

impl CodecTables {
    /// Assemble the tables from their values, given in [`TABLE_LENGTHS`]
    /// order. Fails, naming the first table, when a length is wrong.
    pub fn from_values(tables: &Vec<Vec<Word16>>) -> (r: Result<CodecTables, TableError>)
        requires
            tables@.len() == 13,
        ensures
            r is Ok <==> forall|k: int|
                0 <= k < 13 ==> #[trigger] tables@[k]@.len() == TABLE_LENGTHS@[k],
            r matches Err(TableError::WrongLength { table, expected, found }) ==> {
                &&& table < 13
                &&& expected == TABLE_LENGTHS@[table as int]
                &&& found == tables@[table as int]@.len()
                &&& found != expected
                &&& forall|j: int|
                    0 <= j < table ==> #[trigger] tables@[j]@.len() == TABLE_LENGTHS@[j]
            },
            r matches Ok(t) ==> {
                &&& t.window@ == tables@[0]@
                &&& t.lag_h@ == tables@[1]@
                &&& t.lag_l@ == tables@[2]@
                &&& t.grid@ == tables@[3]@
                &&& t.dico1_clsp@ == tables@[4]@
                &&& t.dico2_clsp@ == tables@[5]@
                &&& t.dico3_clsp@ == tables@[6]@
                &&& t.t_qua_ener@ == tables@[7]@
                &&& t.tab_log2@ == tables@[8]@
                &&& t.inter8_m1_3@ == tables@[9]@
                &&& t.inter8_1_3@ == tables@[10]@
                &&& t.inter32_m1_3@ == tables@[11]@
                &&& t.inter32_1_3@ == tables@[12]@
            },
    {
        let mut k: usize = 0;
        while k < 13
            invariant
                k <= 13,
                tables@.len() == 13,
                forall|j: int| 0 <= j < k ==> #[trigger] tables@[j]@.len() == TABLE_LENGTHS@[j],
            decreases 13 - k,
        {
            if tables[k].len() != TABLE_LENGTHS[k] {
                return Err(
                    TableError::WrongLength {
                        table: k,
                        expected: TABLE_LENGTHS[k],
                        found: tables[k].len(),
                    },
                );
            }
            k = k + 1;
        }
        proof {
            assert(tables@[0]@.len() == 256);
            assert(tables@[12]@.len() == 32);
        }
        Ok(
            CodecTables {
                window: fill(&tables[0]),
                lag_h: fill(&tables[1]),
                lag_l: fill(&tables[2]),
                grid: fill(&tables[3]),
                dico1_clsp: fill(&tables[4]),
                dico2_clsp: fill(&tables[5]),
                dico3_clsp: fill(&tables[6]),
                t_qua_ener: fill(&tables[7]),
                tab_log2: fill(&tables[8]),
                inter8_m1_3: fill(&tables[9]),
                inter8_1_3: fill(&tables[10]),
                inter32_m1_3: fill(&tables[11]),
                inter32_1_3: fill(&tables[12]),
            },
        )
    }
}

} // verus!
