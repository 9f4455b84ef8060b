//! Saturating multiply-accumulate sums, the building block of every filter
//! in the codec: products are added (or subtracted) one at a time, each
//! step clamped to 32 bits, exactly as a chain of `l_mac0` / `l_msu0` calls.

use crate::fixed::ops::sat32;
use crate::fixed::Word16;
use vstd::prelude::*;

verus! {

/// `init` plus `a[j] * b[j]` for each `j` in order, each step saturated to
/// 32 bits.
pub open spec fn mac_acc(init: int, a: Seq<Word16>, b: Seq<Word16>) -> int
    decreases a.len(),
{
    if a.len() == 0 {
        init
    } else {
        sat32(mac_acc(init, a.drop_last(), b.drop_last()) + a.last() * b.last())
    }
}

/// `init` minus `a[j] * b[j]` for each `j` in order, each step saturated to
/// 32 bits.
pub open spec fn msu_acc(init: int, a: Seq<Word16>, b: Seq<Word16>) -> int
    decreases a.len(),
{
    if a.len() == 0 {
        init
    } else {
        sat32(msu_acc(init, a.drop_last(), b.drop_last()) - a.last() * b.last())
    }
}

/// One more step of a multiply-accumulate over prefixes.
pub proof fn lemma_mac_step(init: int, a: Seq<Word16>, b: Seq<Word16>, j: int)
    requires
        0 <= j < a.len(),
        j < b.len(),
    ensures
        mac_acc(init, a.take(j + 1), b.take(j + 1)) == sat32(
            mac_acc(init, a.take(j), b.take(j)) + a[j] * b[j],
        ),
{
    assert(a.take(j + 1).drop_last() =~= a.take(j));
    assert(b.take(j + 1).drop_last() =~= b.take(j));
}

/// One more step of a multiply-subtract over prefixes.
pub proof fn lemma_msu_step(init: int, a: Seq<Word16>, b: Seq<Word16>, j: int)
    requires
        0 <= j < a.len(),
        j < b.len(),
    ensures
        msu_acc(init, a.take(j + 1), b.take(j + 1)) == sat32(
            msu_acc(init, a.take(j), b.take(j)) - a[j] * b[j],
        ),
{
    assert(a.take(j + 1).drop_last() =~= a.take(j));
    assert(b.take(j + 1).drop_last() =~= b.take(j));
}

} // verus!
