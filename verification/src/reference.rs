//! Reading the codec's data tables out of the ETSI reference sources
//! (EN 300 395-2): the C table files and the interpolation coefficients of
//! the reference sub-routines, as shipped in the reference archive.
//!
//! Sources are handled as bytes. Comments are removed first (each byte
//! that is not ASCII is carried over as the UTF-8 encoding of the
//! character with that code, U+0080..U+00FF); an array body is the text
//! between the first `{` after a name and the next `}`; its elements are
//! comma-separated products of decimal integers, taken modulo 2^16 as
//! signed 16-bit values.

use crate::announcement_config::white_space_len;
use std::io::Read;
use vstd::prelude::*;
use vstd::string::StringSliceAdditionalSpecFns;

verus! {

/// Comment-stripping scanner modes.
pub enum ScanMode {
    /// Ordinary text.
    Text,
    /// Inside `/* ... */`.
    Block,
    /// Inside `// ...` up to the newline.
    Line,
}

/// A byte as the UTF-8 encoding of the character with its code.
pub open spec fn latin1(b: u8) -> Seq<u8> {
    if b < 0x80 {
        seq![b]
    } else {
        seq![(0xc0 + b / 64) as u8, (0x80 + b % 64) as u8]
    }
}

/// Rank of a scanner mode, for termination.
pub open spec fn mode_rank(m: ScanMode) -> int {
    match m {
        ScanMode::Line => 1,
        _ => 0,
    }
}

/// The comment-free text of `s` from position `i` on, scanning in mode
/// `m`. A block comment runs to the next `*/` (or the end); a line
/// comment to the next newline, which is kept.
pub open spec fn strip_from(s: Seq<u8>, i: int, m: ScanMode) -> Seq<u8>
    decreases s.len() - i, mode_rank(m),
{
    if i < 0 || i >= s.len() {
        Seq::empty()
    } else {
        match m {
            ScanMode::Text => if i + 1 < s.len() && s[i] == 47u8 && s[i + 1] == 42u8 {
                strip_from(s, i + 2, ScanMode::Block)
            } else if i + 1 < s.len() && s[i] == 47u8 && s[i + 1] == 47u8 {
                strip_from(s, i + 2, ScanMode::Line)
            } else {
                latin1(s[i]) + strip_from(s, i + 1, ScanMode::Text)
            },
            ScanMode::Block => if i + 1 >= s.len() {
                Seq::empty()
            } else if s[i] == 42u8 && s[i + 1] == 47u8 {
                strip_from(s, i + 2, ScanMode::Text)
            } else {
                strip_from(s, i + 1, ScanMode::Block)
            },
            ScanMode::Line => if s[i] == 10u8 {
                strip_from(s, i, ScanMode::Text)
            } else {
                strip_from(s, i + 1, ScanMode::Line)
            },
        }
    }
}

/// The text of `s` with its C comments removed.
pub open spec fn stripped(s: Seq<u8>) -> Seq<u8> {
    strip_from(s, 0, ScanMode::Text)
}

/// Remove C comments so array bodies can be parsed cleanly (see
/// [`stripped`]).
pub fn strip_comments(src: &[u8]) -> (out: Vec<u8>)
    ensures
        out@ == stripped(src@),
{
    let b = src;
    let n = b.len();
    let mut out: Vec<u8> = Vec::new();
    let mut i: usize = 0;
    while i < n
        invariant
            n == b@.len(),
            out@ + strip_from(b@, i as int, ScanMode::Text) == stripped(b@),
        decreases n - i,
    {
        if i + 1 < n && b[i] == 47u8 && b[i + 1] == 42u8 {
            let ghost start = i + 2;
            i = i + 2;
            while i < n - 1 && !(b[i] == 42u8 && b[i + 1] == 47u8)
                invariant
                    n == b@.len(),
                    n >= 2,
                    start <= i <= n,
                    strip_from(b@, start, ScanMode::Block) == strip_from(b@, i as int, ScanMode::Block),
                decreases n - i,
            {
                i = i + 1;
            }
            if i >= n - 1 {
                assert(strip_from(b@, i as int, ScanMode::Block) =~= Seq::<u8>::empty());
                i = n;
            } else {
                i = i + 2;
            }
        } else if i + 1 < n && b[i] == 47u8 && b[i + 1] == 47u8 {
            let ghost start = i + 2;
            i = i + 2;
            while i < n && b[i] != 10u8
                invariant
                    n == b@.len(),
                    start <= i <= n,
                    strip_from(b@, start, ScanMode::Line) == strip_from(b@, i as int, ScanMode::Line),
                decreases n - i,
            {
                i = i + 1;
            }
        } else {
            let c = b[i];
            let ghost out0 = out@;
            if c < 0x80 {
                out.push(c);
            } else {
                out.push(0xc0u8 + c / 64);
                out.push(0x80u8 + c % 64);
            }
            proof {
                assert(out@ =~= out0 + latin1(c));
                assert(out@ + strip_from(b@, i + 1, ScanMode::Text) =~= out0 + strip_from(
                    b@,
                    i as int,
                    ScanMode::Text,
                ));
            }
            i = i + 1;
        }
    }
    assert(out@ + strip_from(b@, i as int, ScanMode::Text) =~= out@);
    out
}

/// The length of the UTF-8 encoding of a `White_Space` character at the
/// end of `b`, or zero.
pub open spec fn trailing_white_space_len(b: Seq<u8>) -> int {
    let n = b.len() as int;
    if n >= 1 && (b[n - 1] == 0x20u8 || (0x09u8 <= b[n - 1] && b[n - 1] <= 0x0du8)) {
        1
    } else if n >= 2 && b[n - 2] == 0xc2u8 && (b[n - 1] == 0x85u8 || b[n - 1] == 0xa0u8) {
        2
    } else if n >= 3 && ((b[n - 3] == 0xe1u8 && b[n - 2] == 0x9au8 && b[n - 1] == 0x80u8) || (b[n
        - 3] == 0xe2u8 && b[n - 2] == 0x80u8 && ((0x80u8 <= b[n - 1] && b[n - 1] <= 0x8au8) || b[n
        - 1] == 0xa8u8 || b[n - 1] == 0xa9u8 || b[n - 1] == 0xafu8)) || (b[n - 3] == 0xe2u8 && b[n
        - 2] == 0x81u8 && b[n - 1] == 0x9fu8) || (b[n - 3] == 0xe3u8 && b[n - 2] == 0x80u8 && b[n
        - 1] == 0x80u8)) {
        3
    } else {
        0
    }
}

/// `b` without its leading white space.
pub open spec fn trim_start(b: Seq<u8>) -> Seq<u8>
    decreases b.len(),
{
    if b.len() > 0 && white_space_len(b) > 0 {
        trim_start(b.skip(white_space_len(b)))
    } else {
        b
    }
}

/// `b` without its trailing white space.
pub open spec fn trim_end(b: Seq<u8>) -> Seq<u8>
    decreases b.len(),
{
    if b.len() > 0 && trailing_white_space_len(b) > 0 {
        trim_end(b.take(b.len() - trailing_white_space_len(b)))
    } else {
        b
    }
}

/// `b` without leading and trailing white space.
pub open spec fn trim(b: Seq<u8>) -> Seq<u8> {
    trim_end(trim_start(b))
}

/// An ASCII decimal digit.
pub open spec fn is_digit(b: u8) -> bool {
    48u8 <= b && b <= 57u8
}

/// The value of a string of decimal digits.
pub open spec fn digits_value(d: Seq<u8>) -> int
    decreases d.len(),
{
    if d.len() == 0 {
        0
    } else {
        digits_value(d.drop_last()) * 10 + (d.last() - 48)
    }
}

/// The digits after an optional sign.
pub open spec fn unsigned_part(t: Seq<u8>) -> Seq<u8> {
    if t.len() > 0 && (t[0] == 45u8 || t[0] == 43u8) {
        t.skip(1)
    } else {
        t
    }
}

/// A decimal integer with an optional `+` or `-`, as a 64-bit signed
/// number: nothing when a character is not a digit, there are no digits,
/// or the value does not fit.
pub open spec fn parse_int(t: Seq<u8>) -> Option<int> {
    let d = unsigned_part(t);
    let v = if t.len() > 0 && t[0] == 45u8 {
        -digits_value(d)
    } else {
        digits_value(d)
    };
    if d.len() == 0 || exists|k: int| 0 <= k < d.len() && !is_digit(#[trigger] d[k]) {
        None
    } else if i64::MIN <= v <= i64::MAX {
        Some(v)
    } else {
        None
    }
}

proof fn lemma_digits_monotone(d: Seq<u8>, k: int)
    requires
        0 <= k <= d.len(),
        forall|j: int| 0 <= j < d.len() ==> is_digit(#[trigger] d[j]),
    ensures
        digits_value(d.take(k)) <= digits_value(d),
        0 <= digits_value(d.take(k)),
    decreases d.len(),
{
    if k < d.len() {
        assert(d.drop_last().take(k) =~= d.take(k));
        lemma_digits_monotone(d.drop_last(), k);
        assert(digits_value(d) == digits_value(d.drop_last()) * 10 + (d.last() - 48));
    } else {
        assert(d.take(k) =~= d);
        if d.len() > 0 {
            lemma_digits_monotone(d.drop_last(), d.len() - 1);
            assert(d.drop_last().take(d.len() - 1) =~= d.drop_last());
        }
    }
}

/// Parse `b[start..end]` as a 64-bit integer (see [`parse_int`]).
pub fn parse_i64(b: &[u8], start: usize, end: usize) -> (r: Option<i64>)
    requires
        start <= end <= b@.len(),
    ensures
        match parse_int(b@.subrange(start as int, end as int)) {
            Some(v) => r == Some(v as i64),
            None => r is None,
        },
{
    let ghost t = b@.subrange(start as int, end as int);
    let neg = start < end && b[start] == 45u8;
    let signed = start < end && (b[start] == 45u8 || b[start] == 43u8);
    let ds = if signed {
        start + 1
    } else {
        start
    };
    let ghost d = b@.subrange(ds as int, end as int);
    assert(unsigned_part(t) =~= d);
    if ds == end {
        return None;
    }
    let limit: u64 = if neg {
        0x8000_0000_0000_0000u64
    } else {
        0x7fff_ffff_ffff_ffffu64
    };
    let mut mag: u64 = 0;
    let mut i: usize = ds;
    while i < end
        invariant
            start <= ds <= i <= end <= b@.len(),
            d == b@.subrange(ds as int, end as int),
            forall|j: int| 0 <= j < i - ds ==> is_digit(#[trigger] d[j]),
            mag == digits_value(d.take(i - ds)),
            mag <= limit,
            limit == (if neg {
                0x8000_0000_0000_0000u64
            } else {
                0x7fff_ffff_ffff_ffffu64
            }),
            unsigned_part(b@.subrange(start as int, end as int)) == d,
            neg == (start < end && b@[start as int] == 45u8),
            d.len() > 0,
        decreases end - i,
    {
        let c = b[i];
        if !(48u8 <= c && c <= 57u8) {
            assert(!is_digit(d[i - ds]));
            return None;
        }
        let digit = (c - 48u8) as u64;
        assert(d.take(i - ds + 1).drop_last() =~= d.take(i - ds));
        if mag > (limit - digit) / 10 {
            proof {
                assert(mag * 10 + digit > limit) by (nonlinear_arith)
                    requires
                        mag > (limit - digit) / 10,
                        digit <= 9,
                        limit >= 9,
                ;
                let k = i - ds;
                assert(d.take(k + 1).last() == c);
                assert(digits_value(d.take(k + 1)) == mag * 10 + digit);
                if forall|j: int| 0 <= j < d.len() ==> is_digit(#[trigger] d[j]) {
                    lemma_digits_monotone(d, k + 1);
                    assert(digits_value(d) > limit);
                } else {
                    let w = choose|j: int| 0 <= j < d.len() && !is_digit(#[trigger] d[j]);
                    assert(!is_digit(d[w]));
                }
                let tt = b@.subrange(start as int, end as int);
                assert(unsigned_part(tt) == d);
                if tt.len() > 0 {
                    assert(tt[0] == b@[start as int]);
                }
                if neg {
                    assert(tt.len() > 0 && tt[0] == 45u8);
                } else {
                    assert(!(tt.len() > 0 && tt[0] == 45u8));
                }
                assert(parse_int(tt) is None);
            }
            return None;
        }
        proof {
            assert(mag * 10 + digit <= limit) by (nonlinear_arith)
                requires
                    mag <= (limit - digit) / 10,
                    digit <= 9,
                    limit >= 9,
            ;
        }
        mag = mag * 10 + digit;
        i = i + 1;
    }
    assert(d.take(end - ds) =~= d);
    if neg {
        if mag == 0x8000_0000_0000_0000u64 {
            Some(i64::MIN)
        } else {
            Some(-(mag as i64))
        }
    } else {
        Some(mag as i64)
    }
}

/// The positions of `b[start..end]` with white space trimmed off both
/// ends.
pub fn trim_range(b: &[u8], start: usize, end: usize) -> (r: (usize, usize))
    requires
        start <= end <= b@.len(),
    ensures
        start <= r.0 <= r.1 <= end,
        b@.subrange(r.0 as int, r.1 as int) == trim(b@.subrange(start as int, end as int)),
{
    let ghost t = b@.subrange(start as int, end as int);
    let mut i = start;
    assert(t =~= b@.subrange(i as int, end as int));
    let mut done = false;
    while i < end && !done
        invariant
            start <= i <= end <= b@.len(),
            trim_start(t) == trim_start(b@.subrange(i as int, end as int)),
            done ==> trim_start(t) == b@.subrange(i as int, end as int),
        decreases end - i, if done { 0int } else { 1int },
    {
        let k = white_space_len_in(b, i, end);
        if k == 0 {
            done = true;
        } else {
            assert(b@.subrange(i as int, end as int).skip(k as int) =~= b@.subrange(
                i + k,
                end as int,
            ));
            i = i + k;
        }
    }
    let ghost u = b@.subrange(i as int, end as int);
    assert(trim_start(t) == u);
    let mut j = end;
    assert(u =~= b@.subrange(i as int, j as int));
    let mut done2 = false;
    while j > i && !done2
        invariant
            start <= i <= j <= end <= b@.len(),
            trim_end(u) == trim_end(b@.subrange(i as int, j as int)),
            done2 ==> trim_end(u) == b@.subrange(i as int, j as int),
        decreases j - i, if done2 { 0int } else { 1int },
    {
        let k = trailing_white_space_len_in(b, i, j);
        if k == 0 {
            done2 = true;
        } else {
            assert(b@.subrange(i as int, j as int).take(j - k - i) =~= b@.subrange(
                i as int,
                j - k,
            ));
            j = j - k;
        }
    }
    (i, j)
}

/// The length of the white-space encoding at position `i` of `b[..end]`.
fn white_space_len_in(b: &[u8], i: usize, end: usize) -> (k: usize)
    requires
        i < end <= b@.len(),
    ensures
        k == white_space_len(b@.subrange(i as int, end as int)),
        k <= end - i,
{
    let ghost t = b@.subrange(i as int, end as int);
    let n = end - i;
    let x = b[i];
    if x == 0x20u8 || (0x09u8 <= x && x <= 0x0du8) {
        return 1;
    }
    if n >= 2 && x == 0xc2u8 && (b[i + 1] == 0x85u8 || b[i + 1] == 0xa0u8) {
        return 2;
    }
    if n >= 3 {
        let (y, z) = (b[i + 1], b[i + 2]);
        assert(t[0] == x && t[1] == y && t[2] == z);
        if (x == 0xe1u8 && y == 0x9au8 && z == 0x80u8) || (x == 0xe2u8 && y == 0x80u8 && ((0x80u8
            <= z && z <= 0x8au8) || z == 0xa8u8 || z == 0xa9u8 || z == 0xafu8)) || (x == 0xe2u8
            && y == 0x81u8 && z == 0x9fu8) || (x == 0xe3u8 && y == 0x80u8 && z == 0x80u8) {
            return 3;
        }
    }
    0
}

/// The length of the white-space encoding ending at position `j` of
/// `b[i..]`.
fn trailing_white_space_len_in(b: &[u8], i: usize, j: usize) -> (k: usize)
    requires
        i < j <= b@.len(),
    ensures
        k == trailing_white_space_len(b@.subrange(i as int, j as int)),
        k <= j - i,
{
    let ghost t = b@.subrange(i as int, j as int);
    let n = j - i;
    let z = b[j - 1];
    assert(t[n - 1] == z);
    if z == 0x20u8 || (0x09u8 <= z && z <= 0x0du8) {
        return 1;
    }
    if n >= 2 && b[j - 2] == 0xc2u8 && (z == 0x85u8 || z == 0xa0u8) {
        assert(t[n - 2] == b@[j - 2]);
        return 2;
    }
    if n >= 3 {
        let (x, y) = (b[j - 3], b[j - 2]);
        assert(t[n - 3] == x && t[n - 2] == y);
        if (x == 0xe1u8 && y == 0x9au8 && z == 0x80u8) || (x == 0xe2u8 && y == 0x80u8 && ((0x80u8
            <= z && z <= 0x8au8) || z == 0xa8u8 || z == 0xa9u8 || z == 0xafu8)) || (x == 0xe2u8
            && y == 0x81u8 && z == 0x9fu8) || (x == 0xe3u8 && y == 0x80u8 && z == 0x80u8) {
            return 3;
        }
    }
    if n >= 2 {
        assert(t[n - 2] == b@[j - 2]);
    }
    0
}

/// `t` split at every `sep` (an empty `t` is one empty piece).
pub open spec fn split_on(t: Seq<u8>, sep: u8) -> Seq<Seq<u8>>
    decreases t.len(),
{
    if t.len() == 0 {
        seq![Seq::<u8>::empty()]
    } else {
        let r = split_on(t.drop_last(), sep);
        if t.last() == sep {
            r.push(Seq::<u8>::empty())
        } else {
            r.update(r.len() - 1, r.last().push(t.last()))
        }
    }
}

proof fn lemma_split_nonempty(t: Seq<u8>, sep: u8)
    ensures
        split_on(t, sep).len() >= 1,
    decreases t.len(),
{
    if t.len() > 0 {
        lemma_split_nonempty(t.drop_last(), sep);
    }
}

/// A step of scanning `b[s0..]` for pieces separated by `sep`: with the
/// pieces of `b[s0..i]` being `done` and then `b[ps..i]`, the pieces of
/// `b[s0..i+1]` follow.
proof fn lemma_split_step(b: Seq<u8>, s0: int, ps: int, i: int, sep: u8, done: Seq<Seq<u8>>)
    requires
        0 <= s0 <= ps <= i < b.len(),
        split_on(b.subrange(s0, i), sep) == done.push(b.subrange(ps, i)),
    ensures
        b[i] == sep ==> split_on(b.subrange(s0, i + 1), sep) == done.push(b.subrange(ps, i)).push(
            b.subrange(i + 1, i + 1),
        ),
        b[i] != sep ==> split_on(b.subrange(s0, i + 1), sep) == done.push(b.subrange(ps, i + 1)),
{
    let t = b.subrange(s0, i + 1);
    assert(t.drop_last() =~= b.subrange(s0, i));
    assert(t.last() == b[i]);
    if b[i] == sep {
        assert(b.subrange(i + 1, i + 1) =~= Seq::<u8>::empty());
    } else {
        assert(b.subrange(ps, i).push(b[i]) =~= b.subrange(ps, i + 1));
        assert(done.push(b.subrange(ps, i)).update(done.len() as int, b.subrange(ps, i + 1))
            =~= done.push(b.subrange(ps, i + 1)));
    }
}

/// The product so far, whether any factor was seen, or the first bad
/// factor.
pub open spec fn factor_step(acc: Result<(int, bool), Seq<u8>>, f: Seq<u8>) -> Result<
    (int, bool),
    Seq<u8>,
> {
    match acc {
        Err(e) => Err(e),
        Ok((a, any)) => if trim(f).len() == 0 {
            Ok((a, any))
        } else {
            match parse_int(trim(f)) {
                Some(v) => Ok((a * v, true)),
                None => Err(trim(f)),
            }
        },
    }
}

/// The factors in order.
pub open spec fn factors_value(fs: Seq<Seq<u8>>) -> Result<(int, bool), Seq<u8>>
    decreases fs.len(),
{
    if fs.len() == 0 {
        Ok((1, false))
    } else {
        factor_step(factors_value(fs.drop_last()), fs.last())
    }
}

/// `a` modulo 2^16 as a signed 16-bit value.
pub open spec fn wrap16(a: int) -> i16 {
    let m = a % 65536;
    (if m >= 32768 {
        m - 65536
    } else {
        m
    }) as i16
}

/// Why a table element could not be read.
pub ghost enum ElementError {
    /// A factor (trimmed) is not a decimal integer.
    BadNumber(Seq<u8>),
    /// The element has no factor.
    EmptyToken(Seq<u8>),
}

/// The value of one array element such as `16231 * 2` or `-49`: the
/// product of its `*`-separated factors (blank factors are skipped),
/// modulo 2^16.
pub open spec fn token_value(t: Seq<u8>) -> Result<i16, ElementError> {
    match factors_value(split_on(t, 42u8)) {
        Err(f) => Err(ElementError::BadNumber(f)),
        Ok((a, any)) => if any {
            Ok(wrap16(a))
        } else {
            Err(ElementError::EmptyToken(t))
        },
    }
}

/// The bytes `b[start..end]` as a vector.
pub fn copy_range(b: &[u8], start: usize, end: usize) -> (v: Vec<u8>)
    requires
        start <= end <= b@.len(),
    ensures
        v@ == b@.subrange(start as int, end as int),
{
    let mut v: Vec<u8> = Vec::new();
    let mut i = start;
    while i < end
        invariant
            start <= i <= end <= b@.len(),
            v@ == b@.subrange(start as int, i as int),
        decreases end - i,
    {
        v.push(b[i]);
        i = i + 1;
        assert(v@ =~= b@.subrange(start as int, i as int));
    }
    v
}

/// Why a table element could not be read.
#[derive(Clone, Debug)]
pub enum TokenError {
    /// This factor (trimmed) is not a decimal integer.
    BadNumber(Vec<u8>),
    /// This element has no factor.
    EmptyToken(Vec<u8>),
}

/// A token error as plain values.
pub open spec fn token_error_view(e: TokenError) -> ElementError {
    match e {
        TokenError::BadNumber(f) => ElementError::BadNumber(f@),
        TokenError::EmptyToken(t) => ElementError::EmptyToken(t@),
    }
}

proof fn lemma_mul_mod(a: int, v: int, m: int)
    requires
        m > 0,
    ensures
        (a * v) % m == ((a % m) * (v % m)) % m,
{
    vstd::arithmetic::div_mod::lemma_mul_mod_noop_general(a, v, m);
}

/// Evaluate the element `b[start..end]` (see [`token_value`]).
pub fn eval_token(b: &[u8], start: usize, end: usize) -> (r: Result<i16, TokenError>)
    requires
        start <= end <= b@.len(),
    ensures
        match r {
            Ok(v) => token_value(b@.subrange(start as int, end as int)) == Ok::<i16, ElementError>(v),
            Err(e) => token_value(b@.subrange(start as int, end as int)) == Err::<i16, ElementError>(
                token_error_view(e),
            ),
        },
{
    let ghost t = b@.subrange(start as int, end as int);
    let mut acc: u16 = 1;
    let mut any = false;
    let mut bad: Option<(usize, usize)> = None;
    let ghost mut done: Seq<Seq<u8>> = Seq::empty();
    let ghost mut a: int = 1;
    let mut ps = start;
    let mut i = start;
    assert(b@.subrange(start as int, start as int) =~= Seq::<u8>::empty());
    let mut finished = false;
    while !finished
        invariant
            start <= ps <= i <= end <= b@.len(),
            t == b@.subrange(start as int, end as int),
            !finished ==> split_on(b@.subrange(start as int, i as int), 42u8) == done.push(
                b@.subrange(ps as int, i as int),
            ),
            finished ==> split_on(t, 42u8) == done,
            factors_value(done) == match bad {
                Some((fs, fe)) => Err::<(int, bool), Seq<u8>>(b@.subrange(fs as int, fe as int)),
                None => Ok::<(int, bool), Seq<u8>>((a, any)),
            },
            bad matches Some((fs, fe)) ==> fs <= fe <= b@.len(),
            acc == a % 65536,
        decreases end - i, if finished { 0int } else { 1int },
    {
        if i == end || b[i] == 42u8 {
            let ghost f = b@.subrange(ps as int, i as int);
            let ghost done2 = done.push(f);
            assert(done2.drop_last() =~= done);
            if bad.is_none() {
                let (fs, fe) = trim_range(b, ps, i);
                if fs < fe {
                    match parse_i64(b, fs, fe) {
                        None => {
                            bad = Some((fs, fe));
                        },
                        Some(v) => {
                            let vm: i64 = v % 65536;
                            let vm: i64 = if vm < 0 {
                                vm + 65536
                            } else {
                                vm
                            };
                            proof {
                                lemma_mul_mod(a, v as int, 65536);
                                assert(vm == (v as int) % 65536);
                            }
                            assert((acc as int) * (vm as int) < 0x1_0000_0000) by (nonlinear_arith)
                                requires
                                    acc < 65536,
                                    0 <= vm < 65536,
                            ;
                            acc = ((acc as u32 * vm as u32) % 65536) as u16;
                            proof {
                                a = a * v;
                            }
                            any = true;
                        },
                    }
                } else {
                    assert(trim(f).len() == 0);
                }
            }
            proof {
                done = done2;
            }
            if i == end {
                finished = true;
            } else {
                proof {
                    lemma_split_step(b@, start as int, ps as int, i as int, 42u8, done.drop_last());
                    assert(b@.subrange(i + 1, i + 1) =~= Seq::<u8>::empty());
                }
                i = i + 1;
                ps = i;
            }
        } else {
            proof {
                lemma_split_step(b@, start as int, ps as int, i as int, 42u8, done);
            }
            i = i + 1;
        }
    }
    if let Some((fs, fe)) = bad {
        return Err(TokenError::BadNumber(copy_range(b, fs, fe)));
    }
    if !any {
        let tok = copy_range(b, start, end);
        return Err(TokenError::EmptyToken(tok));
    }
    let r: i16 = if acc >= 32768 {
        (acc as i32 - 65536) as i16
    } else {
        acc as i16
    };
    Ok(r)
}

/// The elements read so far, or the first bad one.
pub open spec fn list_step(acc: Result<Seq<i16>, ElementError>, piece: Seq<u8>) -> Result<
    Seq<i16>,
    ElementError,
> {
    match acc {
        Err(e) => Err(e),
        Ok(vs) => if trim(piece).len() == 0 {
            Ok(vs)
        } else {
            match token_value(piece) {
                Ok(v) => Ok(vs.push(v)),
                Err(e) => Err(e),
            }
        },
    }
}

/// The elements of the pieces in order.
pub open spec fn list_fold(ps: Seq<Seq<u8>>) -> Result<Seq<i16>, ElementError>
    decreases ps.len(),
{
    if ps.len() == 0 {
        Ok(Seq::empty())
    } else {
        list_step(list_fold(ps.drop_last()), ps.last())
    }
}

/// The values of an array body: its comma-separated elements, blank ones
/// skipped.
pub open spec fn list_values(body: Seq<u8>) -> Result<Seq<i16>, ElementError> {
    list_fold(split_on(body, 44u8))
}

/// Read the elements of the array body `b[start..end]` (see
/// [`list_values`]).
pub fn parse_list(b: &[u8], start: usize, end: usize) -> (r: Result<Vec<i16>, TokenError>)
    requires
        start <= end <= b@.len(),
    ensures
        match r {
            Ok(v) => list_values(b@.subrange(start as int, end as int)) == Ok::<
                Seq<i16>,
                ElementError,
            >(v@),
            Err(e) => list_values(b@.subrange(start as int, end as int)) == Err::<
                Seq<i16>,
                ElementError,
            >(token_error_view(e)),
        },
{
    let ghost t = b@.subrange(start as int, end as int);
    let mut vals: Vec<i16> = Vec::new();
    let mut bad: Option<TokenError> = None;
    let ghost mut done: Seq<Seq<u8>> = Seq::empty();
    let mut ps = start;
    let mut i = start;
    assert(b@.subrange(start as int, start as int) =~= Seq::<u8>::empty());
    let mut finished = false;
    while !finished
        invariant
            start <= ps <= i <= end <= b@.len(),
            t == b@.subrange(start as int, end as int),
            !finished ==> split_on(b@.subrange(start as int, i as int), 44u8) == done.push(
                b@.subrange(ps as int, i as int),
            ),
            finished ==> split_on(t, 44u8) == done,
            list_fold(done) == match bad {
                Some(e) => Err::<Seq<i16>, ElementError>(token_error_view(e)),
                None => Ok::<Seq<i16>, ElementError>(vals@),
            },
        decreases end - i, if finished { 0int } else { 1int },
    {
        if i == end || b[i] == 44u8 {
            let ghost piece = b@.subrange(ps as int, i as int);
            let ghost done2 = done.push(piece);
            assert(done2.drop_last() =~= done);
            if bad.is_none() {
                let (fs, fe) = trim_range(b, ps, i);
                if fs < fe {
                    match eval_token(b, ps, i) {
                        Ok(v) => {
                            vals.push(v);
                        },
                        Err(e) => {
                            bad = Some(e);
                        },
                    }
                }
            }
            proof {
                done = done2;
            }
            if i == end {
                finished = true;
            } else {
                proof {
                    lemma_split_step(b@, start as int, ps as int, i as int, 44u8, done.drop_last());
                    assert(b@.subrange(i + 1, i + 1) =~= Seq::<u8>::empty());
                }
                i = i + 1;
                ps = i;
            }
        } else {
            proof {
                lemma_split_step(b@, start as int, ps as int, i as int, 44u8, done);
            }
            i = i + 1;
        }
    }
    match bad {
        Some(e) => Err(e),
        None => Ok(vals),
    }
}

/// The first position at or after `from` where `pat` occurs in `s`.
pub open spec fn find_from(s: Seq<u8>, pat: Seq<u8>, from: int) -> Option<int>
    decreases s.len() + 1 - from,
{
    if from < 0 || from + pat.len() > s.len() {
        None
    } else if s.subrange(from, from + pat.len()) == pat {
        Some(from)
    } else {
        find_from(s, pat, from + 1)
    }
}

/// Find the first position at or after `from` where `pat` occurs in `s`
/// (see [`find_from`]).
pub fn find_bytes(s: &[u8], pat: &[u8], from: usize) -> (r: Option<usize>)
    ensures
        r is None <==> find_from(s@, pat@, from as int) is None,
        r matches Some(k) ==> {
            &&& find_from(s@, pat@, from as int) == Some(k as int)
            &&& from <= k
            &&& k + pat@.len() <= s@.len()
            &&& s@.subrange(k as int, k + pat@.len()) == pat@
        },
{
    if pat.len() > s.len() {
        assert(find_from(s@, pat@, from as int) is None);
        return None;
    }
    let n = s.len();
    let last = n - pat.len();
    let mut k = from;
    while k <= last
        invariant
            from <= k,
            last == s@.len() - pat@.len(),
            n == s@.len(),
            find_from(s@, pat@, from as int) == find_from(s@, pat@, k as int),
        decreases last + 1 - k,
    {
        let mut j: usize = 0;
        let mut same = true;
        while j < pat.len() && same
            invariant
                j <= pat@.len(),
                k <= last,
                last == s@.len() - pat@.len(),
                k + pat@.len() <= s@.len(),
                n == s@.len(),
                same ==> forall|q: int| 0 <= q < j ==> s@[k + q] == pat@[q],
                !same ==> s@.subrange(k as int, k + pat@.len()) != pat@,
            decreases pat@.len() - j, if same { 1int } else { 0int },
        {
            assert(k + j < n);
            if s[k + j] != pat[j] {
                assert(s@.subrange(k as int, k + pat@.len())[j as int] != pat@[j as int]);
                same = false;
            } else {
                j = j + 1;
            }
        }
        if same {
            assert(s@.subrange(k as int, k + pat@.len()) =~= pat@);
            return Some(k);
        }
        if k == last {
            assert(find_from(s@, pat@, k + 1) is None);
            return None;
        }
        k = k + 1;
    }
    None
}

/// Why a table could not be read from a source text.
pub ghost enum TableTextError {
    /// The array's name does not occur.
    ArrayNotFound(Seq<u8>),
    /// The function's name does not occur.
    FunctionNotFound(Seq<u8>),
    /// No `coef[` follows the function's name.
    CoefNotFound(Seq<u8>),
    /// No `{` follows.
    MissingOpenBrace,
    /// No `}` follows the `{`.
    MissingCloseBrace,
    /// An element is malformed.
    Element(ElementError),
    /// The array has the wrong number of values (name, expected, found).
    WrongValueCount(Seq<u8>, int, int),
    /// The coefficient array has the wrong number of values.
    WrongCoefCount(Seq<u8>, int, int),
}

/// The values of the first `{ ... }` at or after position `from`.
pub open spec fn body_values(s: Seq<u8>, from: int) -> Result<Seq<i16>, TableTextError> {
    match find_from(s, seq![123u8], from) {
        None => Err(TableTextError::MissingOpenBrace),
        Some(brace) => match find_from(s, seq![125u8], brace) {
            None => Err(TableTextError::MissingCloseBrace),
            Some(end) => match list_values(s.subrange(brace + 1, end)) {
                Err(e) => Err(TableTextError::Element(e)),
                Ok(vs) => Ok(vs),
            },
        },
    }
}

/// The values of the array `name` in the source `src`: the body after the
/// first occurrence of the name, which must hold `expect` values.
pub open spec fn array_values(src: Seq<u8>, name: Seq<u8>, expect: int) -> Result<
    Seq<i16>,
    TableTextError,
> {
    let s = stripped(src);
    match find_from(s, name, 0) {
        None => Err(TableTextError::ArrayNotFound(name)),
        Some(start) => match body_values(s, start) {
            Err(e) => Err(e),
            Ok(vs) => if vs.len() != expect {
                Err(TableTextError::WrongValueCount(name, expect, vs.len() as int))
            } else {
                Ok(vs)
            },
        },
    }
}

/// `coef[`
pub open spec fn coef_word() -> Seq<u8> {
    seq![99u8, 111u8, 101u8, 102u8, 91u8]
}

/// The `coef[N] = { ... }` values inside the function `func` of the source
/// `src`, which must number `expect`.
pub open spec fn coef_values(src: Seq<u8>, func: Seq<u8>, expect: int) -> Result<
    Seq<i16>,
    TableTextError,
> {
    let s = stripped(src);
    match find_from(s, func, 0) {
        None => Err(TableTextError::FunctionNotFound(func)),
        Some(fstart) => match find_from(s, coef_word(), fstart) {
            None => Err(TableTextError::CoefNotFound(func)),
            Some(cpos) => match body_values(s, cpos) {
                Err(e) => Err(e),
                Ok(vs) => if vs.len() != expect {
                    Err(TableTextError::WrongCoefCount(func, expect, vs.len() as int))
                } else {
                    Ok(vs)
                },
            },
        },
    }
}

/// Why a table could not be read from a source text.
#[derive(Clone, Debug)]
pub enum TextError {
    ArrayNotFound(Vec<u8>),
    FunctionNotFound(Vec<u8>),
    CoefNotFound(Vec<u8>),
    MissingOpenBrace,
    MissingCloseBrace,
    Element(TokenError),
    WrongValueCount { name: Vec<u8>, expected: usize, found: usize },
    WrongCoefCount { name: Vec<u8>, expected: usize, found: usize },
}

/// A text error as plain values.
pub open spec fn text_error_view(e: TextError) -> TableTextError {
    match e {
        TextError::ArrayNotFound(n) => TableTextError::ArrayNotFound(n@),
        TextError::FunctionNotFound(n) => TableTextError::FunctionNotFound(n@),
        TextError::CoefNotFound(n) => TableTextError::CoefNotFound(n@),
        TextError::MissingOpenBrace => TableTextError::MissingOpenBrace,
        TextError::MissingCloseBrace => TableTextError::MissingCloseBrace,
        TextError::Element(t) => TableTextError::Element(token_error_view(t)),
        TextError::WrongValueCount { name, expected, found } => TableTextError::WrongValueCount(
            name@,
            expected as int,
            found as int,
        ),
        TextError::WrongCoefCount { name, expected, found } => TableTextError::WrongCoefCount(
            name@,
            expected as int,
            found as int,
        ),
    }
}

/// Read the first `{ ... }` at or after `from` (see [`body_values`]).
fn read_body(s: &[u8], from: usize) -> (r: Result<Vec<i16>, TextError>)
    ensures
        match r {
            Ok(v) => body_values(s@, from as int) == Ok::<Seq<i16>, TableTextError>(v@),
            Err(e) => body_values(s@, from as int) == Err::<Seq<i16>, TableTextError>(
                text_error_view(e),
            ),
        },
{
    let open_brace: [u8; 1] = [123u8];
    let close_brace: [u8; 1] = [125u8];
    assert(open_brace@ == seq![123u8]);
    assert(close_brace@ == seq![125u8]);
    let ob: &[u8] = &open_brace;
    assert(ob@ == seq![123u8]);
    let brace = match find_bytes(s, ob, from) {
        None => {
            return Err(TextError::MissingOpenBrace);
        },
        Some(b) => b,
    };
    assert(find_from(s@, seq![123u8], from as int) == Some(brace as int));
    let cb: &[u8] = &close_brace;
    assert(cb@ == seq![125u8]);
    let end = match find_bytes(s, cb, brace) {
        None => {
            return Err(TextError::MissingCloseBrace);
        },
        Some(e) => e,
    };
    assert(s@.subrange(brace as int, brace + 1) == seq![123u8]);
    assert(s@.subrange(brace as int, brace + 1)[0] == 123u8);
    assert(s@.subrange(end as int, end + 1)[0] == 125u8);
    assert(s@[brace as int] == 123u8);
    assert(s@[end as int] == 125u8);
    match parse_list(s, brace + 1, end) {
        Ok(v) => Ok(v),
        Err(e) => Err(TextError::Element(e)),
    }
}

/// Parse `<name>[...] = { ... };` from a source into `expect` values (see
/// [`array_values`]).
pub fn array(src: &[u8], name: &[u8], expect: usize) -> (r: Result<Vec<i16>, TextError>)
    ensures
        match r {
            Ok(v) => array_values(src@, name@, expect as int) == Ok::<Seq<i16>, TableTextError>(v@),
            Err(e) => array_values(src@, name@, expect as int) == Err::<Seq<i16>, TableTextError>(
                text_error_view(e),
            ),
        },
{
    let s = strip_comments(src);
    let start = match find_bytes(s.as_slice(), name, 0) {
        None => {
            return Err(TextError::ArrayNotFound(copy_all(name)));
        },
        Some(k) => k,
    };
    let vals = match read_body(s.as_slice(), start) {
        Ok(v) => v,
        Err(e) => {
            return Err(e);
        },
    };
    if vals.len() != expect {
        let found = vals.len();
        return Err(
            TextError::WrongValueCount { name: copy_all(name), expected: expect, found },
        );
    }
    Ok(vals)
}

/// Parse the `coef[N] = { ... }` array inside the function `func` into
/// `expect` values (see [`coef_values`]).
pub fn coef(src: &[u8], func: &[u8], expect: usize) -> (r: Result<Vec<i16>, TextError>)
    ensures
        match r {
            Ok(v) => coef_values(src@, func@, expect as int) == Ok::<Seq<i16>, TableTextError>(v@),
            Err(e) => coef_values(src@, func@, expect as int) == Err::<Seq<i16>, TableTextError>(
                text_error_view(e),
            ),
        },
{
    let s = strip_comments(src);
    let fstart = match find_bytes(s.as_slice(), func, 0) {
        None => {
            return Err(TextError::FunctionNotFound(copy_all(func)));
        },
        Some(k) => k,
    };
    let word: [u8; 5] = [99u8, 111u8, 101u8, 102u8, 91u8];
    assert(word@ == coef_word());
    let cpos = match find_bytes(s.as_slice(), &word, fstart) {
        None => {
            return Err(TextError::CoefNotFound(copy_all(func)));
        },
        Some(k) => k,
    };
    let vals = match read_body(s.as_slice(), cpos) {
        Ok(v) => v,
        Err(e) => {
            return Err(e);
        },
    };
    if vals.len() != expect {
        let found = vals.len();
        return Err(
            TextError::WrongCoefCount { name: copy_all(func), expected: expect, found },
        );
    }
    Ok(vals)
}

/// The bytes as a vector.
pub fn copy_all(b: &[u8]) -> (v: Vec<u8>)
    ensures
        v@ == b@,
{
    let v = copy_range(b, 0, b.len());
    assert(b@.subrange(0, b@.len() as int) =~= b@);
    v
}

/// An in-memory reader over a byte vector (std).
#[verifier::external_type_specification]
#[verifier::external_body]
#[verifier::reject_recursive_types(T)]
pub struct ExCursor<T>(std::io::Cursor<T>);

/// A ZIP archive being read (zip crate).
#[verifier::external_type_specification]
#[verifier::external_body]
#[verifier::reject_recursive_types(R)]
pub struct ExZipArchive<R>(zip::ZipArchive<R>);

/// What a ZIP archive holds, in its index order: for each entry, its name
/// (as UTF-8 bytes) when `zip::ZipArchive::by_index` opens it, and its text
/// when, opened, it also reads to the end as UTF-8
/// (`std::io::Read::read_to_string`).
pub uninterp spec fn archive_entries(a: zip::ZipArchive<std::io::Cursor<Vec<u8>>>) -> Seq<
    (Option<Seq<u8>>, Option<Seq<char>>),
>;

/// The entries that `zip::ZipArchive::new` finds in the bytes of an
/// archive (see [`archive_entries`]).
pub uninterp spec fn zip_entries(bytes: Seq<u8>) -> Seq<(Option<Seq<u8>>, Option<Seq<char>>)>;

/// Whether `zip::ZipArchive::new` reads the bytes as an archive.
pub uninterp spec fn zip_opens(bytes: Seq<u8>) -> bool;

/// Open an archive held in memory: `zip::ZipArchive::new` over a
/// `std::io::Cursor`, which succeeds exactly when the bytes read as an
/// archive. On success the archive holds the entries found in the bytes;
/// a failure carries the zip error's message.
#[verifier::external_body]
fn open_archive(bytes: Vec<u8>) -> (r: Result<zip::ZipArchive<std::io::Cursor<Vec<u8>>>, String>)
    ensures
        r is Ok <==> zip_opens(bytes@),
        r matches Ok(a) ==> archive_entries(a) == zip_entries(bytes@),
{
    match zip::ZipArchive::new(std::io::Cursor::new(bytes)) {
        Ok(a) => Ok(a),
        Err(e) => Err(e.to_string()),
    }
}

/// `zip::ZipArchive::len`: the number of entries.
#[verifier::external_body]
fn entry_count(a: &zip::ZipArchive<std::io::Cursor<Vec<u8>>>) -> (n: usize)
    ensures
        n == archive_entries(*a).len(),
{
    a.len()
}

/// The name of entry `i` (`zip::ZipArchive::by_index`, then
/// `zip::read::ZipFile::name`), or nothing when the entry cannot be opened
/// (there is no such entry, it is encrypted, or its compression is not
/// supported). Opening an entry moves the reader but not the entries.
#[verifier::external_body]
fn entry_name(a: &mut zip::ZipArchive<std::io::Cursor<Vec<u8>>>, i: usize) -> (r: Option<Vec<u8>>)
    ensures
        archive_entries(*final(a)) == archive_entries(*old(a)),
        i >= archive_entries(*old(a)).len() ==> r is None,
        i < archive_entries(*old(a)).len() ==> match r {
            Some(n) => archive_entries(*old(a))[i as int].0 == Some(n@),
            None => archive_entries(*old(a))[i as int].0 is None,
        },
{
    match a.by_index(i) {
        Ok(f) => Some(f.name().as_bytes().to_vec()),
        Err(_) => None,
    }
}

/// The text of entry `i`: `zip::ZipArchive::by_index`, then
/// `std::io::Read::read_to_string` on the entry. Fails (with the error's
/// message) when there is no such entry, it cannot be opened or
/// decompressed, or it is not UTF-8.
#[verifier::external_body]
fn entry_text(a: &mut zip::ZipArchive<std::io::Cursor<Vec<u8>>>, i: usize) -> (r: Result<String, String>)
    ensures
        archive_entries(*final(a)) == archive_entries(*old(a)),
        i >= archive_entries(*old(a)).len() ==> r is Err,
        i < archive_entries(*old(a)).len() ==> match r {
            Ok(t) => archive_entries(*old(a))[i as int].1 == Some(t@),
            Err(_) => archive_entries(*old(a))[i as int].1 is None,
        },
{
    let mut f = match a.by_index(i) {
        Ok(f) => f,
        Err(e) => {
            return Err(e.to_string());
        },
    };
    let mut s = String::new();
    match f.read_to_string(&mut s) {
        Ok(_) => Ok(s),
        Err(e) => Err(e.to_string()),
    }
}

/// ASCII letters in lower case, other bytes unchanged.
pub open spec fn ascii_lower(b: Seq<u8>) -> Seq<u8> {
    b.map_values(|c: u8| if 65u8 <= c && c <= 90u8 { (c + 32) as u8 } else { c })
}

/// The entry name ends with the suffix, ignoring ASCII case.
pub open spec fn name_matches(name: Seq<u8>, suffix: Seq<u8>) -> bool {
    let n = ascii_lower(name);
    let x = ascii_lower(suffix);
    x.len() <= n.len() && n.subrange(n.len() - x.len(), n.len() as int) == x
}

/// Whether an entry name ends with the suffix, ignoring ASCII case (see
/// [`name_matches`]).
pub fn entry_name_matches(name: &[u8], suffix: &[u8]) -> (b: bool)
    ensures
        b == name_matches(name@, suffix@),
{
    if suffix.len() > name.len() {
        return false;
    }
    let nl = name.len();
    let off = nl - suffix.len();
    let mut i: usize = 0;
    let ghost n = ascii_lower(name@);
    let ghost x = ascii_lower(suffix@);
    while i < suffix.len()
        invariant
            i <= suffix@.len(),
            off == name@.len() - suffix@.len(),
            nl == name@.len(),
            n == ascii_lower(name@),
            x == ascii_lower(suffix@),
            forall|k: int| 0 <= k < i ==> n[off + k] == x[k],
        decreases suffix@.len() - i,
    {
        let c = name[off + i];
        let d = suffix[i];
        let lc = if 65u8 <= c && c <= 90u8 {
            c + 32
        } else {
            c
        };
        let ld = if 65u8 <= d && d <= 90u8 {
            d + 32
        } else {
            d
        };
        if lc != ld {
            assert(n.subrange(n.len() - x.len(), n.len() as int)[i as int] != x[i as int]);
            return false;
        }
        i = i + 1;
    }
    assert(n.subrange(n.len() - x.len(), n.len() as int) =~= x);
    true
}

/// Why an archive entry could not be read.
#[derive(Clone, Debug)]
pub enum EntryError {
    /// No entry that could be opened has a name ending in the suffix.
    NotFound(Vec<u8>),
    /// The matching entry could not be read (the zip or I/O message).
    Unreadable(String),
}

/// Entry `e` opens and its name ends with `suffix` (see [`name_matches`]).
pub open spec fn entry_matches(e: (Option<Seq<u8>>, Option<Seq<char>>), suffix: Seq<u8>) -> bool {
    e.0 matches Some(n) && name_matches(n, suffix)
}

/// `idx` is the first entry that opens and whose name ends with `suffix`.
pub open spec fn first_match(entries: Seq<(Option<Seq<u8>>, Option<Seq<char>>)>, suffix: Seq<u8>, idx: int) -> bool {
    &&& 0 <= idx < entries.len()
    &&& entry_matches(entries[idx], suffix)
    &&& forall|j: int| 0 <= j < idx ==> !entry_matches(#[trigger] entries[j], suffix)
}

/// No entry that opens has a name ending with `suffix`.
pub open spec fn no_match(entries: Seq<(Option<Seq<u8>>, Option<Seq<char>>)>, suffix: Seq<u8>) -> bool {
    forall|j: int| 0 <= j < entries.len() ==> !entry_matches(#[trigger] entries[j], suffix)
}

/// Read the first entry whose name ends with `suffix`, ignoring ASCII
/// case; entries that cannot be opened are passed over.
pub fn read_entry(zip: &mut zip::ZipArchive<std::io::Cursor<Vec<u8>>>, suffix: &[u8]) -> (r: Result<
    String,
    EntryError,
>)
    ensures
        archive_entries(*final(zip)) == archive_entries(*old(zip)),
        match r {
            Ok(t) => exists|idx: int|
                #[trigger] first_match(archive_entries(*old(zip)), suffix@, idx)
                    && archive_entries(*old(zip))[idx].1 == Some(t@),
            Err(EntryError::NotFound(s)) => s@ == suffix@ && no_match(archive_entries(*old(zip)), suffix@),
            Err(EntryError::Unreadable(_)) => exists|idx: int|
                #[trigger] first_match(archive_entries(*old(zip)), suffix@, idx)
                    && archive_entries(*old(zip))[idx].1 is None,
        },
        forall|idx: int|
            #[trigger] first_match(archive_entries(*old(zip)), suffix@, idx) ==> match r {
                Ok(t) => archive_entries(*old(zip))[idx].1 == Some(t@),
                Err(EntryError::Unreadable(_)) => archive_entries(*old(zip))[idx].1 is None,
                Err(EntryError::NotFound(_)) => false,
            },
{
    let ghost entries = archive_entries(*zip);
    let n = entry_count(zip);
    let mut i: usize = 0;
    let mut found: Option<usize> = None;
    while i < n && found.is_none()
        invariant
            i <= n,
            n == entries.len(),
            archive_entries(*zip) == entries,
            found is None ==> forall|j: int| 0 <= j < i ==> !entry_matches(#[trigger] entries[j], suffix@),
            found matches Some(k) ==> first_match(entries, suffix@, k as int),
        decreases n - i, if found is None { 1int } else { 0int },
    {
        match entry_name(zip, i) {
            Some(name) => {
                if entry_name_matches(name.as_slice(), suffix) {
                    found = Some(i);
                } else {
                    i = i + 1;
                }
            },
            None => {
                i = i + 1;
            },
        }
    }
    let idx = match found {
        Some(k) => k,
        None => {
            return Err(EntryError::NotFound(copy_all(suffix)));
        },
    };
    proof {
        assert forall|j: int| #[trigger] first_match(entries, suffix@, j) implies j == idx by {
            if j < idx {
                assert(!entry_matches(entries[j], suffix@));
            } else if j > idx {
                assert(!entry_matches(entries[idx as int], suffix@));
            }
        }
    }
    match entry_text(zip, idx) {
        Ok(t) => Ok(t),
        Err(msg) => Err(EntryError::Unreadable(msg)),
    }
}

/// The UTF-8 bytes of a text.
pub fn text_bytes(t: &String) -> (b: &[u8])
    ensures
        b@ == vstd::utf8::encode_utf8(t@),
{
    t.as_str().as_bytes()
}

/// The name of table `k` (in [`crate::tables::TABLE_LENGTHS`] order) in
/// the reference sources.
pub open spec fn table_name(k: int) -> Seq<u8> {
    if k == 0 {
        seq![119u8, 105u8, 110u8, 100u8, 111u8, 119u8]
    } else if k == 1 {
        seq![108u8, 97u8, 103u8, 95u8, 104u8]
    } else if k == 2 {
        seq![108u8, 97u8, 103u8, 95u8, 108u8]
    } else if k == 3 {
        seq![103u8, 114u8, 105u8, 100u8]
    } else if k == 4 {
        seq![100u8, 105u8, 99u8, 111u8, 49u8, 95u8, 99u8, 108u8, 115u8, 112u8]
    } else if k == 5 {
        seq![100u8, 105u8, 99u8, 111u8, 50u8, 95u8, 99u8, 108u8, 115u8, 112u8]
    } else if k == 6 {
        seq![100u8, 105u8, 99u8, 111u8, 51u8, 95u8, 99u8, 108u8, 115u8, 112u8]
    } else if k == 7 {
        seq![116u8, 95u8, 113u8, 117u8, 97u8, 95u8, 101u8, 110u8, 101u8, 114u8]
    } else if k == 8 {
        seq![116u8, 97u8, 98u8, 95u8, 108u8, 111u8, 103u8, 50u8]
    } else if k == 9 {
        seq![73u8, 110u8, 116u8, 101u8, 114u8, 56u8, 95u8, 77u8, 49u8, 95u8, 51u8]
    } else if k == 10 {
        seq![73u8, 110u8, 116u8, 101u8, 114u8, 56u8, 95u8, 49u8, 95u8, 51u8]
    } else if k == 11 {
        seq![73u8, 110u8, 116u8, 101u8, 114u8, 51u8, 50u8, 95u8, 77u8, 49u8, 95u8, 51u8]
    } else {
        seq![73u8, 110u8, 116u8, 101u8, 114u8, 51u8, 50u8, 95u8, 49u8, 95u8, 51u8]
    }
}

/// Which source (see [`source_suffix`]) holds table `k`.
pub open spec fn table_source(k: int) -> int {
    if k == 0 {
        2
    } else if k <= 2 {
        3
    } else if k == 3 {
        4
    } else if k <= 6 {
        0
    } else if k == 7 {
        1
    } else if k == 8 {
        5
    } else {
        6
    }
}

/// The archive entry name suffix of source `j`.
pub open spec fn source_suffix(j: int) -> Seq<u8> {
    if j == 0 {
        seq![67u8, 76u8, 83u8, 80u8, 95u8, 51u8, 51u8, 52u8, 46u8, 84u8, 65u8, 66u8]
    } else if j == 1 {
        seq![69u8, 78u8, 69u8, 82u8, 95u8, 81u8, 85u8, 65u8, 46u8, 84u8, 65u8, 66u8]
    } else if j == 2 {
        seq![87u8, 73u8, 78u8, 68u8, 79u8, 87u8, 46u8, 84u8, 65u8, 66u8]
    } else if j == 3 {
        seq![76u8, 65u8, 71u8, 95u8, 87u8, 73u8, 78u8, 68u8, 46u8, 84u8, 65u8, 66u8]
    } else if j == 4 {
        seq![71u8, 82u8, 73u8, 68u8, 46u8, 84u8, 65u8, 66u8]
    } else if j == 5 {
        seq![76u8, 79u8, 71u8, 50u8, 46u8, 84u8, 65u8, 66u8]
    } else {
        seq![83u8, 85u8, 66u8, 95u8, 83u8, 67u8, 95u8, 68u8, 46u8, 67u8]
    }
}

/// Table `k` read from the sources: the coefficient arrays of the
/// interpolation routines for the last four, the named arrays otherwise.
pub open spec fn table_read(srcs: Seq<Seq<u8>>, k: int) -> Result<Seq<i16>, TableTextError> {
    if k >= 9 {
        coef_values(srcs[table_source(k)], table_name(k), crate::tables::TABLE_LENGTHS@[k] as int)
    } else {
        array_values(srcs[table_source(k)], table_name(k), crate::tables::TABLE_LENGTHS@[k] as int)
    }
}

/// The first `n` tables, or the first error.
pub open spec fn tables_read(srcs: Seq<Seq<u8>>, n: int) -> Result<Seq<Seq<i16>>, TableTextError>
    decreases n,
{
    if n <= 0 {
        Ok(Seq::empty())
    } else {
        match tables_read(srcs, n - 1) {
            Err(e) => Err(e),
            Ok(ts) => match table_read(srcs, n - 1) {
                Err(e) => Err(e),
                Ok(t) => Ok(ts.push(t)),
            },
        }
    }
}

/// The tables of a [`crate::tables::CodecTables`] in order.
pub open spec fn table_fields(t: crate::tables::CodecTables) -> Seq<Seq<i16>> {
    seq![t.window@, t.lag_h@, t.lag_l@, t.grid@, t.dico1_clsp@, t.dico2_clsp@, t.dico3_clsp@, t.t_qua_ener@, t.tab_log2@, t.inter8_m1_3@, t.inter8_1_3@, t.inter32_m1_3@, t.inter32_1_3@]
}

/// Read table `k` from the sources.
#[verifier::spinoff_prover]
#[verifier::rlimit(60)]
fn read_table(srcs: &Vec<Vec<u8>>, k: usize) -> (r: Result<Vec<i16>, TextError>)
    requires
        srcs@.len() == 7,
        k < 13,
    ensures
        match r {
            Ok(v) => table_read(srcs@.map_values(|s: Vec<u8>| s@), k as int) == Ok::<
                Seq<i16>,
                TableTextError,
            >(v@),
            Err(e) => table_read(srcs@.map_values(|s: Vec<u8>| s@), k as int) == Err::<
                Seq<i16>,
                TableTextError,
            >(text_error_view(e)),
        },
{
    let ghost sv = srcs@.map_values(|s: Vec<u8>| s@);
    if k == 0 {
        let name: [u8; 6] = [119u8, 105u8, 110u8, 100u8, 111u8, 119u8];
        assert(name@ == table_name(0));
        assert(sv[2] == srcs@[2]@);
        array(srcs[2].as_slice(), &name, 256)
    } else if k == 1 {
        let name: [u8; 5] = [108u8, 97u8, 103u8, 95u8, 104u8];
        assert(name@ == table_name(1));
        assert(sv[3] == srcs@[3]@);
        array(srcs[3].as_slice(), &name, 10)
    } else if k == 2 {
        let name: [u8; 5] = [108u8, 97u8, 103u8, 95u8, 108u8];
        assert(name@ == table_name(2));
        assert(sv[3] == srcs@[3]@);
        array(srcs[3].as_slice(), &name, 10)
    } else if k == 3 {
        let name: [u8; 4] = [103u8, 114u8, 105u8, 100u8];
        assert(name@ == table_name(3));
        assert(sv[4] == srcs@[4]@);
        array(srcs[4].as_slice(), &name, 61)
    } else if k == 4 {
        let name: [u8; 10] = [100u8, 105u8, 99u8, 111u8, 49u8, 95u8, 99u8, 108u8, 115u8, 112u8];
        assert(name@ == table_name(4));
        assert(sv[0] == srcs@[0]@);
        array(srcs[0].as_slice(), &name, 768)
    } else if k == 5 {
        let name: [u8; 10] = [100u8, 105u8, 99u8, 111u8, 50u8, 95u8, 99u8, 108u8, 115u8, 112u8];
        assert(name@ == table_name(5));
        assert(sv[0] == srcs@[0]@);
        array(srcs[0].as_slice(), &name, 1536)
    } else if k == 6 {
        let name: [u8; 10] = [100u8, 105u8, 99u8, 111u8, 51u8, 95u8, 99u8, 108u8, 115u8, 112u8];
        assert(name@ == table_name(6));
        assert(sv[0] == srcs@[0]@);
        array(srcs[0].as_slice(), &name, 2048)
    } else if k == 7 {
        let name: [u8; 10] = [116u8, 95u8, 113u8, 117u8, 97u8, 95u8, 101u8, 110u8, 101u8, 114u8];
        assert(name@ == table_name(7));
        assert(sv[1] == srcs@[1]@);
        array(srcs[1].as_slice(), &name, 128)
    } else if k == 8 {
        let name: [u8; 8] = [116u8, 97u8, 98u8, 95u8, 108u8, 111u8, 103u8, 50u8];
        assert(name@ == table_name(8));
        assert(sv[5] == srcs@[5]@);
        array(srcs[5].as_slice(), &name, 33)
    } else if k == 9 {
        let name: [u8; 11] = [73u8, 110u8, 116u8, 101u8, 114u8, 56u8, 95u8, 77u8, 49u8, 95u8, 51u8];
        assert(name@ == table_name(9));
        assert(sv[6] == srcs@[6]@);
        coef(srcs[6].as_slice(), &name, 8)
    } else if k == 10 {
        let name: [u8; 10] = [73u8, 110u8, 116u8, 101u8, 114u8, 56u8, 95u8, 49u8, 95u8, 51u8];
        assert(name@ == table_name(10));
        assert(sv[6] == srcs@[6]@);
        coef(srcs[6].as_slice(), &name, 8)
    } else if k == 11 {
        let name: [u8; 12] = [73u8, 110u8, 116u8, 101u8, 114u8, 51u8, 50u8, 95u8, 77u8, 49u8, 95u8, 51u8];
        assert(name@ == table_name(11));
        assert(sv[6] == srcs@[6]@);
        coef(srcs[6].as_slice(), &name, 32)
    } else {
        let name: [u8; 11] = [73u8, 110u8, 116u8, 101u8, 114u8, 51u8, 50u8, 95u8, 49u8, 95u8, 51u8];
        assert(name@ == table_name(12));
        assert(sv[6] == srcs@[6]@);
        coef(srcs[6].as_slice(), &name, 32)
    }
}

/// Read all thirteen tables from the seven reference sources (in
/// [`source_suffix`] order); the first error, in table order, is returned.
pub fn read_tables(srcs: &Vec<Vec<u8>>) -> (r: Result<crate::tables::CodecTables, TextError>)
    requires
        srcs@.len() == 7,
    ensures
        match r {
            Ok(t) => tables_read(srcs@.map_values(|s: Vec<u8>| s@), 13) == Ok::<
                Seq<Seq<i16>>,
                TableTextError,
            >(table_fields(t)),
            Err(e) => tables_read(srcs@.map_values(|s: Vec<u8>| s@), 13) == Err::<
                Seq<Seq<i16>>,
                TableTextError,
            >(text_error_view(e)),
        },
{
    let ghost sv = srcs@.map_values(|s: Vec<u8>| s@);
    let mut vals: Vec<Vec<i16>> = Vec::new();
    assert(vals@.map_values(|v: Vec<i16>| v@) =~= Seq::<Seq<i16>>::empty());
    let mut k: usize = 0;
    while k < 13
        invariant
            k <= 13,
            srcs@.len() == 7,
            sv == srcs@.map_values(|s: Vec<u8>| s@),
            tables_read(sv, k as int) == Ok::<Seq<Seq<i16>>, TableTextError>(
                vals@.map_values(|v: Vec<i16>| v@),
            ),
            vals@.len() == k,
        decreases 13 - k,
    {
        match read_table(srcs, k) {
            Ok(v) => {
                let ghost before = vals@.map_values(|v: Vec<i16>| v@);
                vals.push(v);
                assert(vals@.map_values(|v: Vec<i16>| v@) =~= before.push(v@));
            },
            Err(e) => {
                proof {
                    lemma_tables_read_err_stays(sv, k as int + 1, 13);
                }
                return Err(e);
            },
        }
        k = k + 1;
    }
    let ghost tv = vals@.map_values(|v: Vec<i16>| v@);
    assert(forall|j: int| 0 <= j < 13 ==> #[trigger] tv[j].len() == crate::tables::TABLE_LENGTHS@[j]) by {
        assert forall|j: int| 0 <= j < 13 implies #[trigger] tv[j].len() == crate::tables::TABLE_LENGTHS@[j] by {
            lemma_tables_read_lengths(sv, 13, j);
        }
    }
    assert forall|j: int| 0 <= j < 13 implies #[trigger] vals@[j]@.len() == crate::tables::TABLE_LENGTHS@[j] by {
        assert(tv[j] == vals@[j]@);
    }
    match crate::tables::CodecTables::from_values(&vals) {
        Ok(t) => {
            assert(table_fields(t) =~= tv);
            Ok(t)
        },
        Err(_) => {
            assert(false);
            Err(TextError::MissingOpenBrace)
        },
    }
}

proof fn lemma_tables_read_err_stays(srcs: Seq<Seq<u8>>, i: int, n: int)
    requires
        0 <= i <= n,
        tables_read(srcs, i) is Err,
    ensures
        tables_read(srcs, n) == tables_read(srcs, i),
    decreases n - i,
{
    if i < n {
        lemma_tables_read_err_stays(srcs, i, n - 1);
    }
}

proof fn lemma_tables_read_lengths(srcs: Seq<Seq<u8>>, n: int, j: int)
    requires
        0 <= j < n <= 13,
        tables_read(srcs, n) is Ok,
    ensures
        tables_read(srcs, n)->Ok_0.len() == n,
        tables_read(srcs, n)->Ok_0[j].len() == crate::tables::TABLE_LENGTHS@[j],
    decreases n,
{
    if j < n - 1 {
        lemma_tables_read_lengths(srcs, n - 1, j);
    } else if n - 1 > 0 {
        lemma_tables_read_lengths(srcs, n - 1, 0);
    }
}

/// Why the tables could not be read from a reference archive.
#[derive(Clone, Debug)]
pub enum ReferenceError {
    /// The bytes are not a ZIP archive (the zip error's message).
    Archive(String),
    /// A source is missing or unreadable.
    Entry(EntryError),
    /// A table could not be read from its source.
    Text(TextError),
}

/// `text` is the text of the first entry of `entries` that opens and whose
/// name ends with the suffix of source `j`.
pub open spec fn entry_source(entries: Seq<(Option<Seq<u8>>, Option<Seq<char>>)>, j: int, text: Seq<char>) -> bool {
    exists|idx: int| #[trigger] first_match(entries, source_suffix(j), idx) && entries[idx].1 == Some(text)
}

/// Source `j` has a first matching entry, and it reads.
pub open spec fn source_reads(entries: Seq<(Option<Seq<u8>>, Option<Seq<char>>)>, j: int) -> bool {
    exists|idx: int| #[trigger] first_match(entries, source_suffix(j), idx) && entries[idx].1 is Some
}

/// Each of the seven sources has a first matching entry, and it reads.
pub open spec fn sources_readable(entries: Seq<(Option<Seq<u8>>, Option<Seq<char>>)>) -> bool {
    forall|j: int| 0 <= j < 7 ==> #[trigger] source_reads(entries, j)
}

/// The sources behind a set of tables: seven entry texts of the archive,
/// each from the first entry that opens and whose name ends with its
/// source's suffix.
pub open spec fn sources_of(bytes: Seq<u8>, srcs: Seq<Seq<char>>) -> bool {
    &&& srcs.len() == 7
    &&& forall|j: int| 0 <= j < 7 ==> entry_source(zip_entries(bytes), j, #[trigger] srcs[j])
}

/// Read source `j` (see [`source_suffix`]) from the archive.
fn read_source(zip: &mut zip::ZipArchive<std::io::Cursor<Vec<u8>>>, j: usize) -> (r: Result<String, EntryError>)
    requires
        j < 7,
    ensures
        archive_entries(*final(zip)) == archive_entries(*old(zip)),
        match r {
            Ok(t) => entry_source(archive_entries(*old(zip)), j as int, t@),
            Err(EntryError::NotFound(s)) => s@ == source_suffix(j as int) && no_match(
                archive_entries(*old(zip)),
                source_suffix(j as int),
            ),
            Err(EntryError::Unreadable(_)) => exists|idx: int|
                #[trigger] first_match(archive_entries(*old(zip)), source_suffix(j as int), idx)
                    && archive_entries(*old(zip))[idx].1 is None,
        },
        forall|idx: int|
            #[trigger] first_match(archive_entries(*old(zip)), source_suffix(j as int), idx) ==> match r {
                Ok(t) => archive_entries(*old(zip))[idx].1 == Some(t@),
                Err(EntryError::Unreadable(_)) => archive_entries(*old(zip))[idx].1 is None,
                Err(EntryError::NotFound(_)) => false,
            },
{
    if j == 0 {
        let sx: [u8; 12] = [67u8, 76u8, 83u8, 80u8, 95u8, 51u8, 51u8, 52u8, 46u8, 84u8, 65u8, 66u8];
        assert(sx@ == source_suffix(0));
        read_entry(zip, &sx)
    } else if j == 1 {
        let sx: [u8; 12] = [69u8, 78u8, 69u8, 82u8, 95u8, 81u8, 85u8, 65u8, 46u8, 84u8, 65u8, 66u8];
        assert(sx@ == source_suffix(1));
        read_entry(zip, &sx)
    } else if j == 2 {
        let sx: [u8; 10] = [87u8, 73u8, 78u8, 68u8, 79u8, 87u8, 46u8, 84u8, 65u8, 66u8];
        assert(sx@ == source_suffix(2));
        read_entry(zip, &sx)
    } else if j == 3 {
        let sx: [u8; 12] = [76u8, 65u8, 71u8, 95u8, 87u8, 73u8, 78u8, 68u8, 46u8, 84u8, 65u8, 66u8];
        assert(sx@ == source_suffix(3));
        read_entry(zip, &sx)
    } else if j == 4 {
        let sx: [u8; 8] = [71u8, 82u8, 73u8, 68u8, 46u8, 84u8, 65u8, 66u8];
        assert(sx@ == source_suffix(4));
        read_entry(zip, &sx)
    } else if j == 5 {
        let sx: [u8; 8] = [76u8, 79u8, 71u8, 50u8, 46u8, 84u8, 65u8, 66u8];
        assert(sx@ == source_suffix(5));
        read_entry(zip, &sx)
    } else {
        let sx: [u8; 10] = [83u8, 85u8, 66u8, 95u8, 83u8, 67u8, 95u8, 68u8, 46u8, 67u8];
        assert(sx@ == source_suffix(6));
        read_entry(zip, &sx)
    }
}

/// Read the codec tables out of the bytes of the ETSI reference archive:
/// open it, read the seven sources in order (`CLSP_334.TAB`,
/// `ENER_QUA.TAB`, `WINDOW.TAB`, `LAG_WIND.TAB`, `GRID.TAB`, `LOG2.TAB`,
/// `SUB_SC_D.C`; for each the first entry whose name ends with its suffix,
/// ignoring case), and read the thirteen tables from them. A source that
/// is missing or unreadable is reported only when all the sources before
/// it read.
#[verifier::loop_isolation(false)]
pub fn tables_from_archive(bytes: Vec<u8>) -> (r: Result<crate::tables::CodecTables, ReferenceError>)
    ensures
        r matches Ok(t) ==> exists|srcs: Seq<Seq<char>>|
            sources_of(bytes@, srcs) && tables_read(
                srcs.map_values(|s: Seq<char>| vstd::utf8::encode_utf8(s)),
                13,
            ) == Ok::<Seq<Seq<i16>>, TableTextError>(table_fields(t)),
        r matches Err(ReferenceError::Text(e)) ==> exists|srcs: Seq<Seq<char>>|
            sources_of(bytes@, srcs) && tables_read(
                srcs.map_values(|s: Seq<char>| vstd::utf8::encode_utf8(s)),
                13,
            ) == Err::<Seq<Seq<i16>>, TableTextError>(text_error_view(e)),
        r matches Err(ReferenceError::Archive(_)) <==> !zip_opens(bytes@),
        r matches Err(ReferenceError::Entry(EntryError::NotFound(s))) ==> exists|j: int|
            0 <= j < 7 && #[trigger] source_suffix(j) == s@ && no_match(zip_entries(bytes@), s@)
                && forall|q: int| 0 <= q < j ==> #[trigger] source_reads(zip_entries(bytes@), q),
        r matches Err(ReferenceError::Entry(EntryError::Unreadable(_))) ==> exists|j: int, idx: int|
            0 <= j < 7 && #[trigger] first_match(zip_entries(bytes@), source_suffix(j), idx)
                && zip_entries(bytes@)[idx].1 is None
                && forall|q: int| 0 <= q < j ==> #[trigger] source_reads(zip_entries(bytes@), q),
        zip_opens(bytes@) && sources_readable(zip_entries(bytes@)) ==> (r is Ok || r matches Err(
            ReferenceError::Text(_),
        )),
{
    let ghost b = bytes@;
    let mut zip = match open_archive(bytes) {
        Ok(z) => z,
        Err(msg) => {
            return Err(ReferenceError::Archive(msg));
        },
    };
    let ghost entries = archive_entries(zip);
    let mut texts: Vec<Vec<u8>> = Vec::new();
    let ghost mut srcs: Seq<Seq<char>> = Seq::empty();
    let mut j: usize = 0;
    while j < 7
        invariant
            j <= 7,
            entries == zip_entries(b),
            archive_entries(zip) == entries,
            srcs.len() == j,
            texts@.len() == j,
            forall|q: int| 0 <= q < j ==> #[trigger] texts@[q]@ == vstd::utf8::encode_utf8(srcs[q]),
            forall|q: int| 0 <= q < j ==> entry_source(entries, q, #[trigger] srcs[q]),
        decreases 7 - j,
    {
        let r = read_source(&mut zip, j);
        match r {
            Ok(t) => {
                let tb = text_bytes(&t);
                let v = copy_all(tb);
                proof {
                    let old_srcs = srcs;
                    assert(entry_source(entries, j as int, t@));
                    srcs = srcs.push(t@);
                    assert forall|q: int| 0 <= q < j + 1 implies entry_source(
                        entries,
                        q,
                        #[trigger] srcs[q],
                    ) by {
                        if q < j {
                            assert(srcs[q] == old_srcs[q]);
                        }
                    }
                }
                let ghost texts_before = texts@;
                texts.push(v);
                proof {
                    assert forall|q: int| 0 <= q < j + 1 implies #[trigger] texts@[q]@
                        == vstd::utf8::encode_utf8(srcs[q]) by {
                        if q < j {
                            assert(texts@[q] == texts_before[q]);
                        }
                    }
                }
            },
            Err(e) => {
                proof {
                    if e is NotFound {
                        assert(source_suffix(j as int) == e->NotFound_0@);
                        assert(no_match(entries, e->NotFound_0@));
                        assert(no_match(zip_entries(b), e->NotFound_0@));
                    }
                    assert forall|q: int| 0 <= q < j implies #[trigger] source_reads(entries, q) by {
                        assert(entry_source(entries, q, srcs[q]));
                    }
                    if sources_readable(entries) {
                        assert(0 <= j < 7);
                        assert(source_reads(entries, j as int));
                        let idx = choose|idx: int|
                            #[trigger] first_match(entries, source_suffix(j as int), idx)
                                && entries[idx].1 is Some;
                        assert(first_match(entries, source_suffix(j as int), idx));
                        assert(false);
                    }
                }
                return Err(ReferenceError::Entry(e));
            },
        }
        j = j + 1;
    }
    proof {
        assert(texts@.map_values(|s: Vec<u8>| s@) =~= srcs.map_values(
            |s: Seq<char>| vstd::utf8::encode_utf8(s),
        ));
    }
    match read_tables(&texts) {
        Ok(t) => {
            assert(sources_of(b, srcs));
            Ok(t)
        },
        Err(e) => {
            assert(sources_of(b, srcs));
            Err(ReferenceError::Text(e))
        },
    }
}

/// The decimal digits of `n`.
pub open spec fn digits_of(n: nat) -> Seq<u8>
    decreases n,
{
    if n < 10 {
        seq![(48 + n) as u8]
    } else {
        digits_of(n / 10).push((48 + n % 10) as u8)
    }
}

/// `v` in decimal, with a leading `-` when negative.
pub open spec fn decimal(v: int) -> Seq<u8> {
    if v < 0 {
        seq![45u8] + digits_of((-v) as nat)
    } else {
        digits_of(v as nat)
    }
}

/// Append the decimal digits of `n`.
fn push_digits(out: &mut Vec<u8>, n: u32)
    ensures
        final(out)@ == old(out)@ + digits_of(n as nat),
    decreases n,
{
    if n >= 10 {
        push_digits(out, n / 10);
    }
    out.push(48u8 + (n % 10) as u8);
    assert(out@ =~= old(out)@ + digits_of(n as nat));
}

/// Append `v` in decimal.
fn push_decimal(out: &mut Vec<u8>, v: i16)
    ensures
        final(out)@ == old(out)@ + decimal(v as int),
{
    if v < 0 {
        out.push(45u8);
        let m: u32 = (0 - (v as i32)) as u32;
        push_digits(out, m);
        assert(out@ =~= old(out)@ + decimal(v as int));
    } else {
        push_digits(out, v as u32);
    }
}

/// Append bytes.
fn push_bytes(out: &mut Vec<u8>, b: &[u8])
    ensures
        final(out)@ == old(out)@ + b@,
{
    let mut i: usize = 0;
    while i < b.len()
        invariant
            i <= b@.len(),
            out@ == old(out)@ + b@.subrange(0, i as int),
        decreases b@.len() - i,
    {
        out.push(b[i]);
        i = i + 1;
        assert(out@ =~= old(out)@ + b@.subrange(0, i as int));
    }
    assert(b@.subrange(0, b@.len() as int) =~= b@);
}

/// The values of one row, each followed by `, `.
pub open spec fn row_items(c: Seq<i16>) -> Seq<u8>
    decreases c.len(),
{
    if c.len() == 0 {
        Seq::empty()
    } else {
        row_items(c.drop_last()) + decimal(c.last() as int) + seq![44u8, 32u8]
    }
}

/// The rows of a table body from position `i`: twelve values per row,
/// indented by four spaces.
pub open spec fn rows_from(vs: Seq<i16>, i: int) -> Seq<u8>
    decreases vs.len() + 12 - i,
{
    if i < 0 || i >= vs.len() {
        Seq::empty()
    } else {
        let e = if i + 12 < vs.len() { i + 12 } else { vs.len() as int };
        seq![32u8, 32u8, 32u8, 32u8] + row_items(vs.subrange(i, e)) + seq![10u8] + rows_from(vs, i + 12)
    }
}

/// One table as a Rust constant with its doc comment.
pub open spec fn table_text(name: Seq<u8>, doc: Seq<u8>, vs: Seq<i16>) -> Seq<u8> {
    seq![47u8, 47u8, 47u8, 32u8] + doc + seq![10u8] + seq![112u8, 117u8, 98u8, 32u8, 99u8, 111u8, 110u8, 115u8, 116u8, 32u8] + name + seq![58u8, 32u8, 91u8, 105u8, 49u8, 54u8, 59u8, 32u8] + decimal(
        vs.len() as int,
    ) + seq![93u8, 32u8, 61u8, 32u8, 91u8, 10u8] + rows_from(vs, 0) + seq![93u8, 59u8, 10u8, 10u8]
}

/// The module text for a list of tables (name, doc line, values).
pub open spec fn module_text(tables: Seq<(Seq<u8>, Seq<u8>, Seq<i16>)>) -> Seq<u8>
    decreases tables.len(),
{
    if tables.len() == 0 {
        module_header()
    } else {
        let t = tables.last();
        module_text(tables.drop_last()) + table_text(t.0, t.1, t.2)
    }
}

/// The module's header comment.
pub open spec fn module_header() -> Seq<u8> {
    seq![47u8, 47u8, 33u8, 32u8, 78u8, 117u8, 109u8, 101u8, 114u8, 105u8, 99u8, 32u8, 100u8, 97u8, 116u8, 97u8, 32u8, 116u8, 97u8, 98u8, 108u8, 101u8, 115u8, 32u8, 102u8, 114u8, 111u8, 109u8, 32u8, 116u8, 104u8, 101u8, 32u8, 69u8, 84u8, 83u8, 73u8, 32u8, 84u8, 69u8, 84u8, 82u8, 65u8, 32u8, 99u8, 111u8, 100u8, 101u8, 99u8, 32u8, 40u8, 69u8, 78u8, 32u8, 51u8, 48u8, 48u8, 32u8, 51u8, 57u8, 53u8, 45u8, 50u8, 41u8, 46u8, 10u8, 47u8, 47u8, 33u8, 10u8, 47u8, 47u8, 33u8, 32u8, 82u8, 101u8, 97u8, 100u8, 32u8, 102u8, 114u8, 111u8, 109u8, 32u8, 116u8, 104u8, 101u8, 32u8, 69u8, 84u8, 83u8, 73u8, 32u8, 114u8, 101u8, 102u8, 101u8, 114u8, 101u8, 110u8, 99u8, 101u8, 32u8, 97u8, 114u8, 99u8, 104u8, 105u8, 118u8, 101u8, 58u8, 32u8, 116u8, 104u8, 101u8, 32u8, 99u8, 111u8, 100u8, 101u8, 98u8, 111u8, 111u8, 107u8, 115u8, 32u8, 97u8, 110u8, 100u8, 32u8, 119u8, 105u8, 110u8, 100u8, 111u8, 119u8, 115u8, 32u8, 97u8, 114u8, 101u8, 10u8, 47u8, 47u8, 33u8, 32u8, 114u8, 101u8, 112u8, 114u8, 111u8, 100u8, 117u8, 99u8, 101u8, 100u8, 32u8, 102u8, 114u8, 111u8, 109u8, 32u8, 116u8, 104u8, 101u8, 32u8, 110u8, 111u8, 114u8, 109u8, 97u8, 116u8, 105u8, 118u8, 101u8, 32u8, 69u8, 84u8, 83u8, 73u8, 32u8, 114u8, 101u8, 102u8, 101u8, 114u8, 101u8, 110u8, 99u8, 101u8, 44u8, 32u8, 119u8, 104u8, 105u8, 99u8, 104u8, 32u8, 121u8, 111u8, 117u8, 32u8, 111u8, 98u8, 116u8, 97u8, 105u8, 110u8, 32u8, 102u8, 114u8, 111u8, 109u8, 32u8, 69u8, 84u8, 83u8, 73u8, 46u8, 10u8, 10u8]
}

/// A table to write out: its constant's name, its doc line, its values.
pub struct NamedTable {
    pub name: Vec<u8>,
    pub doc: Vec<u8>,
    pub values: Vec<i16>,
}

/// Write the tables as a Rust module of constants (see [`module_text`]).
pub fn generate(tables: &Vec<NamedTable>) -> (out: Vec<u8>)
    requires
        forall|k: int| 0 <= k < tables@.len() ==> #[trigger] tables@[k].values@.len() <= u32::MAX,
    ensures
        out@ == module_text(tables@.map_values(|t: NamedTable| (t.name@, t.doc@, t.values@))),
{
    let ghost tv = tables@.map_values(|t: NamedTable| (t.name@, t.doc@, t.values@));
    let mut out: Vec<u8> = Vec::new();
    let header: [u8; 221] = [47u8, 47u8, 33u8, 32u8, 78u8, 117u8, 109u8, 101u8, 114u8, 105u8, 99u8, 32u8, 100u8, 97u8, 116u8, 97u8, 32u8, 116u8, 97u8, 98u8, 108u8, 101u8, 115u8, 32u8, 102u8, 114u8, 111u8, 109u8, 32u8, 116u8, 104u8, 101u8, 32u8, 69u8, 84u8, 83u8, 73u8, 32u8, 84u8, 69u8, 84u8, 82u8, 65u8, 32u8, 99u8, 111u8, 100u8, 101u8, 99u8, 32u8, 40u8, 69u8, 78u8, 32u8, 51u8, 48u8, 48u8, 32u8, 51u8, 57u8, 53u8, 45u8, 50u8, 41u8, 46u8, 10u8, 47u8, 47u8, 33u8, 10u8, 47u8, 47u8, 33u8, 32u8, 82u8, 101u8, 97u8, 100u8, 32u8, 102u8, 114u8, 111u8, 109u8, 32u8, 116u8, 104u8, 101u8, 32u8, 69u8, 84u8, 83u8, 73u8, 32u8, 114u8, 101u8, 102u8, 101u8, 114u8, 101u8, 110u8, 99u8, 101u8, 32u8, 97u8, 114u8, 99u8, 104u8, 105u8, 118u8, 101u8, 58u8, 32u8, 116u8, 104u8, 101u8, 32u8, 99u8, 111u8, 100u8, 101u8, 98u8, 111u8, 111u8, 107u8, 115u8, 32u8, 97u8, 110u8, 100u8, 32u8, 119u8, 105u8, 110u8, 100u8, 111u8, 119u8, 115u8, 32u8, 97u8, 114u8, 101u8, 10u8, 47u8, 47u8, 33u8, 32u8, 114u8, 101u8, 112u8, 114u8, 111u8, 100u8, 117u8, 99u8, 101u8, 100u8, 32u8, 102u8, 114u8, 111u8, 109u8, 32u8, 116u8, 104u8, 101u8, 32u8, 110u8, 111u8, 114u8, 109u8, 97u8, 116u8, 105u8, 118u8, 101u8, 32u8, 69u8, 84u8, 83u8, 73u8, 32u8, 114u8, 101u8, 102u8, 101u8, 114u8, 101u8, 110u8, 99u8, 101u8, 44u8, 32u8, 119u8, 104u8, 105u8, 99u8, 104u8, 32u8, 121u8, 111u8, 117u8, 32u8, 111u8, 98u8, 116u8, 97u8, 105u8, 110u8, 32u8, 102u8, 114u8, 111u8, 109u8, 32u8, 69u8, 84u8, 83u8, 73u8, 46u8, 10u8, 10u8];
    assert(header@ == module_header());
    push_bytes(&mut out, &header);
    assert(out@ =~= module_header());
    let mut k: usize = 0;
    while k < tables.len()
        invariant
            k <= tables@.len(),
            tv == tables@.map_values(|t: NamedTable| (t.name@, t.doc@, t.values@)),
            out@ == module_text(tv.take(k as int)),
            forall|q: int| 0 <= q < tables@.len() ==> #[trigger] tables@[q].values@.len() <= u32::MAX,
        decreases tables@.len() - k,
    {
        let t = &tables[k];
        let ghost before = out@;
        write_table(&mut out, t);
        proof {
            assert(tv.take(k + 1).drop_last() =~= tv.take(k as int));
            assert(tv.take(k + 1).last() == (t.name@, t.doc@, t.values@));
        }
        k = k + 1;
    }
    assert(tv.take(tables@.len() as int) =~= tv);
    out
}

/// Append one table (see [`table_text`]).
fn write_table(out: &mut Vec<u8>, t: &NamedTable)
    requires
        t.values@.len() <= u32::MAX,
    ensures
        final(out)@ == old(out)@ + table_text(t.name@, t.doc@, t.values@),
{
    let doc_open: [u8; 4] = [47u8, 47u8, 47u8, 32u8];
    let const_open: [u8; 10] = [112u8, 117u8, 98u8, 32u8, 99u8, 111u8, 110u8, 115u8, 116u8, 32u8];
    let ty_open: [u8; 8] = [58u8, 32u8, 91u8, 105u8, 49u8, 54u8, 59u8, 32u8];
    let body_open: [u8; 6] = [93u8, 32u8, 61u8, 32u8, 91u8, 10u8];
    let body_close: [u8; 4] = [93u8, 59u8, 10u8, 10u8];
    let newline: [u8; 1] = [10u8];
    push_bytes(out, &doc_open);
    push_bytes(out, t.doc.as_slice());
    push_bytes(out, &newline);
    push_bytes(out, &const_open);
    push_bytes(out, t.name.as_slice());
    push_bytes(out, &ty_open);
    push_digits(out, t.values.len() as u32);
    push_bytes(out, &body_open);
    let ghost mid = out@;
    write_rows(out, t.values.as_slice());
    push_bytes(out, &body_close);
    assert(out@ =~= old(out)@ + table_text(t.name@, t.doc@, t.values@));
}

/// Append the rows of a table body (see [`rows_from`]).
fn write_rows(out: &mut Vec<u8>, vs: &[i16])
    ensures
        final(out)@ == old(out)@ + rows_from(vs@, 0),
{
    let n = vs.len();
    let mut i: usize = 0;
    while i < n
        invariant
            n == vs@.len(),
            i <= n,
            old(out)@ + rows_from(vs@, 0) == out@ + rows_from(vs@, i as int),
        decreases n - i,
    {
        let e = if n - i > 12 {
            i + 12
        } else {
            n
        };
        let ghost before = out@;
        let indent: [u8; 4] = [32u8, 32u8, 32u8, 32u8];
        push_bytes(out, &indent);
        let ghost base = out@;
        let mut j = i;
        assert(vs@.subrange(i as int, i as int) =~= Seq::<i16>::empty());
        while j < e
            invariant
                i <= j <= e <= n,
                n == vs@.len(),
                out@ == base + row_items(vs@.subrange(i as int, j as int)),
            decreases e - j,
        {
            push_decimal(out, vs[j]);
            out.push(44u8);
            out.push(32u8);
            j = j + 1;
            proof {
                let c = vs@.subrange(i as int, j as int);
                assert(c.drop_last() =~= vs@.subrange(i as int, j - 1));
                assert(c.last() == vs@[j - 1]);
            }
            assert(out@ =~= base + row_items(vs@.subrange(i as int, j as int)));
        }
        out.push(10u8);
        proof {
            assert(out@ =~= before + seq![32u8, 32u8, 32u8, 32u8] + row_items(
                vs@.subrange(i as int, e as int),
            ) + seq![10u8]);
        }
        if n - i > 12 {
            i = i + 12;
        } else {
            assert(rows_from(vs@, i + 12) =~= Seq::<u8>::empty());
            i = n;
        }
    }
}

} // verus!
