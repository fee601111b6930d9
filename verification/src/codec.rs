//! Frame codec: venue JSON frames to uniform snapshots and back.
//!
//! Venues quote prices and amounts as decimal strings inside compact JSON
//! frames.  The codec parses such a frame into `(price, amount)` rows of
//! fixed-point integers (eight fractional digits) and prints a snapshot
//! back into the venue's frame shape.  Parsing and printing are specified
//! by spec functions that the executable code mirrors exactly, and a
//! round-trip law proves that decoding an encoded snapshot restores it.

use vstd::prelude::*;

use crate::exchanges::{DecodeError, FeedSnapshot};

verus! {

/// Fixed-point scale: a stored value `v` stands for `v / SCALE`.
pub const SCALE: u64 = 100_000_000;

/// Number of fractional digits the fixed-point representation carries.
pub const FRAC_DIGITS: u64 = 8;

/// Largest integer part that still fits: `u64::MAX / SCALE`.
pub const MAX_UNITS: u64 = 184467440737;

pub const QUOTE: u8 = 34;
pub const COMMA: u8 = 44;
pub const DOT: u8 = 46;
pub const COLON: u8 = 58;
pub const LBRACK: u8 = 91;
pub const RBRACK: u8 = 93;
pub const LBRACE: u8 = 123;
pub const RBRACE: u8 = 125;

/// `c` is an ASCII decimal digit.
pub open spec fn is_digit(c: u8) -> bool {
    48 <= c <= 57
}

/// Ten to the `n`.
pub open spec fn pow10(n: nat) -> int
    decreases n,
{
    if n == 0 {
        1
    } else {
        10 * pow10((n - 1) as nat)
    }
}

/// End of the digit run that starts at `i`.
pub open spec fn run_end(s: Seq<u8>, i: int) -> int
    recommends
        0 <= i,
    decreases s.len() - i,
{
    if 0 <= i < s.len() && is_digit(s[i]) {
        run_end(s, i + 1)
    } else {
        i
    }
}

/// Value of the digits `s[i..j)`, read most significant first.
pub open spec fn run_val(s: Seq<u8>, i: int, j: int) -> int
    decreases j - i,
{
    if i < j {
        run_val(s, i, j - 1) * 10 + (s[j - 1] - 48)
    } else {
        0
    }
}

/// A digit run never ends before it starts and stops only at a boundary.
pub proof fn lemma_run_end_bounds(s: Seq<u8>, i: int)
    requires
        0 <= i <= s.len(),
    ensures
        i <= run_end(s, i) <= s.len(),
        forall|j: int| i <= j < run_end(s, i) ==> is_digit(#[trigger] s[j]),
        run_end(s, i) == s.len() || !is_digit(s[run_end(s, i)]),
    decreases s.len() - i,
{
    if i < s.len() && is_digit(s[i]) {
        lemma_run_end_bounds(s, i + 1);
    }
}

/// A region of digits with a non-digit boundary is exactly one run.
pub proof fn lemma_run_end_exact(s: Seq<u8>, i: int, j: int)
    requires
        0 <= i <= j <= s.len(),
        forall|x: int| i <= x < j ==> is_digit(#[trigger] s[x]),
        j == s.len() || !is_digit(s[j]),
    ensures
        run_end(s, i) == j,
    decreases j - i,
{
    if i < j {
        lemma_run_end_exact(s, i + 1, j);
    }
}

/// A digit-run value is never negative.
pub proof fn lemma_run_val_nonneg(s: Seq<u8>, i: int, j: int)
    requires
        i <= j,
        forall|x: int| i <= x < j ==> is_digit(#[trigger] s[x]),
    ensures
        0 <= run_val(s, i, j),
    decreases j - i,
{
    if i < j {
        lemma_run_val_nonneg(s, i, j - 1);
        assert(run_val(s, i, j - 1) * 10 >= 0);
    }
}

/// Digit-run values are non-negative and grow along the run.
pub proof fn lemma_run_val_mono(s: Seq<u8>, i: int, j: int, k: int)
    requires
        i <= j <= k,
        forall|x: int| i <= x < k ==> is_digit(#[trigger] s[x]),
    ensures
        0 <= run_val(s, i, j) <= run_val(s, i, k),
    decreases k - j,
{
    lemma_run_val_nonneg(s, i, j);
    if j < k {
        lemma_run_val_mono(s, i, j, k - 1);
        lemma_run_val_nonneg(s, i, k - 1);
        assert(run_val(s, i, k - 1) * 10 >= run_val(s, i, k - 1));
    }
}

/// A run of `j - i` digits stays below ten to that many places.
pub proof fn lemma_run_val_bound(s: Seq<u8>, i: int, j: int)
    requires
        i <= j,
        forall|x: int| i <= x < j ==> is_digit(#[trigger] s[x]),
    ensures
        0 <= run_val(s, i, j) < pow10((j - i) as nat),
    decreases j - i,
{
    if i < j {
        lemma_run_val_bound(s, i, j - 1);
        assert(s[j - 1] - 48 <= 9);
    }
}

/// The meaning of a price or amount string `s[lo..hi)`: an integer digit
/// run, optionally followed by a dot and one to eight fractional digits,
/// whose fixed-point value fits in 64 bits.
pub open spec fn sp_number(s: Seq<u8>, lo: int, hi: int) -> Result<u64, DecodeError> {
    let j1 = run_end(s, lo);
    if j1 == lo || j1 > hi {
        Err(DecodeError::BadNumber)
    } else {
        let ival = run_val(s, lo, j1);
        if j1 == hi {
            if ival * SCALE <= u64::MAX {
                Ok((ival * SCALE) as u64)
            } else {
                Err(DecodeError::BadNumber)
            }
        } else if s[j1] == DOT {
            let j2 = run_end(s, j1 + 1);
            if j2 != hi || j2 == j1 + 1 || j2 - (j1 + 1) > FRAC_DIGITS {
                Err(DecodeError::BadNumber)
            } else {
                let total = ival * SCALE + run_val(s, j1 + 1, j2) * pow10(
                    (FRAC_DIGITS - (j2 - (j1 + 1))) as nat,
                );
                if total <= u64::MAX {
                    Ok(total as u64)
                } else {
                    Err(DecodeError::BadNumber)
                }
            }
        } else {
            Err(DecodeError::BadNumber)
        }
    }
}

/// Computes ten to the `n` for the at most eight fractional places.
fn pow10_u64(n: u64) -> (r: u64)
    requires
        n <= 8,
    ensures
        r as int == pow10(n as nat),
{
    let mut r: u64 = 1;
    let mut k: u64 = 0;
    while k < n
        invariant
            0 <= k <= n <= 8,
            r as int == pow10(k as nat),
            r <= 100_000_000,
        decreases n - k,
    {
        proof {
            assert(pow10((k + 1) as nat) == 10 * pow10(k as nat));
            lemma_pow10_mono(k as nat, 7);
            assert(pow10(7) == 10_000_000) by {
                reveal_with_fuel(pow10, 8);
            }
        }
        r = r * 10;
        k = k + 1;
    }
    r
}

/// Parses the whole region `s[lo..hi)` as a fixed-point number.
#[verifier::loop_isolation(false)]
pub fn parse_number(s: &Vec<u8>, lo: usize, hi: usize) -> (r: Result<u64, DecodeError>)
    requires
        lo <= hi <= s@.len(),
    ensures
        r == sp_number(s@, lo as int, hi as int),
{
    proof {
        lemma_run_end_bounds(s@, lo as int);
    }
    let ghost j1g = run_end(s@, lo as int);
    let n = s.len();
    let mut j: usize = lo;
    let mut ival: u64 = 0;
    let mut big: bool = false;
    while j < n && 48 <= s[j] && s[j] <= 57
        invariant
            lo <= j <= j1g,
            !big ==> ival as int == run_val(s@, lo as int, j as int) && ival <= MAX_UNITS,
            big ==> run_val(s@, lo as int, j as int) > MAX_UNITS,
        decreases n - j,
    {
        proof {
            if j < j1g {
            } else {
                assert(!is_digit(s@[j1g]) || j1g == s@.len());
            }
            lemma_run_val_mono(s@, lo as int, j as int, j as int + 1);
        }
        let d: u64 = (s[j] - 48) as u64;
        if !big {
            if ival > MAX_UNITS / 10 || (ival == MAX_UNITS / 10 && d > MAX_UNITS % 10) {
                big = true;
            } else {
                ival = ival * 10 + d;
            }
        }
        j = j + 1;
    }
    proof {
        assert(j == j1g) by {
            if j < j1g {
                assert(is_digit(s@[j as int]));
            }
        }
        if big {
            lemma_run_val_mono(s@, lo as int, j as int, j1g);
        }
    }
    if j == lo || j > hi {
        return Err(DecodeError::BadNumber);
    }
    if j == hi {
        if big || ival > MAX_UNITS {
            proof {
                if !big {
                    assert(ival * SCALE > u64::MAX) by (nonlinear_arith)
                        requires
                            ival > MAX_UNITS,
                            MAX_UNITS == 184467440737,
                            SCALE == 100_000_000,
                    ;
                }
                if big {
                    assert(run_val(s@, lo as int, j1g) * SCALE > u64::MAX) by (nonlinear_arith)
                        requires
                            run_val(s@, lo as int, j1g) > MAX_UNITS,
                            MAX_UNITS == 184467440737,
                            SCALE == 100_000_000,
                    ;
                }
            }
            return Err(DecodeError::BadNumber);
        }
        proof {
            assert(ival * SCALE <= u64::MAX) by (nonlinear_arith)
                requires
                    0 <= ival <= MAX_UNITS,
                    MAX_UNITS == 184467440737,
                    SCALE == 100_000_000,
            ;
        }
        return Ok(ival * SCALE);
    }
    if s[j] != DOT {
        return Err(DecodeError::BadNumber);
    }
    // fractional run
    proof {
        lemma_run_end_bounds(s@, j as int + 1);
    }
    let ghost j2g = run_end(s@, j as int + 1);
    let f_lo = j + 1;
    let mut f: usize = f_lo;
    let mut fval: u64 = 0;
    while f < n && 48 <= s[f] && s[f] <= 57 && f - f_lo < 8
        invariant
            f_lo <= f <= j2g,
            f - f_lo <= 8,
            fval as int == run_val(s@, f_lo as int, f as int),
            fval < 100_000_000,
        decreases n - f,
    {
        proof {
            if f < j2g {
            } else {
                assert(!is_digit(s@[j2g]) || j2g == s@.len());
            }
            lemma_run_val_bound(s@, f_lo as int, f as int + 1);
            assert(forall|x: int|
                f_lo <= x < f + 1 ==> is_digit(#[trigger] s@[x])) by {
                lemma_run_end_bounds(s@, f_lo as int);
            }
            assert(pow10(8) == 100_000_000) by { reveal_with_fuel(pow10, 9); }
            assert(pow10((f + 1 - f_lo) as nat) <= pow10(8)) by {
                lemma_pow10_mono((f + 1 - f_lo) as nat, 8);
            }
        }
        fval = fval * 10 + ((s[f] - 48) as u64);
        f = f + 1;
    }
    if f < n && 48 <= s[f] && s[f] <= 57 {
        // a ninth fractional digit: more places than the fixed point holds
        proof {
            assert(f < j2g);
            assert(j2g - (f_lo as int) > 8);
            assert(j2g >= f_lo);
        }
        return Err(DecodeError::BadNumber);
    }
    proof {
        assert(f == j2g) by {
            if f < j2g {
                assert(is_digit(s@[f as int]));
            }
        }
    }
    if f != hi || f == f_lo {
        return Err(DecodeError::BadNumber);
    }
    let fd = f - f_lo;
    let mult = pow10_u64((8 - fd) as u64);
    proof {
        lemma_pow10_mono(0, (8 - fd) as nat);
        lemma_run_val_bound(s@, f_lo as int, f as int);
        assert(fval as int * (mult as int) < pow10(fd as nat) * pow10((8 - fd) as nat)) by (
        nonlinear_arith)
            requires
                0 <= (fval as int) && (fval as int) < pow10(fd as nat),
                mult as int == pow10((8 - fd) as nat),
                pow10((8 - fd) as nat) >= 1,
        ;
        lemma_pow10_add(fd as nat, (8 - fd) as nat);
        assert(pow10(8) == 100_000_000) by { reveal_with_fuel(pow10, 9); }
    }
    let scaled_frac = fval * mult;
    if big || ival > MAX_UNITS {
        proof {
            let iv = if big {
                run_val(s@, lo as int, j as int)
            } else {
                ival as int
            };
            assert(iv > MAX_UNITS);
            assert(iv * SCALE + run_val(s@, f_lo as int, f as int) * (mult as int) > u64::MAX) by (
            nonlinear_arith)
                requires
                    iv > MAX_UNITS,
                    MAX_UNITS == 184467440737,
                    SCALE == 100_000_000,
                    run_val(s@, f_lo as int, f as int) >= 0,
                    mult as int >= 1,
            ;
        }
        return Err(DecodeError::BadNumber);
    }
    let total: u128 = (ival as u128) * (SCALE as u128) + (scaled_frac as u128);
    proof {
        assert((ival as u128) * (SCALE as u128) == ival as int * SCALE) by (nonlinear_arith)
            requires
                0 <= ival <= MAX_UNITS,
                MAX_UNITS == 184467440737,
                SCALE == 100_000_000,
        ;
    }
    if total > u64::MAX as u128 {
        return Err(DecodeError::BadNumber);
    }
    Ok(total as u64)
}

/// Decimal digit characters of `n`, most significant first.
pub open spec fn sp_digits(n: int) -> Seq<u8>
    recommends
        n >= 0,
    decreases n,
{
    if n < 10 {
        seq![(48 + n) as u8]
    } else {
        sp_digits(n / 10).push((48 + n % 10) as u8)
    }
}

/// `n` printed into exactly `w` zero-padded digit characters.
pub open spec fn sp_fixed(n: int, w: nat) -> Seq<u8>
    recommends
        0 <= n < pow10(w),
    decreases w,
{
    if w == 0 {
        Seq::empty()
    } else {
        sp_fixed(n / 10, (w - 1) as nat).push((48 + n % 10) as u8)
    }
}

/// The canonical decimal string of a fixed-point value: integer part,
/// dot, and all eight fractional digits.
pub open spec fn sp_amount(v: int) -> Seq<u8> {
    sp_digits(v / (SCALE as int)) + seq![DOT] + sp_fixed(v % (SCALE as int), 8)
}

/// The value of a digit string, read most significant first.
pub open spec fn digits_val(d: Seq<u8>) -> int
    decreases d.len(),
{
    if d.len() == 0 {
        0
    } else {
        digits_val(d.drop_last()) * 10 + (d.last() - 48)
    }
}

/// A digit run means the same as the digit string it covers.
pub proof fn lemma_run_val_is_digits_val(s: Seq<u8>, i: int, j: int)
    requires
        0 <= i <= j <= s.len(),
    ensures
        run_val(s, i, j) == digits_val(s.subrange(i, j)),
    decreases j - i,
{
    if i < j {
        lemma_run_val_is_digits_val(s, i, j - 1);
        let d = s.subrange(i, j);
        assert(d.drop_last() =~= s.subrange(i, j - 1));
        assert(d.last() == s[j - 1]);
    }
}

/// Printing a number yields digit characters whose value is the number.
pub proof fn lemma_sp_digits_val(n: int)
    requires
        n >= 0,
    ensures
        sp_digits(n).len() >= 1,
        forall|x: int| 0 <= x < sp_digits(n).len() ==> is_digit(#[trigger] sp_digits(n)[x]),
        digits_val(sp_digits(n)) == n,
    decreases n,
{
    if n < 10 {
        let d = sp_digits(n);
        assert(d.drop_last() =~= Seq::<u8>::empty());
        assert(d.last() == (48 + n) as u8);
        assert(d.len() == 1);
        assert(digits_val(d) == digits_val(d.drop_last()) * 10 + (d.last() - 48));
        assert(digits_val(d.drop_last()) == 0);
        assert(digits_val(d) == n);
    } else {
        lemma_sp_digits_val(n / 10);
        let d = sp_digits(n);
        assert(d.drop_last() =~= sp_digits(n / 10));
        assert(d.last() == (48 + n % 10) as u8);
        assert(digits_val(d) == (n / 10) * 10 + n % 10);
    }
}

/// Fixed-width printing yields exactly `w` digit characters with the
/// printed value.
pub proof fn lemma_sp_fixed_val(n: int, w: nat)
    requires
        0 <= n < pow10(w),
    ensures
        sp_fixed(n, w).len() == w,
        forall|x: int| 0 <= x < w ==> is_digit(#[trigger] sp_fixed(n, w)[x]),
        digits_val(sp_fixed(n, w)) == n,
    decreases w,
{
    if w == 0 {
    } else {
        assert(pow10(w) == 10 * pow10((w - 1) as nat));
        assert(n / 10 < pow10((w - 1) as nat)) by (nonlinear_arith)
            requires
                0 <= n < 10 * pow10((w - 1) as nat),
        ;
        lemma_sp_fixed_val(n / 10, (w - 1) as nat);
        let d = sp_fixed(n, w);
        assert(d.drop_last() =~= sp_fixed(n / 10, (w - 1) as nat));
        assert(d.last() == (48 + n % 10) as u8);
        assert(digits_val(d) == (n / 10) * 10 + n % 10);
    }
}

/// Parsing the canonical decimal string of a value restores the value:
/// the region covering `sp_amount(v)`, ended by a non-digit, reads back
/// as exactly `v`.
pub proof fn lemma_number_roundtrip(s: Seq<u8>, lo: int, v: u64)
    requires
        0 <= lo,
        lo + sp_amount(v as int).len() <= s.len(),
        s.subrange(lo, lo + sp_amount(v as int).len()) == sp_amount(v as int),
        lo + sp_amount(v as int).len() == s.len() || !is_digit(
            s[lo + sp_amount(v as int).len()],
        ),
    ensures
        sp_number(s, lo, lo + sp_amount(v as int).len()) == Ok::<u64, DecodeError>(v),
{
    let units = v as int / (SCALE as int);
    let frac = v as int % (SCALE as int);
    let a = sp_digits(units);
    let b = sp_fixed(frac, 8);
    let am = sp_amount(v as int);
    let la = a.len() as int;
    let hi = lo + am.len();
    assert(pow10(8) == 100_000_000) by {
        reveal_with_fuel(pow10, 9);
    }
    lemma_sp_digits_val(units);
    lemma_sp_fixed_val(frac, 8);
    assert(am.len() == la + 9);
    assert forall|x: int| 0 <= x < am.len() implies s[lo + x] == am[x] by {
        assert(s.subrange(lo, hi)[x] == s[lo + x]);
    }
    assert forall|x: int| 0 <= x < la implies am[x] == a[x] by {}
    assert(am[la] == DOT);
    assert forall|x: int| 0 <= x < 8 implies am[la + 1 + x] == b[x] by {}
    // integer digit run
    assert forall|x: int| lo <= x < lo + la implies is_digit(#[trigger] s[x]) by {
        assert(s[x] == am[x - lo]);
        assert(am[x - lo] == a[x - lo]);
    }
    assert(s[lo + la] == DOT);
    lemma_run_end_exact(s, lo, lo + la);
    assert(run_val(s, lo, lo + la) == units) by {
        lemma_run_val_is_digits_val(s, lo, lo + la);
        assert(s.subrange(lo, lo + la) =~= a);
    }
    // fractional digit run
    assert forall|x: int| lo + la + 1 <= x < hi implies is_digit(#[trigger] s[x]) by {
        assert(s[x] == am[x - lo]);
        assert(am[x - lo] == b[x - lo - la - 1]);
    }
    lemma_run_end_exact(s, lo + la + 1, hi);
    assert(run_val(s, lo + la + 1, hi) == frac) by {
        lemma_run_val_is_digits_val(s, lo + la + 1, hi);
        assert(s.subrange(lo + la + 1, hi) =~= b);
    }
    assert(units * (SCALE as int) + frac * pow10(0) == v) by (nonlinear_arith)
        requires
            units == v as int / (SCALE as int),
            frac == v as int % (SCALE as int),
            SCALE == 100_000_000,
            pow10(0) == 1,
    ;
}

/// Appends the decimal digits of `n`.
pub fn push_digits(out: &mut Vec<u8>, n: u64)
    ensures
        final(out)@ == old(out)@ + sp_digits(n as int),
    decreases n,
{
    if n < 10 {
        out.push((48 + n) as u8);
        proof {
            assert(out@ =~= old(out)@ + sp_digits(n as int));
        }
    } else {
        push_digits(out, n / 10);
        out.push((48 + (n % 10)) as u8);
        proof {
            assert(out@ =~= old(out)@ + sp_digits(n as int));
        }
    }
}

/// Appends exactly `w` zero-padded digits of `n`.
pub fn push_fixed(out: &mut Vec<u8>, n: u64, w: usize)
    requires
        (n as int) < pow10(w as nat),
    ensures
        final(out)@ == old(out)@ + sp_fixed(n as int, w as nat),
    decreases w,
{
    if w > 0 {
        proof {
            assert(pow10(w as nat) == 10 * pow10((w - 1) as nat));
            assert((n as int) / 10 < pow10((w - 1) as nat)) by (nonlinear_arith)
                requires
                    0 <= (n as int) && (n as int) < 10 * pow10((w - 1) as nat),
            ;
        }
        push_fixed(out, n / 10, w - 1);
        out.push((48 + (n % 10)) as u8);
    }
    proof {
        assert(out@ =~= old(out)@ + sp_fixed(n as int, w as nat));
    }
}

/// Appends the canonical decimal string of a fixed-point value.
pub fn push_amount(out: &mut Vec<u8>, v: u64)
    ensures
        final(out)@ == old(out)@ + sp_amount(v as int),
{
    proof {
        assert(pow10(8) == 100_000_000) by {
            reveal_with_fuel(pow10, 9);
        }
    }
    push_digits(out, v / SCALE);
    out.push(DOT);
    push_fixed(out, v % SCALE, 8);
    proof {
        assert(out@ =~= old(out)@ + sp_amount(v as int));
    }
}

/// The bytes of the object key naming the bid rows.
pub open spec fn key_bids() -> Seq<u8> {
    seq![98u8, 105u8, 100u8, 115u8]
}

/// The bytes of the object key naming the ask rows.
pub open spec fn key_asks() -> Seq<u8> {
    seq![97u8, 115u8, 107u8, 115u8]
}

/// The bytes of the wrapper key of a Bitstamp frame.
pub open spec fn key_data() -> Seq<u8> {
    seq![100u8, 97u8, 116u8, 97u8]
}

/// The bytes of the event key of a Bitstamp control frame.
pub open spec fn key_event() -> Seq<u8> {
    seq![101u8, 118u8, 101u8, 110u8, 116u8]
}

/// The bytes of the subscription confirmation event name.
pub open spec fn ack_text() -> Seq<u8> {
    seq![
        98u8, 116u8, 115u8, 58u8, 115u8, 117u8, 98u8, 115u8, 99u8, 114u8, 105u8, 112u8, 116u8,
        105u8, 111u8, 110u8, 95u8, 115u8, 117u8, 99u8, 99u8, 101u8, 101u8, 100u8, 101u8, 100u8,
    ]
}

/// Position of the closing quote of the string content that starts at `i`.
pub open spec fn sp_str_end(s: Seq<u8>, i: int) -> Result<int, DecodeError>
    decreases s.len() - i,
{
    if i < 0 || i >= s.len() {
        Err(DecodeError::BadFrame)
    } else if s[i] == QUOTE {
        Ok(i)
    } else {
        sp_str_end(s, i + 1)
    }
}

/// A quote preceded only by other bytes is the one the scan finds.
pub proof fn lemma_str_end_exact(s: Seq<u8>, i: int, q: int)
    requires
        0 <= i <= q < s.len(),
        forall|x: int| i <= x < q ==> s[x] != QUOTE,
        s[q] == QUOTE,
    ensures
        sp_str_end(s, i) == Ok::<int, DecodeError>(q),
    decreases q - i,
{
    if i < q {
        lemma_str_end_exact(s, i + 1, q);
    }
}

/// One `["price","amount"]` row starting at `i`.
pub open spec fn sp_level(s: Seq<u8>, i: int) -> Result<(int, (u64, u64)), DecodeError> {
    if i < 0 || i + 2 > s.len() || s[i] != LBRACK || s[i + 1] != QUOTE {
        Err(DecodeError::BadFrame)
    } else {
        match sp_str_end(s, i + 2) {
            Err(e) => Err(e),
            Ok(q1) => match sp_number(s, i + 2, q1) {
                Err(e) => Err(e),
                Ok(p) => {
                    if q1 + 3 > s.len() || s[q1 + 1] != COMMA || s[q1 + 2] != QUOTE {
                        Err(DecodeError::BadFrame)
                    } else {
                        match sp_str_end(s, q1 + 3) {
                            Err(e) => Err(e),
                            Ok(q2) => match sp_number(s, q1 + 3, q2) {
                                Err(e) => Err(e),
                                Ok(a) => {
                                    if q2 + 2 > s.len() || s[q2 + 1] != RBRACK {
                                        Err(DecodeError::BadFrame)
                                    } else {
                                        Ok((q2 + 2, (p, a)))
                                    }
                                },
                            },
                        }
                    }
                },
            },
        }
    }
}

/// The comma-separated rows from `i` up to the closing bracket.
pub open spec fn sp_levels_rest(s: Seq<u8>, i: int) -> Result<(int, Seq<(u64, u64)>), DecodeError>
    decreases s.len() - i,
{
    match sp_level(s, i) {
        Err(e) => Err(e),
        Ok((p, row)) => {
            if p <= i || p >= s.len() {
                Err(DecodeError::BadFrame)
            } else if s[p] == COMMA {
                match sp_levels_rest(s, p + 1) {
                    Err(e) => Err(e),
                    Ok((p2, rows)) => Ok((p2, seq![row] + rows)),
                }
            } else if s[p] == RBRACK {
                Ok((p + 1, seq![row]))
            } else {
                Err(DecodeError::BadFrame)
            }
        },
    }
}

/// A bracketed array of rows starting at `i`.
pub open spec fn sp_levels(s: Seq<u8>, i: int) -> Result<(int, Seq<(u64, u64)>), DecodeError> {
    if i < 0 || i >= s.len() || s[i] != LBRACK {
        Err(DecodeError::BadFrame)
    } else if i + 1 < s.len() && s[i + 1] == RBRACK {
        Ok((i + 2, Seq::empty()))
    } else {
        sp_levels_rest(s, i + 1)
    }
}

/// First comma or closing brace at or after `i`: the end of a bare token.
pub open spec fn sp_token_end(s: Seq<u8>, i: int) -> Result<int, DecodeError>
    decreases s.len() - i,
{
    if i < 0 || i >= s.len() {
        Err(DecodeError::BadFrame)
    } else if s[i] == COMMA || s[i] == RBRACE {
        Ok(i)
    } else {
        sp_token_end(s, i + 1)
    }
}

/// Skips the scalar value of a key the decoder does not use: a quoted
/// string, an empty object, or a bare token such as a number, `true` or
/// `null`.
pub open spec fn sp_scalar(s: Seq<u8>, i: int) -> Result<int, DecodeError> {
    if i < 0 || i >= s.len() {
        Err(DecodeError::BadFrame)
    } else if s[i] == QUOTE {
        match sp_str_end(s, i + 1) {
            Err(e) => Err(e),
            Ok(q) => Ok(q + 1),
        }
    } else if s[i] == LBRACE {
        if i + 1 < s.len() && s[i + 1] == RBRACE {
            Ok(i + 2)
        } else {
            Err(DecodeError::BadFrame)
        }
    } else if s[i] == COMMA || s[i] == RBRACE {
        Err(DecodeError::BadFrame)
    } else {
        sp_token_end(s, i + 1)
    }
}

/// The pairs of a book object from `i` on, with the rows already seen.
/// Each key is read; `bids` and `asks` keys take a row array, any other
/// key takes a scalar, and a duplicate of a used key is refused.
pub open spec fn sp_book_pairs(
    s: Seq<u8>,
    i: int,
    bids: Option<Seq<(u64, u64)>>,
    asks: Option<Seq<(u64, u64)>>,
) -> Result<(int, Seq<(u64, u64)>, Seq<(u64, u64)>), DecodeError>
    decreases s.len() - i, 1int,
{
    if i < 0 || i >= s.len() || s[i] != QUOTE {
        Err(DecodeError::BadFrame)
    } else {
        match sp_str_end(s, i + 1) {
            Err(e) => Err(e),
            Ok(q) => {
                if q + 1 >= s.len() || s[q + 1] != COLON {
                    Err(DecodeError::BadFrame)
                } else {
                    let key = s.subrange(i + 1, q);
                    let vstart = q + 2;
                    if key == key_bids() {
                        if bids is Some {
                            Err(DecodeError::BadFrame)
                        } else {
                            match sp_levels(s, vstart) {
                                Err(e) => Err(e),
                                Ok((p, rows)) => {
                                    if p <= i || p > s.len() {
                                        Err(DecodeError::BadFrame)
                                    } else {
                                        sp_book_tail(s, p, Some(rows), asks)
                                    }
                                },
                            }
                        }
                    } else if key == key_asks() {
                        if asks is Some {
                            Err(DecodeError::BadFrame)
                        } else {
                            match sp_levels(s, vstart) {
                                Err(e) => Err(e),
                                Ok((p, rows)) => {
                                    if p <= i || p > s.len() {
                                        Err(DecodeError::BadFrame)
                                    } else {
                                        sp_book_tail(s, p, bids, Some(rows))
                                    }
                                },
                            }
                        }
                    } else {
                        match sp_scalar(s, vstart) {
                            Err(e) => Err(e),
                            Ok(p) => {
                                if p <= i || p > s.len() {
                                    Err(DecodeError::BadFrame)
                                } else {
                                    sp_book_tail(s, p, bids, asks)
                                }
                            },
                        }
                    }
                }
            },
        }
    }
}

/// After a pair's value: a comma continues with more pairs, the closing
/// brace ends the object, which must by then have both row arrays.
pub open spec fn sp_book_tail(
    s: Seq<u8>,
    p: int,
    bids: Option<Seq<(u64, u64)>>,
    asks: Option<Seq<(u64, u64)>>,
) -> Result<(int, Seq<(u64, u64)>, Seq<(u64, u64)>), DecodeError>
    decreases s.len() - p, 0int,
{
    if p < 0 || p >= s.len() {
        Err(DecodeError::BadFrame)
    } else if s[p] == COMMA {
        sp_book_pairs(s, p + 1, bids, asks)
    } else if s[p] == RBRACE {
        match (bids, asks) {
            (Some(b), Some(a)) => Ok((p + 1, b, a)),
            _ => Err(DecodeError::BadFrame),
        }
    } else {
        Err(DecodeError::BadFrame)
    }
}

/// A book object: brace-enclosed pairs holding both row arrays.
pub open spec fn sp_book(s: Seq<u8>, i: int) -> Result<
    (int, Seq<(u64, u64)>, Seq<(u64, u64)>),
    DecodeError,
> {
    if i < 0 || i >= s.len() || s[i] != LBRACE {
        Err(DecodeError::BadFrame)
    } else {
        sp_book_pairs(s, i + 1, None, None)
    }
}

/// The meaning of a whole Binance frame: a book object and nothing after.
pub open spec fn sp_decode_binance(s: Seq<u8>) -> Result<
    (Seq<(u64, u64)>, Seq<(u64, u64)>),
    DecodeError,
> {
    match sp_book(s, 0) {
        Err(e) => Err(e),
        Ok((p, b, a)) => {
            if p == s.len() {
                Ok((b, a))
            } else {
                Err(DecodeError::BadFrame)
            }
        },
    }
}

/// The pairs of a Bitstamp frame from `i` on: the `data` key wraps a
/// book object, every other key takes a scalar.
pub open spec fn sp_outer_pairs(
    s: Seq<u8>,
    i: int,
    data: Option<(Seq<(u64, u64)>, Seq<(u64, u64)>)>,
) -> Result<(int, Seq<(u64, u64)>, Seq<(u64, u64)>), DecodeError>
    decreases s.len() - i, 1int,
{
    if i < 0 || i >= s.len() || s[i] != QUOTE {
        Err(DecodeError::BadFrame)
    } else {
        match sp_str_end(s, i + 1) {
            Err(e) => Err(e),
            Ok(q) => {
                if q + 1 >= s.len() || s[q + 1] != COLON {
                    Err(DecodeError::BadFrame)
                } else {
                    let key = s.subrange(i + 1, q);
                    let vstart = q + 2;
                    if key == key_data() {
                        if data is Some {
                            Err(DecodeError::BadFrame)
                        } else {
                            match sp_book(s, vstart) {
                                Err(e) => Err(e),
                                Ok((p, b, a)) => {
                                    if p <= i || p > s.len() {
                                        Err(DecodeError::BadFrame)
                                    } else {
                                        sp_outer_tail(s, p, Some((b, a)))
                                    }
                                },
                            }
                        }
                    } else {
                        match sp_scalar(s, vstart) {
                            Err(e) => Err(e),
                            Ok(p) => {
                                if p <= i || p > s.len() {
                                    Err(DecodeError::BadFrame)
                                } else {
                                    sp_outer_tail(s, p, data)
                                }
                            },
                        }
                    }
                }
            },
        }
    }
}

/// After a value in a Bitstamp frame: comma continues, the closing brace
/// requires the `data` book to have been seen.
pub open spec fn sp_outer_tail(
    s: Seq<u8>,
    p: int,
    data: Option<(Seq<(u64, u64)>, Seq<(u64, u64)>)>,
) -> Result<(int, Seq<(u64, u64)>, Seq<(u64, u64)>), DecodeError>
    decreases s.len() - p, 0int,
{
    if p < 0 || p >= s.len() {
        Err(DecodeError::BadFrame)
    } else if s[p] == COMMA {
        sp_outer_pairs(s, p + 1, data)
    } else if s[p] == RBRACE {
        match data {
            Some((b, a)) => Ok((p + 1, b, a)),
            None => Err(DecodeError::BadFrame),
        }
    } else {
        Err(DecodeError::BadFrame)
    }
}

/// The meaning of a whole Bitstamp frame: a brace-enclosed wrapper whose
/// `data` key holds the book object, and nothing after.
pub open spec fn sp_decode_bitstamp(s: Seq<u8>) -> Result<
    (Seq<(u64, u64)>, Seq<(u64, u64)>),
    DecodeError,
> {
    if s.len() == 0 || s[0] != LBRACE {
        Err(DecodeError::BadFrame)
    } else {
        match sp_outer_pairs(s, 1, None) {
            Err(e) => Err(e),
            Ok((p, b, a)) => {
                if p == s.len() {
                    Ok((b, a))
                } else {
                    Err(DecodeError::BadFrame)
                }
            },
        }
    }
}

/// The pairs of a Bitstamp control frame, capturing the `event` string.
pub open spec fn sp_event_pairs(s: Seq<u8>, i: int, ev: Option<Seq<u8>>) -> Result<
    (int, Option<Seq<u8>>),
    DecodeError,
>
    decreases s.len() - i, 1int,
{
    if i < 0 || i >= s.len() || s[i] != QUOTE {
        Err(DecodeError::BadFrame)
    } else {
        match sp_str_end(s, i + 1) {
            Err(e) => Err(e),
            Ok(q) => {
                if q + 1 >= s.len() || s[q + 1] != COLON {
                    Err(DecodeError::BadFrame)
                } else {
                    let key = s.subrange(i + 1, q);
                    let vstart = q + 2;
                    if key == key_event() {
                        if ev is Some {
                            Err(DecodeError::BadFrame)
                        } else if vstart >= s.len() || s[vstart] != QUOTE {
                            Err(DecodeError::BadFrame)
                        } else {
                            match sp_str_end(s, vstart + 1) {
                                Err(e) => Err(e),
                                Ok(q2) => {
                                    if q2 + 1 <= i || q2 + 1 > s.len() {
                                        Err(DecodeError::BadFrame)
                                    } else {
                                        sp_event_tail(s, q2 + 1, Some(s.subrange(vstart + 1, q2)))
                                    }
                                },
                            }
                        }
                    } else {
                        match sp_scalar(s, vstart) {
                            Err(e) => Err(e),
                            Ok(p) => {
                                if p <= i || p > s.len() {
                                    Err(DecodeError::BadFrame)
                                } else {
                                    sp_event_tail(s, p, ev)
                                }
                            },
                        }
                    }
                }
            },
        }
    }
}

/// After a value in a control frame: comma continues, the brace ends it.
pub open spec fn sp_event_tail(s: Seq<u8>, p: int, ev: Option<Seq<u8>>) -> Result<
    (int, Option<Seq<u8>>),
    DecodeError,
>
    decreases s.len() - p, 0int,
{
    if p < 0 || p >= s.len() {
        Err(DecodeError::BadFrame)
    } else if s[p] == COMMA {
        sp_event_pairs(s, p + 1, ev)
    } else if s[p] == RBRACE {
        Ok((p + 1, ev))
    } else {
        Err(DecodeError::BadFrame)
    }
}

/// The frame is a well-formed control object whose `event` string is the
/// subscription confirmation.
pub open spec fn sp_bitstamp_ack(s: Seq<u8>) -> bool {
    if s.len() == 0 || s[0] != LBRACE {
        false
    } else {
        match sp_event_pairs(s, 1, None) {
            Err(_) => false,
            Ok((p, ev)) => p == s.len() && ev == Some(ack_text()),
        }
    }
}

/// The scan from `i` finds no closing quote at all.
proof fn lemma_str_end_none(s: Seq<u8>, i: int)
    requires
        0 <= i,
        forall|x: int| i <= x < s.len() ==> s[x] != QUOTE,
    ensures
        sp_str_end(s, i) == Err::<int, DecodeError>(DecodeError::BadFrame),
    decreases s.len() - i,
{
    if i < s.len() {
        lemma_str_end_none(s, i + 1);
    }
}

/// A delimiter preceded only by other bytes is the token end found.
proof fn lemma_token_end_exact(s: Seq<u8>, i: int, q: int)
    requires
        0 <= i <= q < s.len(),
        forall|x: int| i <= x < q ==> s[x] != COMMA && s[x] != RBRACE,
        s[q] == COMMA || s[q] == RBRACE,
    ensures
        sp_token_end(s, i) == Ok::<int, DecodeError>(q),
    decreases q - i,
{
    if i < q {
        lemma_token_end_exact(s, i + 1, q);
    }
}

/// The scan from `i` finds no delimiter at all.
proof fn lemma_token_end_none(s: Seq<u8>, i: int)
    requires
        0 <= i,
        forall|x: int| i <= x < s.len() ==> s[x] != COMMA && s[x] != RBRACE,
    ensures
        sp_token_end(s, i) == Err::<int, DecodeError>(DecodeError::BadFrame),
    decreases s.len() - i,
{
    if i < s.len() {
        lemma_token_end_none(s, i + 1);
    }
}

/// Finds the closing quote of the string content that starts at `i`.
#[verifier::loop_isolation(false)]
fn scan_str_end(s: &Vec<u8>, i: usize) -> (r: Result<usize, DecodeError>)
    requires
        i <= s@.len(),
    ensures
        match r {
            Ok(q) => sp_str_end(s@, i as int) == Ok::<int, DecodeError>(q as int) && i <= q
                < s@.len(),
            Err(e) => sp_str_end(s@, i as int) == Err::<int, DecodeError>(e),
        },
{
    let n = s.len();
    let mut j: usize = i;
    while j < n && s[j] != QUOTE
        invariant
            i <= j <= n,
            forall|x: int| i <= x < j ==> s@[x] != QUOTE,
        decreases n - j,
    {
        j = j + 1;
    }
    if j < n {
        proof {
            lemma_str_end_exact(s@, i as int, j as int);
        }
        Ok(j)
    } else {
        proof {
            lemma_str_end_none(s@, i as int);
        }
        Err(DecodeError::BadFrame)
    }
}

/// Finds the delimiter that ends a bare token starting at `i`.
#[verifier::loop_isolation(false)]
fn scan_token_end(s: &Vec<u8>, i: usize) -> (r: Result<usize, DecodeError>)
    requires
        i <= s@.len(),
    ensures
        match r {
            Ok(q) => sp_token_end(s@, i as int) == Ok::<int, DecodeError>(q as int) && i <= q
                < s@.len(),
            Err(e) => sp_token_end(s@, i as int) == Err::<int, DecodeError>(e),
        },
{
    let n = s.len();
    let mut j: usize = i;
    while j < n && s[j] != COMMA && s[j] != RBRACE
        invariant
            i <= j <= n,
            forall|x: int| i <= x < j ==> s@[x] != COMMA && s@[x] != RBRACE,
        decreases n - j,
    {
        j = j + 1;
    }
    if j < n {
        proof {
            lemma_token_end_exact(s@, i as int, j as int);
        }
        Ok(j)
    } else {
        proof {
            lemma_token_end_none(s@, i as int);
        }
        Err(DecodeError::BadFrame)
    }
}

/// Skips a scalar value starting at `i`.
fn skip_scalar(s: &Vec<u8>, i: usize) -> (r: Result<usize, DecodeError>)
    requires
        i <= s@.len(),
    ensures
        match r {
            Ok(p) => sp_scalar(s@, i as int) == Ok::<int, DecodeError>(p as int) && i < p
                <= s@.len(),
            Err(e) => sp_scalar(s@, i as int) == Err::<int, DecodeError>(e),
        },
{
    let n = s.len();
    if i >= n {
        return Err(DecodeError::BadFrame);
    }
    if s[i] == QUOTE {
        match scan_str_end(s, i + 1) {
            Err(e) => Err(e),
            Ok(q) => Ok(q + 1),
        }
    } else if s[i] == LBRACE {
        if i + 1 < n && s[i + 1] == RBRACE {
            Ok(i + 2)
        } else {
            Err(DecodeError::BadFrame)
        }
    } else if s[i] == COMMA || s[i] == RBRACE {
        Err(DecodeError::BadFrame)
    } else {
        scan_token_end(s, i + 1)
    }
}

/// Compares the region `s[lo..hi)` with a whole pattern.
#[verifier::loop_isolation(false)]
fn region_eq(s: &Vec<u8>, lo: usize, hi: usize, pat: &Vec<u8>) -> (r: bool)
    requires
        lo <= hi <= s@.len(),
    ensures
        r == (s@.subrange(lo as int, hi as int) == pat@),
{
    let ghost reg = s@.subrange(lo as int, hi as int);
    if hi - lo != pat.len() {
        proof {
            assert(reg.len() == hi - lo);
        }
        return false;
    }
    let m = pat.len();
    let mut k: usize = 0;
    while k < m
        invariant
            0 <= k <= m,
            forall|x: int| 0 <= x < k ==> reg[x] == pat@[x],
        decreases m - k,
    {
        if s[lo + k] != pat[k] {
            proof {
                assert(reg[k as int] == s@[lo + k]);
            }
            return false;
        }
        k = k + 1;
    }
    proof {
        assert(reg =~= pat@);
    }
    true
}

/// The object key naming the bid rows, as bytes.
fn key_bids_vec() -> (v: Vec<u8>)
    ensures
        v@ == key_bids(),
{
    let v: Vec<u8> = vec![98u8, 105u8, 100u8, 115u8];
    proof {
        assert(v@ =~= key_bids());
    }
    v
}

/// The object key naming the ask rows, as bytes.
fn key_asks_vec() -> (v: Vec<u8>)
    ensures
        v@ == key_asks(),
{
    let v: Vec<u8> = vec![97u8, 115u8, 107u8, 115u8];
    proof {
        assert(v@ =~= key_asks());
    }
    v
}

/// The wrapper key of a Bitstamp frame, as bytes.
fn key_data_vec() -> (v: Vec<u8>)
    ensures
        v@ == key_data(),
{
    let v: Vec<u8> = vec![100u8, 97u8, 116u8, 97u8];
    proof {
        assert(v@ =~= key_data());
    }
    v
}

/// The event key of a Bitstamp control frame, as bytes.
fn key_event_vec() -> (v: Vec<u8>)
    ensures
        v@ == key_event(),
{
    let v: Vec<u8> = vec![101u8, 118u8, 101u8, 110u8, 116u8];
    proof {
        assert(v@ =~= key_event());
    }
    v
}

/// The subscription confirmation event name, as bytes.
fn ack_text_vec() -> (v: Vec<u8>)
    ensures
        v@ == ack_text(),
{
    let v: Vec<u8> = vec![
        98u8, 116u8, 115u8, 58u8, 115u8, 117u8, 98u8, 115u8, 99u8, 114u8, 105u8, 112u8, 116u8,
        105u8, 111u8, 110u8, 95u8, 115u8, 117u8, 99u8, 99u8, 101u8, 101u8, 100u8, 101u8, 100u8,
    ];
    proof {
        assert(v@ =~= ack_text());
    }
    v
}

/// Parses one `["price","amount"]` row starting at `i`.
fn parse_level(s: &Vec<u8>, i: usize) -> (r: Result<(usize, (u64, u64)), DecodeError>)
    requires
        i <= s@.len(),
    ensures
        match r {
            Ok((p, row)) => sp_level(s@, i as int) == Ok::<(int, (u64, u64)), DecodeError>(
                (p as int, row),
            ) && i < p <= s@.len(),
            Err(e) => sp_level(s@, i as int) == Err::<(int, (u64, u64)), DecodeError>(e),
        },
{
    let n = s.len();
    if i >= n || i + 1 >= n || s[i] != LBRACK || s[i + 1] != QUOTE {
        return Err(DecodeError::BadFrame);
    }
    let q1 = match scan_str_end(s, i + 2) {
        Err(e) => {
            return Err(e);
        },
        Ok(q1) => q1,
    };
    let p = match parse_number(s, i + 2, q1) {
        Err(e) => {
            return Err(e);
        },
        Ok(p) => p,
    };
    if n < 3 || q1 > n - 3 || s[q1 + 1] != COMMA || s[q1 + 2] != QUOTE {
        return Err(DecodeError::BadFrame);
    }
    let q2 = match scan_str_end(s, q1 + 3) {
        Err(e) => {
            return Err(e);
        },
        Ok(q2) => q2,
    };
    let a = match parse_number(s, q1 + 3, q2) {
        Err(e) => {
            return Err(e);
        },
        Ok(a) => a,
    };
    if n < 2 || q2 > n - 2 || s[q2 + 1] != RBRACK {
        return Err(DecodeError::BadFrame);
    }
    Ok((q2 + 2, (p, a)))
}

/// Parses the comma-separated rows from `i` to the closing bracket.
fn parse_levels_rest(s: &Vec<u8>, i: usize) -> (r: Result<(usize, Vec<(u64, u64)>), DecodeError>)
    requires
        i <= s@.len(),
    ensures
        match r {
            Ok((p, rows)) => sp_levels_rest(s@, i as int) == Ok::<
                (int, Seq<(u64, u64)>),
                DecodeError,
            >((p as int, rows@)) && i < p <= s@.len(),
            Err(e) => sp_levels_rest(s@, i as int) == Err::<(int, Seq<(u64, u64)>), DecodeError>(e),
        },
    decreases s@.len() - i,
{
    let n = s.len();
    match parse_level(s, i) {
        Err(e) => Err(e),
        Ok((p, row)) => {
            if p <= i || p >= n {
                Err(DecodeError::BadFrame)
            } else if s[p] == COMMA {
                match parse_levels_rest(s, p + 1) {
                    Err(e) => Err(e),
                    Ok((p2, rows)) => {
                        let ghost rg = rows@;
                        let mut out = rows;
                        out.insert(0, row);
                        proof {
                            assert(out@ =~= seq![row] + rg);
                        }
                        Ok((p2, out))
                    },
                }
            } else if s[p] == RBRACK {
                let mut out: Vec<(u64, u64)> = Vec::new();
                out.push(row);
                proof {
                    assert(out@ =~= seq![row]);
                }
                Ok((p + 1, out))
            } else {
                Err(DecodeError::BadFrame)
            }
        },
    }
}

/// Parses a bracketed array of rows starting at `i`.
fn parse_levels(s: &Vec<u8>, i: usize) -> (r: Result<(usize, Vec<(u64, u64)>), DecodeError>)
    requires
        i <= s@.len(),
    ensures
        match r {
            Ok((p, rows)) => sp_levels(s@, i as int) == Ok::<(int, Seq<(u64, u64)>), DecodeError>(
                (p as int, rows@),
            ) && i < p <= s@.len(),
            Err(e) => sp_levels(s@, i as int) == Err::<(int, Seq<(u64, u64)>), DecodeError>(e),
        },
{
    let n = s.len();
    if i >= n || s[i] != LBRACK {
        return Err(DecodeError::BadFrame);
    }
    if i + 1 < n && s[i + 1] == RBRACK {
        let out: Vec<(u64, u64)> = Vec::new();
        proof {
            assert(out@ =~= Seq::<(u64, u64)>::empty());
        }
        return Ok((i + 2, out));
    }
    parse_levels_rest(s, i + 1)
}

/// The rows seen so far, as the spec sees them.
pub open spec fn opt_rows_view(o: Option<Vec<(u64, u64)>>) -> Option<Seq<(u64, u64)>> {
    match o {
        Some(v) => Some(v@),
        None => None,
    }
}

/// Parses the pairs of a book object from `i` on.
fn parse_book_pairs(
    s: &Vec<u8>,
    i: usize,
    bids: Option<Vec<(u64, u64)>>,
    asks: Option<Vec<(u64, u64)>>,
) -> (r: Result<(usize, Vec<(u64, u64)>, Vec<(u64, u64)>), DecodeError>)
    requires
        i <= s@.len(),
    ensures
        match r {
            Ok((p, b, a)) => sp_book_pairs(s@, i as int, opt_rows_view(bids), opt_rows_view(asks))
                == Ok::<(int, Seq<(u64, u64)>, Seq<(u64, u64)>), DecodeError>(
                (p as int, b@, a@),
            ) && p <= s@.len(),
            Err(e) => sp_book_pairs(s@, i as int, opt_rows_view(bids), opt_rows_view(asks))
                == Err::<(int, Seq<(u64, u64)>, Seq<(u64, u64)>), DecodeError>(e),
        },
    decreases s@.len() - i, 1int,
{
    let n = s.len();
    if i >= n || s[i] != QUOTE {
        return Err(DecodeError::BadFrame);
    }
    let q = match scan_str_end(s, i + 1) {
        Err(e) => {
            return Err(e);
        },
        Ok(q) => q,
    };
    if q + 1 >= n || s[q + 1] != COLON {
        return Err(DecodeError::BadFrame);
    }
    let vstart = q + 2;
    let kb = key_bids_vec();
    let ka = key_asks_vec();
    if region_eq(s, i + 1, q, &kb) {
        if bids.is_some() {
            return Err(DecodeError::BadFrame);
        }
        match parse_levels(s, vstart) {
            Err(e) => Err(e),
            Ok((p, rows)) => {
                if p <= i || p > n {
                    Err(DecodeError::BadFrame)
                } else {
                    parse_book_tail(s, p, Some(rows), asks)
                }
            },
        }
    } else if region_eq(s, i + 1, q, &ka) {
        if asks.is_some() {
            return Err(DecodeError::BadFrame);
        }
        match parse_levels(s, vstart) {
            Err(e) => Err(e),
            Ok((p, rows)) => {
                if p <= i || p > n {
                    Err(DecodeError::BadFrame)
                } else {
                    parse_book_tail(s, p, bids, Some(rows))
                }
            },
        }
    } else {
        match skip_scalar(s, vstart) {
            Err(e) => Err(e),
            Ok(p) => {
                if p <= i || p > n {
                    Err(DecodeError::BadFrame)
                } else {
                    parse_book_tail(s, p, bids, asks)
                }
            },
        }
    }
}

/// Continues a book object after a pair's value.
fn parse_book_tail(
    s: &Vec<u8>,
    p: usize,
    bids: Option<Vec<(u64, u64)>>,
    asks: Option<Vec<(u64, u64)>>,
) -> (r: Result<(usize, Vec<(u64, u64)>, Vec<(u64, u64)>), DecodeError>)
    requires
        p <= s@.len(),
    ensures
        match r {
            Ok((p2, b, a)) => sp_book_tail(s@, p as int, opt_rows_view(bids), opt_rows_view(asks))
                == Ok::<(int, Seq<(u64, u64)>, Seq<(u64, u64)>), DecodeError>(
                (p2 as int, b@, a@),
            ) && p2 <= s@.len(),
            Err(e) => sp_book_tail(s@, p as int, opt_rows_view(bids), opt_rows_view(asks)) == Err::<
                (int, Seq<(u64, u64)>, Seq<(u64, u64)>),
                DecodeError,
            >(e),
        },
    decreases s@.len() - p, 0int,
{
    let n = s.len();
    if p >= n {
        return Err(DecodeError::BadFrame);
    }
    if s[p] == COMMA {
        parse_book_pairs(s, p + 1, bids, asks)
    } else if s[p] == RBRACE {
        match (bids, asks) {
            (Some(b), Some(a)) => Ok((p + 1, b, a)),
            _ => Err(DecodeError::BadFrame),
        }
    } else {
        Err(DecodeError::BadFrame)
    }
}

/// Decodes a complete Binance frame into its bid and ask rows.
pub fn decode_binance(raw: &Vec<u8>) -> (r: Result<FeedSnapshot, DecodeError>)
    ensures
        match r {
            Ok(snap) => sp_decode_binance(raw@) == Ok::<
                (Seq<(u64, u64)>, Seq<(u64, u64)>),
                DecodeError,
            >((snap.bids@, snap.asks@)),
            Err(e) => sp_decode_binance(raw@) == Err::<
                (Seq<(u64, u64)>, Seq<(u64, u64)>),
                DecodeError,
            >(e),
        },
{
    if raw.len() == 0 || raw[0] != LBRACE {
        return Err(DecodeError::BadFrame);
    }
    match parse_book_pairs(raw, 1, None, None) {
        Err(e) => Err(e),
        Ok((p, b, a)) => {
            if p == raw.len() {
                Ok(FeedSnapshot { bids: b, asks: a })
            } else {
                Err(DecodeError::BadFrame)
            }
        },
    }
}

/// The book already seen under the `data` key, as the spec sees it.
pub open spec fn opt_book_view(o: Option<(Vec<(u64, u64)>, Vec<(u64, u64)>)>) -> Option<
    (Seq<(u64, u64)>, Seq<(u64, u64)>),
> {
    match o {
        Some(ba) => Some((ba.0@, ba.1@)),
        None => None,
    }
}

/// Parses the pairs of a Bitstamp frame from `i` on.
fn parse_outer_pairs(
    s: &Vec<u8>,
    i: usize,
    data: Option<(Vec<(u64, u64)>, Vec<(u64, u64)>)>,
) -> (r: Result<(usize, Vec<(u64, u64)>, Vec<(u64, u64)>), DecodeError>)
    requires
        i <= s@.len(),
    ensures
        match r {
            Ok((p, b, a)) => sp_outer_pairs(s@, i as int, opt_book_view(data)) == Ok::<
                (int, Seq<(u64, u64)>, Seq<(u64, u64)>),
                DecodeError,
            >((p as int, b@, a@)) && p <= s@.len(),
            Err(e) => sp_outer_pairs(s@, i as int, opt_book_view(data)) == Err::<
                (int, Seq<(u64, u64)>, Seq<(u64, u64)>),
                DecodeError,
            >(e),
        },
    decreases s@.len() - i, 1int,
{
    let n = s.len();
    if i >= n || s[i] != QUOTE {
        return Err(DecodeError::BadFrame);
    }
    let q = match scan_str_end(s, i + 1) {
        Err(e) => {
            return Err(e);
        },
        Ok(q) => q,
    };
    if q + 1 >= n || s[q + 1] != COLON {
        return Err(DecodeError::BadFrame);
    }
    let vstart = q + 2;
    let kd = key_data_vec();
    if region_eq(s, i + 1, q, &kd) {
        if data.is_some() {
            return Err(DecodeError::BadFrame);
        }
        if vstart >= n || s[vstart] != LBRACE {
            return Err(DecodeError::BadFrame);
        }
        match parse_book_pairs(s, vstart + 1, None, None) {
            Err(e) => Err(e),
            Ok((p, b, a)) => {
                if p <= i || p > n {
                    Err(DecodeError::BadFrame)
                } else {
                    parse_outer_tail(s, p, Some((b, a)))
                }
            },
        }
    } else {
        match skip_scalar(s, vstart) {
            Err(e) => Err(e),
            Ok(p) => {
                if p <= i || p > n {
                    Err(DecodeError::BadFrame)
                } else {
                    parse_outer_tail(s, p, data)
                }
            },
        }
    }
}

/// Continues a Bitstamp frame after a pair's value.
fn parse_outer_tail(
    s: &Vec<u8>,
    p: usize,
    data: Option<(Vec<(u64, u64)>, Vec<(u64, u64)>)>,
) -> (r: Result<(usize, Vec<(u64, u64)>, Vec<(u64, u64)>), DecodeError>)
    requires
        p <= s@.len(),
    ensures
        match r {
            Ok((p2, b, a)) => sp_outer_tail(s@, p as int, opt_book_view(data)) == Ok::<
                (int, Seq<(u64, u64)>, Seq<(u64, u64)>),
                DecodeError,
            >((p2 as int, b@, a@)) && p2 <= s@.len(),
            Err(e) => sp_outer_tail(s@, p as int, opt_book_view(data)) == Err::<
                (int, Seq<(u64, u64)>, Seq<(u64, u64)>),
                DecodeError,
            >(e),
        },
    decreases s@.len() - p, 0int,
{
    let n = s.len();
    if p >= n {
        return Err(DecodeError::BadFrame);
    }
    if s[p] == COMMA {
        parse_outer_pairs(s, p + 1, data)
    } else if s[p] == RBRACE {
        match data {
            Some((b, a)) => Ok((p + 1, b, a)),
            None => Err(DecodeError::BadFrame),
        }
    } else {
        Err(DecodeError::BadFrame)
    }
}

/// Decodes a complete Bitstamp frame into its bid and ask rows.
pub fn decode_bitstamp(raw: &Vec<u8>) -> (r: Result<FeedSnapshot, DecodeError>)
    ensures
        match r {
            Ok(snap) => sp_decode_bitstamp(raw@) == Ok::<
                (Seq<(u64, u64)>, Seq<(u64, u64)>),
                DecodeError,
            >((snap.bids@, snap.asks@)),
            Err(e) => sp_decode_bitstamp(raw@) == Err::<
                (Seq<(u64, u64)>, Seq<(u64, u64)>),
                DecodeError,
            >(e),
        },
{
    if raw.len() == 0 || raw[0] != LBRACE {
        return Err(DecodeError::BadFrame);
    }
    match parse_outer_pairs(raw, 1, None) {
        Err(e) => Err(e),
        Ok((p, b, a)) => {
            if p == raw.len() {
                Ok(FeedSnapshot { bids: b, asks: a })
            } else {
                Err(DecodeError::BadFrame)
            }
        },
    }
}

/// The event string seen so far, as the spec sees it.
pub open spec fn opt_ev_view(o: Option<Vec<u8>>) -> Option<Seq<u8>> {
    match o {
        Some(v) => Some(v@),
        None => None,
    }
}

/// Parses the pairs of a control frame, capturing the event string.
fn parse_event_pairs(s: &Vec<u8>, i: usize, ev: Option<Vec<u8>>) -> (r: Result<
    (usize, Option<Vec<u8>>),
    DecodeError,
>)
    requires
        i <= s@.len(),
    ensures
        match r {
            Ok((p, e2)) => sp_event_pairs(s@, i as int, opt_ev_view(ev)) == Ok::<
                (int, Option<Seq<u8>>),
                DecodeError,
            >((p as int, opt_ev_view(e2))) && p <= s@.len(),
            Err(e) => sp_event_pairs(s@, i as int, opt_ev_view(ev)) == Err::<
                (int, Option<Seq<u8>>),
                DecodeError,
            >(e),
        },
    decreases s@.len() - i, 1int,
{
    let n = s.len();
    if i >= n || s[i] != QUOTE {
        return Err(DecodeError::BadFrame);
    }
    let q = match scan_str_end(s, i + 1) {
        Err(e) => {
            return Err(e);
        },
        Ok(q) => q,
    };
    if q + 1 >= n || s[q + 1] != COLON {
        return Err(DecodeError::BadFrame);
    }
    let vstart = q + 2;
    let ke = key_event_vec();
    if region_eq(s, i + 1, q, &ke) {
        if ev.is_some() {
            return Err(DecodeError::BadFrame);
        }
        if vstart >= n || s[vstart] != QUOTE {
            return Err(DecodeError::BadFrame);
        }
        let q2 = match scan_str_end(s, vstart + 1) {
            Err(e) => {
                return Err(e);
            },
            Ok(q2) => q2,
        };
        let mut content: Vec<u8> = Vec::new();
        let mut x: usize = vstart + 1;
        while x < q2
            invariant
                vstart + 1 <= x <= q2 < s@.len(),
                content@ =~= s@.subrange(vstart as int + 1, x as int),
            decreases q2 - x,
        {
            content.push(s[x]);
            proof {
                assert(content@ =~= s@.subrange(vstart as int + 1, x as int + 1));
            }
            x = x + 1;
        }
        proof {
            assert(content@ =~= s@.subrange(vstart as int + 1, q2 as int));
        }
        parse_event_tail(s, q2 + 1, Some(content))
    } else {
        match skip_scalar(s, vstart) {
            Err(e) => Err(e),
            Ok(p) => {
                if p <= i || p > n {
                    Err(DecodeError::BadFrame)
                } else {
                    parse_event_tail(s, p, ev)
                }
            },
        }
    }
}

/// Continues a control frame after a pair's value.
fn parse_event_tail(s: &Vec<u8>, p: usize, ev: Option<Vec<u8>>) -> (r: Result<
    (usize, Option<Vec<u8>>),
    DecodeError,
>)
    requires
        p <= s@.len(),
    ensures
        match r {
            Ok((p2, e2)) => sp_event_tail(s@, p as int, opt_ev_view(ev)) == Ok::<
                (int, Option<Seq<u8>>),
                DecodeError,
            >((p2 as int, opt_ev_view(e2))) && p2 <= s@.len(),
            Err(e) => sp_event_tail(s@, p as int, opt_ev_view(ev)) == Err::<
                (int, Option<Seq<u8>>),
                DecodeError,
            >(e),
        },
    decreases s@.len() - p, 0int,
{
    let n = s.len();
    if p >= n {
        return Err(DecodeError::BadFrame);
    }
    if s[p] == COMMA {
        parse_event_pairs(s, p + 1, ev)
    } else if s[p] == RBRACE {
        Ok((p + 1, ev))
    } else {
        Err(DecodeError::BadFrame)
    }
}

/// True exactly when the frame is the Bitstamp subscription confirmation.
#[verifier::loop_isolation(false)]
pub fn bitstamp_ack_ok(raw: &Vec<u8>) -> (r: bool)
    ensures
        r == sp_bitstamp_ack(raw@),
{
    if raw.len() == 0 || raw[0] != LBRACE {
        return false;
    }
    match parse_event_pairs(raw, 1, None) {
        Err(_) => false,
        Ok((p, ev)) => {
            if p != raw.len() {
                false
            } else {
                match ev {
                    None => false,
                    Some(content) => {
                        let want = ack_text_vec();
                        let m = content.len();
                        if m != want.len() {
                            proof {
                                assert(content@ != ack_text());
                            }
                            return false;
                        }
                        let mut k: usize = 0;
                        while k < m
                            invariant
                                0 <= k <= m,
                                m == content@.len() == want@.len(),
                                want@ == ack_text(),
                                forall|x: int| 0 <= x < k ==> content@[x] == want@[x],
                            decreases m - k,
                        {
                            if content[k] != want[k] {
                                proof {
                                    assert(content@[k as int] != ack_text()[k as int]);
                                }
                                return false;
                            }
                            k = k + 1;
                        }
                        proof {
                            assert(content@ =~= ack_text());
                        }
                        true
                    },
                }
            }
        },
    }
}

/// The bytes of one `["price","amount"]` row.
pub open spec fn sp_row_bytes(row: (u64, u64)) -> Seq<u8> {
    seq![LBRACK, QUOTE] + sp_amount(row.0 as int) + seq![QUOTE, COMMA, QUOTE] + sp_amount(
        row.1 as int,
    ) + seq![QUOTE, RBRACK]
}

/// The comma-separated bytes of the rows from `k` on.
pub open spec fn sp_rows_from(rows: Seq<(u64, u64)>, k: int) -> Seq<u8>
    decreases rows.len() - k,
{
    if k < 0 || k >= rows.len() {
        Seq::empty()
    } else if k == rows.len() - 1 {
        sp_row_bytes(rows[k])
    } else {
        sp_row_bytes(rows[k]) + seq![COMMA] + sp_rows_from(rows, k + 1)
    }
}

/// The bytes of a whole bracketed row array.
pub open spec fn sp_levels_bytes(rows: Seq<(u64, u64)>) -> Seq<u8> {
    seq![LBRACK] + sp_rows_from(rows, 0) + seq![RBRACK]
}

/// The canonical Binance frame of a snapshot.
#[verifier::opaque]
pub open spec fn sp_binance_frame(bids: Seq<(u64, u64)>, asks: Seq<(u64, u64)>) -> Seq<u8> {
    seq![LBRACE, QUOTE] + key_bids() + seq![QUOTE, COLON] + sp_levels_bytes(bids) + seq![
        COMMA,
        QUOTE,
    ] + key_asks() + seq![QUOTE, COLON] + sp_levels_bytes(asks) + seq![RBRACE]
}

/// The canonical Bitstamp frame of a snapshot: the book under `data`.
#[verifier::opaque]
pub open spec fn sp_bitstamp_frame(bids: Seq<(u64, u64)>, asks: Seq<(u64, u64)>) -> Seq<u8> {
    seq![LBRACE, QUOTE] + key_data() + seq![QUOTE, COLON] + sp_binance_frame(bids, asks) + seq![
        RBRACE,
    ]
}

/// Appends the bytes of one row.
fn push_row(out: &mut Vec<u8>, row: (u64, u64))
    ensures
        final(out)@ == old(out)@ + sp_row_bytes(row),
{
    out.push(LBRACK);
    out.push(QUOTE);
    push_amount(out, row.0);
    out.push(QUOTE);
    out.push(COMMA);
    out.push(QUOTE);
    push_amount(out, row.1);
    out.push(QUOTE);
    out.push(RBRACK);
    proof {
        assert(out@ =~= old(out)@ + sp_row_bytes(row));
    }
}

/// Appends the comma-separated bytes of the rows from `k` on.
fn push_rows(out: &mut Vec<u8>, rows: &Vec<(u64, u64)>, k: usize)
    requires
        k <= rows@.len(),
    ensures
        final(out)@ == old(out)@ + sp_rows_from(rows@, k as int),
    decreases rows@.len() - k,
{
    if k < rows.len() {
        push_row(out, rows[k]);
        if k + 1 < rows.len() {
            out.push(COMMA);
            push_rows(out, rows, k + 1);
        }
    }
    proof {
        assert(out@ =~= old(out)@ + sp_rows_from(rows@, k as int));
    }
}

/// Appends a whole bracketed row array.
fn push_levels(out: &mut Vec<u8>, rows: &Vec<(u64, u64)>)
    ensures
        final(out)@ == old(out)@ + sp_levels_bytes(rows@),
{
    out.push(LBRACK);
    push_rows(out, rows, 0);
    out.push(RBRACK);
    proof {
        assert(out@ =~= old(out)@ + sp_levels_bytes(rows@));
    }
}

/// Encodes a snapshot as the canonical Binance frame.
pub fn encode_binance(snapshot: &FeedSnapshot) -> (out: Vec<u8>)
    ensures
        out@ == sp_binance_frame(snapshot.bids@, snapshot.asks@),
{
    let mut out: Vec<u8> = Vec::new();
    out.push(LBRACE);
    out.push(QUOTE);
    let kb = key_bids_vec();
    let mut ki: usize = 0;
    while ki < kb.len()
        invariant
            0 <= ki <= kb@.len(),
            kb@ == key_bids(),
            out@ =~= seq![LBRACE, QUOTE] + kb@.subrange(0, ki as int),
        decreases kb@.len() - ki,
    {
        out.push(kb[ki]);
        proof {
            assert(out@ =~= seq![LBRACE, QUOTE] + kb@.subrange(0, ki as int + 1));
        }
        ki = ki + 1;
    }
    out.push(QUOTE);
    out.push(COLON);
    proof {
        assert(out@ =~= seq![LBRACE, QUOTE] + key_bids() + seq![QUOTE, COLON]);
    }
    push_levels(&mut out, &snapshot.bids);
    out.push(COMMA);
    out.push(QUOTE);
    let ka = key_asks_vec();
    let ghost mid = out@;
    let mut kj: usize = 0;
    while kj < ka.len()
        invariant
            0 <= kj <= ka@.len(),
            ka@ == key_asks(),
            out@ =~= mid + ka@.subrange(0, kj as int),
        decreases ka@.len() - kj,
    {
        out.push(ka[kj]);
        proof {
            assert(out@ =~= mid + ka@.subrange(0, kj as int + 1));
        }
        kj = kj + 1;
    }
    out.push(QUOTE);
    out.push(COLON);
    push_levels(&mut out, &snapshot.asks);
    out.push(RBRACE);
    proof {
        reveal(sp_binance_frame);
        assert(mid =~= seq![LBRACE, QUOTE] + key_bids() + seq![QUOTE, COLON] + sp_levels_bytes(
            snapshot.bids@,
        ) + seq![COMMA, QUOTE]);
        assert(out@ =~= sp_binance_frame(snapshot.bids@, snapshot.asks@));
    }
    out
}

/// Encodes a snapshot as the canonical Bitstamp frame.
pub fn encode_bitstamp(snapshot: &FeedSnapshot) -> (out: Vec<u8>)
    ensures
        out@ == sp_bitstamp_frame(snapshot.bids@, snapshot.asks@),
{
    let mut out: Vec<u8> = Vec::new();
    out.push(LBRACE);
    out.push(QUOTE);
    let kd = key_data_vec();
    let mut ki: usize = 0;
    while ki < kd.len()
        invariant
            0 <= ki <= kd@.len(),
            kd@ == key_data(),
            out@ =~= seq![LBRACE, QUOTE] + kd@.subrange(0, ki as int),
        decreases kd@.len() - ki,
    {
        out.push(kd[ki]);
        proof {
            assert(out@ =~= seq![LBRACE, QUOTE] + kd@.subrange(0, ki as int + 1));
        }
        ki = ki + 1;
    }
    out.push(QUOTE);
    out.push(COLON);
    let ghost mid = out@;
    let inner = encode_binance(snapshot);
    let mut x: usize = 0;
    while x < inner.len()
        invariant
            0 <= x <= inner@.len(),
            inner@ == sp_binance_frame(snapshot.bids@, snapshot.asks@),
            out@ =~= mid + inner@.subrange(0, x as int),
        decreases inner@.len() - x,
    {
        out.push(inner[x]);
        proof {
            assert(out@ =~= mid + inner@.subrange(0, x as int + 1));
        }
        x = x + 1;
    }
    out.push(RBRACE);
    proof {
        reveal(sp_bitstamp_frame);
        assert(mid =~= seq![LBRACE, QUOTE] + key_data() + seq![QUOTE, COLON]);
        assert(inner@.subrange(0, inner@.len() as int) =~= inner@);
        assert(out@ =~= sp_bitstamp_frame(snapshot.bids@, snapshot.asks@));
    }
    out
}

/// Every byte of a printed amount is a digit or the dot, and the string
/// is at least ten bytes: the integer run, the dot, eight fraction digits.
proof fn lemma_amount_chars(v: u64)
    ensures
        sp_amount(v as int).len() >= 10,
        sp_digits(v as int / (SCALE as int)).len() >= 1,
        forall|x: int|
            0 <= x < sp_amount(v as int).len() ==> (is_digit(#[trigger] sp_amount(v as int)[x])
                || sp_amount(v as int)[x] == DOT),
{
    let units = v as int / (SCALE as int);
    let frac = v as int % (SCALE as int);
    assert(pow10(8) == 100_000_000) by {
        reveal_with_fuel(pow10, 9);
    }
    lemma_sp_digits_val(units);
    lemma_sp_fixed_val(frac, 8);
    let a = sp_digits(units);
    let b = sp_fixed(frac, 8);
    let la = a.len() as int;
    assert forall|x: int| 0 <= x < sp_amount(v as int).len() implies (is_digit(
        #[trigger] sp_amount(v as int)[x],
    ) || sp_amount(v as int)[x] == DOT) by {
        if x < la {
            assert(sp_amount(v as int)[x] == a[x]);
        } else if x == la {
            assert(sp_amount(v as int)[x] == DOT);
        } else {
            assert(sp_amount(v as int)[x] == b[x - la - 1]);
        }
    }
}

/// A region holding the printed bytes of a row parses back as that row.
proof fn lemma_row_roundtrip(s: Seq<u8>, i: int, row: (u64, u64))
    requires
        0 <= i,
        i + sp_row_bytes(row).len() <= s.len(),
        s.subrange(i, i + sp_row_bytes(row).len()) == sp_row_bytes(row),
    ensures
        sp_level(s, i) == Ok::<(int, (u64, u64)), DecodeError>((i + sp_row_bytes(row).len(), row)),
        sp_row_bytes(row).len() >= 9,
{
    let b = sp_row_bytes(row);
    let pa = sp_amount(row.0 as int);
    let aa = sp_amount(row.1 as int);
    let la = pa.len() as int;
    let lb = aa.len() as int;
    lemma_amount_chars(row.0);
    lemma_amount_chars(row.1);
    assert(b.len() == la + lb + 7);
    assert forall|x: int| 0 <= x < b.len() implies s[i + x] == b[x] by {
        assert(s.subrange(i, i + b.len() as int)[x] == s[i + x]);
    }
    assert(b[0] == LBRACK);
    assert(b[1] == QUOTE);
    assert forall|x: int| 0 <= x < la implies b[2 + x] == pa[x] by {}
    assert(b[2 + la] == QUOTE);
    assert(b[3 + la] == COMMA);
    assert(b[4 + la] == QUOTE);
    assert forall|x: int| 0 <= x < lb implies b[5 + la + x] == aa[x] by {}
    assert(b[5 + la + lb] == QUOTE);
    assert(b[6 + la + lb] == RBRACK);
    assert(s[i] == LBRACK);
    assert(s[i + 1] == QUOTE);
    assert forall|x: int| i + 2 <= x < i + 2 + la implies s[x] != QUOTE by {
        assert(s[x] == b[x - i]);
        assert(b[x - i] == pa[x - i - 2]);
    }
    assert(s[i + 2 + la] == QUOTE);
    lemma_str_end_exact(s, i + 2, i + 2 + la);
    let q1 = i + 2 + la;
    assert(s.subrange(i + 2, i + 2 + la) =~= pa) by {
        assert forall|x: int| 0 <= x < la implies s.subrange(i + 2, i + 2 + la)[x] == pa[x] by {
            assert(s.subrange(i + 2, i + 2 + la)[x] == s[i + 2 + x]);
            assert(s[i + 2 + x] == b[2 + x]);
        }
    }
    assert(!is_digit(s[q1]));
    lemma_number_roundtrip(s, i + 2, row.0);
    assert(sp_number(s, i + 2, q1) == Ok::<u64, DecodeError>(row.0));
    assert(q1 + 3 <= s.len());
    assert(s[q1 + 1] == COMMA);
    assert(s[q1 + 2] == QUOTE);
    assert forall|x: int| q1 + 3 <= x < q1 + 3 + lb implies s[x] != QUOTE by {
        assert(s[x] == b[x - i]);
        assert(b[x - i] == aa[x - i - la - 5]);
    }
    assert(s[q1 + 3 + lb] == QUOTE);
    lemma_str_end_exact(s, q1 + 3, q1 + 3 + lb);
    let q2 = q1 + 3 + lb;
    assert(s.subrange(q1 + 3, q2) =~= aa) by {
        assert forall|x: int| 0 <= x < lb implies s.subrange(q1 + 3, q2)[x] == aa[x] by {
            assert(s.subrange(q1 + 3, q2)[x] == s[q1 + 3 + x]);
            assert(s[q1 + 3 + x] == b[5 + la + x]);
        }
    }
    assert(!is_digit(s[q2]));
    lemma_number_roundtrip(s, q1 + 3, row.1);
    assert(sp_number(s, q1 + 3, q2) == Ok::<u64, DecodeError>(row.1));
    assert(q2 + 2 <= s.len());
    assert(s[q2 + 1] == RBRACK);
}

/// A region holding the printed rows from `k` on, ended by the closing
/// bracket, parses back as exactly those rows.
proof fn lemma_rows_roundtrip(s: Seq<u8>, i: int, rows: Seq<(u64, u64)>, k: int)
    requires
        0 <= i,
        0 <= k < rows.len(),
        i + sp_rows_from(rows, k).len() < s.len(),
        s.subrange(i, i + sp_rows_from(rows, k).len()) == sp_rows_from(rows, k),
        s[i + sp_rows_from(rows, k).len()] == RBRACK,
    ensures
        sp_levels_rest(s, i) == Ok::<(int, Seq<(u64, u64)>), DecodeError>(
            (i + sp_rows_from(rows, k).len() + 1, rows.subrange(k, rows.len() as int)),
        ),
    decreases rows.len() - k,
{
    let body = sp_rows_from(rows, k);
    let r0 = sp_row_bytes(rows[k]);
    let l0 = r0.len() as int;
    assert forall|x: int| 0 <= x < body.len() implies s[i + x] == body[x] by {
        assert(s.subrange(i, i + body.len() as int)[x] == s[i + x]);
    }
    if k == rows.len() - 1 {
        assert(body == r0);
        assert(s.subrange(i, i + l0) =~= r0);
        lemma_row_roundtrip(s, i, rows[k]);
        let p = i + l0;
        assert(s[p] == RBRACK);
        assert(p > i && p < s.len());
        assert(s[p] != COMMA);
        assert(rows.subrange(k, rows.len() as int) =~= seq![rows[k]]);
    } else {
        assert(body == r0 + seq![COMMA] + sp_rows_from(rows, k + 1));
        let rest = sp_rows_from(rows, k + 1);
        assert forall|x: int| 0 <= x < l0 implies body[x] == r0[x] by {}
        assert(body[l0] == COMMA);
        assert forall|x: int| 0 <= x < rest.len() implies body[l0 + 1 + x] == rest[x] by {}
        assert(s.subrange(i, i + l0) =~= r0) by {
            assert forall|x: int| 0 <= x < l0 implies s.subrange(i, i + l0)[x] == r0[x] by {
                assert(s.subrange(i, i + l0)[x] == s[i + x]);
            }
        }
        lemma_row_roundtrip(s, i, rows[k]);
        let p = i + l0;
        assert(s[p] == COMMA);
        assert(p > i && p < s.len());
        assert(s.subrange(p + 1, p + 1 + rest.len() as int) =~= rest) by {
            assert forall|x: int|
                0 <= x < rest.len() implies s.subrange(p + 1, p + 1 + rest.len() as int)[x]
                == rest[x] by {
                assert(s.subrange(p + 1, p + 1 + rest.len() as int)[x] == s[p + 1 + x]);
                assert(s[p + 1 + x] == body[l0 + 1 + x]);
            }
        }
        assert(s[p + 1 + rest.len()] == RBRACK) by {
            assert(p + 1 + rest.len() == i + body.len());
        }
        lemma_rows_roundtrip(s, p + 1, rows, k + 1);
        assert(sp_levels_rest(s, p + 1) == Ok::<(int, Seq<(u64, u64)>), DecodeError>(
            (p + 1 + rest.len() + 1, rows.subrange(k + 1, rows.len() as int)),
        ));
        assert(seq![rows[k]] + rows.subrange(k + 1, rows.len() as int) =~= rows.subrange(
            k,
            rows.len() as int,
        ));
        assert(p + 1 + rest.len() + 1 == i + body.len() + 1);
    }
}

/// A region holding a whole printed row array parses back as the rows.
proof fn lemma_levels_roundtrip(s: Seq<u8>, i: int, rows: Seq<(u64, u64)>)
    requires
        0 <= i,
        i + sp_levels_bytes(rows).len() <= s.len(),
        s.subrange(i, i + sp_levels_bytes(rows).len()) == sp_levels_bytes(rows),
    ensures
        sp_levels(s, i) == Ok::<(int, Seq<(u64, u64)>), DecodeError>(
            (i + sp_levels_bytes(rows).len(), rows),
        ),
        sp_levels_bytes(rows).len() >= 2,
{
    let lb = sp_levels_bytes(rows);
    let body = sp_rows_from(rows, 0);
    assert forall|x: int| 0 <= x < lb.len() implies s[i + x] == lb[x] by {
        assert(s.subrange(i, i + lb.len() as int)[x] == s[i + x]);
    }
    assert(lb[0] == LBRACK);
    assert(lb[lb.len() - 1] == RBRACK);
    assert forall|x: int| 0 <= x < body.len() implies lb[1 + x] == body[x] by {}
    assert(s[i] == LBRACK);
    if rows.len() == 0 {
        assert(body == Seq::<u8>::empty());
        assert(lb.len() == 2);
        assert(s[i + 1] == RBRACK);
        assert(rows =~= Seq::<(u64, u64)>::empty());
    } else {
        let r0 = sp_row_bytes(rows[0]);
        assert(body[0] == r0[0]) by {
            if rows.len() == 1 {
            } else {
            }
        }
        assert(r0[0] == LBRACK);
        assert(s[i + 1] == LBRACK);
        assert(s[i + 1] != RBRACK);
        assert(s.subrange(i + 1, i + 1 + body.len() as int) =~= body) by {
            assert forall|x: int|
                0 <= x < body.len() implies s.subrange(i + 1, i + 1 + body.len() as int)[x]
                == body[x] by {
                assert(s.subrange(i + 1, i + 1 + body.len() as int)[x] == s[i + 1 + x]);
            }
        }
        assert(s[i + 1 + body.len()] == RBRACK) by {
            assert(i + 1 + body.len() == i + lb.len() - 1);
        }
        lemma_rows_roundtrip(s, i + 1, rows, 0);
        assert(rows.subrange(0, rows.len() as int) =~= rows);
    }
}

/// Where each piece of a printed book object lies within `s`.
#[verifier::rlimit(100)]
proof fn lemma_book_layout(s: Seq<u8>, i: int, bids: Seq<(u64, u64)>, asks: Seq<(u64, u64)>)
    requires
        0 <= i,
        i + sp_binance_frame(bids, asks).len() <= s.len(),
        s.subrange(i, i + sp_binance_frame(bids, asks).len()) == sp_binance_frame(bids, asks),
    ensures
        ({
            let nb = sp_levels_bytes(bids).len() as int;
            let na = sp_levels_bytes(asks).len() as int;
            let p = i + 8 + nb;
            &&& sp_binance_frame(bids, asks).len() == nb + na + 17
            &&& s[i] == LBRACE
            &&& s[i + 1] == QUOTE
            &&& s[i + 2] == 98u8 && s[i + 3] == 105u8 && s[i + 4] == 100u8 && s[i + 5] == 115u8
            &&& s[i + 6] == QUOTE
            &&& s[i + 7] == COLON
            &&& s.subrange(i + 8, i + 8 + nb) == sp_levels_bytes(bids)
            &&& s[p] == COMMA
            &&& s[p + 1] == QUOTE
            &&& s[p + 2] == 97u8 && s[p + 3] == 115u8 && s[p + 4] == 107u8 && s[p + 5] == 115u8
            &&& s[p + 6] == QUOTE
            &&& s[p + 7] == COLON
            &&& s.subrange(p + 8, p + 8 + na) == sp_levels_bytes(asks)
            &&& s[p + 8 + na] == RBRACE
        }),
{
    reveal(sp_binance_frame);
    let f = sp_binance_frame(bids, asks);
    let blv = sp_levels_bytes(bids);
    let alv = sp_levels_bytes(asks);
    let nb = blv.len() as int;
    let na = alv.len() as int;
    assert(f.len() == nb + na + 17);
    assert forall|x: int| 0 <= x < f.len() implies s[i + x] == f[x] by {
        assert(s.subrange(i, i + f.len() as int)[x] == s[i + x]);
    }
    assert(f[0] == LBRACE);
    assert(f[1] == QUOTE);
    assert(f[2] == 98u8 && f[3] == 105u8 && f[4] == 100u8 && f[5] == 115u8);
    assert(f[6] == QUOTE);
    assert(f[7] == COLON);
    assert forall|x: int| 0 <= x < nb implies f[8 + x] == blv[x] by {}
    assert(f[8 + nb] == COMMA);
    assert(f[9 + nb] == QUOTE);
    assert(f[10 + nb] == 97u8 && f[11 + nb] == 115u8 && f[12 + nb] == 107u8 && f[13 + nb]
        == 115u8);
    assert(f[14 + nb] == QUOTE);
    assert(f[15 + nb] == COLON);
    assert forall|x: int| 0 <= x < na implies f[16 + nb + x] == alv[x] by {}
    assert(f[16 + nb + na] == RBRACE);
    assert(s.subrange(i + 8, i + 8 + nb) =~= blv) by {
        assert forall|x: int| 0 <= x < nb implies s.subrange(i + 8, i + 8 + nb)[x] == blv[x] by {
            assert(s.subrange(i + 8, i + 8 + nb)[x] == s[i + 8 + x]);
        }
    }
    let p = i + 8 + nb;
    assert(s.subrange(p + 8, p + 8 + na) =~= alv) by {
        assert forall|x: int| 0 <= x < na implies s.subrange(p + 8, p + 8 + na)[x] == alv[x] by {
            assert(s.subrange(p + 8, p + 8 + na)[x] == s[p + 8 + x]);
            assert(s[p + 8 + x] == f[16 + nb + x]);
        }
    }
}

/// A region holding a whole printed book object parses back as its rows.
#[verifier::rlimit(100)]
proof fn lemma_book_roundtrip(s: Seq<u8>, i: int, bids: Seq<(u64, u64)>, asks: Seq<(u64, u64)>)
    requires
        0 <= i,
        i + sp_binance_frame(bids, asks).len() <= s.len(),
        s.subrange(i, i + sp_binance_frame(bids, asks).len()) == sp_binance_frame(bids, asks),
    ensures
        sp_book(s, i) == Ok::<(int, Seq<(u64, u64)>, Seq<(u64, u64)>), DecodeError>(
            (i + sp_binance_frame(bids, asks).len(), bids, asks),
        ),
        sp_binance_frame(bids, asks).len() >= 13,
{
    let f = sp_binance_frame(bids, asks);
    let blv = sp_levels_bytes(bids);
    let alv = sp_levels_bytes(asks);
    let nb = blv.len() as int;
    let na = alv.len() as int;
    lemma_book_layout(s, i, bids, asks);
    lemma_levels_roundtrip(s, i + 8, bids);
    assert(s[i + 2] != QUOTE && s[i + 3] != QUOTE && s[i + 4] != QUOTE && s[i + 5] != QUOTE);
    lemma_str_end_exact(s, i + 2, i + 6);
    assert(s.subrange(i + 2, i + 6) =~= key_bids()) by {
        assert(s.subrange(i + 2, i + 6)[0] == s[i + 2]);
        assert(s.subrange(i + 2, i + 6)[1] == s[i + 3]);
        assert(s.subrange(i + 2, i + 6)[2] == s[i + 4]);
        assert(s.subrange(i + 2, i + 6)[3] == s[i + 5]);
    }
    let p = i + 8 + nb;
    assert(sp_levels(s, i + 8) == Ok::<(int, Seq<(u64, u64)>), DecodeError>((p, bids)));
    assert(p > i + 1 && p <= s.len());
    assert(s[p + 2] != QUOTE && s[p + 3] != QUOTE && s[p + 4] != QUOTE && s[p + 5] != QUOTE);
    lemma_str_end_exact(s, p + 2, p + 6);
    assert(s.subrange(p + 2, p + 6) =~= key_asks()) by {
        assert(s.subrange(p + 2, p + 6)[0] == s[p + 2]);
        assert(s.subrange(p + 2, p + 6)[1] == s[p + 3]);
        assert(s.subrange(p + 2, p + 6)[2] == s[p + 4]);
        assert(s.subrange(p + 2, p + 6)[3] == s[p + 5]);
    }
    assert(s.subrange(p + 2, p + 6) != key_bids()) by {
        assert(key_asks()[0] != key_bids()[0]);
    }
    lemma_levels_roundtrip(s, p + 8, asks);
    let p2 = p + 8 + na;
    assert(sp_levels(s, p + 8) == Ok::<(int, Seq<(u64, u64)>), DecodeError>((p2, asks)));
    assert(p2 > p + 1 && p2 <= s.len());
    assert(s[p2] == RBRACE);
    assert(p2 + 1 == i + f.len());
    assert(sp_book_tail(s, p2, Some(bids), Some(asks)) == Ok::<
        (int, Seq<(u64, u64)>, Seq<(u64, u64)>),
        DecodeError,
    >((p2 + 1, bids, asks)));
    assert(sp_book_pairs(s, p + 1, Some(bids), None) == Ok::<
        (int, Seq<(u64, u64)>, Seq<(u64, u64)>),
        DecodeError,
    >((p2 + 1, bids, asks)));
    assert(sp_book_tail(s, p, Some(bids), None) == Ok::<
        (int, Seq<(u64, u64)>, Seq<(u64, u64)>),
        DecodeError,
    >((p2 + 1, bids, asks)));
    assert(sp_book_pairs(s, i + 1, None, None) == Ok::<
        (int, Seq<(u64, u64)>, Seq<(u64, u64)>),
        DecodeError,
    >((p2 + 1, bids, asks)));
}

/// Law: a snapshot encoded as a Binance frame decodes back to itself.
pub proof fn lemma_binance_roundtrip(bids: Seq<(u64, u64)>, asks: Seq<(u64, u64)>)
    ensures
        sp_decode_binance(sp_binance_frame(bids, asks)) == Ok::<
            (Seq<(u64, u64)>, Seq<(u64, u64)>),
            DecodeError,
        >((bids, asks)),
{
    let s = sp_binance_frame(bids, asks);
    assert(s.subrange(0, s.len() as int) =~= s);
    lemma_book_roundtrip(s, 0, bids, asks);
}

/// Where each piece of a printed Bitstamp frame lies.
#[verifier::rlimit(100)]
proof fn lemma_bitstamp_layout(bids: Seq<(u64, u64)>, asks: Seq<(u64, u64)>)
    ensures
        ({
            let s = sp_bitstamp_frame(bids, asks);
            let f = sp_binance_frame(bids, asks);
            &&& s.len() == f.len() + 9
            &&& s[0] == LBRACE
            &&& s[1] == QUOTE
            &&& s[2] == 100u8 && s[3] == 97u8 && s[4] == 116u8 && s[5] == 97u8
            &&& s[6] == QUOTE
            &&& s[7] == COLON
            &&& s.subrange(8, 8 + f.len() as int) == f
            &&& s[8 + f.len() as int] == RBRACE
        }),
{
    reveal(sp_bitstamp_frame);
    let s = sp_bitstamp_frame(bids, asks);
    let f = sp_binance_frame(bids, asks);
    let nf = f.len() as int;
    assert(s.len() == nf + 9);
    assert(s.subrange(8, 8 + nf) =~= f) by {
        assert forall|x: int| 0 <= x < nf implies s.subrange(8, 8 + nf)[x] == f[x] by {
            assert(s.subrange(8, 8 + nf)[x] == s[8 + x]);
        }
    }
}

/// Law: a snapshot encoded as a Bitstamp frame decodes back to itself.
#[verifier::rlimit(100)]
pub proof fn lemma_bitstamp_roundtrip(bids: Seq<(u64, u64)>, asks: Seq<(u64, u64)>)
    ensures
        sp_decode_bitstamp(sp_bitstamp_frame(bids, asks)) == Ok::<
            (Seq<(u64, u64)>, Seq<(u64, u64)>),
            DecodeError,
        >((bids, asks)),
{
    let s = sp_bitstamp_frame(bids, asks);
    let f = sp_binance_frame(bids, asks);
    let nf = f.len() as int;
    lemma_bitstamp_layout(bids, asks);
    lemma_book_roundtrip(s, 8, bids, asks);
    assert(s[2] != QUOTE && s[3] != QUOTE && s[4] != QUOTE && s[5] != QUOTE);
    lemma_str_end_exact(s, 2, 6);
    assert(s.subrange(2, 6) =~= key_data()) by {
        assert(s.subrange(2, 6)[0] == s[2]);
        assert(s.subrange(2, 6)[1] == s[3]);
        assert(s.subrange(2, 6)[2] == s[4]);
        assert(s.subrange(2, 6)[3] == s[5]);
    }
    let p = 8 + nf;
    assert(sp_book(s, 8) == Ok::<(int, Seq<(u64, u64)>, Seq<(u64, u64)>), DecodeError>(
        (p, bids, asks),
    ));
    assert(p > 1 && p <= s.len());
    assert(s[p] == RBRACE);
    assert(p + 1 == s.len());
    assert(sp_outer_tail(s, p, Some((bids, asks))) == Ok::<
        (int, Seq<(u64, u64)>, Seq<(u64, u64)>),
        DecodeError,
    >((p + 1, bids, asks)));
    assert(sp_outer_pairs(s, 1, None) == Ok::<
        (int, Seq<(u64, u64)>, Seq<(u64, u64)>),
        DecodeError,
    >((p + 1, bids, asks)));
}

/// Powers of ten grow with the exponent.
pub proof fn lemma_pow10_mono(a: nat, b: nat)
    requires
        a <= b,
    ensures
        1 <= pow10(a) <= pow10(b),
    decreases b,
{
    if a < b {
        lemma_pow10_mono(a, (b - 1) as nat);
    } else if a > 0 {
        lemma_pow10_mono((a - 1) as nat, (b - 1) as nat);
    }
}

/// Powers of ten multiply when exponents add.
pub proof fn lemma_pow10_add(a: nat, b: nat)
    ensures
        pow10(a) * pow10(b) == pow10(a + b),
    decreases a,
{
    if a > 0 {
        lemma_pow10_add((a - 1) as nat, b);
        assert(pow10(a) * pow10(b) == 10 * (pow10((a - 1) as nat) * pow10(b))) by (nonlinear_arith)
            requires
                pow10(a) == 10 * pow10((a - 1) as nat),
        ;
    }
}

} // verus!
