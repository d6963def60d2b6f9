use vstd::prelude::*;

use crate::digits::{
    all_digits, digits_value, lemma_pow10_38_39, lemma_pow10_adds, lemma_pow10_increases,
    lemma_pow10_positive, lemma_value_at_least, lemma_value_below, lemma_value_concat,
    lemma_value_zeros, pow10, zeros,
};

verus! {

/// An ASCII decimal digit.
pub open spec fn is_digit(b: u8) -> bool {
    48 <= b <= 57
}

/// `+` or `-`.
pub open spec fn is_sign(b: u8) -> bool {
    b == 43 || b == 45
}

/// `e` or `E`, which opens an exponent.
pub open spec fn is_exponent_mark(b: u8) -> bool {
    b == 101 || b == 69
}

/// The index just past the run of digits that starts at `i`.
pub open spec fn digits_end(s: Seq<u8>, i: int) -> int
    decreases s.len() - i,
{
    if 0 <= i < s.len() && is_digit(s[i]) {
        digits_end(s, i + 1)
    } else {
        i
    }
}

/// The index just past an optional sign at `i`.
pub open spec fn sign_end(s: Seq<u8>, i: int) -> int {
    if 0 <= i < s.len() && is_sign(s[i]) {
        i + 1
    } else {
        i
    }
}

/// The index just past an optional `.` at `i`.
pub open spec fn point_end(s: Seq<u8>, i: int) -> int {
    if 0 <= i < s.len() && s[i] == 46 {
        i + 1
    } else {
        i
    }
}

/// True when `s`, from `i` on, is an exponent: `e` or `E`, an optional sign
/// and at least one digit, and nothing after them.
pub open spec fn is_exponent(s: Seq<u8>, i: int) -> bool {
    &&& 0 <= i < s.len()
    &&& is_exponent_mark(s[i])
    &&& digits_end(s, sign_end(s, i + 1)) > sign_end(s, i + 1)
    &&& digits_end(s, sign_end(s, i + 1)) == s.len()
}

/// True when `s` is written as a decimal number: an optional sign, digits
/// with an optional `.` among or after or before them (at least one digit in
/// all), and an optional exponent.
pub open spec fn is_decimal(s: Seq<u8>) -> bool {
    let int_start = sign_end(s, 0);
    let int_end = digits_end(s, int_start);
    let frac_start = point_end(s, int_end);
    let frac_end = digits_end(s, frac_start);
    &&& (int_end > int_start || frac_end > frac_start)
    &&& (frac_end == s.len() || is_exponent(s, frac_end))
}

/// The digits of a decimal's significand: those before the point, then those
/// after it.
pub open spec fn significand(s: Seq<u8>) -> Seq<u8> {
    let int_start = sign_end(s, 0);
    let int_end = digits_end(s, int_start);
    let frac_start = point_end(s, int_end);
    s.subrange(int_start, int_end) + s.subrange(frac_start, digits_end(s, frac_start))
}

/// The number of digits after the point.
pub open spec fn fraction_len(s: Seq<u8>) -> int {
    let frac_start = point_end(s, digits_end(s, sign_end(s, 0)));
    digits_end(s, frac_start) - frac_start
}

/// The value of the exponent, 0 when there is none.
pub open spec fn exponent_value(s: Seq<u8>) -> int {
    let frac_end = digits_end(s, point_end(s, digits_end(s, sign_end(s, 0))));
    if frac_end >= s.len() {
        0
    } else {
        let start = sign_end(s, frac_end + 1);
        let v = digits_value(s.subrange(start, s.len() as int)) as int;
        if start > frac_end + 1 && s[frac_end + 1] == 45 {
            -v
        } else {
            v
        }
    }
}

/// The power of ten by which the significand's digits, read as a whole
/// number, are scaled: the decimal's magnitude is
/// `digits_value(significand(s))` times ten to this.
pub open spec fn scale(s: Seq<u8>) -> int {
    exponent_value(s) - fraction_len(s)
}

/// 2^128 - 2^103, halfway between the largest finite `f32` and 2^128. A
/// magnitude below it rounds to a finite `f32`; from it on, rounding to the
/// nearest `f32` (ties to even) gives infinity.
pub open spec fn f32_overflow_bound() -> nat {
    340282356779733661637539395458142568448nat
}

/// True when `m` times ten to `e` is below `f32_overflow_bound()`.
#[verifier::opaque]
pub open spec fn scaled_below_bound(m: nat, e: int) -> bool {
    if e >= 0 {
        m * pow10(e as nat) < f32_overflow_bound()
    } else {
        m < f32_overflow_bound() * pow10((-e) as nat)
    }
}

/// True when `s` is the text of a number that an `f32` holds as a finite
/// value: written as a decimal, with a magnitude that does not round to
/// infinity. Values too small for an `f32` round to zero and are accepted.
pub open spec fn is_number(s: Seq<u8>) -> bool {
    is_decimal(s) && scaled_below_bound(digits_value(significand(s)), scale(s))
}

/// The first 39 digits of `d`, with zeros after them where `d` is shorter.
pub open spec fn head39(d: Seq<u8>) -> Seq<u8> {
    if d.len() >= 39 {
        d.subrange(0, 39)
    } else {
        d + zeros((39 - d.len()) as nat)
    }
}

proof fn lemma_scaled_zero(e: int)
    ensures
        scaled_below_bound(0, e),
{
    reveal(scaled_below_bound);
    if e < 0 {
        lemma_pow10_positive((-e) as nat);
        let p = pow10((-e) as nat);
        assert(0 < f32_overflow_bound() * p) by (nonlinear_arith)
            requires
                p >= 1,
        ;
    }
}

/// Magnitudes with at most 38 digits before the point are in range.
proof fn lemma_scaled_small(v: nat, n: nat, e: int)
    requires
        v < pow10(n),
        n + e <= 38,
    ensures
        scaled_below_bound(v, e),
{
    reveal(scaled_below_bound);
    let b = f32_overflow_bound();
    lemma_pow10_38_39();
    if e >= 0 {
        let q = pow10(e as nat);
        let pn = pow10(n);
        lemma_pow10_adds(n, e as nat);
        lemma_pow10_increases(n + e as nat, 38);
        lemma_pow10_positive(e as nat);
        assert(v * q < pn * q) by (nonlinear_arith)
            requires
                v < pn,
                q >= 1,
        ;
    } else {
        let k = (-e) as nat;
        let q = pow10(k);
        lemma_pow10_positive(k);
        if n + e >= 0 {
            let j = (n + e) as nat;
            lemma_pow10_adds(j, k);
            assert(n == j + k);
            lemma_pow10_increases(j, 38);
            let pj = pow10(j);
            assert(pj * q < b * q) by (nonlinear_arith)
                requires
                    pj < b,
                    q >= 1,
            ;
        } else {
            lemma_pow10_increases(n, k);
            assert(q <= b * q) by (nonlinear_arith)
                requires
                    q >= 1,
                    b >= 1,
            ;
        }
    }
}

/// Magnitudes with at least 40 digits before the point are out of range.
proof fn lemma_scaled_large(v: nat, n: nat, e: int)
    requires
        n >= 1,
        v >= pow10((n - 1) as nat),
        n + e >= 40,
    ensures
        !scaled_below_bound(v, e),
{
    reveal(scaled_below_bound);
    let b = f32_overflow_bound();
    lemma_pow10_38_39();
    let low = pow10((n - 1) as nat);
    if e >= 0 {
        let q = pow10(e as nat);
        lemma_pow10_adds((n - 1) as nat, e as nat);
        lemma_pow10_increases(39, (n - 1 + e) as nat);
        assert(v * q >= low * q) by (nonlinear_arith)
            requires
                v >= low,
        ;
    } else {
        let k = (-e) as nat;
        let q = pow10(k);
        let j = (n - 1 + e) as nat;
        lemma_pow10_adds(j, k);
        assert((n - 1) as nat == j + k);
        lemma_pow10_increases(39, j);
        let pj = pow10(j);
        assert(pj * q >= b * q) by (nonlinear_arith)
            requires
                pj >= b,
        ;
    }
}

/// With exactly 39 digits before the point, the magnitude is in range just
/// when its first 39 digits are worth less than the bound.
proof fn lemma_scaled_edge(d: Seq<u8>, e: int)
    requires
        all_digits(d),
        d.len() >= 1,
        d.len() + e == 39,
    ensures
        scaled_below_bound(digits_value(d), e) == (digits_value(head39(d))
            < f32_overflow_bound()),
{
    reveal(scaled_below_bound);
    let b = f32_overflow_bound();
    let n = d.len();
    if n < 39 {
        lemma_value_concat(d, zeros((39 - n) as nat));
        lemma_value_zeros((39 - n) as nat);
        assert(head39(d) == d + zeros((39 - n) as nat));
        assert(digits_value(head39(d)) == digits_value(d) * pow10(e as nat));
    } else if n == 39 {
        assert(head39(d) =~= d);
        assert(pow10(0) == 1);
        assert(digits_value(d) * pow10(0) == digits_value(d));
    } else {
        let k = (n - 39) as nat;
        let head = d.subrange(0, 39);
        let tail = d.subrange(39, n as int);
        assert(d =~= head + tail);
        lemma_value_concat(head, tail);
        assert(all_digits(tail)) by {
            assert forall|i: int| 0 <= i < tail.len() implies 48 <= #[trigger] tail[i] <= 57 by {
                assert(tail[i] == d[i + 39]);
            }
        }
        lemma_value_below(tail);
        let h = digits_value(head);
        let t = digits_value(tail);
        let q = pow10(k);
        assert(tail.len() == k);
        assert(digits_value(d) == h * q + t);
        assert(head39(d) == head);
        assert((-e) as nat == k);
        assert(h < b ==> h * q + t < b * q) by (nonlinear_arith)
            requires
                t < q,
        ;
        assert(h >= b ==> h * q + t >= b * q) by (nonlinear_arith);
    }
}

/// Where a digit string without leading zero, scaled by ten to `e`, stands
/// against the bound, by the number of digits before the point.
proof fn lemma_decide(d: Seq<u8>, e: int)
    requires
        all_digits(d),
        d.len() >= 1,
        d[0] != 48,
    ensures
        d.len() + e <= 38 ==> scaled_below_bound(digits_value(d), e),
        d.len() + e >= 40 ==> !scaled_below_bound(digits_value(d), e),
        d.len() + e == 39 ==> scaled_below_bound(digits_value(d), e) == (digits_value(head39(d))
            < f32_overflow_bound()),
{
    lemma_value_at_least(d);
    lemma_value_below(d);
    if d.len() + e <= 38 {
        lemma_scaled_small(digits_value(d), d.len(), e);
    } else if d.len() + e >= 40 {
        lemma_scaled_large(digits_value(d), d.len(), e);
    } else {
        lemma_scaled_edge(d, e);
    }
}

/// The number of digits before the point, computed with the exponent's
/// magnitude capped, is on the same side of 38 and 40, and exact in between.
proof fn lemma_capped_position(n: int, fl: int, negative: bool, ev: int, x: int, p: int)
    requires
        1 <= n <= usize::MAX,
        0 <= fl <= usize::MAX,
        0 <= ev <= EXPONENT_CAP,
        ev < EXPONENT_CAP ==> x == if negative {
            -ev
        } else {
            ev
        },
        ev == EXPONENT_CAP && negative ==> x <= -(EXPONENT_CAP as int),
        ev == EXPONENT_CAP && !negative ==> x >= EXPONENT_CAP,
        p == n + (if negative {
            -ev
        } else {
            ev
        }) - fl,
    ensures
        p <= 38 ==> n + x - fl <= 38,
        p >= 40 ==> n + x - fl >= 40,
        38 < p < 40 ==> n + x - fl == 39,
{
}

proof fn lemma_digits_end_bounds(s: Seq<u8>, i: int)
    requires
        0 <= i <= s.len(),
    ensures
        i <= digits_end(s, i) <= s.len(),
        forall|k: int| i <= k < digits_end(s, i) ==> is_digit(#[trigger] s[k]),
    decreases s.len() - i,
{
    if i < s.len() && is_digit(s[i]) {
        lemma_digits_end_bounds(s, i + 1);
    }
}

/// A byte that can occur in the text of a number.
pub open spec fn is_number_byte(b: u8) -> bool {
    is_digit(b) || is_sign(b) || b == 46 || is_exponent_mark(b)
}

/// The text of a number is not empty and is made of digits, signs, `.`, `e`
/// and `E` only.
pub proof fn lemma_number_bytes(s: Seq<u8>)
    requires
        is_number(s),
    ensures
        s.len() > 0,
        forall|k: int| 0 <= k < s.len() ==> is_number_byte(#[trigger] s[k]),
{
    let int_start = sign_end(s, 0);
    let int_end = digits_end(s, int_start);
    let frac_start = point_end(s, int_end);
    let frac_end = digits_end(s, frac_start);
    lemma_digits_end_bounds(s, int_start);
    lemma_digits_end_bounds(s, frac_start);
    if frac_end < s.len() {
        lemma_digits_end_bounds(s, sign_end(s, frac_end + 1));
    }
    assert forall|k: int| 0 <= k < s.len() implies is_number_byte(#[trigger] s[k]) by {
        if k < int_start {
        } else if k < int_end {
        } else if k < frac_start {
        } else if k < frac_end {
        } else if k == frac_end {
        } else if k < sign_end(s, frac_end + 1) {
        } else {
        }
    }
}

fn find_digits_end(s: &[u8], i: usize) -> (r: usize)
    requires
        i <= s@.len(),
    ensures
        r == digits_end(s@, i as int),
{
    let mut j: usize = i;
    while j < s.len() && 48u8 <= s[j] && s[j] <= 57u8
        invariant
            i <= j <= s@.len(),
            digits_end(s@, j as int) == digits_end(s@, i as int),
        decreases s@.len() - j,
    {
        j = j + 1;
    }
    j
}

fn find_sign_end(s: &[u8], i: usize) -> (r: usize)
    requires
        i <= s@.len(),
    ensures
        r == sign_end(s@, i as int),
{
    if i < s.len() && (s[i] == 43u8 || s[i] == 45u8) {
        i + 1
    } else {
        i
    }
}

fn check_decimal(s: &[u8]) -> (r: bool)
    ensures
        r == is_decimal(s@),
{
    let int_start = find_sign_end(s, 0);
    let int_end = find_digits_end(s, int_start);
    proof {
        lemma_digits_end_bounds(s@, int_start as int);
    }
    let frac_start = if int_end < s.len() && s[int_end] == 46u8 {
        int_end + 1
    } else {
        int_end
    };
    let frac_end = find_digits_end(s, frac_start);
    proof {
        lemma_digits_end_bounds(s@, frac_start as int);
    }
    if !(int_end > int_start || frac_end > frac_start) {
        return false;
    }
    if frac_end == s.len() {
        return true;
    }
    if !(s[frac_end] == 101u8 || s[frac_end] == 69u8) {
        return false;
    }
    let exp_start = find_sign_end(s, frac_end + 1);
    let exp_end = find_digits_end(s, exp_start);
    exp_end > exp_start && exp_end == s.len()
}

/// 2^100: exponents are read up to this, and any larger one stands for all.
const EXPONENT_CAP: u128 = 1267650600228229401496703205376;

/// The first 38 digits of `f32_overflow_bound()`.
const BOUND_HEAD: u128 = 34028235677973366163753939545814256844;

/// The digits of `s` from `start` on, read as a whole number, or
/// `EXPONENT_CAP` when they are worth that much or more.
fn capped_value(s: &[u8], start: usize) -> (r: u128)
    requires
        start <= s@.len(),
        forall|j: int| start <= j < s@.len() ==> is_digit(#[trigger] s@[j]),
    ensures
        r <= EXPONENT_CAP,
        r < EXPONENT_CAP ==> r == digits_value(s@.subrange(start as int, s@.len() as int)),
        r == EXPONENT_CAP ==> digits_value(s@.subrange(start as int, s@.len() as int))
            >= EXPONENT_CAP,
{
    let mut ev: u128 = 0;
    let mut k: usize = start;
    assert(s@.subrange(start as int, start as int) =~= Seq::<u8>::empty());
    while k < s.len()
        invariant
            start <= k <= s@.len(),
            forall|j: int| start <= j < s@.len() ==> is_digit(#[trigger] s@[j]),
            ev <= EXPONENT_CAP,
            ev < EXPONENT_CAP ==> ev == digits_value(s@.subrange(start as int, k as int)),
            ev == EXPONENT_CAP ==> digits_value(s@.subrange(start as int, k as int))
                >= EXPONENT_CAP,
        decreases s@.len() - k,
    {
        assert(is_digit(s@[k as int]));
        let digit = (s[k] - 48u8) as u128;
        let ghost before = s@.subrange(start as int, k as int);
        let ghost after = s@.subrange(start as int, k + 1);
        assert(after.drop_last() =~= before);
        assert(digits_value(after) == digits_value(before) * 10 + digit);
        if ev < EXPONENT_CAP && ev * 10 + digit < EXPONENT_CAP {
            ev = ev * 10 + digit;
        } else {
            ev = EXPONENT_CAP;
        }
        k = k + 1;
    }
    ev
}

/// The first 38 digits of `head39(d)` read as a whole number, and its 39th
/// digit.
fn leading_digits(d: &[u8]) -> (r: (u128, u8))
    requires
        all_digits(d@),
    ensures
        digits_value(head39(d@)) == r.0 * 10 + r.1,
        r.1 <= 9,
{
    let ghost h = head39(d@);
    let n = d.len();
    assert(h.len() == 39);
    assert(forall|k: int| 0 <= k < 39 ==> #[trigger] h[k] == if k < n {
        d@[k]
    } else {
        48u8
    });
    let mut head: u128 = 0;
    let mut k: usize = 0;
    proof {
        lemma_pow10_38_39();
        assert(h.subrange(0, 0) =~= Seq::<u8>::empty());
    }
    while k < 38
        invariant
            k <= 38,
            n == d@.len(),
            h == head39(d@),
            h.len() == 39,
            all_digits(d@),
            forall|j: int| 0 <= j < 39 ==> #[trigger] h[j] == if j < n {
                d@[j]
            } else {
                48u8
            },
            pow10(38) == 100000000000000000000000000000000000000nat,
            head == digits_value(h.subrange(0, k as int)),
        decreases 38 - k,
    {
        let digit: u8 = if k < n {
            assert(48 <= d@[k as int] <= 57);
            d[k] - 48u8
        } else {
            0u8
        };
        proof {
            let prefix = h.subrange(0, k as int);
            assert(all_digits(prefix)) by {
                assert forall|j: int| 0 <= j < prefix.len() implies 48 <= #[trigger] prefix[j]
                    <= 57 by {
                    assert(prefix[j] == h[j]);
                    if j < n {
                        assert(48 <= d@[j] <= 57);
                    }
                }
            }
            lemma_value_below(prefix);
            lemma_pow10_increases(k as nat, 37);
            assert(pow10(38) == 10 * pow10(37));
            let next = h.subrange(0, k + 1);
            assert(next.drop_last() =~= prefix);
            assert(next.last() == h[k as int]);
        }
        head = head * 10 + digit as u128;
        k = k + 1;
    }
    let last: u8 = if 38 < n {
        assert(48 <= d@[38] <= 57);
        d[38] - 48u8
    } else {
        0u8
    };
    assert(h.drop_last() =~= h.subrange(0, 38));
    (head, last)
}

/// Appends the bytes of `s` from `lo` up to `hi` to `m`.
fn append_range(m: &mut Vec<u8>, s: &[u8], lo: usize, hi: usize)
    requires
        lo <= hi <= s@.len(),
    ensures
        final(m)@ == old(m)@ + s@.subrange(lo as int, hi as int),
{
    let mut i: usize = lo;
    while i < hi
        invariant
            lo <= i <= hi <= s@.len(),
            m@ == old(m)@ + s@.subrange(lo as int, i as int),
        decreases hi - i,
    {
        m.push(s[i]);
        i = i + 1;
        assert(m@ =~= old(m)@ + s@.subrange(lo as int, i as int));
    }
}

/// The significand of a decimal is made of digits.
proof fn lemma_significand_digits(s: Seq<u8>)
    requires
        is_decimal(s),
    ensures
        all_digits(significand(s)),
{
    let int_start = sign_end(s, 0);
    let int_end = digits_end(s, int_start);
    let frac_start = point_end(s, int_end);
    let frac_end = digits_end(s, frac_start);
    lemma_digits_end_bounds(s, int_start);
    lemma_digits_end_bounds(s, frac_start);
    let m = significand(s);
    assert forall|k: int| 0 <= k < m.len() implies 48 <= #[trigger] m[k] <= 57 by {
        if k < int_end - int_start {
            assert(m[k] == s[int_start + k]);
        } else {
            assert(m[k] == s[frac_start + k - (int_end - int_start)]);
        }
    }
}

/// The number of zero digits at the front of `m`.
fn leading_zeros(m: &Vec<u8>) -> (z: usize)
    ensures
        z <= m@.len(),
        forall|k: int| 0 <= k < z ==> m@[k] == 48,
        z < m@.len() ==> m@[z as int] != 48,
{
    let mut z: usize = 0;
    while z < m.len() && m[z] == 48u8
        invariant
            z <= m@.len(),
            forall|k: int| 0 <= k < z ==> m@[k] == 48,
        decreases m@.len() - z,
    {
        z = z + 1;
    }
    z
}

/// The sign of the exponent of the decimal `s`, whose significand ends at
/// `frac_end`, and its magnitude capped at `EXPONENT_CAP`.
fn exponent_parts(s: &[u8], frac_end: usize) -> (r: (bool, u128))
    requires
        is_decimal(s@),
        frac_end == digits_end(s@, point_end(s@, digits_end(s@, sign_end(s@, 0)))),
        frac_end <= s@.len(),
    ensures
        r.1 <= EXPONENT_CAP,
        r.1 < EXPONENT_CAP ==> exponent_value(s@) == if r.0 {
            -(r.1 as int)
        } else {
            r.1 as int
        },
        r.1 == EXPONENT_CAP && r.0 ==> exponent_value(s@) <= -(EXPONENT_CAP as int),
        r.1 == EXPONENT_CAP && !r.0 ==> exponent_value(s@) >= EXPONENT_CAP,
{
    if frac_end < s.len() {
        let exp_start = find_sign_end(s, frac_end + 1);
        proof {
            lemma_digits_end_bounds(s@, exp_start as int);
        }
        let negative = exp_start > frac_end + 1 && s[frac_end + 1] == 45u8;
        (negative, capped_value(s, exp_start))
    } else {
        (false, 0)
    }
}

/// Tells whether the digits `d`, scaled by ten to `x - frac_len`, are below
/// the bound, where `x` is known only through its sign `negative` and its
/// magnitude `ev` capped at `EXPONENT_CAP`.
fn magnitude_below(d: &[u8], negative: bool, ev: u128, frac_len: usize, x: Ghost<int>) -> (r:
    bool)
    requires
        all_digits(d@),
        d@.len() >= 1,
        d@[0] != 48,
        ev <= EXPONENT_CAP,
        ev < EXPONENT_CAP ==> x@ == if negative {
            -(ev as int)
        } else {
            ev as int
        },
        ev == EXPONENT_CAP && negative ==> x@ <= -(EXPONENT_CAP as int),
        ev == EXPONENT_CAP && !negative ==> x@ >= EXPONENT_CAP,
    ensures
        r == scaled_below_bound(digits_value(d@), x@ - frac_len),
{
    let n = d.len();
    let signed_exp: i128 = if negative {
        -(ev as i128)
    } else {
        ev as i128
    };
    let p: i128 = n as i128 + signed_exp - frac_len as i128;
    proof {
        lemma_capped_position(n as int, frac_len as int, negative, ev as int, x@, p as int);
        lemma_decide(d@, x@ - frac_len);
    }
    if p <= 38 {
        return true;
    }
    if p >= 40 {
        return false;
    }
    let (head, last) = leading_digits(d);
    assert(f32_overflow_bound() == BOUND_HEAD * 10 + 8);
    head < BOUND_HEAD || (head == BOUND_HEAD && last < 8u8)
}

/// Tells whether the decimal `s` has a magnitude that does not round to
/// infinity in an `f32`.
fn check_magnitude(s: &[u8]) -> (r: bool)
    requires
        is_decimal(s@),
    ensures
        r == scaled_below_bound(digits_value(significand(s@)), scale(s@)),
{
    let int_start = find_sign_end(s, 0);
    let int_end = find_digits_end(s, int_start);
    proof {
        lemma_digits_end_bounds(s@, int_start as int);
    }
    let frac_start = if int_end < s.len() && s[int_end] == 46u8 {
        int_end + 1
    } else {
        int_end
    };
    let frac_end = find_digits_end(s, frac_start);
    proof {
        lemma_digits_end_bounds(s@, frac_start as int);
    }
    let mut m: Vec<u8> = Vec::new();
    append_range(&mut m, s, int_start, int_end);
    append_range(&mut m, s, frac_start, frac_end);
    proof {
        assert(m@ =~= significand(s@));
        lemma_significand_digits(s@);
    }
    let z = leading_zeros(&m);
    let ghost d = m@.subrange(z as int, m@.len() as int);
    let ghost e = scale(s@);
    proof {
        assert(m@ =~= zeros(z as nat) + d);
        lemma_value_concat(zeros(z as nat), d);
        lemma_value_zeros(z as nat);
        let pz = pow10(d.len());
        assert(0 * pz == 0);
        assert(digits_value(m@) == digits_value(d));
        assert(all_digits(d)) by {
            assert forall|k: int| 0 <= k < d.len() implies 48 <= #[trigger] d[k] <= 57 by {
                assert(d[k] == m@[z + k]);
            }
        }
    }
    if z == m.len() {
        proof {
            lemma_scaled_zero(e);
        }
        return true;
    }
    let (negative, ev) = exponent_parts(s, frac_end);
    let frac_len: usize = frac_end - frac_start;
    assert(fraction_len(s@) == frac_len);
    assert(m@[z as int] == d[0]);
    magnitude_below(&m.as_slice()[z..m.len()], negative, ev, frac_len, Ghost(exponent_value(s@)))
}

/// Tells whether `s` is the text of a number that an `f32` holds as a
/// finite value.
pub fn check_number(s: &[u8]) -> (r: bool)
    ensures
        r == is_number(s@),
{
    check_decimal(s) && check_magnitude(s)
}

/// The text of a finite decimal number, kept exactly as it was received.
#[derive(Debug)]
pub struct Decimal {
    text: Vec<u8>,
}

impl View for Decimal {
    type V = Seq<u8>;

    closed spec fn view(&self) -> Seq<u8> {
        self.text@
    }
}

impl Decimal {
    #[verifier::type_invariant]
    spec fn well_formed(self) -> bool {
        is_number(self.text@)
    }

    /// Reads `s` as a number: `None` unless `s` is the text of a finite
    /// decimal number, which is then kept byte for byte.
    pub fn parse(s: &[u8]) -> (r: Option<Decimal>)
        ensures
            r.is_some() == is_number(s@),
            r matches Some(d) ==> d@ == s@,
    {
        if check_number(s) {
            let mut text: Vec<u8> = Vec::new();
            let mut i: usize = 0;
            while i < s.len()
                invariant
                    i <= s@.len(),
                    text@ == s@.subrange(0, i as int),
                decreases s@.len() - i,
            {
                text.push(s[i]);
                i = i + 1;
                assert(text@ =~= s@.subrange(0, i as int));
            }
            assert(text@ =~= s@);
            Some(Decimal { text })
        } else {
            None
        }
    }

    /// The number's text, which is always the text of a number.
    pub fn as_bytes(&self) -> (r: &[u8])
        ensures
            r@ == self@,
            is_number(self@),
    {
        proof {
            use_type_invariant(self);
        }
        self.text.as_slice()
    }
}

} // verus!
