use vstd::prelude::*;

verus! {

/// Ten to the power `n`.
pub open spec fn pow10(n: nat) -> nat
    decreases n,
{
    if n == 0 {
        1
    } else {
        10 * pow10((n - 1) as nat)
    }
}

/// The value of a string of ASCII decimal digits, most significant first.
pub open spec fn digits_value(d: Seq<u8>) -> nat
    decreases d.len(),
{
    if d.len() == 0 {
        0
    } else {
        digits_value(d.drop_last()) * 10 + (d.last() - 48) as nat
    }
}

/// True when every byte of `d` is an ASCII decimal digit.
pub open spec fn all_digits(d: Seq<u8>) -> bool {
    forall|k: int| 0 <= k < d.len() ==> 48 <= #[trigger] d[k] <= 57
}

/// `k` zero digits.
pub open spec fn zeros(k: nat) -> Seq<u8> {
    Seq::new(k, |i: int| 48u8)
}

pub proof fn lemma_pow10_positive(n: nat)
    ensures
        pow10(n) >= 1,
    decreases n,
{
    if n > 0 {
        lemma_pow10_positive((n - 1) as nat);
    }
}

pub proof fn lemma_pow10_adds(a: nat, b: nat)
    ensures
        pow10(a + b) == pow10(a) * pow10(b),
    decreases a,
{
    if a > 0 {
        let c = (a - 1) as nat;
        lemma_pow10_adds(c, b);
        assert((a + b - 1) as nat == c + b);
        assert(pow10(a + b) == 10 * pow10(c + b));
        assert(pow10(a) == 10 * pow10(c));
        let x = pow10(c);
        let y = pow10(b);
        assert(10 * (x * y) == (10 * x) * y) by (nonlinear_arith);
        assert(pow10(c + b) == x * y);
        assert(pow10(a + b) == 10 * (x * y));
        assert(pow10(a) * pow10(b) == (10 * x) * y);
    } else {
        assert(pow10(0) == 1);
        assert(a + b == b);
    }
}

pub proof fn lemma_pow10_increases(a: nat, b: nat)
    requires
        a <= b,
    ensures
        pow10(a) <= pow10(b),
    decreases b,
{
    if a < b {
        lemma_pow10_increases(a, (b - 1) as nat);
        lemma_pow10_positive((b - 1) as nat);
    }
}

/// Ten to the 38th and to the 39th power.
pub proof fn lemma_pow10_38_39()
    ensures
        pow10(38) == 100000000000000000000000000000000000000nat,
        pow10(39) == 1000000000000000000000000000000000000000nat,
{
    reveal_with_fuel(pow10, 40);
}

/// The value of two digit strings one after the other.
pub proof fn lemma_value_concat(a: Seq<u8>, b: Seq<u8>)
    ensures
        digits_value(a + b) == digits_value(a) * pow10(b.len()) + digits_value(b),
    decreases b.len(),
{
    if b.len() == 0 {
        assert(a + b =~= a);
        assert(pow10(0) == 1);
        assert(digits_value(b) == 0);
    } else {
        let b1 = b.drop_last();
        assert((a + b).drop_last() =~= a + b1);
        assert((a + b).last() == b.last());
        lemma_value_concat(a, b1);
        let va = digits_value(a);
        let p = pow10(b1.len());
        let vb1 = digits_value(b1);
        let x = (b.last() - 48) as nat;
        assert((b.len() - 1) as nat == b1.len());
        assert(pow10(b.len()) == 10 * p);
        assert(digits_value(b) == vb1 * 10 + x);
        assert(digits_value(a + b) == digits_value(a + b1) * 10 + x);
        assert((va * p + vb1) * 10 == va * (10 * p) + vb1 * 10) by (nonlinear_arith);
        assert(digits_value(a + b1) == va * p + vb1);
        assert(digits_value(a + b) == (va * p + vb1) * 10 + x);
        assert(digits_value(a) * pow10(b.len()) == va * (10 * p));
    }
}

/// A string of `n` digits is worth less than ten to the `n`.
pub proof fn lemma_value_below(d: Seq<u8>)
    requires
        all_digits(d),
    ensures
        digits_value(d) < pow10(d.len()),
    decreases d.len(),
{
    if d.len() > 0 {
        let d1 = d.drop_last();
        assert(all_digits(d1)) by {
            assert forall|k: int| 0 <= k < d1.len() implies 48 <= #[trigger] d1[k] <= 57 by {
                assert(d1[k] == d[k]);
            }
        }
        lemma_value_below(d1);
        assert(48 <= d[d.len() - 1] <= 57);
    }
}

/// Zero digits are worth nothing.
pub proof fn lemma_value_zeros(k: nat)
    ensures
        digits_value(zeros(k)) == 0,
    decreases k,
{
    if k > 0 {
        assert(zeros(k).drop_last() =~= zeros((k - 1) as nat));
        lemma_value_zeros((k - 1) as nat);
    }
}

/// A string of `n` digits whose first digit is not zero is worth at least
/// ten to the `n - 1`.
pub proof fn lemma_value_at_least(d: Seq<u8>)
    requires
        all_digits(d),
        d.len() > 0,
        d[0] != 48,
    ensures
        digits_value(d) >= pow10((d.len() - 1) as nat),
{
    let head = d.subrange(0, 1);
    let tail = d.subrange(1, d.len() as int);
    assert(d =~= head + tail);
    lemma_value_concat(head, tail);
    assert(head.drop_last() =~= Seq::<u8>::empty());
    assert(digits_value(head.drop_last()) == 0);
    assert(head.last() == d[0]);
    assert(digits_value(head) == (d[0] - 48) as nat);
    assert(digits_value(head) >= 1);
    let p = pow10(tail.len());
    assert(digits_value(head) * p >= p) by (nonlinear_arith)
        requires
            digits_value(head) >= 1,
    ;
}

} // verus!
