//! The `Number` value: a positive integer, a negative integer, or a finite
//! decimal floating value kept in exact significand/exponent form.

use vstd::prelude::*;

verus! {

/// Largest finite double, written as its 17 significant digits; the value is
/// this significand times ten to the 292nd power.
pub const MAX_FLOAT_SIG: u64 = 17976931348623157;

/// The mathematical model of a [`Number`].
pub enum NumberV {
    /// A non-negative integer.
    PosInt(u64),
    /// A negative integer; always less than zero in a well-formed number.
    NegInt(i64),
    /// A finite floating value `(-1)^neg * sig * 10^exp`, kept in decimal
    /// form: sign, significand, power-of-ten exponent.
    Float(bool, u64, i64),
}

/// Ten to the `k`th power.
pub open spec fn pow10(k: nat) -> nat
    decreases k,
{
    if k == 0 {
        1
    } else {
        10 * pow10((k - 1) as nat)
    }
}

/// The number of decimal digits of `n` (one digit for zero).
pub open spec fn ndigits(n: nat) -> nat
    decreases n,
{
    if n < 10 {
        1
    } else {
        1 + ndigits(n / 10)
    }
}

/// A decimal pair is normalized when a zero significand carries a zero
/// exponent and a nonzero significand has no trailing zero digits.
pub open spec fn dec_normalized(sig: u64, exp: i64) -> bool {
    if sig == 0 {
        exp == 0
    } else {
        sig % 10 != 0
    }
}

/// With `ndigits(sig) - 1 + exp == 308`, true when `sig * 10^exp` is at most
/// the largest finite double.
pub open spec fn dec_le_max(sig: u64, exp: int) -> bool {
    let d = ndigits(sig as nat);
    if d <= 17 {
        sig * pow10((17 - d) as nat) <= MAX_FLOAT_SIG
    } else {
        sig <= MAX_FLOAT_SIG * pow10((d - 17) as nat)
    }
}

/// The magnitude `sig * 10^exp` lies within the range this library accepts
/// for floating values: zero, or between ten to the -323rd power and the
/// largest finite double.  Magnitudes below that floor are treated as
/// underflow, magnitudes above that ceiling as overflow.
pub open spec fn dec_in_range(sig: u64, exp: int) -> bool {
    sig == 0 || {
        let e1 = ndigits(sig as nat) - 1 + exp;
        (-323 <= e1 < 308) || (e1 == 308 && dec_le_max(sig, exp))
    }
}

/// Well-formedness of a number: negative integers are negative, and floating
/// values are normalized and within range.
pub open spec fn number_wf(n: NumberV) -> bool {
    match n {
        NumberV::PosInt(_) => true,
        NumberV::NegInt(i) => i < 0,
        NumberV::Float(neg, sig, exp) => dec_normalized(sig, exp) && dec_in_range(sig, exp as int),
    }
}

#[derive(Clone, Copy, Debug, PartialEq, Eq, Structural)]
enum N {
    PosInt(u64),
    NegInt(i64),
    Float(bool, u64, i64),
}

/// Represents a Sexp number, whether integer or floating point.
#[derive(Clone, Copy, Debug, PartialEq, Eq, Structural)]
pub struct Number {
    n: N,
}

impl View for Number {
    type V = NumberV;

    closed spec fn view(&self) -> NumberV {
        match self.n {
            N::PosInt(v) => NumberV::PosInt(v),
            N::NegInt(v) => NumberV::NegInt(v),
            N::Float(neg, sig, exp) => NumberV::Float(neg, sig, exp),
        }
    }
}

impl Number {
    /// True if the number fits in an `i64`.
    pub fn is_i64(&self) -> (r: bool)
        ensures
            r == match self@ {
                NumberV::PosInt(v) => v <= i64::MAX as u64,
                NumberV::NegInt(_) => true,
                NumberV::Float(..) => false,
            },
    {
        match self.n {
            N::PosInt(v) => v <= i64::MAX as u64,
            N::NegInt(_) => true,
            N::Float(..) => false,
        }
    }

    /// True if the number is a non-negative integer.
    pub fn is_u64(&self) -> (r: bool)
        ensures
            r == self@ is PosInt,
    {
        match self.n {
            N::PosInt(_) => true,
            N::NegInt(_) | N::Float(..) => false,
        }
    }

    /// True if the number is a floating value.
    pub fn is_f64(&self) -> (r: bool)
        ensures
            r == self@ is Float,
    {
        match self.n {
            N::Float(..) => true,
            N::PosInt(_) | N::NegInt(_) => false,
        }
    }

    /// The number as an `i64`, when it fits and is not floating.
    pub fn as_i64(&self) -> (r: Option<i64>)
        ensures
            r == match self@ {
                NumberV::PosInt(v) => if v <= i64::MAX as u64 {
                    Some(v as i64)
                } else {
                    None::<i64>
                },
                NumberV::NegInt(v) => Some(v),
                NumberV::Float(..) => None::<i64>,
            },
    {
        match self.n {
            N::PosInt(v) => if v <= i64::MAX as u64 {
                Some(v as i64)
            } else {
                None
            },
            N::NegInt(v) => Some(v),
            N::Float(..) => None,
        }
    }

    /// The number as a `u64`, when it is a non-negative integer.
    pub fn as_u64(&self) -> (r: Option<u64>)
        ensures
            r == match self@ {
                NumberV::PosInt(v) => Some(v),
                NumberV::NegInt(_) | NumberV::Float(..) => None::<u64>,
            },
    {
        match self.n {
            N::PosInt(v) => Some(v),
            N::NegInt(_) | N::Float(..) => None,
        }
    }

    /// The decimal form `(-1)^neg * sig * 10^exp` of a floating number.
    pub fn as_decimal(&self) -> (r: Option<(bool, u64, i64)>)
        ensures
            r == match self@ {
                NumberV::Float(neg, sig, exp) => Some((neg, sig, exp)),
                NumberV::PosInt(_) | NumberV::NegInt(_) => None::<(bool, u64, i64)>,
            },
    {
        match self.n {
            N::Float(neg, sig, exp) => Some((neg, sig, exp)),
            N::PosInt(_) | N::NegInt(_) => None,
        }
    }

    /// Builds a non-negative integer number.
    pub fn from_u64(v: u64) -> (r: Number)
        ensures
            r@ == NumberV::PosInt(v),
            number_wf(r@),
    {
        Number { n: N::PosInt(v) }
    }

    /// Builds an integer number, choosing the signed or unsigned variant by
    /// sign.
    pub fn from_i64(v: i64) -> (r: Number)
        ensures
            r@ == if v < 0 {
                NumberV::NegInt(v)
            } else {
                NumberV::PosInt(v as u64)
            },
            number_wf(r@),
    {
        if v < 0 {
            Number { n: N::NegInt(v) }
        } else {
            Number { n: N::PosInt(v as u64) }
        }
    }
}


/// Trailing zeros of the significand are folded into the exponent, so that
/// equal magnitudes have equal representations.
pub open spec fn spec_normalize(sig: u64, exp: int) -> (u64, int)
    decreases sig,
{
    if sig == 0 {
        (0u64, 0int)
    } else if sig % 10 == 0 {
        spec_normalize((sig / 10) as u64, exp + 1)
    } else {
        (sig, exp)
    }
}

/// Powers of ten grow with the exponent and are at least one.
pub proof fn lemma_pow10_le(a: nat, b: nat)
    requires
        a <= b,
    ensures
        pow10(a) <= pow10(b),
        pow10(a) >= 1,
    decreases b,
{
    if b > 0 {
        if a == b {
            lemma_pow10_le(0, (b - 1) as nat);
        } else {
            lemma_pow10_le(a, (b - 1) as nat);
        }
    }
}

/// Ten to the nineteenth still fits in sixty-four bits.
pub proof fn lemma_pow10_19()
    ensures
        pow10(19) == 10000000000000000000,
{
    assert(pow10(19) == 10000000000000000000) by {
        reveal_with_fuel(pow10, 21);
    };
}

/// Ten to the `k`th power, executably; the result fits below two to the
/// sixty-fourth.
pub fn pow10_exec(k: u64) -> (r: u64)
    requires
        k <= 19,
    ensures
        r == pow10(k as nat),
{
    proof {
        lemma_pow10_19();
    }
    let mut r: u64 = 1;
    let mut i: u64 = 0;
    while i < k
        invariant
            i <= k <= 19,
            r == pow10(i as nat),
            pow10(19) == 10000000000000000000,
        decreases k - i,
    {
        proof {
            lemma_pow10_le((i + 1) as nat, 19);
            assert(pow10((i + 1) as nat) == 10 * pow10(i as nat));
        }
        r = r * 10;
        i = i + 1;
    }
    r
}

/// The number of decimal digits, executably.
pub fn ndigits_exec(n: u64) -> (r: u64)
    ensures
        r == ndigits(n as nat),
        1 <= r <= 20,
{
    proof {
        lemma_ndigits_le_20(n as nat);
    }
    let mut m: u64 = n;
    let mut r: u64 = 1;
    while m >= 10
        invariant
            ndigits(n as nat) == ndigits(m as nat) + r - 1,
            r >= 1,
            ndigits(m as nat) >= 1,
            ndigits(n as nat) <= 20,
        decreases m,
    {
        m = m / 10;
        r = r + 1;
    }
    r
}

/// No sixty-four-bit value has more than twenty decimal digits.
pub proof fn lemma_ndigits_le_20(n: nat)
    requires
        n < 0x10000000000000000,
    ensures
        ndigits(n) <= 20,
{
    lemma_pow10_19();
    assert(pow10(20) == 10 * pow10(19));
    lemma_ndigits_at_most(n, 20);
}

/// A value below ten to the `d`th power has at most `d` digits.
pub proof fn lemma_ndigits_at_most(n: nat, d: nat)
    requires
        d >= 1,
        n < pow10(d),
    ensures
        ndigits(n) <= d,
    decreases d,
{
    if n >= 10 {
        assert(pow10(d) == 10 * pow10((d - 1) as nat));
        lemma_ndigits_at_most(n / 10, (d - 1) as nat);
    }
}

/// The digit count brackets the value between two powers of ten.
pub proof fn lemma_ndigits_bounds(n: nat)
    requires
        n >= 1,
    ensures
        pow10((ndigits(n) - 1) as nat) <= n < pow10(ndigits(n)),
    decreases n,
{
    if n < 10 {
    } else {
        lemma_ndigits_bounds(n / 10);
        assert(pow10(ndigits(n / 10)) == pow10((ndigits(n) - 1) as nat));
        assert(n < 10 * (n / 10) + 10);
        assert(n >= 10 * (n / 10)) by (nonlinear_arith);
        assert(10 * (n / 10) >= 10 * pow10((ndigits(n / 10) - 1) as nat)) by (nonlinear_arith)
            requires
                n / 10 >= pow10((ndigits(n / 10) - 1) as nat),
        ;
        assert(10 * (n / 10) + 10 <= 10 * pow10(ndigits(n / 10))) by (nonlinear_arith)
            requires
                n / 10 < pow10(ndigits(n / 10)),
        ;
    }
}

/// Whether `sig * 10^exp` lies within the accepted floating range,
/// executably.
pub fn dec_in_range_exec(sig: u64, exp: i64) -> (r: bool)
    ensures
        r == dec_in_range(sig, exp as int),
{
    if sig == 0 {
        return true;
    }
    if exp > 400 || exp < -400 {
        proof {
            lemma_ndigits_le_20(sig as nat);
        }
        return false;
    }
    let d = ndigits_exec(sig);
    let e1: i64 = (d as i64) - 1 + exp;
    if e1 > 308 || e1 < -323 {
        return false;
    }
    if e1 < 308 {
        return true;
    }
    proof {
        lemma_ndigits_bounds(sig as nat);
        lemma_pow10_19();
    }
    if d <= 17 {
        let p = pow10_exec(17 - d);
        proof {
            lemma_pow10_le((d - 1) as nat, 19);
            lemma_pow10_le((17 - d) as nat, 19);
            assert(sig * p < pow10(d as nat) * pow10((17 - d) as nat)) by (nonlinear_arith)
                requires
                    sig < pow10(d as nat),
                    p == pow10((17 - d) as nat),
                    p >= 1,
            ;
            lemma_pow10_mul((d) as nat, (17 - d) as nat);
            lemma_pow10_le(17, 19);
        }
        sig * p <= MAX_FLOAT_SIG
    } else {
        let p = pow10_exec(d - 17);
        proof {
            lemma_pow10_le((d - 17) as nat, 3);
            assert(pow10(3) == 1000) by {
                reveal_with_fuel(pow10, 5);
            };
        }
        sig <= MAX_FLOAT_SIG * p
    }
}

/// Powers of ten multiply by adding exponents.
pub proof fn lemma_pow10_mul(a: nat, b: nat)
    ensures
        pow10(a) * pow10(b) == pow10(a + b),
    decreases a,
{
    if a > 0 {
        lemma_pow10_mul((a - 1) as nat, b);
        assert(pow10(a) == 10 * pow10((a - 1) as nat));
        assert(pow10((a + b) as nat) == 10 * pow10((a + b - 1) as nat));
        assert(pow10(a) * pow10(b) == 10 * (pow10((a - 1) as nat) * pow10(b))) by (nonlinear_arith)
            requires
                pow10(a) == 10 * pow10((a - 1) as nat),
        ;
        assert((a - 1) + b == a + b - 1);
    } else {
        assert(pow10(0nat) == 1);
    }
}

/// Builds a floating number from its decimal parts, normalizing trailing
/// zeros into the exponent; absent when the magnitude lies outside the
/// accepted floating range.
pub fn number_from_decimal(neg: bool, sig: u64, exp: i64) -> (r: Option<Number>)
    ensures
        ({
            let norm = spec_normalize(sig, exp as int);
            &&& (r is Some <==> (dec_in_range(norm.0, norm.1) && i64::MIN <= norm.1
                <= i64::MAX))
            &&& (r matches Some(n) ==> n@ == NumberV::Float(neg, norm.0, norm.1 as i64)
                && number_wf(n@))
        }),
{
    let mut s: u64 = sig;
    let mut e: i64 = exp;
    if s == 0 {
        return Some(Number { n: N::Float(neg, 0, 0) });
    }
    if e > i64::MAX - 20 {
        proof {
            lemma_normalize_exp_grows(sig, exp as int);
            let norm = spec_normalize(sig, exp as int);
            assert(ndigits(norm.0 as nat) >= 1);
            assert(!dec_in_range(norm.0, norm.1));
        }
        return None;
    }
    proof {
        lemma_ndigits_le_20(sig as nat);
    }
    while s % 10 == 0 && s != 0
        invariant
            spec_normalize(sig, exp as int) == spec_normalize(s, e as int),
            s != 0 ==> e <= exp + 20 - ndigits(s as nat),
            s <= sig,
            exp <= i64::MAX - 20,
            ndigits(s as nat) >= 1,
            s != 0,
        decreases s,
    {
        proof {
            assert(ndigits((s / 10) as nat) == ndigits(s as nat) - 1) by {
                assert(s >= 10) by {
                    assert(s % 10 == 0 && s != 0);
                };
            };
        }
        s = s / 10;
        e = e + 1;
    }
    let ok = dec_in_range_exec(s, e);
    if ok {
        Some(Number { n: N::Float(neg, s, e) })
    } else {
        None
    }
}

/// Normalization never lowers a nonzero value's exponent, keeps the
/// significand nonzero, and never grows it.
pub proof fn lemma_normalize_exp_grows(sig: u64, exp: int)
    requires
        sig != 0,
    ensures
        spec_normalize(sig, exp).1 >= exp,
        0 < spec_normalize(sig, exp).0 <= sig,
    decreases sig,
{
    if sig % 10 == 0 {
        lemma_normalize_exp_grows((sig / 10) as u64, exp + 1);
    }
}

/// Equal models mean equal numbers: the view loses nothing.
pub proof fn lemma_number_view_injective(a: Number, b: Number)
    requires
        a@ == b@,
    ensures
        a == b,
{
}

impl From<u64> for Number {
    fn from(v: u64) -> (r: Number) {
        Number::from_u64(v)
    }
}

impl vstd::std_specs::convert::FromSpecImpl<u64> for Number {
    open spec fn obeys_from_spec() -> bool {
        true
    }

    closed spec fn from_spec(v: u64) -> Number {
        Number { n: N::PosInt(v) }
    }
}

impl From<i64> for Number {
    fn from(v: i64) -> (r: Number) {
        Number::from_i64(v)
    }
}

impl vstd::std_specs::convert::FromSpecImpl<i64> for Number {
    open spec fn obeys_from_spec() -> bool {
        true
    }

    closed spec fn from_spec(v: i64) -> Number {
        if v < 0 {
            Number { n: N::NegInt(v) }
        } else {
            Number { n: N::PosInt(v as u64) }
        }
    }
}

} // verus!
