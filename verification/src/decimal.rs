use vstd::prelude::*;
use crate::text::{chars_of, eq_ignore_case, eq_ignore_case_vec, find_char, slice_chars};

verus! {

/// Largest magnitude of a [`Decimal`]'s scale: every number whose decimal
/// exponent lies beyond it is far outside the range of a double.
pub const SCALE_LIMIT: i64 = 100_000;

/// Largest number of significant digits a [`Decimal`] keeps; a number written
/// with more is rounded to this many, half up.
pub const MAX_DIGITS: usize = 19;

/// An exact decimal number `(-1)^negative * mantissa * 10^(-scale)`.
///
/// Profile text writes frequencies, gains and Q values in decimal notation;
/// this type holds them exactly, so that every range check below is a
/// comparison of rationals.
#[derive(Debug, Clone, Copy, PartialEq, Eq, Structural)]
pub struct Decimal {
    pub negative: bool,
    pub mantissa: u64,
    pub scale: i64,
}

/// A number as `f64::from_str` reads it: finite, infinite, or not a number,
/// each with the sign it was written with.
#[derive(Debug, Clone, Copy, PartialEq, Eq, Structural)]
pub enum Number {
    Finite(Decimal),
    Infinite(bool),
    NotANumber(bool),
}

pub open spec fn pow10(n: nat) -> nat
    decreases n,
{
    if n == 0 {
        1
    } else {
        10 * pow10((n - 1) as nat)
    }
}

impl Decimal {
    pub open spec fn wf(self) -> bool {
        -SCALE_LIMIT <= self.scale <= SCALE_LIMIT
    }

    /// The mantissa with its sign.
    pub open spec fn num(self) -> int {
        if self.negative {
            -(self.mantissa as int)
        } else {
            self.mantissa as int
        }
    }
}

impl Number {
    pub open spec fn wf(self) -> bool {
        match self {
            Number::Finite(d) => d.wf(),
            _ => true,
        }
    }
}

/// The larger of two scales: both numbers are whole multiples of its unit.
pub open spec fn common_scale(a: Decimal, b: Decimal) -> int {
    if a.scale >= b.scale {
        a.scale as int
    } else {
        b.scale as int
    }
}

/// The value times `10^k`, for `k` at least the number's scale.
pub open spec fn at_scale(a: Decimal, k: int) -> int {
    a.num() * pow10((k - a.scale) as nat)
}

/// `a < b` as rational numbers.
pub open spec fn dec_lt(a: Decimal, b: Decimal) -> bool {
    at_scale(a, common_scale(a, b)) < at_scale(b, common_scale(a, b))
}

/// `a <= b` as rational numbers.
pub open spec fn dec_le(a: Decimal, b: Decimal) -> bool {
    at_scale(a, common_scale(a, b)) <= at_scale(b, common_scale(a, b))
}

/// `a == b` as rational numbers.
pub open spec fn dec_eq(a: Decimal, b: Decimal) -> bool {
    at_scale(a, common_scale(a, b)) == at_scale(b, common_scale(a, b))
}

/// `lo <= x <= hi` as rational numbers.
pub open spec fn dec_within(x: Decimal, lo: Decimal, hi: Decimal) -> bool {
    dec_le(lo, x) && dec_le(x, hi)
}

/// A finite number between two bounds, both included: an infinity or a
/// NaN lies within no bounds.
pub open spec fn num_within(x: Number, lo: Decimal, hi: Decimal) -> bool {
    match x {
        Number::Finite(d) => dec_within(d, lo, hi),
        _ => false,
    }
}

/// The value of a finite number (zero for the others).
pub open spec fn finite_value(x: Number) -> Decimal {
    match x {
        Number::Finite(d) => d,
        _ => Decimal { negative: false, mantissa: 0, scale: 0 },
    }
}

pub proof fn lemma_pow10_positive(n: nat)
    ensures
        pow10(n) >= 1,
    decreases n,
{
    if n > 0 {
        lemma_pow10_positive((n - 1) as nat);
    }
}

pub proof fn lemma_pow10_monotone(a: nat, b: nat)
    requires
        a <= b,
    ensures
        pow10(a) <= pow10(b),
    decreases b,
{
    if a < b {
        lemma_pow10_monotone(a, (b - 1) as nat);
        lemma_pow10_positive((b - 1) as nat);
    }
}

pub proof fn lemma_pow10_add(a: nat, b: nat)
    ensures
        pow10(a + b) == pow10(a) * pow10(b),
    decreases b,
{
    if b > 0 {
        let b1 = (b - 1) as nat;
        lemma_pow10_add(a, b1);
        assert((a + b - 1) as nat == a + b1);
        assert(pow10(a + b) == 10 * pow10(a + b1));
        assert(pow10(b) == 10 * pow10(b1));
        let x = pow10(a) as int;
        let y = pow10(b1) as int;
        assert(x * (10 * y) == 10 * (x * y)) by (nonlinear_arith);
    } else {
        assert(pow10(0) == 1);
        assert(a + b == a);
    }
}

pub proof fn lemma_pow10_20()
    ensures
        pow10(20) == 100_000_000_000_000_000_000,
{
    reveal_with_fuel(pow10, 21);
}

proof fn lemma_pow10_19()
    ensures
        pow10(19) == 10_000_000_000_000_000_000,
{
    reveal_with_fuel(pow10, 20);
}

/// Moving to a finer unit multiplies the value by a power of ten.
pub proof fn lemma_at_scale_shift(a: Decimal, k: int, j: nat)
    requires
        k >= a.scale,
    ensures
        at_scale(a, k + j) == at_scale(a, k) * pow10(j),
{
    lemma_pow10_add((k - a.scale) as nat, j);
    assert(((k + j) - a.scale) as nat == (k - a.scale) as nat + j);
    assert(a.num() * (pow10((k - a.scale) as nat) * pow10(j)) == (a.num() * pow10(
        (k - a.scale) as nat,
    )) * pow10(j)) by (nonlinear_arith);
}

/// The order of two numbers can be read at any unit fine enough for both.
pub proof fn lemma_compare_at(a: Decimal, b: Decimal, k: int)
    requires
        k >= a.scale,
        k >= b.scale,
    ensures
        dec_le(a, b) <==> at_scale(a, k) <= at_scale(b, k),
        dec_lt(a, b) <==> at_scale(a, k) < at_scale(b, k),
        dec_eq(a, b) <==> at_scale(a, k) == at_scale(b, k),
{
    let c = common_scale(a, b);
    let j = (k - c) as nat;
    lemma_at_scale_shift(a, c, j);
    lemma_at_scale_shift(b, c, j);
    lemma_pow10_positive(j);
    let x = at_scale(a, c);
    let y = at_scale(b, c);
    let p = pow10(j) as int;
    assert(c + j == k);
    assert(x <= y <==> x * p <= y * p) by (nonlinear_arith)
        requires
            p >= 1,
    ;
    assert(x < y <==> x * p < y * p) by (nonlinear_arith)
        requires
            p >= 1,
    ;
    assert(x == y <==> x * p == y * p) by (nonlinear_arith)
        requires
            p >= 1,
    ;
}

fn pow10_exec(n: u32) -> (r: u128)
    requires
        n <= 38,
    ensures
        r == pow10(n as nat),
{
    let mut r: u128 = 1;
    let mut i: u32 = 0;
    proof {
        assert(pow10(38) == 100_000_000_000_000_000_000_000_000_000_000_000_000) by {
            reveal_with_fuel(pow10, 39);
        }
    }
    while i < n
        invariant
            i <= n <= 38,
            r == pow10(i as nat),
            pow10(38) == 100_000_000_000_000_000_000_000_000_000_000_000_000,
        decreases n - i,
    {
        proof {
            lemma_pow10_monotone((i + 1) as nat, 38);
        }
        r = r * 10;
        i += 1;
    }
    r
}

/// Compares the magnitudes `|a|` and `|b|` of two nonzero numbers: -1, 0 or 1.
fn compare_magnitude(a: Decimal, b: Decimal) -> (r: i8)
    requires
        a.wf(),
        b.wf(),
    ensures
        ({
            let c = common_scale(a, b);
            let x = a.mantissa * pow10((c - a.scale) as nat);
            let y = b.mantissa * pow10((c - b.scale) as nat);
            &&& r == -1 <==> x < y
            &&& r == 0 <==> x == y
            &&& r == 1 <==> x > y
        }),
{
    let ghost c = common_scale(a, b);
    let ghost x = a.mantissa * pow10((c - a.scale) as nat);
    let ghost y = b.mantissa * pow10((c - b.scale) as nat);
    if a.scale - b.scale >= 20 {
        proof {
            let d = (a.scale - b.scale) as nat;
            lemma_pow10_monotone(20, d);
            lemma_pow10_20();
            assert(c == a.scale);
            assert(pow10(0) == 1);
            assert(x == a.mantissa * 1);
            if b.mantissa > 0 {
                assert(y >= pow10(d)) by (nonlinear_arith)
                    requires
                        y == b.mantissa * pow10(d),
                        b.mantissa >= 1,
                ;
            } else {
                assert(y == 0);
            }
        }
        if b.mantissa == 0 {
            return if a.mantissa == 0 {
                0
            } else {
                1
            };
        }
        return -1;
    }
    if b.scale - a.scale >= 20 {
        proof {
            let d = (b.scale - a.scale) as nat;
            lemma_pow10_monotone(20, d);
            lemma_pow10_20();
            assert(c == b.scale);
            assert(pow10(0) == 1);
            assert(y == b.mantissa * 1);
            if a.mantissa > 0 {
                assert(x >= pow10(d)) by (nonlinear_arith)
                    requires
                        x == a.mantissa * pow10(d),
                        a.mantissa >= 1,
                ;
            } else {
                assert(x == 0);
            }
        }
        if a.mantissa == 0 {
            return if b.mantissa == 0 {
                0
            } else {
                -1
            };
        }
        return 1;
    }
    let c_exec: i64 = if a.scale >= b.scale {
        a.scale
    } else {
        b.scale
    };
    let pa = pow10_exec((c_exec - a.scale) as u32);
    let pb = pow10_exec((c_exec - b.scale) as u32);
    proof {
        lemma_pow10_monotone((c - a.scale) as nat, 19);
        lemma_pow10_monotone((c - b.scale) as nat, 19);
        lemma_pow10_19();
        assert(a.mantissa * pa <= 0xffff_ffff_ffff_ffffu64 * 10_000_000_000_000_000_000u128)
            by (nonlinear_arith)
            requires
                pa <= 10_000_000_000_000_000_000u128,
        ;
        assert(b.mantissa * pb <= 0xffff_ffff_ffff_ffffu64 * 10_000_000_000_000_000_000u128)
            by (nonlinear_arith)
            requires
                pb <= 10_000_000_000_000_000_000u128,
        ;
    }
    let ma: u128 = (a.mantissa as u128) * pa;
    let mb: u128 = (b.mantissa as u128) * pb;
    if ma < mb {
        -1
    } else if ma == mb {
        0
    } else {
        1
    }
}

/// Sign of the rational `a - b`: -1, 0 or 1.
pub fn compare(a: Decimal, b: Decimal) -> (r: i8)
    requires
        a.wf(),
        b.wf(),
    ensures
        r == -1 <==> dec_lt(a, b),
        r == 0 <==> dec_eq(a, b),
        r == 1 <==> dec_lt(b, a),
{
    let mag = compare_magnitude(a, b);
    let ghost c = common_scale(a, b);
    let ghost pa = pow10((c - a.scale) as nat) as int;
    let ghost pb = pow10((c - b.scale) as nat) as int;
    let ghost x = a.mantissa * pa;
    let ghost y = b.mantissa * pb;
    proof {
        lemma_pow10_positive((c - a.scale) as nat);
        lemma_pow10_positive((c - b.scale) as nat);
        assert(common_scale(b, a) == c);
        assert(at_scale(a, c) == (if a.negative { -x } else { x })) by (nonlinear_arith)
            requires
                at_scale(a, c) == a.num() * pa,
                x == a.mantissa * pa,
                a.num() == (if a.negative { -(a.mantissa as int) } else { a.mantissa as int }),
        ;
        assert(at_scale(b, c) == (if b.negative { -y } else { y })) by (nonlinear_arith)
            requires
                at_scale(b, c) == b.num() * pb,
                y == b.mantissa * pb,
                b.num() == (if b.negative { -(b.mantissa as int) } else { b.mantissa as int }),
        ;
        assert(a.mantissa == 0 <==> x == 0) by (nonlinear_arith)
            requires
                x == a.mantissa * pa,
                pa >= 1,
        ;
        assert(b.mantissa == 0 <==> y == 0) by (nonlinear_arith)
            requires
                y == b.mantissa * pb,
                pb >= 1,
        ;
        assert(x >= 0 && y >= 0) by (nonlinear_arith)
            requires
                x == a.mantissa * pa,
                y == b.mantissa * pb,
                pa >= 1,
                pb >= 1,
        ;
    }
    let sa: i8 = if a.mantissa == 0 {
        0
    } else if a.negative {
        -1
    } else {
        1
    };
    let sb: i8 = if b.mantissa == 0 {
        0
    } else if b.negative {
        -1
    } else {
        1
    };
    if sa != sb {
        if sa < sb {
            -1
        } else {
            1
        }
    } else if sa == 0 {
        0
    } else if sa == 1 {
        mag
    } else {
        -mag
    }
}

/// `lo <= x <= hi`.
pub fn within(x: Decimal, lo: Decimal, hi: Decimal) -> (r: bool)
    requires
        x.wf(),
        lo.wf(),
        hi.wf(),
    ensures
        r == dec_within(x, lo, hi),
{
    let a = compare(lo, x);
    let b = compare(x, hi);
    a <= 0 && b <= 0
}

/// `lo <= x <= hi` for a number read from text (see [`num_within`]).
pub fn number_within(x: Number, lo: Decimal, hi: Decimal) -> (r: bool)
    requires
        x.wf(),
        lo.wf(),
        hi.wf(),
    ensures
        r == num_within(x, lo, hi),
{
    match x {
        Number::Finite(d) => within(d, lo, hi),
        _ => false,
    }
}

/// Where a number falls in the total order that `f64::total_cmp` gives:
/// negative NaNs, negative infinity, finite numbers, infinity, NaNs.
pub open spec fn num_rank(x: Number) -> int {
    match x {
        Number::NotANumber(true) => 0,
        Number::Infinite(true) => 1,
        Number::Finite(_) => 2,
        Number::Infinite(false) => 3,
        Number::NotANumber(false) => 4,
    }
}

/// `a` comes no later than `b` in that order; finite numbers by value.
pub open spec fn num_le(a: Number, b: Number) -> bool {
    if num_rank(a) != num_rank(b) {
        num_rank(a) < num_rank(b)
    } else {
        match (a, b) {
            (Number::Finite(x), Number::Finite(y)) => dec_le(x, y),
            _ => true,
        }
    }
}

/// `a` comes strictly before `b` in that order.
pub open spec fn num_lt(a: Number, b: Number) -> bool {
    !num_le(b, a)
}

/// Whether a number is zero or less: a finite one by value, negative
/// infinity, and no NaN.
pub open spec fn num_nonpositive(x: Number) -> bool {
    match x {
        Number::Finite(d) => dec_le(d, Decimal { negative: false, mantissa: 0, scale: 0 }),
        Number::Infinite(negative) => negative,
        Number::NotANumber(_) => false,
    }
}

fn rank_of(x: Number) -> (r: u8)
    ensures
        r == num_rank(x),
{
    match x {
        Number::NotANumber(true) => 0,
        Number::Infinite(true) => 1,
        Number::Finite(_) => 2,
        Number::Infinite(false) => 3,
        Number::NotANumber(false) => 4,
    }
}

/// Whether `a` comes strictly after `b` (see [`num_le`]).
pub fn number_after_other(a: Number, b: Number) -> (r: bool)
    requires
        a.wf(),
        b.wf(),
    ensures
        r == !num_le(a, b),
{
    let ra = rank_of(a);
    let rb = rank_of(b);
    if ra != rb {
        return ra > rb;
    }
    match (a, b) {
        (Number::Finite(x), Number::Finite(y)) => compare(x, y) > 0,
        _ => false,
    }
}

/// Whether a number is zero or less (see [`num_nonpositive`]).
pub fn number_nonpositive(x: Number) -> (r: bool)
    requires
        x.wf(),
    ensures
        r == num_nonpositive(x),
{
    match x {
        Number::Finite(d) => compare(d, Decimal { negative: false, mantissa: 0, scale: 0 }) <= 0,
        Number::Infinite(negative) => negative,
        Number::NotANumber(_) => false,
    }
}

// ---------------------------------------------------------------------------
// The number grammar that `f64::from_str` accepts for finite decimal notation:
//   Sign? ( Digit+ | Digit+ '.' Digit* | Digit* '.' Digit+ ) ( ('e'|'E') Sign? Digit+ )?

pub open spec fn is_digit(c: char) -> bool {
    '0' <= c && c <= '9'
}

pub open spec fn digit_value(c: char) -> nat {
    ((c as u32) - ('0' as u32)) as nat
}

pub open spec fn all_digits(s: Seq<char>) -> bool {
    forall|i: int| 0 <= i < s.len() ==> is_digit(#[trigger] s[i])
}

/// The natural number that a digit string spells.
pub open spec fn digits_value(s: Seq<char>) -> nat
    decreases s.len(),
{
    if s.len() == 0 {
        0
    } else {
        digits_value(s.drop_last()) * 10 + digit_value(s.last())
    }
}

pub open spec fn sign_len(s: Seq<char>) -> nat {
    if s.len() > 0 && (s[0] == '+' || s[0] == '-') {
        1
    } else {
        0
    }
}

pub open spec fn is_exp_mark(c: char) -> bool {
    c == 'e' || c == 'E'
}

/// Index of the first exponent mark, or the length when there is none.
pub open spec fn find_exp(s: Seq<char>) -> nat
    decreases s.len(),
{
    if s.len() == 0 {
        0
    } else if is_exp_mark(s[0]) {
        0
    } else {
        1 + find_exp(s.drop_first())
    }
}

/// The signed integer an exponent spells (`Sign? Digit+`).
pub open spec fn exponent_value(t: Seq<char>) -> Option<int> {
    let d = t.skip(sign_len(t) as int);
    if d.len() >= 1 && all_digits(d) {
        Some(
            if sign_len(t) == 1 && t[0] == '-' {
                -(digits_value(d) as int)
            } else {
                digits_value(d) as int
            },
        )
    } else {
        None
    }
}

/// The parts of a finite number: its sign, its digits without the point, the
/// number of digits after the point, and the exponent.
pub open spec fn number_parts(s: Seq<char>) -> Option<(bool, Seq<char>, nat, int)> {
    let negative = s.len() > 0 && s[0] == '-';
    let body = s.skip(sign_len(s) as int);
    let e = find_exp(body);
    let mant = body.take(e as int);
    let p = find_char(mant, '.');
    let int_part = mant.take(p as int);
    let frac = if p < mant.len() {
        mant.skip((p + 1) as int)
    } else {
        Seq::<char>::empty()
    };
    let exponent = if e < body.len() {
        exponent_value(body.skip((e + 1) as int))
    } else {
        Some(0int)
    };
    if all_digits(int_part) && all_digits(frac) && int_part.len() + frac.len() >= 1
        && exponent is Some {
        Some((negative, int_part + frac, frac.len(), exponent->0))
    } else {
        None
    }
}

/// The number of `0` characters a string starts with.
pub open spec fn leading_zeros(s: Seq<char>) -> nat
    decreases s.len(),
{
    if s.len() > 0 && s[0] == '0' {
        1 + leading_zeros(s.drop_first())
    } else {
        0
    }
}

/// The number of `0` characters a string ends with.
pub open spec fn trailing_zeros(s: Seq<char>) -> nat
    decreases s.len(),
{
    if s.len() > 0 && s.last() == '0' {
        1 + trailing_zeros(s.drop_last())
    } else {
        0
    }
}

/// A digit string of significant digits rounded half up to at most
/// [`MAX_DIGITS`] digits: the kept value and the number of digits dropped.
pub open spec fn rounded(core: Seq<char>) -> (nat, nat) {
    if core.len() <= MAX_DIGITS {
        (digits_value(core), 0)
    } else {
        (
            digits_value(core.take(MAX_DIGITS as int)) + (if digit_value(core[MAX_DIGITS as int])
                >= 5 {
                1nat
            } else {
                0nat
            }),
            (core.len() - MAX_DIGITS) as nat,
        )
    }
}


/// The magnitude from which a double reads a number as infinite: halfway
/// between the largest double and `2^1024`, that is `2^1024 - 2^970`, to 19
/// significant digits.
pub open spec fn overflow_threshold() -> Decimal {
    Decimal { negative: false, mantissa: 1797693134862315808, scale: -290i64 }
}

fn overflow_threshold_exec() -> (r: Decimal)
    ensures
        r == overflow_threshold(),
{
    Decimal { negative: false, mantissa: 1797693134862315808, scale: -290i64 }
}

/// The magnitude up to which a double reads a number as zero: half the
/// smallest subnormal double, `2^-1075`, to 19 significant digits.
pub open spec fn underflow_threshold() -> Decimal {
    Decimal { negative: false, mantissa: 2470328229206232721, scale: 342 }
}

fn underflow_threshold_exec() -> (r: Decimal)
    ensures
        r == underflow_threshold(),
{
    Decimal { negative: false, mantissa: 2470328229206232721, scale: 342 }
}

/// The number `(-1)^negative * digits * 10^(exponent - frac_len)`.
///
/// Leading and trailing zeros of the digits are not significant; more than
/// [`MAX_DIGITS`] significant digits are rounded half up to that many. As a
/// double reads it, a value of magnitude at least [`overflow_threshold`] is
/// infinite and one of magnitude at most [`underflow_threshold`] is zero.
pub open spec fn number_from_parts(
    negative: bool,
    digits: Seq<char>,
    frac_len: nat,
    exponent: int,
) -> Number {
    let t = digits.skip(leading_zeros(digits) as int);
    let tz = trailing_zeros(t);
    let core = t.take(t.len() - tz);
    let zero = Number::Finite(Decimal { negative, mantissa: 0, scale: 0 });
    if core.len() == 0 {
        zero
    } else {
        let (m, dropped) = rounded(core);
        let e = exponent - frac_len + tz + dropped;
        let magnitude = Decimal { negative: false, mantissa: m as u64, scale: (-e) as i64 };
        if e > SCALE_LIMIT {
            Number::Infinite(negative)
        } else if e < -SCALE_LIMIT {
            zero
        } else if dec_le(overflow_threshold(), magnitude) {
            Number::Infinite(negative)
        } else if dec_le(magnitude, underflow_threshold()) {
            zero
        } else {
            Number::Finite(Decimal { negative, mantissa: m as u64, scale: (-e) as i64 })
        }
    }
}

/// The spellings of an infinity or a NaN: `inf`, `infinity` or `nan` in any
/// case, after an optional sign.
pub open spec fn special_number(s: Seq<char>) -> Option<Number> {
    let negative = s.len() > 0 && s[0] == '-';
    let t = s.skip(sign_len(s) as int);
    if eq_ignore_case(t, "inf"@) || eq_ignore_case(t, "infinity"@) {
        Some(Number::Infinite(negative))
    } else if eq_ignore_case(t, "nan"@) {
        Some(Number::NotANumber(negative))
    } else {
        None
    }
}

/// The number that a token spells as `f64::from_str` reads it, or `None`
/// when the token is not a number.
pub open spec fn parse_number(s: Seq<char>) -> Option<Number> {
    match special_number(s) {
        Some(x) => Some(x),
        None => match number_parts(s) {
            None => None,
            Some((negative, digits, frac_len, exponent)) => Some(
                number_from_parts(negative, digits, frac_len, exponent),
            ),
        },
    }
}

pub proof fn lemma_digits_push(s: Seq<char>, c: char)
    ensures
        digits_value(s.push(c)) == digits_value(s) * 10 + digit_value(c),
{
    assert(s.push(c).drop_last() =~= s);
}

pub proof fn lemma_digits_bound(s: Seq<char>)
    requires
        all_digits(s),
    ensures
        digits_value(s) < pow10(s.len()),
    decreases s.len(),
{
    if s.len() > 0 {
        assert(all_digits(s.drop_last())) by {
            assert forall|i: int| 0 <= i < s.drop_last().len() implies is_digit(
                #[trigger] s.drop_last()[i],
            ) by {
                assert(s.drop_last()[i] == s[i]);
            }
        }
        lemma_digits_bound(s.drop_last());
        assert(is_digit(s[s.len() - 1]));
        assert(digit_value(s.last()) <= 9);
    }
}

pub proof fn lemma_find_exp_unique(s: Seq<char>, i: int)
    requires
        0 <= i <= s.len(),
        forall|j: int| 0 <= j < i ==> !is_exp_mark(#[trigger] s[j]),
        i < s.len() ==> is_exp_mark(s[i]),
    ensures
        find_exp(s) == i,
    decreases s.len(),
{
    if i > 0 {
        assert(!is_exp_mark(s[0]));
        assert forall|j: int| 0 <= j < i - 1 implies !is_exp_mark(#[trigger] s.drop_first()[j]) by {
            assert(s.drop_first()[j] == s[j + 1]);
        }
        lemma_find_exp_unique(s.drop_first(), i - 1);
    }
}

/// Appends the digits of `v[a..b]` to an accumulated value.
fn accumulate_digits(
    v: &Vec<char>,
    a: usize,
    b: usize,
    start: u64,
    Ghost(prefix): Ghost<Seq<char>>,
) -> (r: Option<u64>)
    requires
        a <= b <= v.len(),
        start == digits_value(prefix),
        all_digits(prefix),
        prefix.len() + (b - a) <= MAX_DIGITS,
    ensures
        r is Some <==> all_digits(v@.subrange(a as int, b as int)),
        r matches Some(x) ==> x == digits_value(prefix + v@.subrange(a as int, b as int)),
{
    let mut acc = start;
    let mut i = a;
    let ghost mut seen = prefix;
    while i < b
        invariant
            a <= i <= b <= v.len(),
            seen == prefix + v@.subrange(a as int, i as int),
            all_digits(seen),
            acc == digits_value(seen),
            prefix.len() + (b - a) <= MAX_DIGITS,
        decreases b - i,
    {
        let c = v[i];
        if !('0' <= c && c <= '9') {
            proof {
                assert(v@.subrange(a as int, b as int)[i - a] == c);
            }
            return None;
        }
        proof {
            lemma_digits_bound(seen);
            lemma_pow10_monotone(seen.len(), 18);
            assert(pow10(18) == 1_000_000_000_000_000_000) by {
                reveal_with_fuel(pow10, 19);
            }
            lemma_digits_push(seen, c);
        }
        let d = ((c as u32) - ('0' as u32)) as u64;
        acc = acc * 10 + d;
        proof {
            seen = seen.push(c);
            assert(seen == prefix + v@.subrange(a as int, i + 1));
            assert forall|j: int| 0 <= j < seen.len() implies is_digit(#[trigger] seen[j]) by {
                if j < seen.len() - 1 {
                    assert(seen[j] == seen.drop_last()[j]);
                }
            }
        }
        i += 1;
    }
    proof {
        assert forall|j: int| 0 <= j < b - a implies is_digit(
            #[trigger] v@.subrange(a as int, b as int)[j],
        ) by {
            assert(v@.subrange(a as int, b as int)[j] == seen[prefix.len() + j]);
        }
    }
    Some(acc)
}

/// Exponent magnitude at which reading stops: beyond it every nonzero number
/// written in a token of any length is out of range.
const EXPONENT_CAP: u128 = 100_000_000_000_000_000_000;

/// Reads `Sign? Digit+` from `v[a..]`, keeping its magnitude capped at
/// [`EXPONENT_CAP`].
fn read_exponent(v: &Vec<char>, a: usize) -> (r: Option<(bool, u128)>)
    requires
        a <= v.len(),
    ensures
        r is Some <==> exponent_value(v@.skip(a as int)) is Some,
        r matches Some((neg, m)) ==> {
            let t = v@.skip(a as int);
            let d = t.skip(sign_len(t) as int);
            &&& neg == (sign_len(t) == 1 && t[0] == '-')
            &&& m == (if digits_value(d) < EXPONENT_CAP {
                digits_value(d)
            } else {
                EXPONENT_CAP as nat
            })
        },
{
    let ghost t = v@.skip(a as int);
    let n = v.len();
    let sl: usize = if a < n && (v[a] == '+' || v[a] == '-') {
        1
    } else {
        0
    };
    let neg = a < n && v[a] == '-';
    let start = a + sl;
    proof {
        if a < n {
            assert(t[0] == v@[a as int]);
        }
        assert(sign_len(t) == sl);
    }
    let ghost d = t.skip(sl as int);
    proof {
        assert(d =~= v@.subrange(start as int, n as int));
    }
    if start >= n {
        return None;
    }
    let mut m: u128 = 0;
    let mut i = start;
    let ghost mut seen = Seq::<char>::empty();
    while i < n
        invariant
            start <= i <= n == v.len(),
            t == v@.skip(a as int),
            sign_len(t) == sl,
            start == a + sl,
            d == t.skip(sl as int),
            d == v@.subrange(start as int, n as int),
            seen == v@.subrange(start as int, i as int),
            all_digits(seen),
            m == (if digits_value(seen) < EXPONENT_CAP {
                digits_value(seen)
            } else {
                EXPONENT_CAP as nat
            }),
        decreases n - i,
    {
        let c = v[i];
        if !('0' <= c && c <= '9') {
            proof {
                assert(d[i - start] == c);
            }
            return None;
        }
        proof {
            lemma_digits_push(seen, c);
        }
        let dv = ((c as u32) - ('0' as u32)) as u128;
        if m < EXPONENT_CAP {
            let next = m * 10 + dv;
            m = if next < EXPONENT_CAP {
                next
            } else {
                EXPONENT_CAP
            };
        }
        proof {
            seen = seen.push(c);
            assert(seen == v@.subrange(start as int, i + 1));
            assert forall|j: int| 0 <= j < seen.len() implies is_digit(#[trigger] seen[j]) by {
                if j < seen.len() - 1 {
                    assert(seen[j] == seen.drop_last()[j]);
                }
            }
        }
        i += 1;
    }
    proof {
        assert(seen =~= d);
    }
    Some((neg, m))
}

/// Positions of the sign, the exponent mark and the point in a token.
fn number_layout(v: &Vec<char>) -> (r: (usize, usize, usize))
    ensures
        ({
            let (sl, e, p) = r;
            let body = v@.skip(sl as int);
            let mant = body.take((e - sl) as int);
            &&& sl <= p <= e <= v.len()
            &&& sl == sign_len(v@)
            &&& e - sl == find_exp(body)
            &&& p - sl == find_char(mant, '.')
            &&& mant == v@.subrange(sl as int, e as int)
            &&& mant.take(p - sl) == v@.subrange(sl as int, p as int)
            &&& p < e ==> mant.skip(p - sl + 1) == v@.subrange(p + 1, e as int)
            &&& e < v.len() ==> body.skip(e - sl + 1) == v@.skip(e + 1)
        }),
{
    let n = v.len();
    let sl: usize = if n > 0 && (v[0] == '+' || v[0] == '-') {
        1
    } else {
        0
    };
    let ghost body = v@.skip(sl as int);
    let mut e = sl;
    while e < n && !(v[e] == 'e' || v[e] == 'E')
        invariant
            sl <= e <= n == v.len(),
            forall|j: int| sl <= j < e ==> !is_exp_mark(#[trigger] v@[j]),
        decreases n - e,
    {
        e += 1;
    }
    proof {
        assert forall|j: int| 0 <= j < e - sl implies !is_exp_mark(#[trigger] body[j]) by {
            assert(body[j] == v@[sl + j]);
        }
        if e < n {
            assert(body[e - sl] == v@[e as int]);
        }
        lemma_find_exp_unique(body, (e - sl) as int);
    }
    let ghost mant = body.take((e - sl) as int);
    let mut p = sl;
    while p < e && v[p] != '.'
        invariant
            sl <= p <= e <= n == v.len(),
            forall|j: int| sl <= j < p ==> #[trigger] v@[j] != '.',
        decreases e - p,
    {
        p += 1;
    }
    proof {
        assert(mant =~= v@.subrange(sl as int, e as int));
        assert forall|j: int| 0 <= j < p - sl implies #[trigger] mant[j] != '.' by {
            assert(mant[j] == v@[sl + j]);
        }
        if p < e {
            assert(mant[p - sl] == v@[p as int]);
        }
        crate::text::lemma_find_char_unique(mant, '.', (p - sl) as int);
        assert(mant.take(p - sl) =~= v@.subrange(sl as int, p as int));
        if p < e {
            assert(mant.skip(p - sl + 1) =~= v@.subrange(p + 1, e as int));
        }
        if e < n {
            assert(body.skip(e - sl + 1) =~= v@.skip(e + 1));
        }
    }
    (sl, e, p)
}

/// A string of zeros spells zero.
pub proof fn lemma_zeros_value(s: Seq<char>)
    requires
        forall|j: int| 0 <= j < s.len() ==> #[trigger] s[j] == '0',
    ensures
        digits_value(s) == 0,
    decreases s.len(),
{
    if s.len() > 0 {
        assert forall|j: int| 0 <= j < s.drop_last().len() implies #[trigger] s.drop_last()[j]
            == '0' by {
            assert(s.drop_last()[j] == s[j]);
        }
        lemma_zeros_value(s.drop_last());
        assert(s.last() == s[s.len() - 1]);
    }
}

/// Leading zeros add nothing to a digit string's value.
pub proof fn lemma_skip_zeros_value(s: Seq<char>, n: int)
    requires
        0 <= n <= s.len(),
        forall|j: int| 0 <= j < n ==> #[trigger] s[j] == '0',
    ensures
        digits_value(s.skip(n)) == digits_value(s),
    decreases s.len(),
{
    if s.len() == n {
        assert(s.skip(n) =~= Seq::<char>::empty());
        lemma_zeros_value(s);
    } else {
        let t = s.drop_last();
        assert forall|j: int| 0 <= j < n implies #[trigger] t[j] == '0' by {
            assert(t[j] == s[j]);
        }
        lemma_skip_zeros_value(t, n);
        assert(s.skip(n).drop_last() =~= t.skip(n));
        assert(s.skip(n).last() == s.last());
    }
}

/// Trailing zeros multiply a digit string's value by a power of ten.
pub proof fn lemma_trailing_zeros_value(s: Seq<char>, z: int)
    requires
        0 <= z <= s.len(),
        forall|j: int| s.len() - z <= j < s.len() ==> #[trigger] s[j] == '0',
    ensures
        digits_value(s) == digits_value(s.take(s.len() - z)) * pow10(z as nat),
    decreases z,
{
    if z == 0 {
        assert(s.take(s.len() - z) =~= s);
        assert(pow10(0) == 1);
        assert(digits_value(s) * 1 == digits_value(s));
    } else {
        let t = s.drop_last();
        assert forall|j: int| t.len() - (z - 1) <= j < t.len() implies #[trigger] t[j] == '0' by {
            assert(t[j] == s[j]);
        }
        lemma_trailing_zeros_value(t, z - 1);
        assert(t.take(t.len() - (z - 1)) =~= s.take(s.len() - z));
        assert(s.last() == s[s.len() - 1]);
        assert(digit_value(s.last()) == 0);
        let v = digits_value(s.take(s.len() - z)) as int;
        let p = pow10((z - 1) as nat) as int;
        assert(pow10(z as nat) == 10 * p);
        assert((v * p) * 10 == v * (10 * p)) by (nonlinear_arith);
        assert(digits_value(s) == digits_value(t) * 10 + digit_value(s.last()));
        assert(digits_value(t) == v * p);
        assert(digits_value(s) == v * (10 * p));
        assert(digits_value(s) == v * pow10(z as nat));
    }
}

/// The digit before a string's trailing zeros is not a zero.
pub proof fn lemma_trailing_zero_count_ends(s: Seq<char>)
    ensures
        trailing_zeros(s) < s.len() ==> s[s.len() - 1 - trailing_zeros(s)] != '0',
    decreases s.len(),
{
    if s.len() > 0 && s.last() == '0' {
        lemma_trailing_zero_count_ends(s.drop_last());
        if trailing_zeros(s) < s.len() {
            assert(s.drop_last()[s.len() - 1 - trailing_zeros(s)] == s[s.len() - 1 - trailing_zeros(
                s,
            )]);
        }
    }
}

/// The leading zeros that [`leading_zeros`] counts are zeros.
pub proof fn lemma_leading_zeros_are_zeros(s: Seq<char>)
    ensures
        leading_zeros(s) <= s.len(),
        forall|j: int| 0 <= j < leading_zeros(s) ==> #[trigger] s[j] == '0',
    decreases s.len(),
{
    if s.len() > 0 && s[0] == '0' {
        lemma_leading_zeros_are_zeros(s.drop_first());
        assert forall|j: int| 0 <= j < leading_zeros(s) implies #[trigger] s[j] == '0' by {
            if j > 0 {
                assert(s[j] == s.drop_first()[j - 1]);
            }
        }
    }
}

/// The trailing zeros that [`trailing_zeros`] counts are zeros.
pub proof fn lemma_trailing_zeros_are_zeros(s: Seq<char>)
    ensures
        trailing_zeros(s) <= s.len(),
        forall|j: int| s.len() - trailing_zeros(s) <= j < s.len() ==> #[trigger] s[j] == '0',
    decreases s.len(),
{
    if s.len() > 0 && s.last() == '0' {
        let t = s.drop_last();
        lemma_trailing_zeros_are_zeros(t);
        assert forall|j: int| s.len() - trailing_zeros(s) <= j < s.len() implies #[trigger] s[j]
            == '0' by {
            if j < s.len() - 1 {
                assert(s[j] == t[j]);
            }
        }
    }
}

proof fn lemma_all_digits_push(s: Seq<char>, c: char)
    requires
        all_digits(s),
        is_digit(c),
    ensures
        all_digits(s.push(c)),
{
    assert forall|i: int| 0 <= i < s.push(c).len() implies is_digit(#[trigger] s.push(c)[i]) by {
        if i < s.len() {
            assert(s.push(c)[i] == s[i]);
        }
    }
}

proof fn lemma_all_digits_subrange(s: Seq<char>, a: int, b: int)
    requires
        all_digits(s),
        0 <= a <= b <= s.len(),
    ensures
        all_digits(s.subrange(a, b)),
{
    assert forall|i: int| 0 <= i < b - a implies is_digit(#[trigger] s.subrange(a, b)[i]) by {
        assert(s.subrange(a, b)[i] == s[a + i]);
    }
}

proof fn lemma_leading_zeros_unique(s: Seq<char>, i: int)
    requires
        0 <= i <= s.len(),
        forall|j: int| 0 <= j < i ==> #[trigger] s[j] == '0',
        i < s.len() ==> s[i] != '0',
    ensures
        leading_zeros(s) == i,
    decreases s.len(),
{
    if i > 0 {
        assert(s[0] == '0');
        assert forall|j: int| 0 <= j < i - 1 implies #[trigger] s.drop_first()[j] == '0' by {
            assert(s.drop_first()[j] == s[j + 1]);
        }
        if i < s.len() {
            assert(s.drop_first()[i - 1] == s[i]);
        }
        lemma_leading_zeros_unique(s.drop_first(), i - 1);
    }
}

proof fn lemma_trailing_zeros_unique(s: Seq<char>, i: int)
    requires
        0 <= i <= s.len(),
        forall|j: int| s.len() - i <= j < s.len() ==> #[trigger] s[j] == '0',
        i < s.len() ==> s[s.len() - 1 - i] != '0',
    ensures
        trailing_zeros(s) == i,
    decreases s.len(),
{
    if i > 0 {
        assert(s[s.len() - 1] == '0');
        let d = s.drop_last();
        assert forall|j: int| d.len() - (i - 1) <= j < d.len() implies #[trigger] d[j] == '0' by {
            assert(d[j] == s[j]);
        }
        if i < s.len() {
            assert(d[d.len() - 1 - (i - 1)] == s[s.len() - 1 - i]);
        }
        lemma_trailing_zeros_unique(d, i - 1);
    }
}

/// The digits of `v[a..b]` followed by those of `v[c..d]`, if all are digits.
fn digit_string(v: &Vec<char>, a: usize, b: usize, c: usize, d: usize) -> (r: Option<Vec<char>>)
    requires
        a <= b <= v.len(),
        c <= d <= v.len(),
    ensures
        r is Some <==> all_digits(v@.subrange(a as int, b as int)) && all_digits(
            v@.subrange(c as int, d as int),
        ),
        r matches Some(x) ==> x@ == v@.subrange(a as int, b as int) + v@.subrange(
            c as int,
            d as int,
        ),
{
    let mut out: Vec<char> = Vec::new();
    let mut i = a;
    while i < b
        invariant
            a <= i <= b <= v.len(),
            out@ == v@.subrange(a as int, i as int),
            all_digits(out@),
        decreases b - i,
    {
        let ch = v[i];
        if !('0' <= ch && ch <= '9') {
            proof {
                assert(v@.subrange(a as int, b as int)[i - a] == ch);
            }
            return None;
        }
        proof {
            lemma_all_digits_push(out@, ch);
        }
        out.push(ch);
        proof {
            assert(out@ =~= v@.subrange(a as int, i + 1));
        }
        i += 1;
    }
    let ghost first = out@;
    let mut j = c;
    while j < d
        invariant
            c <= j <= d <= v.len(),
            first == v@.subrange(a as int, b as int),
            out@ == first + v@.subrange(c as int, j as int),
            all_digits(out@),
        decreases d - j,
    {
        let ch = v[j];
        if !('0' <= ch && ch <= '9') {
            proof {
                assert(v@.subrange(c as int, d as int)[j - c] == ch);
            }
            return None;
        }
        proof {
            lemma_all_digits_push(out@, ch);
        }
        out.push(ch);
        proof {
            assert(out@ =~= first + v@.subrange(c as int, j + 1));
        }
        j += 1;
    }
    proof {
        assert forall|k: int| 0 <= k < b - a implies is_digit(
            #[trigger] v@.subrange(a as int, b as int)[k],
        ) by {
            assert(out@[k] == v@.subrange(a as int, b as int)[k]);
        }
        assert forall|k: int| 0 <= k < d - c implies is_digit(
            #[trigger] v@.subrange(c as int, d as int)[k],
        ) by {
            assert(out@[(b - a) + k] == v@.subrange(c as int, d as int)[k]);
        }
    }
    Some(out)
}

/// The number that a digit string, its fraction length and its exponent
/// spell (see [`number_from_parts`]).
#[verifier::rlimit(40)]
#[verifier::spinoff_prover]
fn number_of_digits(
    negative: bool,
    digits: &Vec<char>,
    frac_len: usize,
    exp_negative: bool,
    exp_mag: u128,
    Ghost(exponent): Ghost<int>,
) -> (r: Number)
    requires
        all_digits(digits@),
        frac_len <= digits.len(),
        exp_mag <= EXPONENT_CAP,
        exp_mag < EXPONENT_CAP ==> exponent == (if exp_negative {
            -(exp_mag as int)
        } else {
            exp_mag as int
        }),
        exp_mag == EXPONENT_CAP ==> (if exp_negative {
            exponent <= -(EXPONENT_CAP as int)
        } else {
            exponent >= EXPONENT_CAP
        }),
    ensures
        r == number_from_parts(negative, digits@, frac_len as nat, exponent),
        r.wf(),
{
    let n = digits.len();
    let mut lz: usize = 0;
    while lz < n && digits[lz] == '0'
        invariant
            lz <= n == digits.len(),
            forall|j: int| 0 <= j < lz ==> #[trigger] digits@[j] == '0',
        decreases n - lz,
    {
        lz += 1;
    }
    proof {
        lemma_leading_zeros_unique(digits@, lz as int);
    }
    let ghost t = digits@.skip(lz as int);
    let mut tz: usize = 0;
    while tz < n - lz && digits[n - 1 - tz] == '0'
        invariant
            lz <= n == digits.len(),
            tz <= n - lz,
            t == digits@.skip(lz as int),
            forall|j: int| t.len() - tz <= j < t.len() ==> #[trigger] t[j] == '0',
        decreases n - lz - tz,
    {
        proof {
            assert(t[t.len() - 1 - tz] == digits@[n - 1 - tz]);
        }
        tz += 1;
    }
    proof {
        if tz < n - lz {
            assert(t[t.len() - 1 - tz] == digits@[n - 1 - tz]);
        }
        lemma_trailing_zeros_unique(t, tz as int);
    }
    let core_len = n - lz - tz;
    let ghost core = t.take(t.len() - tz);
    proof {
        assert(core =~= digits@.subrange(lz as int, (lz + core_len) as int));
    }
    if core_len == 0 {
        return Number::Finite(Decimal { negative, mantissa: 0, scale: 0 });
    }
    let keep: usize = if core_len <= MAX_DIGITS {
        core_len
    } else {
        MAX_DIGITS
    };
    proof {
        lemma_all_digits_subrange(digits@, lz as int, (lz + keep) as int);
        assert(Seq::<char>::empty() + digits@.subrange(lz as int, (lz + keep) as int)
            =~= digits@.subrange(lz as int, (lz + keep) as int));
        assert(core.take(keep as int) =~= digits@.subrange(lz as int, (lz + keep) as int));
    }
    let m0 = match accumulate_digits(digits, lz, lz + keep, 0, Ghost(Seq::empty())) {
        Some(x) => x,
        None => {
            proof {
                assert(false);
            }
            return Number::Finite(Decimal { negative, mantissa: 0, scale: 0 });
        },
    };
    let mut m: u64 = m0;
    let mut dropped: usize = 0;
    if core_len > MAX_DIGITS {
        proof {
            lemma_digits_bound(core.take(MAX_DIGITS as int));
            lemma_pow10_19();
            assert(core[MAX_DIGITS as int] == digits@[lz + MAX_DIGITS]);
            assert(is_digit(digits@[lz + MAX_DIGITS]));
        }
        let rd = digits[lz + MAX_DIGITS];
        if rd >= '5' {
            m = m0 + 1;
        }
        dropped = core_len - MAX_DIGITS;
    }
    let ghost (sm, sdropped) = rounded(core);
    proof {
        assert(sm == m as nat);
        assert(sdropped == dropped as nat);
        assert(n as int <= 0xffff_ffff_ffff_ffff);
    }
    let mag: i128 = exp_mag as i128;
    let x: i128 = if exp_negative {
        -mag
    } else {
        mag
    };
    let ev: i128 = x - (frac_len as i128) + (tz as i128) + (dropped as i128);
    let ghost e = exponent - frac_len + tz + dropped;
    proof {
        if exp_mag < EXPONENT_CAP {
            assert(ev == e);
        } else if exp_negative {
            assert(ev < -SCALE_LIMIT && e < -SCALE_LIMIT);
        } else {
            assert(ev > SCALE_LIMIT && e > SCALE_LIMIT);
        }
    }
    if ev > SCALE_LIMIT as i128 {
        return Number::Infinite(negative);
    } else if ev < -(SCALE_LIMIT as i128) {
        return Number::Finite(Decimal { negative, mantissa: 0, scale: 0 });
    }
    let magnitude = Decimal { negative: false, mantissa: m, scale: (-ev) as i64 };
    if compare(overflow_threshold_exec(), magnitude) <= 0 {
        Number::Infinite(negative)
    } else if compare(magnitude, underflow_threshold_exec()) <= 0 {
        Number::Finite(Decimal { negative, mantissa: 0, scale: 0 })
    } else {
        Number::Finite(Decimal { negative, mantissa: m, scale: (-ev) as i64 })
    }
}

/// Reads `inf`, `infinity` or `nan` (see [`special_number`]).
fn special_number_exec(v: &Vec<char>) -> (r: Option<Number>)
    ensures
        r == special_number(v@),
{
    let n = v.len();
    let start: usize = if n > 0 && (v[0] == '+' || v[0] == '-') {
        1
    } else {
        0
    };
    let negative = n > 0 && v[0] == '-';
    let t = slice_chars(v, start, n);
    proof {
        assert(t@ =~= v@.skip(sign_len(v@) as int));
    }
    if eq_ignore_case_vec(&t, &chars_of("inf")) || eq_ignore_case_vec(&t, &chars_of("infinity")) {
        Some(Number::Infinite(negative))
    } else if eq_ignore_case_vec(&t, &chars_of("nan")) {
        Some(Number::NotANumber(negative))
    } else {
        None
    }
}

/// The number that `v` spells (see [`parse_number`]).
pub fn parse_number_exec(v: &Vec<char>) -> (r: Option<Number>)
    ensures
        r == parse_number(v@),
        r matches Some(x) ==> x.wf(),
{
    match special_number_exec(v) {
        Some(x) => {
            return Some(x);
        },
        None => {},
    }
    let n = v.len();
    let (sl, e, p) = number_layout(v);
    let negative = n > 0 && v[0] == '-';
    let frac_start: usize = if p < e {
        p + 1
    } else {
        e
    };
    let frac_len: usize = e - frac_start;
    let ghost int_part = v@.subrange(sl as int, p as int);
    let ghost frac = v@.subrange(frac_start as int, e as int);
    proof {
        if p >= e {
            assert(frac =~= Seq::<char>::empty());
        }
    }
    let digits = match digit_string(v, sl, p, frac_start, e) {
        Some(d) => d,
        None => {
            return None;
        },
    };
    if digits.len() == 0 {
        return None;
    }
    let mut exp_negative = false;
    let mut exp_mag: u128 = 0;
    if e < n {
        match read_exponent(v, e + 1) {
            Some((en, em)) => {
                exp_negative = en;
                exp_mag = em;
            },
            None => {
                return None;
            },
        }
    }
    let ghost parts = number_parts(v@);
    let ghost pexp: int = match parts {
        Some((_, _, _, x)) => x,
        None => 0,
    };
    proof {
        assert(parts == Some((negative, digits@, frac_len as nat, pexp)));
    }
    Some(number_of_digits(negative, &digits, frac_len, exp_negative, exp_mag, Ghost(pexp)))
}

// ---------------------------------------------------------------------------
// Bounds as a double reads them.
//
// A bound `b` of the original is a double, and a number is compared with it
// after being read as the nearest double. A number reads as at least `b` when
// it is no less than halfway between `b` and the double below it, and as at
// most `b` when it is no more than halfway between `b` and the double above
// it. Each such halfway point is written here to 19 significant digits.

/// The least number that a double reads as at least 1: halfway between 1
/// and the double below it.
pub open spec fn reads_at_least_one() -> Decimal {
    Decimal { negative: false, mantissa: 9999999999999999445, scale: 19 }
}

pub fn reads_at_least_one_exec() -> (r: Decimal)
    ensures
        r == reads_at_least_one(),
        r.wf(),
{
    Decimal { negative: false, mantissa: 9999999999999999445, scale: 19 }
}

/// The greatest number that a double reads as at most 384000: halfway between 384000
/// and the double above it.
pub open spec fn reads_at_most_384000() -> Decimal {
    Decimal { negative: false, mantissa: 3840000000000000291, scale: 13 }
}

pub fn reads_at_most_384000_exec() -> (r: Decimal)
    ensures
        r == reads_at_most_384000(),
        r.wf(),
{
    Decimal { negative: false, mantissa: 3840000000000000291, scale: 13 }
}

/// The least number that a double reads as at least -60: halfway between -60
/// and the double below it.
pub open spec fn reads_at_least_minus_60() -> Decimal {
    Decimal { negative: true, mantissa: 6000000000000000355, scale: 17 }
}

pub fn reads_at_least_minus_60_exec() -> (r: Decimal)
    ensures
        r == reads_at_least_minus_60(),
        r.wf(),
{
    Decimal { negative: true, mantissa: 6000000000000000355, scale: 17 }
}

/// The greatest number that a double reads as at most 60: halfway between 60
/// and the double above it.
pub open spec fn reads_at_most_60() -> Decimal {
    Decimal { negative: false, mantissa: 6000000000000000355, scale: 17 }
}

pub fn reads_at_most_60_exec() -> (r: Decimal)
    ensures
        r == reads_at_most_60(),
        r.wf(),
{
    Decimal { negative: false, mantissa: 6000000000000000355, scale: 17 }
}

/// The least number that a double reads as at least 20: halfway between 20
/// and the double below it.
pub open spec fn reads_at_least_20() -> Decimal {
    Decimal { negative: false, mantissa: 1999999999999999822, scale: 17 }
}

pub fn reads_at_least_20_exec() -> (r: Decimal)
    ensures
        r == reads_at_least_20(),
        r.wf(),
{
    Decimal { negative: false, mantissa: 1999999999999999822, scale: 17 }
}

/// The greatest number that a double reads as at most 20000: halfway between 20000
/// and the double above it.
pub open spec fn reads_at_most_20000() -> Decimal {
    Decimal { negative: false, mantissa: 2000000000000000182, scale: 14 }
}

pub fn reads_at_most_20000_exec() -> (r: Decimal)
    ensures
        r == reads_at_most_20000(),
        r.wf(),
{
    Decimal { negative: false, mantissa: 2000000000000000182, scale: 14 }
}

/// The least number that a double reads as at least 0.01: halfway between 0.01
/// and the double below it.
pub open spec fn reads_at_least_hundredth() -> Decimal {
    Decimal { negative: false, mantissa: 9999999999999999341, scale: 21 }
}

pub fn reads_at_least_hundredth_exec() -> (r: Decimal)
    ensures
        r == reads_at_least_hundredth(),
        r.wf(),
{
    Decimal { negative: false, mantissa: 9999999999999999341, scale: 21 }
}

/// The greatest number that a double reads as at most 1000: halfway between 1000
/// and the double above it.
pub open spec fn reads_at_most_1000() -> Decimal {
    Decimal { negative: false, mantissa: 1000000000000000057, scale: 15 }
}

pub fn reads_at_most_1000_exec() -> (r: Decimal)
    ensures
        r == reads_at_most_1000(),
        r.wf(),
{
    Decimal { negative: false, mantissa: 1000000000000000057, scale: 15 }
}

// ---------------------------------------------------------------------------
// Unsigned integers as `u32::from_str`, `usize::from_str` and friends read them:
// an optional `+`, then one or more ASCII digits, the value at most the maximum.

/// The value an unsigned integer token spells, if it is at most `max`.
pub open spec fn parse_unsigned(s: Seq<char>, max: nat) -> Option<nat> {
    let d = if s.len() > 0 && s[0] == '+' {
        s.drop_first()
    } else {
        s
    };
    if d.len() >= 1 && all_digits(d) && digits_value(d) <= max {
        Some(digits_value(d))
    } else {
        None
    }
}

/// The value an unsigned integer token spells (see [`parse_unsigned`]).
pub fn parse_unsigned_exec(v: &Vec<char>, max: u64) -> (r: Option<u64>)
    ensures
        match r {
            Some(x) => parse_unsigned(v@, max as nat) == Some(x as nat),
            None => parse_unsigned(v@, max as nat) is None,
        },
{
    let n = v.len();
    let start: usize = if n > 0 && v[0] == '+' {
        1
    } else {
        0
    };
    let ghost d = if v@.len() > 0 && v@[0] == '+' {
        v@.drop_first()
    } else {
        v@
    };
    proof {
        assert(d =~= v@.subrange(start as int, n as int));
    }
    if start >= n {
        return None;
    }
    let mut acc: u128 = 0;
    let cap: u128 = (max as u128) + 1;
    let mut i = start;
    let ghost mut seen = Seq::<char>::empty();
    while i < n
        invariant
            start <= i <= n == v.len(),
            d == v@.subrange(start as int, n as int),
            d == (if v@.len() > 0 && v@[0] == '+' {
                v@.drop_first()
            } else {
                v@
            }),
            cap == max + 1,
            seen == v@.subrange(start as int, i as int),
            all_digits(seen),
            acc == (if digits_value(seen) <= max {
                digits_value(seen)
            } else {
                (max + 1) as nat
            }),
        decreases n - i,
    {
        let c = v[i];
        if !('0' <= c && c <= '9') {
            proof {
                assert(d[i - start] == c);
                assert(!is_digit(d[i - start]));
                assert(!all_digits(d));
            }
            return None;
        }
        proof {
            lemma_digits_push(seen, c);
        }
        let dv = ((c as u32) - ('0' as u32)) as u128;
        if acc < cap {
            let next = acc * 10 + dv;
            acc = if next < cap {
                next
            } else {
                cap
            };
        }
        proof {
            seen = seen.push(c);
            assert(seen == v@.subrange(start as int, i + 1));
            assert forall|j: int| 0 <= j < seen.len() implies is_digit(#[trigger] seen[j]) by {
                if j < seen.len() - 1 {
                    assert(seen[j] == seen.drop_last()[j]);
                }
            }
        }
        i += 1;
    }
    proof {
        assert(seen =~= d);
    }
    if acc < cap {
        Some(acc as u64)
    } else {
        None
    }
}

// ---------------------------------------------------------------------------
// Unsigned integers written in decimal, as `Display` writes them.

/// The digit character for `d < 10`.
pub open spec fn digit_char(d: nat) -> char {
    ((48 + d) as u8) as char
}

/// The decimal digits of `n`, most significant first, without leading zeros.
pub open spec fn decimal_text(n: nat) -> Seq<char>
    decreases n,
{
    if n < 10 {
        seq![digit_char(n)]
    } else {
        decimal_text(n / 10).push(digit_char(n % 10))
    }
}

/// The text of `n` spells `n` back.
pub proof fn lemma_decimal_text(n: nat)
    ensures
        decimal_text(n).len() >= 1,
        all_digits(decimal_text(n)),
        digits_value(decimal_text(n)) == n,
    decreases n,
{
    if n < 10 {
        let t = decimal_text(n);
        assert(t.drop_last() =~= Seq::<char>::empty());
        assert(digit_value(digit_char(n)) == n);
        assert(digits_value(Seq::<char>::empty()) == 0);
        assert(digits_value(t) == digits_value(t.drop_last()) * 10 + digit_value(t.last()));
    } else {
        lemma_decimal_text(n / 10);
        let d = digit_char(n % 10);
        assert(digit_value(d) == n % 10);
        lemma_digits_push(decimal_text(n / 10), d);
        assert((n / 10) * 10 + n % 10 == n) by (nonlinear_arith);
        let t = decimal_text(n);
        assert forall|i: int| 0 <= i < t.len() implies is_digit(#[trigger] t[i]) by {
            if i < t.len() - 1 {
                assert(t[i] == decimal_text(n / 10)[i]);
            }
        }
    }
}

/// Different numbers have different texts.
pub proof fn lemma_decimal_text_injective(a: nat, b: nat)
    requires
        decimal_text(a) == decimal_text(b),
    ensures
        a == b,
{
    lemma_decimal_text(a);
    lemma_decimal_text(b);
}

/// The text of `n` (see [`decimal_text`]).
pub fn number_text(n: u64) -> (r: String)
    ensures
        r@ == decimal_text(n as nat),
{
    let mut m = n;
    let mut tail: Vec<char> = Vec::new();
    while m >= 10
        invariant
            decimal_text(n as nat) == decimal_text(m as nat) + tail@,
        decreases m,
    {
        let d = (m % 10) as u8;
        let c = (48u8 + d) as char;
        proof {
            assert(c == digit_char((m % 10) as nat));
            assert(decimal_text(m as nat) == decimal_text((m / 10) as nat).push(c));
            assert(decimal_text((m / 10) as nat) + tail@.insert(0, c) =~= decimal_text((m / 10) as nat).push(c) + tail@);
        }
        tail.insert(0, c);
        m = m / 10;
    }
    let first = (48u8 + (m as u8)) as char;
    tail.insert(0, first);
    proof {
        assert(first == digit_char(m as nat));
        assert(decimal_text(m as nat) =~= seq![first]);
        assert(tail@ =~= decimal_text(n as nat));
    }
    crate::text::string_of(&tail)
}

} // verus!
