//! Exact decimal amounts of money.
//!
//! A `Currency` is a signed decimal number `mantissa / 10^scale`, held in the
//! same range that `rust_decimal::Decimal` holds (a 96-bit magnitude and at
//! most 28 fractional digits). Sums and differences are exact: they are
//! written without trailing fractional zeros, and a result that no amount in
//! range holds is reported, never rounded. Parsing, comparison, rounding and
//! rendering go through `rust_decimal`.
use crate::error::AppError;
use rust_decimal::Decimal;
use vstd::prelude::*;
use vstd::string::*;

verus! {

/// The largest magnitude of a mantissa, `2^96 - 1`.
pub const MAX_MANTISSA: i128 = 79228162514264337593543950335;

/// The largest number of fractional digits.
pub const MAX_SCALE: u32 = 28;

/// `10^n`.
pub open spec fn pow10(n: nat) -> int
    decreases n,
{
    if n == 0 {
        1
    } else {
        10 * pow10((n - 1) as nat)
    }
}

pub proof fn lemma_pow10_positive(n: nat)
    ensures
        pow10(n) >= 1,
    decreases n,
{
    if n > 0 {
        lemma_pow10_positive((n - 1) as nat);
    }
}

pub proof fn lemma_pow10_adds(a: nat, b: nat)
    ensures
        pow10(a + b) == pow10(a) * pow10(b),
    decreases b,
{
    if b > 0 {
        lemma_pow10_adds(a, (b - 1) as nat);
        assert(pow10(a + b) == 10 * pow10((a + b - 1) as nat));
        assert(pow10(a) * (10 * pow10((b - 1) as nat)) == 10 * (pow10(a) * pow10(
            (b - 1) as nat,
        ))) by (nonlinear_arith);
    }
}

pub open spec fn abs(x: int) -> int {
    if x < 0 {
        -x
    } else {
        x
    }
}

/// A mantissa and scale without trailing fractional zeros.
pub open spec fn normal(m: int, s: nat) -> bool {
    s == 0 || abs(m) % 10 != 0
}

/// Some amount in range has value `v`.
pub open spec fn representable(v: int) -> bool {
    exists|c: Currency| c.wf() && c.value() == v
}

/// The amount in range without trailing fractional zeros whose value is
/// `v`, if there is one.
pub open spec fn canonical(v: int) -> Option<Currency> {
    if exists|c: Currency| c.wf() && normal(c.mantissa as int, c.scale as nat) && c.value() == v {
        Some(
            choose|c: Currency|
                c.wf() && normal(c.mantissa as int, c.scale as nat) && c.value() == v,
        )
    } else {
        None
    }
}

proof fn lemma_mod10_abs(z: int)
    ensures
        (abs(z) % 10 == 0) <==> (z % 10 == 0),
{
    if z < 0 {
        let q = z / 10;
        let r = z % 10;
        assert(z == 10 * q + r && 0 <= r < 10) by (nonlinear_arith)
            requires
                q == z / 10,
                r == z % 10,
        ;
        let q2 = (-z) / 10;
        let r2 = (-z) % 10;
        assert(-z == 10 * q2 + r2 && 0 <= r2 < 10) by (nonlinear_arith)
            requires
                q2 == (-z) / 10,
                r2 == (-z) % 10,
        ;
        if r == 0 {
            assert(-z == 10 * (-q) + 0);
            assert(r2 == 0) by (nonlinear_arith)
                requires
                    -z == 10 * q2 + r2,
                    -z == 10 * (-q),
                    0 <= r2 < 10,
            ;
        }
        if r2 == 0 {
            assert(r == 0) by (nonlinear_arith)
                requires
                    z == 10 * q + r,
                    -z == 10 * q2,
                    0 <= r < 10,
            ;
        }
    }
}

/// A multiple of ten plus `y` leaves the remainder that `y` leaves.
proof fn lemma_mod10_shift(q: int, y: int)
    ensures
        (10 * q + y) % 10 == y % 10,
{
    vstd::arithmetic::div_mod::lemma_mod_multiples_vanish(q, y, 10);
}

/// Two mantissas without trailing fractional zeros that give one value are
/// the same, with the same scale.
proof fn lemma_normal_unique(m1: int, s1: nat, m2: int, s2: nat)
    requires
        s1 <= MAX_SCALE,
        s2 <= MAX_SCALE,
        normal(m1, s1),
        normal(m2, s2),
        m1 * pow10((MAX_SCALE - s1) as nat) == m2 * pow10((MAX_SCALE - s2) as nat),
    ensures
        m1 == m2,
        s1 == s2,
    decreases s1 + s2,
{
    if s1 < s2 {
        lemma_normal_shift(m1, s1, m2, s2);
    } else if s2 < s1 {
        lemma_normal_shift(m2, s2, m1, s1);
    } else {
        lemma_pow10_positive((MAX_SCALE - s1) as nat);
        let p = pow10((MAX_SCALE - s1) as nat);
        assert(m1 == m2) by (nonlinear_arith)
            requires
                m1 * p == m2 * p,
                p >= 1,
        ;
    }
}

/// A value written with fewer fractional digits on the left has a trailing
/// zero when written with more.
proof fn lemma_normal_shift(m1: int, s1: nat, m2: int, s2: nat)
    requires
        s1 < s2 <= MAX_SCALE,
        m1 * pow10((MAX_SCALE - s1) as nat) == m2 * pow10((MAX_SCALE - s2) as nat),
    ensures
        !normal(m2, s2),
{
    let k = (s2 - s1) as nat;
    let r = (MAX_SCALE - s2) as nat;
    lemma_pow10_adds(k, r);
    assert(k + r == (MAX_SCALE - s1) as nat);
    lemma_pow10_positive(r);
    let p = pow10(r);
    let f = pow10(k);
    assert(m2 == m1 * f) by (nonlinear_arith)
        requires
            m1 * (f * p) == m2 * p,
            p >= 1,
    ;
    lemma_pow10_adds(1, (k - 1) as nat);
    assert(pow10(0) == 1);
    assert(pow10(1) == 10);
    assert(1 + (k - 1) as nat == k);
    let g = pow10((k - 1) as nat);
    assert(m2 == 10 * (m1 * g)) by (nonlinear_arith)
        requires
            m2 == m1 * f,
            f == 10 * g,
    ;
    lemma_mod10_shift(m1 * g, 0);
    lemma_mod10_abs(m2);
}

/// Every amount in range has a form without trailing fractional zeros.
proof fn lemma_normal_form(c: Currency)
    requires
        c.wf(),
    ensures
        exists|d: Currency| d.wf() && normal(d.mantissa as int, d.scale as nat) && d.value() == c.value(),
    decreases c.scale,
{
    if normal(c.mantissa as int, c.scale as nat) {
        assert(c.wf() && normal(c.mantissa as int, c.scale as nat) && c.value() == c.value());
    } else {
        lemma_mod10_abs(c.mantissa as int);
        let q = c.mantissa / 10;
        assert(c.mantissa == 10 * q) by (nonlinear_arith)
            requires
                q == c.mantissa / 10,
                c.mantissa % 10 == 0,
        ;
        let d = Currency { mantissa: q as i128, scale: (c.scale - 1) as u32 };
        lemma_pow10_adds(1, (MAX_SCALE - c.scale) as nat);
        assert(pow10(0) == 1);
        assert(pow10(1) == 10);
        assert((MAX_SCALE - d.scale) as nat == 1 + (MAX_SCALE - c.scale) as nat);
        assert(d.value() == c.value()) by (nonlinear_arith)
            requires
                d.value() == q * pow10((MAX_SCALE - d.scale) as nat),
                pow10((MAX_SCALE - d.scale) as nat) == 10 * pow10((MAX_SCALE - c.scale) as nat),
                c.value() == c.mantissa * pow10((MAX_SCALE - c.scale) as nat),
                c.mantissa == 10 * q,
        ;
        lemma_normal_form(d);
    }
}

/// `canonical(v)` exists exactly when some amount in range has value `v`.
pub proof fn lemma_canonical_iff_representable(v: int)
    ensures
        canonical(v) is Some <==> representable(v),
{
    if representable(v) {
        let c = choose|c: Currency| c.wf() && c.value() == v;
        lemma_normal_form(c);
    }
}

/// An amount in range, without trailing fractional zeros, is the canonical
/// form of its value.
proof fn lemma_is_canonical(c: Currency)
    requires
        c.wf(),
        normal(c.mantissa as int, c.scale as nat),
    ensures
        canonical(c.value()) == Some(c),
{
    let d = choose|d: Currency|
        d.wf() && normal(d.mantissa as int, d.scale as nat) && d.value() == c.value();
    lemma_normal_unique(d.mantissa as int, d.scale as nat, c.mantissa as int, c.scale as nat);
}

/// `m / 10^s` without trailing fractional zeros: the same value, with a
/// mantissa of no greater magnitude.
fn strip_zeros(m: i128, s: u32) -> (r: (i128, u32))
    requires
        s <= MAX_SCALE,
        -4 * MAX_MANTISSA <= m <= 4 * MAX_MANTISSA,
    ensures
        r.1 <= s,
        normal(r.0 as int, r.1 as nat),
        abs(r.0 as int) <= abs(m as int),
        r.0 * pow10((MAX_SCALE - r.1) as nat) == m * pow10((MAX_SCALE - s) as nat),
{
    let neg = m < 0;
    let mut mag: u128 = if neg {
        (-m) as u128
    } else {
        m as u128
    };
    let mut t: u32 = s;
    while t > 0 && mag % 10 == 0
        invariant
            t <= s <= MAX_SCALE,
            mag <= abs(m as int),
            (if neg {
                -(mag as int)
            } else {
                mag as int
            }) * pow10((MAX_SCALE - t) as nat) == m * pow10((MAX_SCALE - s) as nat),
        decreases t,
    {
        let ghost old_mag = mag as int;
        let ghost old_t = t;
        mag = mag / 10;
        t = t - 1;
        proof {
            lemma_pow10_adds(1, (MAX_SCALE - old_t) as nat);
            assert(pow10(0) == 1);
            assert(pow10(1) == 10);
            assert((MAX_SCALE - t) as nat == 1 + (MAX_SCALE - old_t) as nat);
            assert(old_mag == 10 * (mag as int));
            let p = pow10((MAX_SCALE - old_t) as nat);
            assert((mag as int) * (10 * p) == old_mag * p) by (nonlinear_arith)
                requires
                    old_mag == 10 * (mag as int),
            ;
            assert((-(mag as int)) * (10 * p) == (-old_mag) * p) by (nonlinear_arith)
                requires
                    old_mag == 10 * (mag as int),
            ;
        }
    }
    let r: i128 = if neg {
        -(mag as i128)
    } else {
        mag as i128
    };
    proof {
        assert(abs(r as int) == mag as int);
        if t > 0 {
            assert((mag as int) % 10 != 0);
        }
    }
    (r, t)
}

/// The exact sum of two amounts without trailing fractional zeros, in
/// canonical form, if some amount in range holds it.
fn sum_of_normal(a: Currency, b: Currency) -> (r: Option<Currency>)
    requires
        a.wf(),
        b.wf(),
        normal(a.mantissa as int, a.scale as nat),
        normal(b.mantissa as int, b.scale as nat),
    ensures
        r == canonical(a.value() + b.value()),
{
    let s = if a.scale >= b.scale {
        a.scale
    } else {
        b.scale
    };
    let limit: i128 = 2 * MAX_MANTISSA;
    proof {
        a.lemma_mantissa_at_value(s as nat);
        b.lemma_mantissa_at_value(s as nat);
    }
    let x = match a.scaled_mantissa(s, limit) {
        Some(x) => x,
        None => {
            proof {
                lemma_sum_too_wide(a, b, s as nat);
            }
            return None;
        },
    };
    let y = match b.scaled_mantissa(s, limit) {
        Some(y) => y,
        None => {
            proof {
                lemma_sum_too_wide(b, a, s as nat);
                assert(a.value() + b.value() == b.value() + a.value());
            }
            return None;
        },
    };
    let sum = x + y;
    let (m, t) = strip_zeros(sum, s);
    let ghost v = a.value() + b.value();
    proof {
        let p = pow10((MAX_SCALE - s) as nat);
        assert(v == sum * p) by (nonlinear_arith)
            requires
                v == a.value() + b.value(),
                a.value() == x * p,
                b.value() == y * p,
                sum == x + y,
        ;
    }
    if m > MAX_MANTISSA || m < -MAX_MANTISSA {
        proof {
            if exists|c: Currency| c.wf() && normal(c.mantissa as int, c.scale as nat) && c.value() == v {
                let c = choose|c: Currency|
                    c.wf() && normal(c.mantissa as int, c.scale as nat) && c.value() == v;
                lemma_normal_unique(c.mantissa as int, c.scale as nat, m as int, t as nat);
            }
        }
        return None;
    }
    let c = Currency { mantissa: m, scale: t };
    proof {
        lemma_is_canonical(c);
    }
    Some(c)
}

/// Where the operand with fewer fractional digits, written with `s`,
/// passes twice the largest mantissa, no amount in range holds the sum.
proof fn lemma_sum_too_wide(a: Currency, b: Currency, s: nat)
    requires
        a.wf(),
        b.wf(),
        normal(b.mantissa as int, b.scale as nat),
        s == (if a.scale >= b.scale {
            a.scale
        } else {
            b.scale
        }),
        a.scale < s,
        abs(a.mantissa_at(s)) > 2 * MAX_MANTISSA,
        a.mantissa_at(s) * pow10((MAX_SCALE - s) as nat) == a.value(),
        b.mantissa_at(s) * pow10((MAX_SCALE - s) as nat) == b.value(),
    ensures
        canonical(a.value() + b.value()) is None,
{
    let v = a.value() + b.value();
    let x = a.mantissa_at(s);
    let y = b.mantissa as int;
    assert(b.scale == s);
    assert(pow10(0) == 1);
    assert((s - b.scale) as nat == 0);
    assert(b.mantissa_at(s) == y);
    let k = (s - a.scale) as nat;
    lemma_pow10_adds(1, (k - 1) as nat);
    assert(pow10(1) == 10);
    assert(1 + (k - 1) as nat == k);
    let g = a.mantissa * pow10((k - 1) as nat);
    assert(x == 10 * g) by (nonlinear_arith)
        requires
            x == a.mantissa * pow10(k),
            pow10(k) == 10 * pow10((k - 1) as nat),
            g == a.mantissa * pow10((k - 1) as nat),
    ;
    lemma_mod10_shift(g, y);
    lemma_mod10_abs(y);
    lemma_mod10_abs(x + y);
    assert(normal(x + y, s));
    let p = pow10((MAX_SCALE - s) as nat);
    assert(v == (x + y) * p) by (nonlinear_arith)
        requires
            v == a.value() + b.value(),
            a.value() == x * p,
            b.value() == y * p,
    ;
    if exists|c: Currency| c.wf() && normal(c.mantissa as int, c.scale as nat) && c.value() == v {
        let c = choose|c: Currency|
            c.wf() && normal(c.mantissa as int, c.scale as nat) && c.value() == v;
        lemma_normal_unique(c.mantissa as int, c.scale as nat, x + y, s);
    }
}

/// A signed decimal amount, `mantissa / 10^scale`.
#[derive(Clone, Copy, Debug)]
pub struct Currency {
    pub mantissa: i128,
    pub scale: u32,
}

impl Currency {
    /// The amount lies in the range that `rust_decimal::Decimal` can hold.
    pub open spec fn wf(self) -> bool {
        &&& self.scale <= MAX_SCALE
        &&& -MAX_MANTISSA <= self.mantissa <= MAX_MANTISSA
    }

    /// The amount as a whole number of `10^-28` units.
    pub open spec fn value(self) -> int {
        self.mantissa * pow10((MAX_SCALE - self.scale) as nat)
    }

    /// The mantissa that the amount has when written with `s` fractional digits.
    pub open spec fn mantissa_at(self, s: nat) -> int {
        self.mantissa * pow10((s - self.scale) as nat)
    }

    /// The exact sum, as the amount in range without trailing fractional
    /// zeros; `None` when no amount in range has that value.
    pub open spec fn add_spec(self, other: Currency) -> Option<Currency> {
        canonical(self.value() + other.value())
    }

    /// The exact difference, as `add_spec` writes it.
    pub open spec fn sub_spec(self, other: Currency) -> Option<Currency> {
        canonical(self.value() - other.value())
    }

    /// Writing an amount with more fractional digits keeps its value.
    pub proof fn lemma_mantissa_at_value(self, s: nat)
        requires
            self.scale <= s <= MAX_SCALE,
        ensures
            self.mantissa_at(s) * pow10((MAX_SCALE - s) as nat) == self.value(),
    {
        let k = (s - self.scale) as nat;
        let r = (MAX_SCALE - s) as nat;
        lemma_pow10_adds(k, r);
        assert(k + r == (MAX_SCALE - self.scale) as nat);
        assert(self.mantissa * pow10(k) * pow10(r) == self.mantissa * (pow10(k) * pow10(r)))
            by (nonlinear_arith);
    }

    /// Whether the amount lies in the range of `wf`.
    pub fn is_valid(&self) -> (r: bool)
        ensures
            r == self.wf(),
    {
        self.scale <= MAX_SCALE && -MAX_MANTISSA <= self.mantissa && self.mantissa <= MAX_MANTISSA
    }

    /// The amount zero.
    pub fn zero() -> (r: Currency)
        ensures
            r.wf(),
            r.value() == 0,
            r == (Currency { mantissa: 0, scale: 0 }),
    {
        Currency { mantissa: 0, scale: 0 }
    }

    /// The mantissa written with `s` fractional digits, or `None` where its
    /// magnitude would pass `limit`.
    fn scaled_mantissa(self, s: u32, limit: i128) -> (r: Option<i128>)
        requires
            self.wf(),
            self.scale <= s <= MAX_SCALE,
            MAX_MANTISSA <= limit <= 2 * MAX_MANTISSA,
        ensures
            match r {
                Some(x) => x == self.mantissa_at(s as nat) && -limit <= x <= limit,
                None => abs(self.mantissa_at(s as nat)) > limit && self.scale < s,
            },
    {
        let mut m: i128 = self.mantissa;
        let mut k: u32 = self.scale;
        proof {
            assert(pow10(0) == 1);
            assert((k - self.scale) as nat == 0);
        }
        while k < s
            invariant
                self.scale <= k <= s,
                m == self.mantissa_at(k as nat),
                -limit <= m <= limit,
                MAX_MANTISSA <= limit <= 2 * MAX_MANTISSA,
            decreases s - k,
        {
            proof {
                lemma_pow10_adds((k - self.scale) as nat, 1);
                assert((k + 1 - self.scale) as nat == (k - self.scale) as nat + 1);
                assert(pow10(0) == 1);
                assert(pow10(1) == 10);
                assert(self.mantissa * (pow10((k - self.scale) as nat) * 10) == m * 10)
                    by (nonlinear_arith)
                    requires
                        m == self.mantissa * pow10((k - self.scale) as nat),
                ;
            }
            if m > limit / 10 || m < -(limit / 10) {
                proof {
                    let rest = (s - k - 1) as nat;
                    lemma_pow10_positive(rest);
                    lemma_pow10_adds((k + 1 - self.scale) as nat, rest);
                    assert((s - self.scale) as nat == (k + 1 - self.scale) as nat + rest);
                    let big = m * 10;
                    assert(self.mantissa_at(s as nat) == big * pow10(rest)) by (nonlinear_arith)
                        requires
                            big == self.mantissa * pow10((k + 1 - self.scale) as nat),
                            pow10((s - self.scale) as nat) == pow10(
                                (k + 1 - self.scale) as nat,
                            ) * pow10(rest),
                    ;
                    assert(abs(big * pow10(rest)) >= abs(big)) by (nonlinear_arith)
                        requires
                            pow10(rest) >= 1,
                    ;
                }
                return None;
            }
            m = m * 10;
            k = k + 1;
        }
        Some(m)
    }

    /// The same amount without trailing fractional zeros.
    pub fn normalized(self) -> (r: Currency)
        requires
            self.wf(),
        ensures
            r.wf(),
            normal(r.mantissa as int, r.scale as nat),
            r.value() == self.value(),
    {
        let (m, t) = strip_zeros(self.mantissa, self.scale);
        Currency { mantissa: m, scale: t }
    }

    /// The amount with the opposite sign.
    pub fn negated(self) -> (r: Currency)
        requires
            self.wf(),
        ensures
            r.wf(),
            r.value() == -self.value(),
            normal(self.mantissa as int, self.scale as nat) ==> normal(
                r.mantissa as int,
                r.scale as nat,
            ),
    {
        let r = Currency { mantissa: -self.mantissa, scale: self.scale };
        assert(r.value() == -self.value()) by (nonlinear_arith)
            requires
                r.mantissa == -self.mantissa,
                r.scale == self.scale,
                r.value() == r.mantissa * pow10((MAX_SCALE - r.scale) as nat),
                self.value() == self.mantissa * pow10((MAX_SCALE - self.scale) as nat),
        ;
        r
    }

    /// The exact sum, or `None` where no amount in range holds it.
    pub fn checked_add(self, other: Currency) -> (r: Option<Currency>)
        requires
            self.wf(),
            other.wf(),
        ensures
            r == self.add_spec(other),
            r is None <==> !representable(self.value() + other.value()),
            r matches Some(c) ==> c.wf() && c.value() == self.value() + other.value(),
    {
        let r = sum_of_normal(self.normalized(), other.normalized());
        proof {
            lemma_canonical_iff_representable(self.value() + other.value());
        }
        r
    }

    /// The exact difference, or `None` where no amount in range holds it.
    pub fn checked_sub(self, other: Currency) -> (r: Option<Currency>)
        requires
            self.wf(),
            other.wf(),
        ensures
            r == self.sub_spec(other),
            r is None <==> !representable(self.value() - other.value()),
            r matches Some(c) ==> c.wf() && c.value() == self.value() - other.value(),
    {
        let r = sum_of_normal(self.normalized(), other.normalized().negated());
        proof {
            lemma_canonical_iff_representable(self.value() - other.value());
        }
        r
    }

    /// Compares two amounts by value: `-1`, `0` or `1`.
    pub fn compare(self, other: Currency) -> (r: i8)
        requires
            self.wf(),
            other.wf(),
        ensures
            r == -1 <==> self.value() < other.value(),
            r == 0 <==> self.value() == other.value(),
            r == 1 <==> self.value() > other.value(),
    {
        decimal_cmp(self, other)
    }
}

/// A decimal digit.
pub open spec fn is_digit(c: char) -> bool {
    '0' <= c <= '9'
}

/// The number that a run of decimal digits spells.
pub open spec fn digits_value(s: Seq<char>) -> int
    decreases s.len(),
{
    if s.len() == 0 {
        0
    } else {
        10 * digits_value(s.drop_last()) + (s.last() as int - '0' as int)
    }
}

/// The length of the run of digits at the start of `s`.
pub open spec fn leading_digits(s: Seq<char>) -> nat
    decreases s.len(),
{
    if s.len() == 0 || !is_digit(s[0]) {
        0
    } else {
        1 + leading_digits(s.subrange(1, s.len() as int))
    }
}

/// `s` without a leading `-` or `+`.
pub open spec fn unsigned_part(s: Seq<char>) -> Seq<char> {
    if s.len() > 0 && (s[0] == '-' || s[0] == '+') {
        s.subrange(1, s.len() as int)
    } else {
        s
    }
}

/// The digits after the point of a plain literal (empty without a point).
pub open spec fn fraction_digits(s: Seq<char>) -> Seq<char> {
    let u = unsigned_part(s);
    let p = leading_digits(u) as int;
    if p < u.len() {
        u.subrange(p + 1, u.len() as int)
    } else {
        Seq::empty()
    }
}

/// A plain decimal literal: an optional sign, digits, and optionally a point
/// followed by digits, with at most 28 digits in all (`-12.5`, `007`).
pub open spec fn plain_decimal(s: Seq<char>) -> bool {
    let u = unsigned_part(s);
    let p = leading_digits(u) as int;
    let f = fraction_digits(s);
    &&& p >= 1
    &&& (p == u.len() || (u[p] == '.' && f.len() >= 1 && leading_digits(f) == f.len()))
    &&& p + f.len() <= MAX_SCALE
}

/// The exact amount that a plain decimal literal spells, with as many
/// fractional digits as it writes.
pub open spec fn plain_decimal_value(s: Seq<char>) -> Currency {
    let u = unsigned_part(s);
    let p = leading_digits(u) as int;
    let f = fraction_digits(s);
    let magnitude = digits_value(u.subrange(0, p) + f);
    Currency {
        mantissa: (if s.len() > 0 && s[0] == '-' {
            -magnitude
        } else {
            magnitude
        }) as i128,
        scale: f.len() as u32,
    }
}

/// A character that no decimal literal holds.
pub open spec fn foreign_char(c: char) -> bool {
    !(is_digit(c) || c == '.' || c == '_' || c == '+' || c == '-')
}

/// Text that is no decimal literal: without an exponent mark (`e` or `E`),
/// it is empty or holds a foreign character.
pub open spec fn rejected_literal(s: Seq<char>) -> bool {
    &&& forall|i: int| 0 <= i < s.len() ==> #[trigger] s[i] != 'e' && s[i] != 'E'
    &&& (s.len() == 0 || exists|i: int| 0 <= i < s.len() && foreign_char(#[trigger] s[i]))
}

/// `n / d` rounded to the nearest whole number, ties to the even one.
pub open spec fn round_half_even(n: nat, d: nat) -> nat
    recommends
        d > 0,
{
    let q = n / d;
    let rem = n % d;
    if 2 * rem > d || (2 * rem == d && q % 2 == 1) {
        q + 1
    } else {
        q
    }
}

/// The amount rounded to at most `dp` fractional digits, ties to even.
pub open spec fn rounded(c: Currency, dp: nat) -> Currency {
    if c.scale <= dp {
        c
    } else {
        let q = round_half_even(abs(c.mantissa as int) as nat, pow10((c.scale - dp) as nat) as nat);
        Currency {
            mantissa: (if c.mantissa < 0 {
                -q
            } else {
                q as int
            }) as i128,
            scale: dp as u32,
        }
    }
}

pub open spec fn digit_char(d: int) -> char {
    if d == 0 {
        '0'
    } else if d == 1 {
        '1'
    } else if d == 2 {
        '2'
    } else if d == 3 {
        '3'
    } else if d == 4 {
        '4'
    } else if d == 5 {
        '5'
    } else if d == 6 {
        '6'
    } else if d == 7 {
        '7'
    } else if d == 8 {
        '8'
    } else {
        '9'
    }
}

/// The decimal digits of `n`, without leading zeros.
pub open spec fn nat_text(n: nat) -> Seq<char>
    decreases n,
{
    if n < 10 {
        seq![digit_char(n as int)]
    } else {
        nat_text(n / 10).push(digit_char((n % 10) as int))
    }
}

/// The last `k` digits of `n`, with leading zeros.
pub open spec fn padded_digits(n: nat, k: nat) -> Seq<char>
    decreases k,
{
    if k == 0 {
        Seq::empty()
    } else {
        padded_digits(n / 10, (k - 1) as nat).push(digit_char((n % 10) as int))
    }
}

/// An amount of at most `dp` fractional digits written with exactly `dp`:
/// a `-` for a negative amount, the whole part, a point, `dp` digits.
pub open spec fn fixed_text(c: Currency, dp: nat) -> Seq<char> {
    let a = abs(c.mantissa as int) as nat;
    let p = pow10(c.scale as nat) as nat;
    let sign = if c.mantissa < 0 {
        seq!['-']
    } else {
        Seq::empty()
    };
    sign + nat_text(a / p) + seq!['.'] + padded_digits(
        ((a % p) * pow10((dp - c.scale) as nat)) as nat,
        dp,
    )
}

/// `rust_decimal` writes an amount with `dp` fractional digits into a buffer
/// of 32 characters: the whole part may have at most `31 - dp` digits.
pub open spec fn fits_text(c: Currency, dp: nat) -> bool {
    dp <= MAX_SCALE && abs(c.mantissa as int) < pow10((31 - dp + c.scale) as nat)
}

/// The number of fractional digits that amounts are rendered with.
pub const FRACTION_DIGITS: u32 = 4;

/// The text of an amount: rounded to four fractional digits and written
/// with exactly four.
pub open spec fn rendered(c: Currency) -> Seq<char> {
    fixed_text(rounded(c, FRACTION_DIGITS as nat), FRACTION_DIGITS as nat)
}

/// The amount can be rendered: rounded to four digits, its whole part has
/// at most 27 digits.
pub open spec fn renderable(c: Currency) -> bool {
    fits_text(rounded(c, FRACTION_DIGITS as nat), FRACTION_DIGITS as nat)
}

proof fn lemma_round_half_even_bounded(n: nat, d: nat)
    requires
        d >= 2,
    ensures
        round_half_even(n, d) <= n,
{
    let q = n / d;
    let rem = n % d;
    assert(n == d * q + rem && 0 <= rem < d) by (nonlinear_arith)
        requires
            d >= 2,
            q == n / d,
            rem == n % d,
    ;
    assert(d * q >= q) by (nonlinear_arith)
        requires
            d >= 2,
            q >= 0,
    ;
}

/// Relies on `<Decimal as FromStr>::from_str`: it reads a plain literal of
/// at most 28 digits exactly, keeping its fractional digits as the scale;
/// it fails on empty text and on a byte that no literal holds, unless the
/// text has an exponent mark; and every `Decimal` lies in the range of
/// `Currency::wf`.
#[verifier::external_body]
fn decimal_from_str(s: &str) -> (r: Option<Currency>)
    ensures
        r matches Some(c) ==> c.wf(),
        plain_decimal(s@) ==> r == Some(plain_decimal_value(s@)),
        rejected_literal(s@) ==> r is None,
{
    match <Decimal as std::str::FromStr>::from_str(s) {
        Ok(d) => Some(Currency { mantissa: d.mantissa(), scale: d.scale() }),
        Err(_) => None,
    }
}

/// Relies on `Decimal::round_dp`: an amount of at most `dp` fractional
/// digits is kept; another is rounded to `dp`, ties to even.
#[verifier::external_body]
fn decimal_round_dp(c: Currency, dp: u32) -> (r: Currency)
    requires
        c.wf(),
        dp <= MAX_SCALE,
    ensures
        r == rounded(c, dp as nat),
{
    let d = Decimal::from_i128_with_scale(c.mantissa, c.scale).round_dp(dp);
    Currency { mantissa: d.mantissa(), scale: d.scale() }
}

/// Relies on `Decimal`'s `Display` with precision `dp`, which pads an amount
/// of at most `dp` fractional digits with zeros. It writes the point only
/// where at least one fractional digit follows, hence `1 <= dp`. Its text is built in a
/// buffer of 32 characters, hence the bound `fits_text`.
#[verifier::external_body]
fn decimal_fixed(c: Currency, dp: u32) -> (r: String)
    requires
        c.wf(),
        1 <= dp,
        c.scale <= dp,
        fits_text(c, dp as nat),
    ensures
        r@ == fixed_text(c, dp as nat),
{
    format!("{:.*}", dp as usize, Decimal::from_i128_with_scale(c.mantissa, c.scale))
}

/// Relies on `Ord for Decimal` (`cmp_impl`): amounts are ordered by value,
/// whatever their scales.
#[verifier::external_body]
fn decimal_cmp(a: Currency, b: Currency) -> (r: i8)
    requires
        a.wf(),
        b.wf(),
    ensures
        r == -1 <==> a.value() < b.value(),
        r == 0 <==> a.value() == b.value(),
        r == 1 <==> a.value() > b.value(),
{
    let x = Decimal::from_i128_with_scale(a.mantissa, a.scale);
    let y = Decimal::from_i128_with_scale(b.mantissa, b.scale);
    match x.cmp(&y) {
        std::cmp::Ordering::Less => -1,
        std::cmp::Ordering::Equal => 0,
        std::cmp::Ordering::Greater => 1,
    }
}

/// `10^n` as a machine integer.
fn pow10_exec(n: u32) -> (r: i128)
    requires
        n <= 31,
    ensures
        r == pow10(n as nat),
{
    proof {
        reveal_with_fuel(pow10, 32);
        assert(pow10(30) == 1000000000000000000000000000000);
    }
    let mut r: i128 = 1;
    let mut k: u32 = 0;
    while k < n
        invariant
            k <= n <= 31,
            r == pow10(k as nat),
            pow10(30) == 1000000000000000000000000000000,
        decreases n - k,
    {
        proof {
            lemma_pow10_bounded(k as nat, 30);
            lemma_pow10_positive(k as nat);
            assert(r <= 1000000000000000000000000000000);
            assert(pow10((k + 1) as nat) == 10 * pow10(k as nat));
        }
        r = r * 10;
        k = k + 1;
    }
    r
}

proof fn lemma_pow10_bounded(a: nat, b: nat)
    requires
        a <= b,
    ensures
        pow10(a) <= pow10(b),
    decreases b - a,
{
    if a < b {
        lemma_pow10_bounded(a, (b - 1) as nat);
        lemma_pow10_positive((b - 1) as nat);
    }
}

impl Currency {
    /// Reads a decimal literal such as `1.23476`.
    pub fn from_str(amount: &str) -> (r: Result<Currency, AppError>)
        ensures
            r matches Ok(c) ==> c.wf(),
            r matches Err(e) ==> e matches AppError::FailedToParseDecimal { decimal } && decimal@
                == amount@,
            plain_decimal(amount@) ==> r == Ok::<Currency, AppError>(plain_decimal_value(amount@)),
            rejected_literal(amount@) ==> r is Err,
    {
        match decimal_from_str(amount) {
            Some(c) => Ok(c),
            None => Err(AppError::FailedToParseDecimal { decimal: String::from_str(amount) }),
        }
    }

    /// Whether the amount can be rendered by `to_string`.
    pub fn is_renderable(&self) -> (r: bool)
        requires
            self.wf(),
        ensures
            r == renderable(*self),
    {
        let c = decimal_round_dp(*self, FRACTION_DIGITS);
        proof {
            lemma_rounded_wf(*self, FRACTION_DIGITS as nat);
        }
        let m = if c.mantissa < 0 {
            -c.mantissa
        } else {
            c.mantissa
        };
        m < pow10_exec(31 - FRACTION_DIGITS + c.scale)
    }

    /// The amount rounded to four fractional digits (ties to even) and written
    /// with exactly four: `1.23476` gives `1.2348`, `-5` gives `-5.0000`.
    pub fn to_string(&self) -> (r: String)
        requires
            self.wf(),
            renderable(*self),
        ensures
            r@ == rendered(*self),
    {
        let c = decimal_round_dp(*self, FRACTION_DIGITS);
        proof {
            lemma_rounded_wf(*self, FRACTION_DIGITS as nat);
        }
        decimal_fixed(c, FRACTION_DIGITS)
    }
}

/// Rounding keeps an amount in range and leaves at most `dp` fractional
/// digits.
proof fn lemma_rounded_wf(c: Currency, dp: nat)
    requires
        c.wf(),
        dp <= MAX_SCALE,
    ensures
        rounded(c, dp).wf(),
        rounded(c, dp).scale <= dp,
{
    if c.scale > dp {
        lemma_pow10_positive((c.scale - dp) as nat);
        assert(pow10(0) == 1);
        assert(pow10((c.scale - dp) as nat) >= 10) by {
            lemma_pow10_adds(1, (c.scale - dp - 1) as nat);
            assert(pow10(1) == 10);
            lemma_pow10_positive((c.scale - dp - 1) as nat);
            assert((c.scale - dp) as nat == 1 + (c.scale - dp - 1) as nat);
        };
        lemma_round_half_even_bounded(
            abs(c.mantissa as int) as nat,
            pow10((c.scale - dp) as nat) as nat,
        );
    }
}

/// Amounts are equal when their values are, whatever their scales
/// (`1.5 == 1.50`).
impl PartialEq for Currency {
    fn eq(&self, other: &Currency) -> (r: bool) {
        if self.scale <= MAX_SCALE && -MAX_MANTISSA <= self.mantissa && self.mantissa
            <= MAX_MANTISSA && other.scale <= MAX_SCALE && -MAX_MANTISSA <= other.mantissa
            && other.mantissa <= MAX_MANTISSA {
            self.compare(*other) == 0
        } else {
            self.mantissa == other.mantissa && self.scale == other.scale
        }
    }
}

impl vstd::std_specs::cmp::PartialEqSpecImpl for Currency {
    open spec fn obeys_eq_spec() -> bool {
        true
    }

    open spec fn eq_spec(&self, other: &Currency) -> bool {
        if self.wf() && other.wf() {
            self.value() == other.value()
        } else {
            self.mantissa == other.mantissa && self.scale == other.scale
        }
    }
}

} // verus!
