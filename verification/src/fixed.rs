//! Numbers with six decimals, for arithmetic that is the same on every machine.
//!
//! A number is a whole count of millionths. What cannot be held exactly is cut towards 0, and what
//! lies too far out is the largest number of its sign, which stands for infinity.
use crate::number::{Analytic, Number};
use crate::text::{
    decimal, int_within, parse_i64, split_once, split_once_at, trim_end_char, u64_text,
    without_trailing,
};
use vstd::prelude::*;

verus! {

/// A number with six decimals.
#[derive(Debug, Clone, Copy, PartialEq, Eq, Structural)]
pub struct Fixed {
    /// How many millionths.
    pub units: i64,
}

/// The largest count of millionths.
pub const LARGEST: i64 = 0x7fff_ffff_ffff_ffff;

/// The count of millionths that stands for an integer count: the largest one where it lies
/// outside.
pub open spec fn clip(n: int) -> i64 {
    if n > LARGEST {
        LARGEST
    } else if n < -LARGEST {
        (-LARGEST) as i64
    } else {
        n as i64
    }
}

fn clipped(n: i128) -> (r: Fixed)
    ensures
        r.units == clip(n as int),
{
    if n > LARGEST as i128 {
        Fixed { units: LARGEST }
    } else if n < -(LARGEST as i128) {
        Fixed { units: -LARGEST }
    } else {
        Fixed { units: n as i64 }
    }
}

/// The size of an integer.
pub open spec fn size(a: int) -> nat {
    if a < 0 {
        (-a) as nat
    } else {
        a as nat
    }
}

/// An integer of a size, below 0 or not.
pub open spec fn with_sign(negative: bool, n: nat) -> int {
    if negative {
        -(n as int)
    } else {
        n as int
    }
}

/// A quotient, cut towards 0.
pub open spec fn cut_quotient(a: int, b: int) -> int {
    with_sign((a < 0) != (b < 0), size(a) / size(b))
}

fn magnitude_of(a: i128) -> (r: u128)
    requires
        a > i128::MIN,
    ensures
        r == size(a as int),
{
    if a < 0 {
        (-a) as u128
    } else {
        a as u128
    }
}

fn divided(a: i128, b: i128) -> (r: i128)
    requires
        a > i128::MIN,
        b > i128::MIN,
        b != 0,
    ensures
        r == cut_quotient(a as int, b as int),
{
    let m: u128 = magnitude_of(a);
    let d: u128 = magnitude_of(b);
    proof {
        assert(m / d <= m) by (nonlinear_arith)
            requires
                d > 0,
        ;
    }
    let q: u128 = m / d;
    if (a < 0) != (b < 0) {
        -(q as i128)
    } else {
        q as i128
    }
}

proof fn lemma_product_fits(a: int, b: int)
    requires
        -0x8000_0000_0000_0000 <= a <= 0x7fff_ffff_ffff_ffff,
        -0x8000_0000_0000_0000 <= b <= 0x7fff_ffff_ffff_ffff,
    ensures
        -0x4000_0000_0000_0000_0000_0000_0000_0000 <= a * b
            <= 0x4000_0000_0000_0000_0000_0000_0000_0000,
{
    assert(-0x4000_0000_0000_0000_0000_0000_0000_0000 <= a * b
        <= 0x4000_0000_0000_0000_0000_0000_0000_0000) by (nonlinear_arith)
        requires
            -0x8000_0000_0000_0000 <= a <= 0x7fff_ffff_ffff_ffff,
            -0x8000_0000_0000_0000 <= b <= 0x7fff_ffff_ffff_ffff,
    ;
}

/// An integer whose square is not above a number, but that of the next one is.
pub open spec fn is_root(r: nat, x: nat) -> bool {
    r * r <= x < (r + 1) * (r + 1)
}

/// The largest integer whose square is not above a number.
pub open spec fn whole_root(x: nat) -> nat {
    choose|r: nat| is_root(r, x)
}

proof fn lemma_root_unique(r: nat, s: nat, x: nat)
    requires
        is_root(r, x),
        is_root(s, x),
    ensures
        r == s,
{
    if r < s {
        assert((r + 1) * (r + 1) <= s * s) by (nonlinear_arith)
            requires
                r + 1 <= s,
        ;
    } else if s < r {
        assert((s + 1) * (s + 1) <= r * r) by (nonlinear_arith)
            requires
                s + 1 <= r,
        ;
    }
}

fn root_of(x: u128) -> (r: u64)
    requires
        x <= 0x8000_0000_0000_0000u128 * 1_000_000,
    ensures
        is_root(r as nat, x as nat),
{
    let mut lo: u64 = 0;
    let mut hi: u64 = 0x1_0000_0000_0000;
    proof {
        assert(0x8000_0000_0000_0000int * 1_000_000 < 0x1_0000_0000_0000int * 0x1_0000_0000_0000int);
        assert(0 * 0 <= x as int);
    }
    while hi - lo > 1
        invariant
            lo < hi <= 0x1_0000_0000_0000,
            (lo as int) * (lo as int) <= x < (hi as int) * (hi as int),
        decreases hi - lo,
    {
        let mid: u64 = lo + (hi - lo) / 2;
        proof {
            lemma_product_fits(mid as int, mid as int);
        }
        let sq: u128 = (mid as u128) * (mid as u128);
        if sq <= x {
            lo = mid;
        } else {
            hi = mid;
        }
    }
    lo
}

/// How many millionths a unit of a decimal place is.
pub open spec fn place_unit(decimals: nat) -> nat {
    if decimals == 0 {
        1_000_000
    } else if decimals == 1 {
        100_000
    } else if decimals == 2 {
        10_000
    } else if decimals == 3 {
        1_000
    } else if decimals == 4 {
        100
    } else if decimals == 5 {
        10
    } else {
        1
    }
}

fn place_units(decimals: usize) -> (r: u64)
    ensures
        r == place_unit(decimals as nat),
        r > 0,
        r <= 1_000_000,
{
    if decimals == 0 {
        1_000_000
    } else if decimals == 1 {
        100_000
    } else if decimals == 2 {
        10_000
    } else if decimals == 3 {
        1_000
    } else if decimals == 4 {
        100
    } else if decimals == 5 {
        10
    } else {
        1
    }
}

/// Some zeros.
pub open spec fn zeros(n: nat) -> Seq<char> {
    Seq::new(n, |i: int| '0')
}

fn zero_text(n: usize) -> (r: String)
    ensures
        r@ == zeros(n as nat),
{
    let mut s = String::new();
    proof {
        assert(s@ =~= zeros(0));
    }
    let mut i: usize = 0;
    while i < n
        invariant
            i <= n,
            s@ == zeros(i as nat),
        decreases n - i,
    {
        s.push('0');
        proof {
            assert(s@ =~= zeros((i + 1) as nat));
        }
        i += 1;
    }
    s
}

/// A whole number with zeros before it, up to a width.
pub open spec fn padded(n: nat, width: nat) -> Seq<char> {
    let d = decimal(n);
    zeros(
        if d.len() < width {
            (width - d.len()) as nat
        } else {
            0
        },
    ) + d
}

fn pad(n: u64, width: usize) -> (r: String)
    ensures
        r@ == padded(n as nat, width as nat),
{
    let d = u64_text(n);
    let len: usize = d.as_str().unicode_len();
    let mut s = zero_text(
        if len < width {
            width - len
        } else {
            0
        },
    );
    s.append(d.as_str());
    s
}

impl Fixed {
    /// The nearest count of units of a decimal place, halves away from 0.
    pub open spec fn places(self, decimals: nat) -> nat {
        let unit = place_unit(decimals);
        (size(self.units as int) + unit / 2) / unit
    }
}

impl Number for Fixed {
    open spec fn integer(n: int) -> Fixed {
        Fixed { units: clip(n * 1_000_000) }
    }

    fn from_int(n: i64) -> (r: Fixed) {
        clipped(n as i128 * 1_000_000)
    }

    open spec fn unbounded() -> Fixed {
        Fixed { units: LARGEST }
    }

    fn infinity() -> (r: Fixed) {
        Fixed { units: LARGEST }
    }

    open spec fn sum(self, other: Fixed) -> Fixed {
        Fixed { units: clip(self.units + other.units) }
    }

    fn plus(self, other: Fixed) -> (r: Fixed) {
        clipped(self.units as i128 + other.units as i128)
    }

    open spec fn difference(self, other: Fixed) -> Fixed {
        Fixed { units: clip(self.units - other.units) }
    }

    fn minus(self, other: Fixed) -> (r: Fixed) {
        clipped(self.units as i128 - other.units as i128)
    }

    open spec fn product(self, other: Fixed) -> Fixed {
        Fixed { units: clip(cut_quotient(self.units * other.units, 1_000_000)) }
    }

    fn times(self, other: Fixed) -> (r: Fixed) {
        proof {
            lemma_product_fits(self.units as int, other.units as int);
        }
        let p: i128 = self.units as i128 * other.units as i128;
        clipped(divided(p, 1_000_000))
    }

    open spec fn quotient(self, other: Fixed) -> Fixed {
        if other.units == 0 {
            Fixed {
                units: if self.units == 0 {
                    0
                } else {
                    clip(with_sign(self.units < 0, LARGEST as nat))
                },
            }
        } else {
            Fixed { units: clip(cut_quotient(self.units * 1_000_000, other.units as int)) }
        }
    }

    fn over(self, other: Fixed) -> (r: Fixed) {
        if other.units == 0 {
            if self.units == 0 {
                Fixed { units: 0 }
            } else if self.units < 0 {
                Fixed { units: -LARGEST }
            } else {
                Fixed { units: LARGEST }
            }
        } else {
            clipped(divided(self.units as i128 * 1_000_000, other.units as i128))
        }
    }

    open spec fn negated(self) -> Fixed {
        Fixed { units: clip(-self.units) }
    }

    fn neg(self) -> (r: Fixed) {
        clipped(-(self.units as i128))
    }

    open spec fn magnitude(self) -> Fixed {
        Fixed { units: clip(size(self.units as int) as int) }
    }

    fn abs(self) -> (r: Fixed) {
        let m: u128 = magnitude_of(self.units as i128);
        clipped(m as i128)
    }

    open spec fn lesser(self, other: Fixed) -> Fixed {
        if other.units < self.units {
            other
        } else {
            self
        }
    }

    fn min(self, other: Fixed) -> (r: Fixed) {
        if other.units < self.units {
            other
        } else {
            self
        }
    }

    open spec fn greater(self, other: Fixed) -> Fixed {
        if self.units < other.units {
            other
        } else {
            self
        }
    }

    fn max(self, other: Fixed) -> (r: Fixed) {
        if self.units < other.units {
            other
        } else {
            self
        }
    }

    open spec fn rounded_up(self) -> Fixed {
        let m = size(self.units as int);
        Fixed {
            units: clip(
                if self.units < 0 {
                    -(m / 1_000_000 * 1_000_000)
                } else {
                    ((m + 999_999) / 1_000_000 * 1_000_000) as int
                },
            ),
        }
    }

    fn ceil(self) -> (r: Fixed) {
        let m: u128 = magnitude_of(self.units as i128);
        if self.units < 0 {
            clipped(-((m / 1_000_000 * 1_000_000) as i128))
        } else {
            clipped(((m + 999_999) / 1_000_000 * 1_000_000) as i128)
        }
    }

    open spec fn nearest(self) -> Fixed {
        let m = (size(self.units as int) + 500_000) / 1_000_000 * 1_000_000;
        Fixed { units: clip(with_sign(self.units < 0, m)) }
    }

    fn round(self) -> (r: Fixed) {
        let m: u128 = magnitude_of(self.units as i128);
        let n: i128 = ((m + 500_000) / 1_000_000 * 1_000_000) as i128;
        if self.units < 0 {
            clipped(-n)
        } else {
            clipped(n)
        }
    }

    open spec fn fraction(self) -> Fixed {
        Fixed { units: clip(with_sign(self.units < 0, size(self.units as int) % 1_000_000)) }
    }

    fn fract(self) -> (r: Fixed) {
        let m: u128 = magnitude_of(self.units as i128);
        let n: i128 = (m % 1_000_000) as i128;
        if self.units < 0 {
            clipped(-n)
        } else {
            clipped(n)
        }
    }

    open spec fn root(self) -> Fixed {
        if self.units <= 0 {
            Fixed { units: 0 }
        } else {
            Fixed { units: clip(whole_root((self.units * 1_000_000) as nat) as int) }
        }
    }

    fn sqrt(self) -> (r: Fixed) {
        if self.units <= 0 {
            return Fixed { units: 0 };
        }
        let r: u64 = root_of(self.units as u128 * 1_000_000);
        proof {
            let x = (self.units * 1_000_000) as nat;
            assert(is_root(r as nat, x));
            lemma_root_unique(r as nat, whole_root(x), x);
        }
        clipped(r as i128)
    }

    open spec fn below(self, other: Fixed) -> bool {
        self.units < other.units
    }

    fn is_below(self, other: Fixed) -> (r: bool) {
        self.units < other.units
    }

    open spec fn at_most(self, other: Fixed) -> bool {
        self.units <= other.units
    }

    fn is_at_most(self, other: Fixed) -> (r: bool) {
        self.units <= other.units
    }

    open spec fn equals(self, other: Fixed) -> bool {
        self.units == other.units
    }

    fn is_equal(self, other: Fixed) -> (r: bool) {
        self.units == other.units
    }

    open spec fn finite(self) -> bool {
        -LARGEST < self.units < LARGEST
    }

    fn is_finite(self) -> (r: bool) {
        -LARGEST < self.units && self.units < LARGEST
    }

    open spec fn truncated(self) -> i64 {
        cut_quotient(self.units as int, 1_000_000) as i64
    }

    fn to_int(self) -> (r: i64) {
        divided(self.units as i128, 1_000_000) as i64
    }

    open spec fn written(s: Seq<char>) -> Option<Fixed> {
        let digits = match split_once_at(s, '.') {
            None => Some(s + zeros(6)),
            Some((w, f)) => if f.len() <= 6 {
                Some(w + f + zeros((6 - f.len()) as nat))
            } else {
                None
            },
        };
        match digits {
            Some(d) => match int_within(d, i64::MIN as int, i64::MAX as int) {
                Some(n) => Some(Fixed { units: n as i64 }),
                None => None,
            },
            None => None,
        }
    }

    fn parse(s: &str) -> (r: Option<Fixed>) {
        let digits = match split_once(s, '.') {
            None => {
                let mut d = s.to_owned();
                d.append(zero_text(6).as_str());
                d
            },
            Some((w, f)) => {
                let n: usize = f.as_str().unicode_len();
                if n > 6 {
                    return None;
                }
                let mut d = w;
                d.append(f.as_str());
                d.append(zero_text(6 - n).as_str());
                d
            },
        };
        match parse_i64(digits.as_str()) {
            Some(n) => Some(Fixed { units: n }),
            None => None,
        }
    }

    open spec fn shown(self) -> Seq<char> {
        let m = size(self.units as int);
        let body = without_trailing(
            without_trailing(decimal(m / 1_000_000) + "."@ + padded(m % 1_000_000, 6), '0'),
            '.',
        );
        if self.units < 0 {
            "-"@ + body
        } else {
            body
        }
    }

    fn text(self) -> (r: String) {
        let m: u128 = magnitude_of(self.units as i128);
        let mut body = u64_text((m / 1_000_000) as u64);
        body.append(".");
        body.append(pad((m % 1_000_000) as u64, 6).as_str());
        let cut = trim_end_char(body.as_str(), '0');
        let cut = trim_end_char(cut.as_str(), '.');
        if self.units < 0 {
            let mut s = "-".to_owned();
            s.append(cut.as_str());
            s
        } else {
            cut
        }
    }

    open spec fn shown_fixed(self, decimals: nat) -> Seq<char> {
        let n = self.places(decimals);
        let per = 1_000_000nat / place_unit(decimals);
        let sign = if self.units < 0 {
            "-"@
        } else {
            ""@
        };
        let whole = sign + decimal(n / per);
        if decimals == 0 {
            whole
        } else if decimals <= 6 {
            whole + "."@ + padded(n % per, decimals)
        } else {
            whole + "."@ + padded(n % per, 6) + zeros((decimals - 6) as nat)
        }
    }

    fn fixed(self, decimals: usize) -> (r: String) {
        let m: u128 = magnitude_of(self.units as i128);
        let unit: u64 = place_units(decimals);
        let n: u128 = (m + (unit / 2) as u128) / unit as u128;
        let per: u64 = 1_000_000 / unit;
        proof {
            let (mi, ui, pi) = (m as int, unit as int, per as int);
            let top = mi + ui / 2;
            vstd::arithmetic::div_mod::lemma_div_is_ordered_by_denominator(top, 1, ui);
            vstd::arithmetic::div_mod::lemma_div_is_ordered_by_denominator(1_000_000, 1, ui);
            vstd::arithmetic::div_mod::lemma_div_non_zero(1_000_000, ui);
            vstd::arithmetic::div_mod::lemma_div_is_ordered_by_denominator(n as int, 1, pi);
        }
        let mut s = if self.units < 0 {
            "-".to_owned()
        } else {
            "".to_owned()
        };
        s.append(u64_text((n / per as u128) as u64).as_str());
        if decimals == 0 {
            return s;
        }
        s.append(".");
        let rest: u64 = (n % per as u128) as u64;
        if decimals <= 6 {
            s.append(pad(rest, decimals).as_str());
        } else {
            s.append(pad(rest, 6).as_str());
            s.append(zero_text(decimals - 6).as_str());
        }
        s
    }
}

/// The sum of the first terms of the series of the exponential, and the next term.
pub open spec fn exp_series(x: Fixed, n: nat) -> (Fixed, Fixed)
    decreases n,
{
    if n == 0 {
        (Fixed::integer(0), Fixed::integer(1))
    } else {
        let (sum, term) = exp_series(x, (n - 1) as nat);
        (sum.sum(term), term.product(x).quotient(Fixed::integer(n as int)))
    }
}

/// The sum of the first terms of the series of the cosine, and the next term.
pub open spec fn cos_series(x: Fixed, n: nat) -> (Fixed, Fixed)
    decreases n,
{
    if n == 0 {
        (Fixed::integer(0), Fixed::integer(1))
    } else {
        let (sum, term) = cos_series(x, (n - 1) as nat);
        (
            sum.sum(term),
            term.product(x).product(x).quotient(
                Fixed::integer((2 * n - 1) * (2 * n)),
            ).negated(),
        )
    }
}

/// The sum of the first terms of the series of the inverse hyperbolic tangent, and the next power.
pub open spec fn atanh_series(z: Fixed, n: nat) -> (Fixed, Fixed)
    decreases n,
{
    if n == 0 {
        (Fixed::integer(0), z)
    } else {
        let (sum, power) = atanh_series(z, (n - 1) as nat);
        (sum.sum(power.quotient(Fixed::integer(2 * n - 1))), power.product(z).product(z))
    }
}

/// How many terms of a series are summed.
pub const TERMS: u64 = 40;

impl Analytic for Fixed {
    open spec fn logarithm(self) -> Fixed {
        if self.units <= 0 {
            Fixed::unbounded().negated()
        } else {
            let one = Fixed::integer(1);
            let z = self.difference(one).quotient(self.sum(one));
            atanh_series(z, TERMS as nat).0.product(Fixed::integer(2))
        }
    }

    fn ln(self) -> (r: Fixed) {
        if self.units <= 0 {
            return Fixed::infinity().neg();
        }
        let one = Fixed::from_int(1);
        let z = self.minus(one).over(self.plus(one));
        let mut sum = Fixed::from_int(0);
        let mut power = z;
        let mut n: u64 = 0;
        while n < TERMS
            invariant
                n <= TERMS,
                (sum, power) == atanh_series(z, n as nat),
            decreases TERMS - n,
        {
            n += 1;
            sum = sum.plus(power.over(Fixed::from_int((2 * n - 1) as i64)));
            power = power.times(z).times(z);
        }
        sum.times(Fixed::from_int(2))
    }

    open spec fn exponential(self) -> Fixed {
        exp_series(self, TERMS as nat).0
    }

    fn exp(self) -> (r: Fixed) {
        let mut sum = Fixed::from_int(0);
        let mut term = Fixed::from_int(1);
        let mut n: u64 = 0;
        while n < TERMS
            invariant
                n <= TERMS,
                (sum, term) == exp_series(self, n as nat),
            decreases TERMS - n,
        {
            n += 1;
            sum = sum.plus(term);
            term = term.times(self).over(Fixed::from_int(n as i64));
        }
        sum
    }

    open spec fn cosine(self) -> Fixed {
        cos_series(self, TERMS as nat).0
    }

    fn cos(self) -> (r: Fixed) {
        let mut sum = Fixed::from_int(0);
        let mut term = Fixed::from_int(1);
        let mut n: u64 = 0;
        while n < TERMS
            invariant
                n <= TERMS,
                (sum, term) == cos_series(self, n as nat),
            decreases TERMS - n,
        {
            n += 1;
            sum = sum.plus(term);
            assert((2 * n - 1) * (2 * n) <= 80 * 80) by (nonlinear_arith)
                requires
                    1 <= n <= 40,
            ;
            term = term.times(self).times(self).over(
                Fixed::from_int(((2 * n - 1) * (2 * n)) as i64),
            ).neg();
        }
        sum
    }

    open spec fn full_turn() -> Fixed {
        Fixed { units: 6_283_185 }
    }

    fn tau() -> (r: Fixed) {
        Fixed { units: 6_283_185 }
    }
}

/// Numbers with six decimals are ordered as numbers should be.
pub proof fn law_fixed_is_ordered(a: Fixed, b: Fixed, c: Fixed)
    ensures
        !(a.below(b) && b.below(a)),
        a.below(c) ==> a.below(b) || b.below(c),
        a.at_most(b) <==> !b.below(a),
        a.equals(b) <==> a == b,
{
}

/// To add a number and to take it away again changes nothing, where the sum is finite.
pub proof fn law_fixed_sums_undo(a: Fixed, b: Fixed)
    requires
        a.finite(),
        b.finite(),
        a.sum(b).finite(),
    ensures
        a.sum(b).difference(b) == a,
        a.sum(b) == b.sum(a),
{
}

/// A quotient that is cut towards 0 misses by less than the divisor, and never overshoots.
pub proof fn lemma_cut(a: int, b: int)
    requires
        b > 0,
    ensures
        ({
            let q = cut_quotient(a, b);
            &&& a >= 0 ==> 0 <= q * b <= a < q * b + b
            &&& a <= 0 ==> q * b - b < a <= q * b <= 0
            &&& a >= 0 ==> 0 <= q <= a
            &&& a <= 0 ==> a <= q <= 0
        }),
{
    let n = size(a) as int;
    let m = n / b;
    vstd::arithmetic::div_mod::lemma_fundamental_div_mod(n, b);
    vstd::arithmetic::div_mod::lemma_mod_bound(n, b);
    vstd::arithmetic::div_mod::lemma_div_pos_is_pos(n, b);
    assert(b * m == m * b) by (nonlinear_arith);
    assert((-m) * b == -(m * b)) by (nonlinear_arith);
    assert(m <= m * b) by (nonlinear_arith)
        requires
            m >= 0,
            b >= 1,
    ;
}

/// A quotient of a multiple is exact.
pub proof fn lemma_cut_multiple(q: int, b: int)
    requires
        b > 0,
    ensures
        cut_quotient(q * b, b) == q,
{
    lemma_cut(q * b, b);
    let c = cut_quotient(q * b, b);
    assert(q * b >= 0 <==> q >= 0) by (nonlinear_arith)
        requires
            b > 0,
    ;
    assert(c == q) by (nonlinear_arith)
        requires
            b > 0,
            q >= 0 ==> c * b <= q * b < c * b + b,
            q <= 0 ==> c * b - b < q * b <= c * b,
            q * b >= 0 <==> q >= 0,
    ;
}

/// A product misses the true one by less than a millionth, and never overshoots, where it can be
/// held.
pub proof fn law_products_are_cut(a: Fixed, b: Fixed)
    requires
        a.product(b).finite(),
    ensures
        ({
            let p = a.product(b).units * 1_000_000;
            let exact = a.units * b.units;
            &&& exact >= 0 ==> 0 <= p <= exact < p + 1_000_000
            &&& exact <= 0 ==> p - 1_000_000 < exact <= p <= 0
        }),
{
    lemma_cut(a.units * b.units, 1_000_000);
}

/// The product with a whole number is exact, where it can be held.
pub proof fn law_whole_products_are_exact(a: Fixed, b: Fixed, k: int)
    requires
        a.units == k * 1_000_000,
        -LARGEST <= k * b.units <= LARGEST,
    ensures
        a.product(b).units == k * b.units,
        b.product(a).units == k * b.units,
{
    let y = b.units as int;
    assert((k * 1_000_000) * y == (k * y) * 1_000_000) by (nonlinear_arith);
    assert(y * (k * 1_000_000) == (k * y) * 1_000_000) by (nonlinear_arith);
    lemma_cut_multiple(k * y, 1_000_000);
}

/// A quotient misses the true one by less than a millionth, and never overshoots, where it can be
/// held.
pub proof fn law_quotients_are_cut(a: Fixed, b: Fixed)
    requires
        b.units > 0,
        a.quotient(b).finite(),
    ensures
        ({
            let p = a.quotient(b).units * b.units;
            let exact = a.units * 1_000_000;
            &&& exact >= 0 ==> 0 <= p <= exact < p + b.units
            &&& exact <= 0 ==> p - b.units < exact <= p <= 0
        }),
{
    lemma_cut(a.units * 1_000_000, b.units as int);
}

proof fn lemma_root_exists(x: nat) -> (r: nat)
    ensures
        is_root(r, x),
    decreases x,
{
    if x == 0 {
        assert(is_root(0, 0)) by {
            assert((0nat + 1) * (0nat + 1) == 1 && 0nat * 0nat == 0) by (nonlinear_arith);
        }
        0
    } else {
        let s = lemma_root_exists((x - 1) as nat);
        let t: nat = s + 1;
        if t * t <= x {
            assert((t + 1) * (t + 1) > t * t) by (nonlinear_arith);
            assert(t * t == x);
            assert(is_root(t, x));
            t
        } else {
            assert(is_root(s, x));
            s
        }
    }
}

/// A root is the largest number whose square is not above its own; that of what is not above 0 is 0.
pub proof fn law_roots_are_cut(x: Fixed)
    ensures
        ({
            let r = x.root().units as int;
            &&& r >= 0
            &&& x.units > 0 ==> r * r <= x.units * 1_000_000 < (r + 1) * (r + 1)
            &&& x.units <= 0 ==> r == 0
        }),
{
    if x.units > 0 {
        let n = (x.units * 1_000_000) as nat;
        let r = lemma_root_exists(n);
        lemma_root_unique(r, whole_root(n), n);
        assert(r <= LARGEST) by (nonlinear_arith)
            requires
                r * r <= n,
                n <= 0x8000_0000_0000_0000 * 1_000_000,
        ;
    }
}

} // verus!
