use vstd::arithmetic::div_mod::{
    lemma_div_by_self, lemma_fundamental_div_mod, lemma_mod_multiples_basic, lemma_mod_self_0,
};
use vstd::prelude::*;

verus! {

/// An exact fraction `num / den`.
///
/// A well-formed value has a positive denominator and a numerator whose
/// negation still fits in an `i64`.
#[derive(Clone, Copy, Debug, PartialEq, Eq)]
pub struct Rational {
    pub num: i64,
    pub den: i64,
}

/// Greatest common divisor by Euclid's algorithm.
pub open spec fn gcd(a: nat, b: nat) -> nat
    decreases b,
{
    if b == 0 {
        a
    } else {
        gcd(b, a % b)
    }
}

pub open spec fn abs(n: int) -> nat {
    if n < 0 {
        (-n) as nat
    } else {
        n as nat
    }
}

/// The fraction `n / d` (with `d > 0`) divided through by `gcd(|n|, d)`,
/// when both parts of the result fit.
pub open spec fn reduce(n: int, d: int) -> Option<Rational> {
    let g = gcd(abs(n), abs(d));
    let rn = if n < 0 {
        -((abs(n) / g) as int)
    } else {
        (abs(n) / g) as int
    };
    let rd = abs(d) / g;
    if -i64::MAX <= rn <= i64::MAX && 0 < rd <= i64::MAX {
        Some(Rational { num: rn as i64, den: rd as i64 })
    } else {
        None
    }
}

proof fn lemma_prod_bound(x: int, y: int)
    requires
        -i64::MAX <= x <= i64::MAX,
        -i64::MAX <= y <= i64::MAX,
    ensures
        -(i64::MAX * i64::MAX) <= x * y <= i64::MAX * i64::MAX,
        x > 0 && y > 0 ==> x * y > 0,
        x > 0 && y < 0 ==> x * y < 0,
{
    assert(-(i64::MAX * i64::MAX) <= x * y <= i64::MAX * i64::MAX) by (nonlinear_arith)
        requires
            -i64::MAX <= x <= i64::MAX,
            -i64::MAX <= y <= i64::MAX,
    ;
    assert(x > 0 && y > 0 ==> x * y > 0) by (nonlinear_arith);
    assert(x > 0 && y < 0 ==> x * y < 0) by (nonlinear_arith);
}

proof fn lemma_gcd_pos(a: nat, b: nat)
    requires
        a > 0 || b > 0,
    ensures
        gcd(a, b) > 0,
    decreases b,
{
    if b > 0 {
        lemma_gcd_pos(b, a % b);
    }
}

proof fn lemma_gcd_divides(a: nat, b: nat)
    requires
        a > 0 || b > 0,
    ensures
        gcd(a, b) > 0,
        a % gcd(a, b) == 0,
        b % gcd(a, b) == 0,
    decreases b,
{
    lemma_gcd_pos(a, b);
    if b == 0 {
        lemma_mod_self_0(a as int);
    } else {
        lemma_gcd_divides(b, a % b);
        let g = gcd(a, b) as int;
        let ai = a as int;
        let bi = b as int;
        let r = (a % b) as int;
        lemma_fundamental_div_mod(ai, bi);
        lemma_fundamental_div_mod(bi, g);
        lemma_fundamental_div_mod(r, g);
        let k = (bi / g) * (ai / bi) + r / g;
        assert(ai == k * g) by (nonlinear_arith)
            requires
                ai == bi * (ai / bi) + r,
                bi == g * (bi / g),
                r == g * (r / g),
                k == (bi / g) * (ai / bi) + r / g,
        ;
        lemma_mod_multiples_basic(k, g);
    }
}

/// `reduce` keeps the value of the fraction.
pub proof fn lemma_reduce_value(n: int, d: int)
    requires
        d > 0,
    ensures
        reduce(n, d) matches Some(v) ==> v.num * d == n * v.den,
{
    let an = abs(n);
    let g = gcd(an, d as nat) as int;
    lemma_gcd_divides(an, d as nat);
    lemma_fundamental_div_mod(an as int, g);
    lemma_fundamental_div_mod(d, g);
    let qn = an as int / g;
    let qd = d / g;
    assert(qn * d == an * qd) by (nonlinear_arith)
        requires
            an == g * qn,
            d == g * qd,
    ;
    if n < 0 {
        assert((-qn) * d == n * qd) by (nonlinear_arith)
            requires
                qn * d == an * qd,
                an == -n,
        ;
    }
}

/// A reduced fraction is well formed and, for a positive denominator,
/// keeps the sign of its numerator.
pub proof fn lemma_reduce_wf(n: int, d: int)
    ensures
        reduce(n, d) matches Some(v) ==> v.wf(),
        d > 0 ==> (reduce(n, d) matches Some(v) ==> (n >= 0 ==> v.num >= 0) && (n <= 0 ==> v.num <= 0)),
{
    if d > 0 {
        let g = gcd(abs(n), abs(d));
        lemma_gcd_pos(abs(n), abs(d));
        assert(abs(n) / g >= 0 && (abs(n) == 0 ==> abs(n) / g == 0)) by (nonlinear_arith)
            requires
                g > 0,
        ;
    }
}

/// A positive fraction `n / n` reduces to one.
pub proof fn lemma_reduce_same(n: int)
    requires
        0 < n,
    ensures
        reduce(n, n) == Some(Rational { num: 1, den: 1 }),
{
    lemma_mod_self_0(n);
    assert(gcd(n as nat, n as nat) == gcd(n as nat, 0));
    lemma_div_by_self(n);
}

/// A zero numerator reduces to zero.
pub proof fn lemma_reduce_zero(d: int)
    requires
        0 < d,
    ensures
        reduce(0, d) == Some(Rational { num: 0, den: 1 }),
{
    assert(0nat % (d as nat) == 0) by (nonlinear_arith)
        requires
            d > 0,
    ;
    assert(gcd(0, d as nat) == gcd(d as nat, 0));
    lemma_div_by_self(d);
}

fn gcd_exec(a: u128, b: u128) -> (g: u128)
    ensures
        g == gcd(a as nat, b as nat),
{
    let mut x = a;
    let mut y = b;
    while y != 0
        invariant
            gcd(x as nat, y as nat) == gcd(a as nat, b as nat),
        decreases y,
    {
        let r = x % y;
        x = y;
        y = r;
    }
    x
}

/// Executable counterpart of `reduce`.
fn reduce_exec(n: i128, d: i128) -> (r: Option<Rational>)
    requires
        d > 0,
        n > i128::MIN,
    ensures
        r == reduce(n as int, d as int),
        r matches Some(v) ==> v.wf(),
{
    let an: u128 = if n < 0 {
        (-n) as u128
    } else {
        n as u128
    };
    let ad: u128 = d as u128;
    let g = gcd_exec(an, ad);
    proof {
        lemma_gcd_pos(an as nat, ad as nat);
    }
    let qn = an / g;
    let qd = ad / g;
    if qn > i64::MAX as u128 || qd > i64::MAX as u128 || qd == 0 {
        return None;
    }
    let rn: i64 = if n < 0 {
        -(qn as i64)
    } else {
        qn as i64
    };
    Some(Rational { num: rn, den: qd as i64 })
}

impl Rational {
    pub open spec fn wf(self) -> bool {
        &&& self.den > 0
        &&& self.num > i64::MIN
    }

    /// `self < other` as fractions.
    pub open spec fn lt(self, other: Rational) -> bool {
        self.num * other.den < other.num * self.den
    }

    pub open spec fn is_zero(self) -> bool {
        self.num == 0
    }

    pub open spec fn is_one(self) -> bool {
        self.num == self.den
    }

    pub open spec fn spec_neg(self) -> Rational {
        Rational { num: -self.num as i64, den: self.den }
    }

    pub open spec fn spec_add(self, o: Rational) -> Option<Rational> {
        reduce(self.num * o.den + o.num * self.den, self.den * o.den)
    }

    pub open spec fn spec_sub(self, o: Rational) -> Option<Rational> {
        reduce(self.num * o.den - o.num * self.den, self.den * o.den)
    }

    pub open spec fn spec_mul(self, o: Rational) -> Option<Rational> {
        reduce(self.num * o.num, self.den * o.den)
    }

    /// Division; `None` also when `o` is zero.
    pub open spec fn spec_div(self, o: Rational) -> Option<Rational> {
        if o.num == 0 {
            None
        } else if o.num < 0 {
            reduce(-(self.num * o.den), -(self.den * o.num))
        } else {
            reduce(self.num * o.den, self.den * o.num)
        }
    }

    /// `self < other`, compared exactly.
    pub fn is_less(&self, other: &Rational) -> (r: bool)
        requires
            self.wf(),
            other.wf(),
        ensures
            r == self.lt(*other),
    {
        proof {
            lemma_prod_bound(self.num as int, other.den as int);
            lemma_prod_bound(other.num as int, self.den as int);
        }
        (self.num as i128) * (other.den as i128) < (other.num as i128) * (self.den as i128)
    }

    pub fn neg(&self) -> (r: Rational)
        requires
            self.wf(),
        ensures
            r == self.spec_neg(),
            r.wf(),
    {
        Rational { num: -self.num, den: self.den }
    }

    pub fn checked_add(&self, o: &Rational) -> (r: Option<Rational>)
        requires
            self.wf(),
            o.wf(),
        ensures
            r == self.spec_add(*o),
            r matches Some(v) ==> v.wf(),
    {
        proof {
            lemma_prod_bound(self.num as int, o.den as int);
            lemma_prod_bound(o.num as int, self.den as int);
            lemma_prod_bound(self.den as int, o.den as int);
        }
        let n = (self.num as i128) * (o.den as i128) + (o.num as i128) * (self.den as i128);
        let d = (self.den as i128) * (o.den as i128);
        reduce_exec(n, d)
    }

    pub fn checked_sub(&self, o: &Rational) -> (r: Option<Rational>)
        requires
            self.wf(),
            o.wf(),
        ensures
            r == self.spec_sub(*o),
            r matches Some(v) ==> v.wf(),
    {
        proof {
            lemma_prod_bound(self.num as int, o.den as int);
            lemma_prod_bound(o.num as int, self.den as int);
            lemma_prod_bound(self.den as int, o.den as int);
        }
        let n = (self.num as i128) * (o.den as i128) - (o.num as i128) * (self.den as i128);
        let d = (self.den as i128) * (o.den as i128);
        reduce_exec(n, d)
    }

    pub fn checked_mul(&self, o: &Rational) -> (r: Option<Rational>)
        requires
            self.wf(),
            o.wf(),
        ensures
            r == self.spec_mul(*o),
            r matches Some(v) ==> v.wf(),
    {
        proof {
            lemma_prod_bound(self.num as int, o.num as int);
            lemma_prod_bound(self.den as int, o.den as int);
        }
        let n = (self.num as i128) * (o.num as i128);
        let d = (self.den as i128) * (o.den as i128);
        reduce_exec(n, d)
    }

    pub fn checked_div(&self, o: &Rational) -> (r: Option<Rational>)
        requires
            self.wf(),
            o.wf(),
        ensures
            r == self.spec_div(*o),
            r matches Some(v) ==> v.wf(),
    {
        if o.num == 0 {
            return None;
        }
        proof {
            lemma_prod_bound(self.num as int, o.den as int);
            lemma_prod_bound(self.den as int, o.num as int);
        }
        let n = (self.num as i128) * (o.den as i128);
        let d = (self.den as i128) * (o.num as i128);
        if o.num < 0 {
            reduce_exec(-n, -d)
        } else {
            reduce_exec(n, d)
        }
    }

    /// The fraction `num / 1`.
    pub fn from_int(num: i64) -> (r: Rational)
        requires
            num > i64::MIN,
        ensures
            r == (Rational { num, den: 1 }),
            r.wf(),
    {
        Rational { num, den: 1 }
    }

    pub fn zero() -> (r: Rational)
        ensures
            r == (Rational { num: 0, den: 1 }),
    {
        Rational { num: 0, den: 1 }
    }

    pub fn one() -> (r: Rational)
        ensures
            r == (Rational { num: 1, den: 1 }),
    {
        Rational { num: 1, den: 1 }
    }
}

} // verus!
