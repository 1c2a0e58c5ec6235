use vstd::prelude::*;

verus! {

/// Greatest common divisor, by Euclid's recurrence.
pub open spec fn gcd(a: nat, b: nat) -> nat
    decreases b,
{
    if b == 0 {
        a
    } else {
        gcd(b, a % b)
    }
}

pub proof fn lemma_gcd_bounds(a: nat, b: nat)
    requires
        b > 0,
    ensures
        0 < gcd(a, b) <= b,
    decreases b,
{
    let r = a % b;
    assert(gcd(a, b) == gcd(b, r));
    if r != 0 {
        lemma_gcd_bounds(b, r);
    } else {
        assert(gcd(b, 0) == b);
    }
}

pub open spec fn abs(x: int) -> nat {
    if x < 0 {
        (-x) as nat
    } else {
        x as nat
    }
}

/// The fraction `n / d` (with `d > 0`) in lowest terms, the sign on the numerator.
pub open spec fn reduce(n: int, d: int) -> (int, int) {
    let g = gcd(abs(n), abs(d)) as int;
    if n < 0 {
        (-(abs(n) as int / g), abs(d) as int / g)
    } else {
        (abs(n) as int / g, abs(d) as int / g)
    }
}

/// The integer `i` as a number.
pub closed spec fn num_of_int(i: int) -> Num {
    Num { num: i as i64, den: 1 }
}

/// The floor of an integer is itself.
pub proof fn lemma_floor_of_int(i: int)
    requires
        fits(i),
    ensures
        floor_spec(num_of_int(i)) == i,
        num_of_int(i).numer() == i,
        num_of_int(i).denom() == 1,
{
}

pub open spec fn fits(x: int) -> bool {
    i64::MIN <= x <= i64::MAX
}

/// An exact rational number: numerator over a positive denominator, in lowest terms.
#[derive(Clone, Copy, Debug, PartialEq, Eq, Structural)]
pub struct Num {
    num: i64,
    den: i64,
}

/// The outcome of an arithmetic operation on two numbers.
#[derive(Clone, Copy, Debug, PartialEq, Eq, Structural)]
pub enum Arith {
    Value(Num),
    Overflow,
    DivisionByZero,
}

/// The reduced fraction `n / d`, or `Overflow` when a part of it leaves `i64`.
pub closed spec fn make(n: int, d: int) -> Arith {
    let (rn, rd) = reduce(n, d);
    if fits(rn) && fits(rd) {
        Arith::Value(Num { num: rn as i64, den: rd as i64 })
    } else {
        Arith::Overflow
    }
}

/// `a + b`, reduced, or `Overflow`.
pub open spec fn add_spec(a: Num, b: Num) -> Arith {
    make(a.numer() * b.denom() + b.numer() * a.denom(), a.denom() * b.denom())
}

/// `a - b`, reduced, or `Overflow`.
pub open spec fn sub_spec(a: Num, b: Num) -> Arith {
    make(a.numer() * b.denom() - b.numer() * a.denom(), a.denom() * b.denom())
}

/// `a * b`, reduced, or `Overflow`.
pub open spec fn mul_spec(a: Num, b: Num) -> Arith {
    make(a.numer() * b.numer(), a.denom() * b.denom())
}

/// `a / b`, reduced, or `Overflow`, or `DivisionByZero` when `b` is zero.
pub open spec fn div_spec(a: Num, b: Num) -> Arith {
    if b.numer() == 0 {
        Arith::DivisionByZero
    } else if b.numer() < 0 {
        make(-(a.numer() * b.denom()), -(a.denom() * b.numer()))
    } else {
        make(a.numer() * b.denom(), a.denom() * b.numer())
    }
}

/// What `make` gives: the reduced fraction when both of its parts fit `i64`, else `Overflow`.
pub proof fn lemma_make(n: int, d: int)
    ensures
        make(n, d) is Value <==> fits(reduce(n, d).0) && fits(reduce(n, d).1),
        make(n, d) is Value ==> make(n, d)->Value_0.numer() == reduce(n, d).0 && make(n, d)->Value_0.denom()
            == reduce(n, d).1,
        !(make(n, d) is DivisionByZero),
{
}

/// Two numbers with the same numerator and denominator are the same number.
pub proof fn lemma_num_eq(a: Num, b: Num)
    requires
        a.numer() == b.numer(),
        a.denom() == b.denom(),
    ensures
        a == b,
{
}

/// The integer `i`, as a number, has numerator `i` and denominator 1.
pub proof fn lemma_num_of_int(i: int)
    requires
        fits(i),
    ensures
        num_of_int(i).numer() == i,
        num_of_int(i).denom() == 1,
{
}

proof fn lemma_make_int(n: int)
    ensures
        make(n, 1) == if fits(n) { Arith::Value(num_of_int(n)) } else { Arith::Overflow },
{
    assert(abs(1int) == 1nat);
    assert(abs(n) % 1 == 0);
    assert(gcd(abs(n), 1) == gcd(1, 0));
    assert(gcd(1, 0) == 1);
    assert(abs(n) as int / 1 == abs(n));
    assert(reduce(n, 1) == (n, 1int));
}

/// On integers, `+ - *` give the integer result when it fits, else `Overflow`.
pub broadcast proof fn lemma_int_arith(i: int, j: int)
    requires
        fits(i),
        fits(j),
    ensures
        #[trigger] add_spec(num_of_int(i), num_of_int(j)) == if fits(i + j) {
            Arith::Value(num_of_int(i + j))
        } else {
            Arith::Overflow
        },
        #[trigger] sub_spec(num_of_int(i), num_of_int(j)) == if fits(i - j) {
            Arith::Value(num_of_int(i - j))
        } else {
            Arith::Overflow
        },
        #[trigger] mul_spec(num_of_int(i), num_of_int(j)) == if fits(i * j) {
            Arith::Value(num_of_int(i * j))
        } else {
            Arith::Overflow
        },
        lt_spec(num_of_int(i), num_of_int(j)) == (i < j),
        eq_spec(num_of_int(i), num_of_int(j)) == (i == j),
{
    lemma_make_int(i + j);
    lemma_make_int(i - j);
    lemma_make_int(i * j);
    let (a, b) = (num_of_int(i), num_of_int(j));
    assert(a.numer() == i && a.denom() == 1 && b.numer() == j && b.denom() == 1);
    assert(a.numer() * b.denom() + b.numer() * a.denom() == i + j);
    assert(a.numer() * b.denom() - b.numer() * a.denom() == i - j);
    assert(a.denom() * b.denom() == 1);
}

/// Dividing a non-negative integer by a positive integer that divides it gives the quotient.
pub broadcast proof fn lemma_int_div(i: int, j: int)
    requires
        fits(i),
        fits(j),
        0 <= i,
        0 < j,
        i % j == 0,
    ensures
        #[trigger] div_spec(num_of_int(i), num_of_int(j)) == Arith::Value(num_of_int(i / j)),
{
    assert(gcd(i as nat, j as nat) == gcd(j as nat, 0));
    assert(gcd(j as nat, 0) == j);
    assert(0 <= i / j <= i) by (nonlinear_arith)
        requires
            0 <= i,
            0 < j,
    ;
    assert(j / j == 1) by (nonlinear_arith)
        requires
            0 < j,
    ;
}

/// The integer facts above, for `broadcast use`.
pub broadcast group group_int_arith {
    lemma_int_arith,
    lemma_int_div,
}

/// `a < b` as rationals.
pub open spec fn lt_spec(a: Num, b: Num) -> bool {
    a.numer() * b.denom() < b.numer() * a.denom()
}

/// `a == b` as rationals.
pub open spec fn eq_spec(a: Num, b: Num) -> bool {
    a.numer() * b.denom() == b.numer() * a.denom()
}

/// The largest integer not above the number.
pub open spec fn floor_spec(a: Num) -> int {
    a.numer() / a.denom()
}

fn gcd_exec(a: u128, b: u128) -> (r: u128)
    ensures
        r == gcd(a as nat, b as nat),
{
    let mut x = a;
    let mut y = b;
    while y != 0
        invariant
            gcd(x as nat, y as nat) == gcd(a as nat, b as nat),
        decreases y,
    {
        let t = x % y;
        x = y;
        y = t;
    }
    x
}

/// Reduces `n / d` and checks that it fits.
fn make_exec(n: i128, d: i128) -> (r: Arith)
    requires
        d > 0,
        n > i128::MIN,
    ensures
        r == make(n as int, d as int),
{
    let an: u128 = if n < 0 { (-n) as u128 } else { n as u128 };
    let ad: u128 = d as u128;
    let g = gcd_exec(an, ad);
    proof {
        lemma_gcd_bounds(an as nat, ad as nat);
    }
    let qn: u128 = an / g;
    let qd: u128 = ad / g;
    proof {
        assert(qd >= 1) by (nonlinear_arith)
            requires
                qd == ad as int / g as int,
                0 < g <= ad,
        ;
    }
    if qn > i64::MAX as u128 + 1 || qd > i64::MAX as u128 {
        return Arith::Overflow;
    }
    if n < 0 {
        let m: i128 = -(qn as i128);
        if m < i64::MIN as i128 {
            return Arith::Overflow;
        }
        Arith::Value(Num { num: m as i64, den: qd as i64 })
    } else {
        if qn > i64::MAX as u128 {
            return Arith::Overflow;
        }
        Arith::Value(Num { num: qn as i64, den: qd as i64 })
    }
}

/// A product with a positive factor of `i64`s stays well inside `i128`.
proof fn lemma_mul_pos_bound(a: i64, b: i64)
    requires
        b > 0,
    ensures
        -0x4000_0000_0000_0000_0000_0000_0000_0000int < (a as int) * (b as int)
            < 0x4000_0000_0000_0000_0000_0000_0000_0000int,
{
    assert(-0x4000_0000_0000_0000_0000_0000_0000_0000int < (a as int) * (b as int)
        < 0x4000_0000_0000_0000_0000_0000_0000_0000int) by (nonlinear_arith)
        requires
            -0x8000_0000_0000_0000int <= a <= 0x7fff_ffff_ffff_ffffint,
            0 < b <= 0x7fff_ffff_ffff_ffffint,
    ;
}

/// Any product of two `i64`s fits `i128`.
proof fn lemma_mul_bound(a: i64, b: i64)
    ensures
        -0x4000_0000_0000_0000_0000_0000_0000_0000int <= (a as int) * (b as int)
            <= 0x4000_0000_0000_0000_0000_0000_0000_0000int,
{
    assert(-0x4000_0000_0000_0000_0000_0000_0000_0000int <= (a as int) * (b as int)
        <= 0x4000_0000_0000_0000_0000_0000_0000_0000int) by (nonlinear_arith)
        requires
            -0x8000_0000_0000_0000int <= a <= 0x7fff_ffff_ffff_ffffint,
            -0x8000_0000_0000_0000int <= b <= 0x7fff_ffff_ffff_ffffint,
    ;
}

proof fn lemma_positive_product(a: i64, b: i64)
    requires
        a > 0,
        b > 0,
    ensures
        (a as int) * (b as int) > 0,
{
    assert((a as int) * (b as int) > 0) by (nonlinear_arith)
        requires a > 0, b > 0;
}

impl Num {
    #[verifier::type_invariant]
    spec fn inv(self) -> bool {
        self.den > 0
    }

    pub closed spec fn numer(self) -> int {
        self.num as int
    }

    pub closed spec fn denom(self) -> int {
        self.den as int
    }

    /// The integer `n` as a number.
    pub fn from_int(n: i64) -> (r: Num)
        ensures
            r.numer() == n,
            r.denom() == 1,
            r == num_of_int(n as int),
    {
        Num { num: n, den: 1 }
    }

    /// Whether the number is the integer `n`.
    pub open spec fn is_int(self, n: int) -> bool {
        self.numer() == n && self.denom() == 1
    }

    pub fn numerator(&self) -> (r: i64)
        ensures
            r == self.numer(),
    {
        self.num
    }

    pub fn denominator(&self) -> (r: i64)
        ensures
            r == self.denom(),
            r > 0,
    {
        proof {
            use_type_invariant(self);
        }
        self.den
    }

    pub fn add(self, other: Num) -> (r: Arith)
        ensures
            r == add_spec(self, other),
    {
        proof {
            use_type_invariant(&self);
            use_type_invariant(&other);
        }
        proof {
            lemma_mul_pos_bound(self.num, other.den);
            lemma_mul_pos_bound(other.num, self.den);
            lemma_mul_pos_bound(self.den, other.den);
            lemma_positive_product(self.den, other.den);
        }
        let n = self.num as i128 * other.den as i128 + other.num as i128 * self.den as i128;
        let d = self.den as i128 * other.den as i128;
        make_exec(n, d)
    }

    pub fn sub(self, other: Num) -> (r: Arith)
        ensures
            r == sub_spec(self, other),
    {
        proof {
            use_type_invariant(&self);
            use_type_invariant(&other);
        }
        proof {
            lemma_mul_pos_bound(self.num, other.den);
            lemma_mul_pos_bound(other.num, self.den);
            lemma_mul_pos_bound(self.den, other.den);
            lemma_positive_product(self.den, other.den);
        }
        let n = self.num as i128 * other.den as i128 - other.num as i128 * self.den as i128;
        let d = self.den as i128 * other.den as i128;
        make_exec(n, d)
    }

    pub fn mul(self, other: Num) -> (r: Arith)
        ensures
            r == mul_spec(self, other),
    {
        proof {
            use_type_invariant(&self);
            use_type_invariant(&other);
        }
        proof {
            lemma_mul_bound(self.num, other.num);
            lemma_mul_pos_bound(self.den, other.den);
            lemma_positive_product(self.den, other.den);
        }
        let n = self.num as i128 * other.num as i128;
        let d = self.den as i128 * other.den as i128;
        make_exec(n, d)
    }

    pub fn div(self, other: Num) -> (r: Arith)
        ensures
            r == div_spec(self, other),
    {
        proof {
            use_type_invariant(&self);
            use_type_invariant(&other);
        }
        if other.num == 0 {
            return Arith::DivisionByZero;
        }
        proof {
            lemma_mul_pos_bound(self.num, other.den);
            lemma_mul_pos_bound(other.num, self.den);
        }
        let n = self.num as i128 * other.den as i128;
        let d = self.den as i128 * other.num as i128;
        if other.num < 0 {
            proof {
                assert((self.den as int) * (other.num as int) < 0) by (nonlinear_arith)
                    requires self.den > 0, other.num < 0;
            }
            make_exec(-n, -d)
        } else {
            proof {
                lemma_positive_product(self.den, other.num);
            }
            make_exec(n, d)
        }
    }

    pub fn lt(self, other: Num) -> (r: bool)
        ensures
            r == lt_spec(self, other),
    {
        proof {
            use_type_invariant(&self);
            use_type_invariant(&other);
        }
        proof {
            lemma_mul_bound(self.num, other.den);
            lemma_mul_bound(other.num, self.den);
        }
        (self.num as i128 * other.den as i128) < (other.num as i128 * self.den as i128)
    }

    pub fn same(self, other: Num) -> (r: bool)
        ensures
            r == eq_spec(self, other),
    {
        proof {
            use_type_invariant(&self);
            use_type_invariant(&other);
        }
        proof {
            lemma_mul_bound(self.num, other.den);
            lemma_mul_bound(other.num, self.den);
        }
        (self.num as i128 * other.den as i128) == (other.num as i128 * self.den as i128)
    }

    /// The largest integer not above the number.
    pub fn floor(self) -> (r: i64)
        ensures
            r == floor_spec(self),
    {
        proof {
            use_type_invariant(&self);
        }
        let n = self.num as i128;
        let d = self.den as i128;
        if n >= 0 {
            let q = n / d;
            proof {
                assert(0 <= q <= n) by (nonlinear_arith)
                    requires q == n as int / d as int, d > 0, n >= 0;
            }
            q as i64
        } else {
            let m: i128 = -n;
            let q: i128 = (m + d - 1) / d;
            proof {
                assert(0 <= q <= m) by (nonlinear_arith)
                    requires q == (m + d - 1) as int / d as int, d > 0, m > 0;
                assert(-q == n / d) by (nonlinear_arith)
                    requires q == (m + d - 1) as int / d as int, d > 0, m > 0, n == -m;
            }
            (-q) as i64
        }
    }
}

} // verus!
