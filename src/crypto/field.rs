use vstd::prelude::*;

verus! {

use vstd::arithmetic::power::pow;
use vstd::arithmetic::div_mod::{
    lemma_mul_mod_noop,
    lemma_add_mod_noop,
    lemma_mod_multiples_vanish,
    lemma_small_mod,
    lemma_fundamental_div_mod,
};
use super::primality::lemma_modulus_is_prime;
use vstd::std_specs::ops::{AddSpec, SubSpec, MulSpec, NegSpec, DivSpec};

/// The Goldilocks prime p = 2^64 - 2^32 + 1.
pub const MODULUS: u64 = 18446744069414584321;

/// An element of the prime field F_p, held as a 64-bit integer.
///
/// Every value handed out by the operations below is canonical (below p).
#[derive(Debug, PartialEq, Eq, Structural, Hash, Clone, Copy)]
pub struct FieldElement(pub u64);

/// The multiplicative inverse of `a` modulo p: the y in [0, p) with a * y = 1 (mod p).
pub open spec fn field_inv(a: int) -> int {
    choose|y: int| 0 <= y < MODULUS && #[trigger] (a * y) % (MODULUS as int) == 1
}

/// The field element with canonical value `v mod p`.
pub open spec fn fe(v: int) -> FieldElement {
    FieldElement((v % (MODULUS as int)) as u64)
}

impl FieldElement {
    /// The value is a canonical representative, below the modulus.
    pub open spec fn wf(self) -> bool {
        self.0 < MODULUS
    }

    /// The multiplicative inverse, defined for nonzero canonical values.
    pub open spec fn spec_inverse(self) -> FieldElement {
        FieldElement(field_inv(self.0 as int) as u64)
    }

    /// `self` raised to the power `e`.
    pub open spec fn spec_pow(self, e: nat) -> FieldElement {
        fe(pow(self.0 as int, e))
    }

    pub fn modulus() -> (r: u64)
        ensures
            r == MODULUS,
    {
        MODULUS
    }

    /// The multiplicative generator of the field, 7.
    pub fn generator(&self) -> (r: Self)
        ensures
            r == FieldElement(7),
    {
        FieldElement(7)
    }

    pub fn one() -> (r: Self)
        ensures
            r == FieldElement(1),
    {
        FieldElement(1)
    }

    pub fn zero() -> (r: Self)
        ensures
            r == FieldElement(0),
    {
        FieldElement(0)
    }

    /// The unique y in [0, p) with self * y = 1 (mod p).
    pub fn inverse(self) -> (r: Self)
        requires
            self.wf(),
            self.0 != 0,
        ensures
            r.wf(),
            (self.0 * r.0) % (MODULUS as int) == 1,
            r == self.spec_inverse(),
    {
        let p = MODULUS as i128;
        let (gcd, x, t) = Self::extended_gcd(self.0 as i128, p);
        proof {
            lemma_modulus_is_prime();
            if gcd > 1 {
                assert(gcd <= self.0) by {
                    lemma_fundamental_div_mod(self.0 as int, gcd as int);
                    let q = (self.0 as int) / (gcd as int);
                    assert(q >= 1) by (nonlinear_arith)
                        requires
                            self.0 as int == gcd * q,
                            self.0 > 0,
                            gcd > 1,
                    ;
                    assert(gcd * q >= gcd) by (nonlinear_arith)
                        requires
                            q >= 1,
                            gcd > 1,
                    ;
                }
                assert((MODULUS as int) % (gcd as int) != 0);
            }
        }
        let y: i128 = if x < 0 {
            x + p
        } else {
            x
        };
        proof {
            let a = self.0 as int;
            let pp = MODULUS as int;
            if x < 0 {
                assert(a * y == a * x + pp * a) by (nonlinear_arith)
                    requires
                        y == x + pp,
                ;
                assert(a * y == pp * (a - t) + 1) by (nonlinear_arith)
                    requires
                        a * y == a * x + pp * a,
                        a * x + pp * t == 1,
                ;
                lemma_mod_multiples_vanish(a - t, 1, pp);
            } else {
                assert(a * y == pp * (-t) + 1) by (nonlinear_arith)
                    requires
                        y == x,
                        a * x + pp * t == 1,
                ;
                lemma_mod_multiples_vanish(-t, 1, pp);
            }
            lemma_small_mod(1, pp as nat);
            if y == 0 {
                assert(a * y == 0) by (nonlinear_arith)
                    requires
                        y == 0,
                ;
                lemma_small_mod(0, pp as nat);
            }
            if y == pp {
                vstd::arithmetic::div_mod::lemma_mod_multiples_basic(a, pp);
            }
            lemma_inverse_unique(a, y as int);
        }
        FieldElement(y as u64)
    }

    /// `self` raised to the power `rhs`, read as a non-negative integer, by square-and-multiply.
    pub fn pow(self, rhs: FieldElement) -> (r: FieldElement)
        ensures
            r.wf(),
            r == self.spec_pow(rhs.0 as nat),
    {
        let mut result = FieldElement::one();
        let mut base = self;
        let mut e: u64 = rhs.0;
        let ghost p = MODULUS as int;
        while e > 0
            invariant
                result.0 < MODULUS,
                (result.0 * pow(base.0 as int, e as nat)) % p == pow(self.0 as int, rhs.0 as nat)
                    % p,
                p == MODULUS as int,
            decreases e,
        {
            let ghost old_result = result;
            let ghost old_base = base;
            let ghost old_e = e;
            if e % 2 == 1 {
                result = result * base;
            }
            base = base * base;
            e = e / 2;
            proof {
                let b = old_base.0 as int;
                let bb = base.0 as int;
                lemma_square_step(b, old_e as nat);
                // pow(b, old_e) == pow(b*b, e) * (odd ? b : 1)
                vstd::arithmetic::power::lemma_pow_mod_noop(b * b, e as nat, p);
                if old_e % 2 == 1 {
                    lemma_mul_mod_three(old_result.0 as int, b, pow(b * b, e as nat), p);
                    lemma_mul_mod_noop(old_result.0 as int * b, pow(b * b, e as nat), p);
                    lemma_mul_mod_noop(result.0 as int, pow(b * b, e as nat), p);
                    lemma_mul_mod_noop(result.0 as int, pow(bb, e as nat), p);
                    lemma_small_mod(result.0 as nat, p as nat);
                } else {
                    lemma_mul_mod_noop(old_result.0 as int, pow(b * b, e as nat), p);
                    lemma_mul_mod_noop(old_result.0 as int, pow(bb, e as nat), p);
                }
            }
        }
        proof {
            vstd::arithmetic::power::lemma_pow0(base.0 as int);
            lemma_small_mod(result.0 as nat, p as nat);
        }
        result
    }

    /// Extended Euclidean algorithm: returns (g, x, y) with a * x + b * y = g,
    /// where g divides both a and b.
    fn extended_gcd(a: i128, b: i128) -> (r: (i128, i128, i128))
        requires
            0 <= a <= u64::MAX,
            0 <= b <= u64::MAX,
        ensures
            a * r.1 + b * r.2 == r.0,
            r.0 >= 0,
            (a > 0 || b > 0) ==> r.0 > 0 && (a as int) % (r.0 as int) == 0 && (b as int) % (r.0 as int) == 0,
            -(if b > 0 { b as int } else { 1 }) <= r.1 <= (if b > 0 { b as int } else { 1 }),
            -(if a > 0 { a as int } else { 1 }) <= r.2 <= (if a > 0 { a as int } else { 1 }),
            b == 0 ==> r.1 == 1 && r.2 == 0,
        decreases b,
    {
        if b == 0 {
            proof {
                if a > 0 {
                    vstd::arithmetic::div_mod::lemma_mod_self_0(a as int);
                    lemma_small_mod(0, a as nat);
                }
            }
            (a, 1, 0)
        } else {
            let q = a / b;
            let m = a % b;
            let (gcd, x, y) = Self::extended_gcd(b, m);
            proof {
                lemma_fundamental_div_mod(a as int, b as int);
                assert(-(q * b) <= q * y <= q * b) by (nonlinear_arith)
                    requires
                        q >= 0,
                        -b <= y <= b,
                ;
                assert(q * b <= a) by (nonlinear_arith)
                    requires
                        a == b * q + m,
                        m >= 0,
                ;
            }
            let t = x - q * y;
            proof {
                let g = gcd as int;
                assert(a * y + b * t == gcd) by (nonlinear_arith)
                    requires
                        a == b * q + m,
                        t == x - q * y,
                        b * x + m * y == gcd,
                ;
                let k1 = (b as int) / g;
                let k2 = (m as int) / g;
                lemma_fundamental_div_mod(b as int, g);
                lemma_fundamental_div_mod(m as int, g);
                assert(a == g * (q * k1 + k2)) by (nonlinear_arith)
                    requires
                        a == b * q + m,
                        b == g * k1 + 0,
                        m == g * k2 + 0,
                ;
                vstd::arithmetic::div_mod::lemma_mod_multiples_basic(q * k1 + k2, g);
                vstd::arithmetic::mul::lemma_mul_is_commutative(q * k1 + k2, g);
                if m == 0 {
                    assert(q * y == 0) by (nonlinear_arith)
                        requires
                            y == 0,
                    ;
                    assert(t == 1);
                } else {
                    assert(-(a as int) <= t <= a);
                }
            }
            (gcd, y, t)
        }
    }

    /// The field element `value mod p`.
    pub fn from_usize(value: usize) -> (r: Self)
        ensures
            r == fe(value as int),
    {
        FieldElement((value as u64) % MODULUS)
    }

    pub fn to_usize(self) -> (r: usize)
        requires
            self.0 <= usize::MAX,
        ensures
            r == self.0,
    {
        self.0 as usize
    }
}

proof fn lemma_inverse_unique(a: int, y: int)
    requires
        0 <= y < MODULUS,
        (a * y) % (MODULUS as int) == 1,
    ensures
        field_inv(a) == y,
{
    let p = MODULUS as int;
    let z = field_inv(a);
    assert(0 <= z < MODULUS && (a * z) % p == 1);
    // y = y * (a * z) = (a * y) * z = z (mod p)
    lemma_mul_mod_noop(y, a * z, p);
    lemma_mul_mod_noop(a * y, z, p);
    assert(y * (a * z) == (a * y) * z) by (nonlinear_arith);
    lemma_small_mod(y as nat, p as nat);
    lemma_small_mod(z as nat, p as nat);
    lemma_small_mod(1, p as nat);
    assert((y % p) * ((a * z) % p) == y);
    assert(((a * y) % p) * (z % p) == z);
}

proof fn lemma_square_step(b: int, e: nat)
    ensures
        e % 2 == 1 ==> pow(b, e) == b * pow(b * b, e / 2),
        e % 2 == 0 ==> pow(b, e) == pow(b * b, e / 2),
{
    let h = e / 2;
    vstd::arithmetic::power::lemma_pow_multiplies(b, 2, h);
    vstd::arithmetic::power::lemma_square_is_pow2(b);
    assert(pow(b, 2) == b * b) by {
        reveal(pow);
        assert(pow(b, 0) == 1);
    }
    if e % 2 == 1 {
        assert(e == 1 + 2 * h);
        vstd::arithmetic::power::lemma_pow_adds(b, 1, 2 * h);
        vstd::arithmetic::power::lemma_pow1(b);
    } else {
        assert(e == 2 * h);
    }
}

proof fn lemma_mul_mod_three(x: int, y: int, z: int, m: int)
    requires
        m > 0,
    ensures
        (x * (y * z)) % m == ((x * y) * z) % m,
{
    vstd::arithmetic::mul::lemma_mul_is_associative(x, y, z);
}

impl std::ops::Add for FieldElement {
    type Output = Self;

    fn add(self, rhs: Self) -> (r: Self) {
        let s: u128 = self.0 as u128 + rhs.0 as u128;
        FieldElement((s % (MODULUS as u128)) as u64)
    }
}

impl vstd::std_specs::ops::AddSpecImpl for FieldElement {
    open spec fn obeys_add_spec() -> bool {
        true
    }

    open spec fn add_req(self, rhs: Self) -> bool {
        true
    }

    /// (a + b) mod p
    open spec fn add_spec(self, rhs: Self) -> Self {
        fe(self.0 + rhs.0)
    }
}

impl std::ops::Sub for FieldElement {
    type Output = Self;

    fn sub(self, rhs: Self) -> (r: Self) {
        let s: u128 = self.0 as u128 + MODULUS as u128 - rhs.0 as u128;
        FieldElement((s % (MODULUS as u128)) as u64)
    }
}

impl vstd::std_specs::ops::SubSpecImpl for FieldElement {
    open spec fn obeys_sub_spec() -> bool {
        true
    }

    open spec fn sub_req(self, rhs: Self) -> bool {
        rhs.wf()
    }

    /// (a + p - b) mod p
    open spec fn sub_spec(self, rhs: Self) -> Self {
        fe(self.0 + MODULUS - rhs.0)
    }
}

impl std::ops::Mul for FieldElement {
    type Output = Self;

    fn mul(self, rhs: Self) -> (r: Self) {
        proof {
            assert((self.0 as u128) * (rhs.0 as u128) <= u128::MAX) by (nonlinear_arith);
        }
        let s: u128 = self.0 as u128 * rhs.0 as u128;
        FieldElement((s % (MODULUS as u128)) as u64)
    }
}

impl vstd::std_specs::ops::MulSpecImpl for FieldElement {
    open spec fn obeys_mul_spec() -> bool {
        true
    }

    open spec fn mul_req(self, rhs: Self) -> bool {
        true
    }

    /// (a * b) mod p
    open spec fn mul_spec(self, rhs: Self) -> Self {
        fe(self.0 * rhs.0)
    }
}

impl std::ops::Div for FieldElement {
    type Output = Self;

    fn div(self, rhs: Self) -> (r: Self) {
        rhs.inverse() * self
    }
}

impl vstd::std_specs::ops::DivSpecImpl for FieldElement {
    open spec fn obeys_div_spec() -> bool {
        true
    }

    open spec fn div_req(self, rhs: Self) -> bool {
        rhs.wf() && rhs.0 != 0
    }

    /// a * b^-1 mod p
    open spec fn div_spec(self, rhs: Self) -> Self {
        fe(field_inv(rhs.0 as int) * self.0)
    }
}

impl std::ops::Neg for FieldElement {
    type Output = Self;

    fn neg(self) -> (r: Self) {
        FieldElement((MODULUS - self.0) % MODULUS)
    }
}

impl vstd::std_specs::ops::NegSpecImpl for FieldElement {
    open spec fn obeys_neg_spec() -> bool {
        true
    }

    open spec fn neg_req(self) -> bool {
        self.wf()
    }

    /// (p - a) mod p
    open spec fn neg_spec(self) -> Self {
        fe(MODULUS - self.0)
    }
}

impl From<u64> for FieldElement {
    fn from(value: u64) -> (r: Self) {
        FieldElement(value % MODULUS)
    }
}

impl vstd::std_specs::convert::FromSpecImpl<u64> for FieldElement {
    open spec fn obeys_from_spec() -> bool {
        true
    }

    /// value mod p
    open spec fn from_spec(value: u64) -> Self {
        fe(value as int)
    }
}

/// Bezout coefficients: integers (g, x, y) with a * x + b * y = g, where g > 0 divides a and b.
proof fn lemma_bezout(a: int, b: int) -> (r: (int, int, int))
    requires
        a >= 0,
        b >= 0,
        a > 0 || b > 0,
    ensures
        a * r.1 + b * r.2 == r.0,
        r.0 > 0,
        a % r.0 == 0,
        b % r.0 == 0,
    decreases b,
{
    if b == 0 {
        vstd::arithmetic::div_mod::lemma_mod_self_0(a);
        lemma_small_mod(0, a as nat);
        (a, 1, 0)
    } else {
        let q = a / b;
        let m = a % b;
        lemma_fundamental_div_mod(a, b);
        let (g, x, y) = lemma_bezout(b, m);
        assert(a * y + b * (x - q * y) == g) by (nonlinear_arith)
            requires
                a == b * q + m,
                b * x + m * y == g,
        ;
        let k1 = b / g;
        let k2 = m / g;
        lemma_fundamental_div_mod(b, g);
        lemma_fundamental_div_mod(m, g);
        assert(a == g * (q * k1 + k2)) by (nonlinear_arith)
            requires
                a == b * q + m,
                b == g * k1 + 0,
                m == g * k2 + 0,
        ;
        vstd::arithmetic::div_mod::lemma_mod_multiples_basic(q * k1 + k2, g);
        vstd::arithmetic::mul::lemma_mul_is_commutative(q * k1 + k2, g);
        (g, y, x - q * y)
    }
}

/// Every nonzero canonical value has an inverse, which `field_inv` picks.
pub proof fn lemma_field_inv(a: int)
    requires
        0 < a < MODULUS,
    ensures
        0 <= field_inv(a) < MODULUS,
        (a * field_inv(a)) % (MODULUS as int) == 1,
{
    let p = MODULUS as int;
    let (g, x, t) = lemma_bezout(a, p);
    lemma_modulus_is_prime();
    if g != 1 {
        lemma_fundamental_div_mod(a, g);
        let q = a / g;
        assert(g <= a) by (nonlinear_arith)
            requires
                a == g * q + 0,
                a > 0,
                g > 0,
        ;
    }
    let y = x % p;
    // a * (x mod p) = a * x = 1 - p * t (mod p)
    lemma_mul_mod_noop(a, x, p);
    lemma_small_mod(a as nat, p as nat);
    lemma_mul_mod_noop(a, y, p);
    vstd::arithmetic::div_mod::lemma_mod_twice(x, p);
    assert(a * x == p * (-t) + 1) by (nonlinear_arith)
        requires
            a * x + p * t == 1,
    ;
    lemma_mod_multiples_vanish(-t, 1, p);
    lemma_small_mod(1, p as nat);
    vstd::arithmetic::div_mod::lemma_mod_bound(x, p);
    assert((a * y) % p == 1);
}

/// Addition is commutative.
pub proof fn lemma_add_commutative(a: FieldElement, b: FieldElement)
    ensures
        a.add_spec(b) == b.add_spec(a),
{
}

proof fn lemma_fe(v: int)
    ensures
        fe(v).0 == v % (MODULUS as int),
        fe(v).wf(),
{
    vstd::arithmetic::div_mod::lemma_mod_bound(v, MODULUS as int);
}

/// Addition is associative.
pub proof fn lemma_add_associative(a: FieldElement, b: FieldElement, c: FieldElement)
    ensures
        a.add_spec(b).add_spec(c) == a.add_spec(b.add_spec(c)),
{
    let p = MODULUS as int;
    let (x, y, z) = (a.0 as int, b.0 as int, c.0 as int);
    lemma_fe(x + y);
    lemma_fe(y + z);
    lemma_fe((x + y) % p + z);
    lemma_fe(x + (y + z) % p);
    vstd::arithmetic::div_mod::lemma_add_mod_noop_right(z, x + y, p);
    vstd::arithmetic::div_mod::lemma_add_mod_noop_right(x, y + z, p);
    assert(((x + y) % p + z) % p == (x + y + z) % p);
    assert((x + (y + z) % p) % p == (x + y + z) % p);
}

/// Multiplication is commutative.
pub proof fn lemma_mul_commutative(a: FieldElement, b: FieldElement)
    ensures
        a.mul_spec(b) == b.mul_spec(a),
{
    vstd::arithmetic::mul::lemma_mul_is_commutative(a.0 as int, b.0 as int);
}

/// Multiplication is associative.
pub proof fn lemma_mul_associative(a: FieldElement, b: FieldElement, c: FieldElement)
    ensures
        a.mul_spec(b).mul_spec(c) == a.mul_spec(b.mul_spec(c)),
{
    let p = MODULUS as int;
    let (x, y, z) = (a.0 as int, b.0 as int, c.0 as int);
    lemma_fe(x * y);
    lemma_fe(y * z);
    lemma_fe(((x * y) % p) * z);
    lemma_fe(x * ((y * z) % p));
    vstd::arithmetic::div_mod::lemma_mul_mod_noop_left(x * y, z, p);
    vstd::arithmetic::div_mod::lemma_mul_mod_noop_right(x, y * z, p);
    vstd::arithmetic::mul::lemma_mul_is_associative(x, y, z);
    assert(((x * y) % p) * z % p == x * (y * z) % p);
    assert(x * ((y * z) % p) % p == x * (y * z) % p);
}

/// Multiplication distributes over addition.
pub proof fn lemma_mul_distributes(a: FieldElement, b: FieldElement, c: FieldElement)
    ensures
        a.mul_spec(b.add_spec(c)) == a.mul_spec(b).add_spec(a.mul_spec(c)),
{
    let p = MODULUS as int;
    let (x, y, z) = (a.0 as int, b.0 as int, c.0 as int);
    lemma_fe(y + z);
    lemma_fe(x * ((y + z) % p));
    lemma_fe(x * y);
    lemma_fe(x * z);
    lemma_fe((x * y) % p + (x * z) % p);
    vstd::arithmetic::div_mod::lemma_mul_mod_noop_right(x, y + z, p);
    vstd::arithmetic::mul::lemma_mul_is_distributive_add(x, y, z);
    lemma_add_mod_noop(x * y, x * z, p);
    assert(x * ((y + z) % p) % p == (x * y + x * z) % p);
}

/// Every canonical element plus its negation is zero.
pub proof fn lemma_add_negation(a: FieldElement)
    requires
        a.wf(),
    ensures
        a.add_spec(a.neg_spec()) == FieldElement(0),
{
    let p = MODULUS as int;
    if a.0 == 0 {
        vstd::arithmetic::div_mod::lemma_mod_self_0(p);
        lemma_small_mod(0, p as nat);
    } else {
        lemma_small_mod((p - a.0) as nat, p as nat);
        vstd::arithmetic::div_mod::lemma_mod_self_0(p);
    }
}

/// Every nonzero canonical element times its inverse is one.
pub proof fn lemma_mul_inverse(a: FieldElement)
    requires
        a.wf(),
        a.0 != 0,
    ensures
        a.mul_spec(a.spec_inverse()) == FieldElement(1),
{
    lemma_field_inv(a.0 as int);
}

} // verus!
