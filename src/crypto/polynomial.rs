use vstd::prelude::*;

verus! {

use vstd::arithmetic::power::pow;
use super::field::{FieldElement, MODULUS, fe};
use vstd::std_specs::ops::{AddSpec, SubSpec, MulSpec, NegSpec};

/// A polynomial over the field, by its coefficients, highest degree first:
/// [c0, c1, ..., ck] stands for c0 * x^k + c1 * x^(k-1) + ... + ck.
#[derive(PartialEq, Eq, Debug)]
pub struct Polynomial(pub Vec<FieldElement>);

/// Why an interpolation was refused.
#[derive(Debug, PartialEq, Eq, Structural, Clone, Copy)]
pub enum PolynomialError {
    /// Two of the x values are equal.
    DuplicateX,
    /// There are not as many y values as x values.
    LengthMismatch,
}

impl PolynomialError {
    /// A sentence describing the error.
    pub fn to_string(&self) -> (r: String)
        ensures
            *self == PolynomialError::DuplicateX ==> r@ == "Duplicate x values are not allowed"@,
            *self == PolynomialError::LengthMismatch ==> r@
                == "x values and y values should be same length"@,
    {
        match self {
            PolynomialError::DuplicateX => String::from_str("Duplicate x values are not allowed"),
            PolynomialError::LengthMismatch => String::from_str(
                "x values and y values should be same length",
            ),
        }
    }
}

/// The coefficient of x^d.
pub open spec fn coef(cs: Seq<FieldElement>, d: int) -> int {
    if 0 <= d < cs.len() {
        cs[cs.len() - 1 - d].0 as int
    } else {
        0
    }
}

/// The sum of coef(cs, e) * x^e over e < d, over the integers.
pub open spec fn partial_value(cs: Seq<FieldElement>, x: int, d: nat) -> int
    decreases d,
{
    if d == 0 {
        0
    } else {
        partial_value(cs, x, (d - 1) as nat) + coef(cs, d - 1) * pow(x, (d - 1) as nat)
    }
}

/// The value of the polynomial at x: the sum of c_i * x^(deg - i), modulo p.
pub open spec fn poly_eval(cs: Seq<FieldElement>, x: int) -> int {
    partial_value(cs, x, cs.len()) % (MODULUS as int)
}

/// Sum over j < i of a[j] * b[k - j], taking only the j for which k - j indexes b.
pub open spec fn conv_sum(a: Seq<FieldElement>, b: Seq<FieldElement>, k: int, i: nat) -> int
    decreases i,
{
    if i == 0 {
        0
    } else {
        let j = i - 1;
        conv_sum(a, b, k, j as nat) + if 0 <= k - j < b.len() {
            a[j].0 * b[k - j].0
        } else {
            0
        }
    }
}

pub open spec fn max(a: int, b: int) -> int {
    if a >= b {
        a
    } else {
        b
    }
}

/// Sum of two coefficient vectors, aligned at the constant term.
pub open spec fn poly_add(a: Seq<FieldElement>, b: Seq<FieldElement>) -> Seq<FieldElement> {
    let l = max(a.len() as int, b.len() as int);
    Seq::new(l as nat, |k: int| fe(coef(a, l - 1 - k) + coef(b, l - 1 - k)))
}

/// Difference of two coefficient vectors, aligned at the constant term.
pub open spec fn poly_sub(a: Seq<FieldElement>, b: Seq<FieldElement>) -> Seq<FieldElement> {
    let l = max(a.len() as int, b.len() as int);
    Seq::new(l as nat, |k: int| fe(coef(a, l - 1 - k) - coef(b, l - 1 - k)))
}

/// Every coefficient multiplied by `k`.
pub open spec fn poly_scale(a: Seq<FieldElement>, k: FieldElement) -> Seq<FieldElement> {
    Seq::new(a.len(), |i: int| k.mul_spec(a[i]))
}

/// Product of two non-empty coefficient vectors: the convolution.
pub open spec fn poly_mul(a: Seq<FieldElement>, b: Seq<FieldElement>) -> Seq<FieldElement> {
    Seq::new((a.len() + b.len() - 1) as nat, |k: int| fe(conv_sum(a, b, k, a.len())))
}

/// No two of the values are equal.
pub open spec fn distinct(xs: Seq<FieldElement>) -> bool {
    forall|a: int, b: int| 0 <= a < b < xs.len() ==> xs[a] != xs[b]
}

impl View for Polynomial {
    type V = Seq<FieldElement>;

    open spec fn view(&self) -> Seq<FieldElement> {
        self.0@
    }
}

impl Polynomial {
    /// Non-empty, with canonical coefficients.
    pub open spec fn wf(&self) -> bool {
        &&& self@.len() > 0
        &&& forall|i: int| 0 <= i < self@.len() ==> (#[trigger] self@[i]).wf()
    }

    pub fn new(coefficient: Vec<FieldElement>) -> (r: Self)
        requires
            coefficient@.len() > 0,
        ensures
            r@ == coefficient@,
    {
        Polynomial(coefficient)
    }

    /// Degree of the polynomial: one less than its number of coefficients.
    pub fn degree(&self) -> (r: usize)
        requires
            self@.len() > 0,
        ensures
            r == self@.len() - 1,
    {
        self.0.len() - 1
    }

    /// Every coefficient multiplied by `scale_factor`.
    pub fn scale(&self, scale_factor: FieldElement) -> (r: Self)
        requires
            self@.len() > 0,
        ensures
            r@ == poly_scale(self@, scale_factor),
    {
        let mut scaled_coeff: Vec<FieldElement> = Vec::new();
        let mut i: usize = 0;
        while i < self.0.len()
            invariant
                i <= self@.len(),
                scaled_coeff@.len() == i,
                forall|j: int| 0 <= j < i ==> #[trigger] scaled_coeff@[j] == scale_factor.mul_spec(self@[j]),
            decreases self@.len() - i,
        {
            scaled_coeff.push(scale_factor * self.0[i]);
            i = i + 1;
        }
        proof {
            assert(scaled_coeff@ =~= poly_scale(self@, scale_factor));
        }
        Polynomial::new(scaled_coeff)
    }

    /// The value at `x_value`, summing c_i * x^(deg - i) from the constant term up.
    pub fn evaluation(&self, x_value: FieldElement) -> (r: FieldElement)
        ensures
            r.wf(),
            r.0 == poly_eval(self@, x_value.0 as int),
    {
        let n = self.0.len();
        let mut result = FieldElement::zero();
        let mut power = FieldElement::one();
        let mut e: usize = 0;
        let ghost x = x_value.0 as int;
        let ghost p = MODULUS as int;
        proof {
            vstd::arithmetic::power::lemma_pow0(x);
            vstd::arithmetic::div_mod::lemma_small_mod(1, p as nat);
            vstd::arithmetic::div_mod::lemma_small_mod(0, p as nat);
        }
        while e < n
            invariant
                n == self@.len(),
                e <= n,
                p == MODULUS as int,
                x == x_value.0 as int,
                result.0 == partial_value(self@, x, e as nat) % p,
                power.0 == pow(x, e as nat) % p,
            decreases n - e,
        {
            let c = self.0[n - 1 - e];
            let term = c * power;
            let ghost old_result = result;
            result = result + term;
            proof {
                let pw = pow(x, e as nat);
                let pv = partial_value(self@, x, e as nat);
                assert(coef(self@, e as int) == c.0);
                vstd::arithmetic::div_mod::lemma_mul_mod_noop_right(c.0 as int, pw, p);
                vstd::arithmetic::div_mod::lemma_add_mod_noop(pv, c.0 * pw, p);
                vstd::arithmetic::div_mod::lemma_mod_twice(pv, p);
                vstd::arithmetic::div_mod::lemma_mod_twice(c.0 * pw, p);
                assert(partial_value(self@, x, (e + 1) as nat) == pv + c.0 * pw);
            }
            power = power * x_value;
            proof {
                let pw = pow(x, e as nat);
                vstd::arithmetic::div_mod::lemma_mul_mod_noop_left(pw, x, p);
                vstd::arithmetic::power::lemma_pow_adds(x, e as nat, 1);
                vstd::arithmetic::power::lemma_pow1(x);
                assert(pow(x, (e + 1) as nat) == pw * x);
            }
            e = e + 1;
        }
        proof {
            vstd::arithmetic::div_mod::lemma_mod_bound(partial_value(self@, x, n as nat), p);
        }
        result
    }

    /// Coefficient-wise sum, aligned at the constant term; as long as the longer operand.
    pub fn add(self, rhs: Self) -> (r: Self)
        ensures
            r@ == poly_add(self@, rhs@),
    {
        let n = self.0.len();
        let m = rhs.0.len();
        let l = if n >= m {
            n
        } else {
            m
        };
        let mut out: Vec<FieldElement> = Vec::new();
        let mut k: usize = 0;
        while k < l
            invariant
                n == self@.len(),
                m == rhs@.len(),
                l == max(n as int, m as int),
                k <= l,
                out@.len() == k,
                forall|i: int|
                    0 <= i < k ==> #[trigger] out@[i] == fe(
                        coef(self@, l - 1 - i) + coef(rhs@, l - 1 - i),
                    ),
            decreases l - k,
        {
            let d = l - 1 - k;
            let a = if d < n {
                self.0[n - 1 - d]
            } else {
                FieldElement::zero()
            };
            let b = if d < m {
                rhs.0[m - 1 - d]
            } else {
                FieldElement::zero()
            };
            out.push(a + b);
            k = k + 1;
        }
        proof {
            assert(out@ =~= poly_add(self@, rhs@));
        }
        Polynomial(out)
    }

    /// Coefficient-wise difference, aligned at the constant term; as long as the longer operand.
    pub fn sub(self, rhs: Self) -> (r: Self)
        ensures
            r@ == poly_sub(self@, rhs@),
    {
        let n = self.0.len();
        let m = rhs.0.len();
        let l = if n >= m {
            n
        } else {
            m
        };
        let ghost p = MODULUS as int;
        let mut out: Vec<FieldElement> = Vec::new();
        let mut k: usize = 0;
        while k < l
            invariant
                n == self@.len(),
                m == rhs@.len(),
                l == max(n as int, m as int),
                k <= l,
                p == MODULUS as int,
                out@.len() == k,
                forall|i: int|
                    0 <= i < k ==> #[trigger] out@[i] == fe(
                        coef(self@, l - 1 - i) - coef(rhs@, l - 1 - i),
                    ),
            decreases l - k,
        {
            let d = l - 1 - k;
            let a = if d < n {
                self.0[n - 1 - d]
            } else {
                FieldElement::zero()
            };
            let b = if d < m {
                FieldElement::from(rhs.0[m - 1 - d].0)
            } else {
                FieldElement::zero()
            };
            out.push(a - b);
            proof {
                let x = coef(self@, d as int);
                let y = coef(rhs@, d as int);
                vstd::arithmetic::div_mod::lemma_small_mod(0, p as nat);
                assert(b.0 == y % p);
                vstd::arithmetic::div_mod::lemma_sub_mod_noop_right(x + p, y, p);
                vstd::arithmetic::div_mod::lemma_mod_multiples_vanish(1, x - y, p);
                assert(x + p - y == p * 1 + (x - y));
            }
            k = k + 1;
        }
        proof {
            assert(out@ =~= poly_sub(self@, rhs@));
        }
        Polynomial(out)
    }

    /// Product by convolution of the coefficient vectors.
    pub fn mul(self, rhs: Self) -> (r: Self)
        requires
            self@.len() > 0,
            rhs@.len() > 0,
            self@.len() + rhs@.len() <= usize::MAX,
        ensures
            r@ == poly_mul(self@, rhs@),
    {
        let n = self.0.len();
        let m = rhs.0.len();
        let l = n + m - 1;
        let ghost p = MODULUS as int;
        let mut res: Vec<FieldElement> = Vec::new();
        let mut k: usize = 0;
        while k < l
            invariant
                n == self@.len(),
                m == rhs@.len(),
                l == n + m - 1,
                k <= l,
                p == MODULUS as int,
                res@.len() == k,
                forall|i: int|
                    0 <= i < k ==> #[trigger] res@[i] == fe(conv_sum(self@, rhs@, i, n as nat)),
            decreases l - k,
        {
            let mut acc = FieldElement::zero();
            let mut j: usize = 0;
            proof {
                vstd::arithmetic::div_mod::lemma_small_mod(0, p as nat);
            }
            while j < n
                invariant
                    n == self@.len(),
                    m == rhs@.len(),
                    j <= n,
                    k < l,
                    l == n + m - 1,
                    p == MODULUS as int,
                    acc.0 == conv_sum(self@, rhs@, k as int, j as nat) % p,
                decreases n - j,
            {
                let ghost before = conv_sum(self@, rhs@, k as int, j as nat);
                if j <= k && k - j < m {
                    let c1 = self.0[j];
                    let c2 = rhs.0[k - j];
                    acc = acc + c1 * c2;
                    proof {
                        let t = c1.0 * c2.0;
                        vstd::arithmetic::div_mod::lemma_add_mod_noop(before, t, p);
                        vstd::arithmetic::div_mod::lemma_mod_twice(before, p);
                        vstd::arithmetic::div_mod::lemma_mod_twice(t, p);
                        assert(conv_sum(self@, rhs@, k as int, (j + 1) as nat) == before + t);
                    }
                }
                j = j + 1;
            }
            proof {
                vstd::arithmetic::div_mod::lemma_mod_bound(conv_sum(self@, rhs@, k as int, n as nat), p);
            }
            res.push(acc);
            k = k + 1;
        }
        proof {
            assert(res@ =~= poly_mul(self@, rhs@));
        }
        Polynomial(res)
    }

    /// Whether two of the values are equal.
    fn has_duplicate(xs: &Vec<FieldElement>) -> (r: bool)
        ensures
            r == !distinct(xs@),
    {
        let n = xs.len();
        let mut a: usize = 0;
        while a < n
            invariant
                n == xs@.len(),
                a <= n,
                forall|i: int, k: int| 0 <= i < a && i < k < n ==> xs@[i] != xs@[k],
            decreases n - a,
        {
            let mut b: usize = a + 1;
            while b < n
                invariant
                    n == xs@.len(),
                    a < n,
                    a + 1 <= b <= n,
                    forall|i: int, k: int| 0 <= i < a && i < k < n ==> xs@[i] != xs@[k],
                    forall|k: int| a < k < b ==> xs@[a as int] != xs@[k],
                decreases n - b,
            {
                if xs[a] == xs[b] {
                    return true;
                }
                b = b + 1;
            }
            a = a + 1;
        }
        false
    }

    /// The Lagrange basis polynomial of node `j`: the product over i != j of
    /// (x - x_i) / (x_j - x_i). It is one at x_j and zero at every other node.
    /// Another node equal to node `j` makes a denominator zero, and gives `DuplicateX`.
    fn calculate_lagrange_basis_polynomial(nodes: &Vec<FieldElement>, j: usize) -> (r: Result<
        Self,
        PolynomialError,
    >)
        requires
            j < nodes@.len(),
            nodes@.len() + 2 <= usize::MAX,
            forall|i: int| 0 <= i < nodes@.len() ==> (#[trigger] nodes@[i]).wf(),
        ensures
            (exists|i: int| 0 <= i < nodes@.len() && i != j && #[trigger] nodes@[i] == nodes@[j as int])
                ==> r == Err::<Self, PolynomialError>(PolynomialError::DuplicateX),
            (forall|i: int| 0 <= i < nodes@.len() && i != j ==> #[trigger] nodes@[i] != nodes@[j as int])
                ==> r is Ok,
            r matches Ok(b) ==> {
                &&& b@.len() == nodes@.len()
                &&& poly_eval(b@, nodes@[j as int].0 as int) == 1
                &&& forall|t: int|
                    0 <= t < nodes@.len() && t != j ==> poly_eval(
                        b@,
                        (#[trigger] nodes@[t]).0 as int,
                    ) == 0
            },
    {
        let n = nodes.len();
        let ghost p = MODULUS as int;
        let target_node = nodes[j];
        let mut result = Polynomial::new(vec![FieldElement::one()]);
        proof {
            assert(result@ =~= seq![FieldElement(1)]);
            lemma_eval_constant(result@, target_node.0 as int);
        }
        let mut i: usize = 0;
        while i < n
            invariant
                n == nodes@.len(),
                p == MODULUS as int,
                j < n,
                n + 2 <= usize::MAX,
                i <= n,
                target_node == nodes@[j as int],
                forall|k: int| 0 <= k < i && k != j ==> #[trigger] nodes@[k] != nodes@[j as int],
                forall|k: int| 0 <= k < nodes@.len() ==> (#[trigger] nodes@[k]).wf(),
                result@.len() == i + 1 - (if j < i {
                    1int
                } else {
                    0int
                }),
                result@.len() > 0,
                poly_eval(result@, target_node.0 as int) == 1,
                forall|t: int|
                    0 <= t < i && t != j ==> poly_eval(result@, (#[trigger] nodes@[t]).0 as int)
                        == 0,
            decreases n - i,
        {
            if i != j {
                let node = nodes[i];
                let negated = std::ops::Neg::neg(node);
                let numerator = Polynomial::new(vec![FieldElement::one(), negated]);
                let denominator: FieldElement = target_node - node;
                proof {
                    lemma_difference_nonzero(target_node, node);
                }
                if denominator.0 == 0 {
                    return Err(PolynomialError::DuplicateX);
                }
                let inv = denominator.inverse();
                let term = numerator.scale(inv);
                let ghost before = result@;
                result = Polynomial::mul(result, term);
                proof {
                    assert(numerator@ =~= seq![FieldElement(1), node.neg_spec()]);
                    assert forall|x: int| #[trigger] poly_eval(result@, x) == (poly_eval(before, x)
                        * ((inv.0 * ((x - node.0) % p)) % p)) % p by {
                        lemma_eval_linear_factor(numerator@, node, x);
                        lemma_eval_scale(numerator@, inv, x);
                        lemma_eval_mul_linear(before, term@, x);
                    }
                    lemma_factor_values(before, result@, target_node, node, denominator, inv);
                    assert forall|t: int|
                        0 <= t < i + 1 && t != j implies poly_eval(
                        result@,
                        (#[trigger] nodes@[t]).0 as int,
                    ) == 0 by {
                        let xt = nodes@[t].0 as int;
                        if t == i {
                            assert(poly_eval(result@, xt) == (poly_eval(before, xt) * ((inv.0 * ((xt
                                - node.0) % p)) % p)) % p);
                        } else {
                            assert(poly_eval(before, xt) == 0);
                            assert(poly_eval(result@, xt) == (poly_eval(before, xt) * ((inv.0 * ((xt
                                - node.0) % p)) % p)) % p);
                        }
                    }
                }
            }
            i = i + 1;
        }
        Ok(result)
    }

    /// The polynomial of degree below n through the n points (x_values[i], y_values[i]),
    /// as the sum of y_j times the Lagrange basis polynomial of x_j. There is at least one point.
    pub fn interpolate_lagrange_polynomial(
        x_values: Vec<FieldElement>,
        y_values: Vec<FieldElement>,
    ) -> (r: Result<Self, PolynomialError>)
        requires
            x_values@.len() > 0,
            x_values@.len() + 2 <= usize::MAX,
            forall|i: int| 0 <= i < x_values@.len() ==> (#[trigger] x_values@[i]).wf(),
            forall|i: int| 0 <= i < y_values@.len() ==> (#[trigger] y_values@[i]).wf(),
        ensures
            x_values@.len() != y_values@.len() ==> r == Err::<Self, PolynomialError>(
                PolynomialError::LengthMismatch,
            ),
            x_values@.len() == y_values@.len() && !distinct(x_values@) ==> r == Err::<
                Self,
                PolynomialError,
            >(PolynomialError::DuplicateX),
            x_values@.len() == y_values@.len() && distinct(x_values@) ==> r is Ok,
            r matches Ok(poly) ==> {
                &&& poly.wf()
                &&& poly@.len() == x_values@.len()
                &&& forall|t: int|
                    0 <= t < x_values@.len() ==> poly_eval(poly@, (#[trigger] x_values@[t]).0 as int)
                        == y_values@[t].0
            },
    {
        if x_values.len() != y_values.len() {
            return Err(PolynomialError::LengthMismatch);
        }
        if Self::has_duplicate(&x_values) {
            return Err(PolynomialError::DuplicateX);
        }
        let n = y_values.len();
        let ghost p = MODULUS as int;
        let mut result = Polynomial::new(vec![FieldElement::zero()]);
        proof {
            assert forall|x: int| #[trigger] poly_eval(result@, x) == 0 by {
                assert(result@ =~= seq![FieldElement(0)]);
                lemma_eval_constant(result@, x);
            }
        }
        let mut j: usize = 0;
        while j < n
            invariant
                n == x_values@.len(),
                n == y_values@.len(),
                p == MODULUS as int,
                n + 2 <= usize::MAX,
                j <= n,
                distinct(x_values@),
                forall|i: int| 0 <= i < n ==> (#[trigger] x_values@[i]).wf(),
                forall|i: int| 0 <= i < n ==> (#[trigger] y_values@[i]).wf(),
                result@.len() == (if j == 0 {
                    1
                } else {
                    n as int
                }),
                forall|i: int| 0 <= i < result@.len() ==> (#[trigger] result@[i]).wf(),
                forall|t: int|
                    0 <= t < n ==> poly_eval(result@, (#[trigger] x_values@[t]).0 as int) == (if t
                        < j {
                        y_values@[t].0 as int
                    } else {
                        0
                    }),
            decreases n - j,
        {
            let y = y_values[j];
            let basis_polynomial = match Self::calculate_lagrange_basis_polynomial(&x_values, j) {
                Ok(b) => b,
                Err(e) => {
                    proof {
                        assert forall|i: int| 0 <= i < n && i != j implies #[trigger] x_values@[i]
                            != x_values@[j as int] by {
                            if i < j {
                                assert(x_values@[i] != x_values@[j as int]);
                            } else {
                                assert(x_values@[j as int] != x_values@[i]);
                            }
                        }
                    }
                    return Err(e);
                },
            };
            let term = basis_polynomial.scale(y);
            let ghost before = result@;
            result = Polynomial::add(result, term);
            proof {
                assert forall|i: int| 0 <= i < result@.len() implies (#[trigger] result@[i]).wf() by {
                    let l = result@.len() as int;
                    vstd::arithmetic::div_mod::lemma_mod_bound(
                        coef(before, l - 1 - i) + coef(term@, l - 1 - i),
                        p,
                    );
                }
                assert forall|t: int| 0 <= t < n implies poly_eval(
                    result@,
                    (#[trigger] x_values@[t]).0 as int,
                ) == (if t < j + 1 {
                    y_values@[t].0 as int
                } else {
                    0
                }) by {
                    let xt = x_values@[t].0 as int;
                    lemma_eval_add(before, term@, xt);
                    lemma_eval_scale(basis_polynomial@, y, xt);
                    vstd::arithmetic::div_mod::lemma_small_mod(0, p as nat);
                    vstd::arithmetic::div_mod::lemma_small_mod(y.0 as nat, p as nat);
                    if t == j {
                        assert(poly_eval(basis_polynomial@, xt) == 1);
                    } else {
                        assert(poly_eval(basis_polynomial@, xt) == 0);
                    }
                    if t < j {
                        vstd::arithmetic::div_mod::lemma_small_mod(y_values@[t].0 as nat, p as nat);
                    }
                }
            }
            j = j + 1;
        }
        Ok(result)
    }
}

/// Sum of f(e) * x^e over e < d.
pub open spec fn series(f: spec_fn(int) -> int, x: int, d: nat) -> int
    decreases d,
{
    if d == 0 {
        0
    } else {
        series(f, x, (d - 1) as nat) + f(d - 1) * pow(x, (d - 1) as nat)
    }
}

proof fn lemma_partial_value_series(cs: Seq<FieldElement>, x: int, d: nat)
    ensures
        partial_value(cs, x, d) == series(|e: int| coef(cs, e), x, d),
    decreases d,
{
    if d > 0 {
        lemma_partial_value_series(cs, x, (d - 1) as nat);
    }
}

proof fn lemma_series_mod(f: spec_fn(int) -> int, g: spec_fn(int) -> int, x: int, d: nat)
    requires
        forall|e: int| 0 <= e < d ==> #[trigger] f(e) % (MODULUS as int) == g(e) % (MODULUS as int),
    ensures
        series(f, x, d) % (MODULUS as int) == series(g, x, d) % (MODULUS as int),
    decreases d,
{
    let p = MODULUS as int;
    if d > 0 {
        let e = d - 1;
        lemma_series_mod(f, g, x, e as nat);
        let pw = pow(x, e as nat);
        vstd::arithmetic::div_mod::lemma_add_mod_noop(series(f, x, e as nat), f(e) * pw, p);
        vstd::arithmetic::div_mod::lemma_add_mod_noop(series(g, x, e as nat), g(e) * pw, p);
        vstd::arithmetic::div_mod::lemma_mul_mod_noop_left(f(e), pw, p);
        vstd::arithmetic::div_mod::lemma_mul_mod_noop_left(g(e), pw, p);
    }
}

proof fn lemma_series_add(
    f: spec_fn(int) -> int,
    g: spec_fn(int) -> int,
    h: spec_fn(int) -> int,
    x: int,
    d: nat,
)
    requires
        forall|e: int| 0 <= e < d ==> #[trigger] h(e) == f(e) + g(e),
    ensures
        series(h, x, d) == series(f, x, d) + series(g, x, d),
    decreases d,
{
    if d > 0 {
        let e = d - 1;
        lemma_series_add(f, g, h, x, e as nat);
        vstd::arithmetic::mul::lemma_mul_is_distributive_add_other_way(
            pow(x, e as nat),
            f(e),
            g(e),
        );
    }
}

proof fn lemma_series_scale(f: spec_fn(int) -> int, g: spec_fn(int) -> int, k: int, x: int, d: nat)
    requires
        forall|e: int| 0 <= e < d ==> #[trigger] g(e) == k * f(e),
    ensures
        series(g, x, d) == k * series(f, x, d),
    decreases d,
{
    if d > 0 {
        let e = d - 1;
        lemma_series_scale(f, g, k, x, e as nat);
        let pw = pow(x, e as nat);
        vstd::arithmetic::mul::lemma_mul_is_associative(k, f(e), pw);
        vstd::arithmetic::mul::lemma_mul_is_distributive_add(k, series(f, x, e as nat), f(e) * pw);
    }
}

proof fn lemma_series_zero_tail(f: spec_fn(int) -> int, x: int, d1: nat, d2: nat)
    requires
        d1 <= d2,
        forall|e: int| d1 <= e < d2 ==> #[trigger] f(e) == 0,
    ensures
        series(f, x, d2) == series(f, x, d1),
    decreases d2,
{
    if d2 > d1 {
        lemma_series_zero_tail(f, x, d1, (d2 - 1) as nat);
    }
}

proof fn lemma_series_shift(f: spec_fn(int) -> int, g: spec_fn(int) -> int, x: int, d: nat)
    requires
        g(0) == 0,
        forall|e: int| 1 <= e <= d ==> #[trigger] g(e) == f(e - 1),
    ensures
        series(g, x, d + 1) == x * series(f, x, d),
    decreases d,
{
    if d == 0 {
        assert(series(g, x, 1) == series(g, x, 0) + g(0) * pow(x, 0));
        assert(0 * pow(x, 0) == 0) by (nonlinear_arith);
    } else {
        let e = (d - 1) as nat;
        lemma_series_shift(f, g, x, e);
        vstd::arithmetic::power::lemma_pow_adds(x, 1, e);
        vstd::arithmetic::power::lemma_pow1(x);
        assert(pow(x, d) == x * pow(x, e));
        vstd::arithmetic::mul::lemma_mul_is_associative(f(e as int), x, pow(x, e));
        vstd::arithmetic::mul::lemma_mul_is_commutative(f(e as int), x);
        vstd::arithmetic::mul::lemma_mul_is_associative(x, f(e as int), pow(x, e));
        vstd::arithmetic::mul::lemma_mul_is_distributive_add(x, series(f, x, e), f(e as int) * pow(x, e));
    }
}

proof fn lemma_eval_constant(cs: Seq<FieldElement>, x: int)
    requires
        cs.len() == 1,
        cs[0].wf(),
    ensures
        poly_eval(cs, x) == cs[0].0,
{
    reveal_with_fuel(partial_value, 2);
    vstd::arithmetic::power::lemma_pow0(x);
    vstd::arithmetic::div_mod::lemma_small_mod(cs[0].0 as nat, MODULUS as nat);
}

proof fn lemma_difference_nonzero(a: FieldElement, b: FieldElement)
    requires
        a.wf(),
        b.wf(),
    ensures
        a.sub_spec(b).wf(),
        a.sub_spec(b).0 == 0 <==> a == b,
        a.sub_spec(b).0 == (a.0 - b.0) % (MODULUS as int),
{
    let p = MODULUS as int;
    vstd::arithmetic::div_mod::lemma_mod_bound(a.0 + p - b.0, p);
    vstd::arithmetic::div_mod::lemma_mod_multiples_vanish(1, a.0 - b.0, p);
    if a.0 >= b.0 {
        vstd::arithmetic::div_mod::lemma_small_mod((a.0 - b.0) as nat, p as nat);
    } else {
        vstd::arithmetic::div_mod::lemma_small_mod((a.0 + p - b.0) as nat, p as nat);
    }
}

/// The factor [1, -x_i] evaluates to x - x_i.
proof fn lemma_eval_linear_factor(num: Seq<FieldElement>, xi: FieldElement, x: int)
    requires
        xi.wf(),
        num == seq![FieldElement(1), xi.neg_spec()],
    ensures
        poly_eval(num, x) == (x - xi.0) % (MODULUS as int),
{
    let p = MODULUS as int;
    reveal_with_fuel(partial_value, 3);
    vstd::arithmetic::power::lemma_pow0(x);
    vstd::arithmetic::power::lemma_pow1(x);
    assert(coef(num, 0) == (p - xi.0) % p);
    assert(coef(num, 1) == 1);
    vstd::arithmetic::mul::lemma_mul_basics(x);
    vstd::arithmetic::mul::lemma_mul_basics((p - xi.0) % p);
    assert(partial_value(num, x, 2) == (p - xi.0) % p + x);
    vstd::arithmetic::div_mod::lemma_add_mod_noop_right(x, p - xi.0, p);
    vstd::arithmetic::div_mod::lemma_mod_multiples_vanish(1, x - xi.0, p);
    assert(x + (p - xi.0) == p * 1 + (x - xi.0));
}

/// One factor of a basis polynomial keeps its value one at x_j and zero at x_i.
proof fn lemma_factor_values(
    before: Seq<FieldElement>,
    after: Seq<FieldElement>,
    xj: FieldElement,
    xi: FieldElement,
    den: FieldElement,
    inv: FieldElement,
)
    requires
        den.0 == (xj.0 - xi.0) % (MODULUS as int),
        (den.0 * inv.0) % (MODULUS as int) == 1,
        poly_eval(before, xj.0 as int) == 1,
        forall|x: int| #[trigger] poly_eval(after, x) == (poly_eval(before, x)
            * ((inv.0 * ((x - xi.0) % (MODULUS as int))) % (MODULUS as int))) % (MODULUS as int),
    ensures
        poly_eval(after, xj.0 as int) == 1,
        poly_eval(after, xi.0 as int) == 0,
        forall|x: int| poly_eval(before, x) == 0 ==> #[trigger] poly_eval(after, x) == 0,
{
    let p = MODULUS as int;
    vstd::arithmetic::div_mod::lemma_small_mod(1, p as nat);
    vstd::arithmetic::div_mod::lemma_small_mod(0, p as nat);
    assert(poly_eval(after, xj.0 as int) == (1 * ((inv.0 * den.0) % p)) % p);
    vstd::arithmetic::mul::lemma_mul_is_commutative(inv.0 as int, den.0 as int);
    let xv = xi.0 as int;
    assert((xv - xi.0) % p == 0);
    vstd::arithmetic::mul::lemma_mul_basics(inv.0 as int);
    vstd::arithmetic::mul::lemma_mul_basics(poly_eval(before, xv));
    assert(poly_eval(after, xv) == (poly_eval(before, xv) * ((inv.0 * 0) % p)) % p);
    assert forall|x: int| poly_eval(before, x) == 0 implies #[trigger] poly_eval(after, x) == 0 by {
        assert(poly_eval(after, x) == (0 * ((inv.0 * ((x - xi.0) % p)) % p)) % p);
    }
}

/// Scaling then evaluating is evaluating then scaling: scale(k)(x) = k * p(x).
pub proof fn lemma_eval_scale(a: Seq<FieldElement>, k: FieldElement, x: int)
    ensures
        poly_eval(poly_scale(a, k), x) == (k.0 * poly_eval(a, x)) % (MODULUS as int),
{
    let p = MODULUS as int;
    let r = poly_scale(a, k);
    let fr = |e: int| coef(r, e);
    let fa = |e: int| coef(a, e);
    let g = |e: int| k.0 * coef(a, e);
    let n = a.len();
    assert forall|e: int| 0 <= e < n implies #[trigger] fr(e) % p == g(e) % p by {
        vstd::arithmetic::div_mod::lemma_mod_twice(k.0 * coef(a, e), p);
        vstd::arithmetic::div_mod::lemma_mod_bound(k.0 * coef(a, e), p);
    }
    lemma_partial_value_series(r, x, n);
    lemma_partial_value_series(a, x, n);
    lemma_series_mod(fr, g, x, n);
    lemma_series_scale(fa, g, k.0 as int, x, n);
    vstd::arithmetic::div_mod::lemma_mul_mod_noop_right(k.0 as int, series(fa, x, n), p);
}

/// Evaluation of a sum is the sum of the evaluations.
pub proof fn lemma_eval_add(a: Seq<FieldElement>, b: Seq<FieldElement>, x: int)
    ensures
        poly_eval(poly_add(a, b), x) == (poly_eval(a, x) + poly_eval(b, x)) % (MODULUS as int),
{
    let p = MODULUS as int;
    let r = poly_add(a, b);
    let l = r.len();
    let fr = |e: int| coef(r, e);
    let fa = |e: int| coef(a, e);
    let fb = |e: int| coef(b, e);
    let h = |e: int| coef(a, e) + coef(b, e);
    assert forall|e: int| 0 <= e < l implies #[trigger] fr(e) % p == h(e) % p by {
        vstd::arithmetic::div_mod::lemma_mod_twice(coef(a, e) + coef(b, e), p);
        vstd::arithmetic::div_mod::lemma_mod_bound(coef(a, e) + coef(b, e), p);
    }
    lemma_partial_value_series(r, x, l);
    lemma_partial_value_series(a, x, a.len());
    lemma_partial_value_series(b, x, b.len());
    lemma_series_mod(fr, h, x, l);
    lemma_series_add(fa, fb, h, x, l);
    lemma_series_zero_tail(fa, x, a.len(), l);
    lemma_series_zero_tail(fb, x, b.len(), l);
    vstd::arithmetic::div_mod::lemma_add_mod_noop(series(fa, x, l), series(fb, x, l), p);
}

proof fn lemma_conv_linear(a: Seq<FieldElement>, b: Seq<FieldElement>, k: int, i: nat)
    requires
        b.len() == 2,
        i <= a.len(),
    ensures
        conv_sum(a, b, k, i) == (if 0 <= k < i {
            a[k].0 * b[0].0
        } else {
            0
        }) + (if 0 <= k - 1 < i {
            a[k - 1].0 * b[1].0
        } else {
            0
        }),
    decreases i,
{
    if i > 0 {
        lemma_conv_linear(a, b, k, (i - 1) as nat);
    }
}

/// Evaluation of a product by a linear polynomial is the product of the evaluations.
pub proof fn lemma_eval_mul_linear(a: Seq<FieldElement>, b: Seq<FieldElement>, x: int)
    requires
        a.len() > 0,
        b.len() == 2,
    ensures
        poly_eval(poly_mul(a, b), x) == (poly_eval(a, x) * poly_eval(b, x)) % (MODULUS as int),
{
    let p = MODULUS as int;
    let n = a.len();
    let r = poly_mul(a, b);
    let b0 = b[0].0 as int;
    let b1 = b[1].0 as int;
    let fr = |e: int| coef(r, e);
    let fa = |e: int| coef(a, e);
    let sh = |e: int| coef(a, e - 1);
    let t0 = |e: int| b0 * coef(a, e - 1);
    let t1 = |e: int| b1 * coef(a, e);
    let g = |e: int| b0 * coef(a, e - 1) + b1 * coef(a, e);
    assert forall|e: int| 0 <= e < n + 1 implies #[trigger] fr(e) % p == g(e) % p by {
        let k = n - e;
        lemma_conv_linear(a, b, k, n);
        vstd::arithmetic::div_mod::lemma_mod_twice(conv_sum(a, b, k, n), p);
        vstd::arithmetic::div_mod::lemma_mod_bound(conv_sum(a, b, k, n), p);
        assert(fr(e) == r[r.len() - 1 - e].0);
        if k < n {
            assert(a[k].0 == coef(a, e - 1));
        } else {
            assert(coef(a, e - 1) == 0);
        }
        if k >= 1 {
            assert(a[k - 1].0 == coef(a, e));
        } else {
            assert(coef(a, e) == 0);
        }
        assert(conv_sum(a, b, k, n) == g(e)) by {
            vstd::arithmetic::mul::lemma_mul_is_commutative(b0, coef(a, e - 1));
            vstd::arithmetic::mul::lemma_mul_is_commutative(b1, coef(a, e));
        }
    }
    lemma_partial_value_series(r, x, n + 1);
    lemma_partial_value_series(a, x, n);
    lemma_partial_value_series(b, x, 2);
    lemma_series_mod(fr, g, x, n + 1);
    lemma_series_add(t0, t1, g, x, n + 1);
    lemma_series_scale(sh, t0, b0, x, n + 1);
    lemma_series_scale(fa, t1, b1, x, n + 1);
    lemma_series_shift(fa, sh, x, n);
    lemma_series_zero_tail(fa, x, n, n + 1);
    let av = series(fa, x, n);
    // the linear factor: b1 + b0 * x
    assert(series(|e: int| coef(b, e), x, 2) == b1 + b0 * x) by {
        reveal_with_fuel(series, 3);
        vstd::arithmetic::power::lemma_pow0(x);
        vstd::arithmetic::power::lemma_pow1(x);
    }
    assert(series(g, x, n + 1) == (b1 + b0 * x) * av) by (nonlinear_arith)
        requires
            series(g, x, n + 1) == series(t0, x, n + 1) + series(t1, x, n + 1),
            series(t0, x, n + 1) == b0 * series(sh, x, n + 1),
            series(sh, x, n + 1) == x * av,
            series(t1, x, n + 1) == b1 * series(fa, x, n + 1),
            series(fa, x, n + 1) == av,
    ;
    vstd::arithmetic::div_mod::lemma_mul_mod_noop(av, b1 + b0 * x, p);
    vstd::arithmetic::mul::lemma_mul_is_commutative(av, b1 + b0 * x);
}

/// Adding q and then subtracting q gives back p, coefficient by coefficient.
pub proof fn lemma_add_sub_cancel(a: Seq<FieldElement>, b: Seq<FieldElement>)
    requires
        forall|i: int| 0 <= i < a.len() ==> (#[trigger] a[i]).wf(),
        forall|i: int| 0 <= i < b.len() ==> (#[trigger] b[i]).wf(),
    ensures
        poly_sub(poly_add(a, b), b).len() == max(a.len() as int, b.len() as int),
        forall|d: int| #[trigger] coef(poly_sub(poly_add(a, b), b), d) == coef(a, d),
        a.len() >= b.len() ==> poly_sub(poly_add(a, b), b) == a,
{
    let p = MODULUS as int;
    let s = poly_add(a, b);
    let t = poly_sub(s, b);
    let l = max(a.len() as int, b.len() as int);
    assert forall|d: int| #[trigger] coef(t, d) == coef(a, d) by {
        if 0 <= d < l {
            let ca = coef(a, d);
            let cb = coef(b, d);
            assert(0 <= ca < p);
            assert(coef(s, d) == (ca + cb) % p);
            vstd::arithmetic::div_mod::lemma_sub_mod_noop(ca + cb, cb, p);
            vstd::arithmetic::div_mod::lemma_mod_twice(cb, p);
            vstd::arithmetic::div_mod::lemma_small_mod(ca as nat, p as nat);
            vstd::arithmetic::div_mod::lemma_mod_bound(cb, p);
            vstd::arithmetic::div_mod::lemma_sub_mod_noop(ca + cb, cb, p);
            vstd::arithmetic::div_mod::lemma_sub_mod_noop_right(ca + cb, cb, p);
            assert(coef(t, d) == ((ca + cb) % p - cb) % p);
            assert(((ca + cb) % p - cb) % p == (ca + cb - cb) % p) by {
                vstd::arithmetic::div_mod::lemma_sub_mod_noop(ca + cb, cb, p);
                vstd::arithmetic::div_mod::lemma_small_mod(cb as nat, p as nat);
                vstd::arithmetic::div_mod::lemma_mod_twice(ca + cb, p);
            }
        }
    }
    if a.len() >= b.len() {
        assert forall|k: int| 0 <= k < a.len() implies #[trigger] t[k] == a[k] by {
            let d = a.len() - 1 - k;
            assert(coef(t, d) == coef(a, d));
            vstd::arithmetic::div_mod::lemma_mod_bound(coef(s, d) - coef(b, d), p);
        }
        assert(t =~= a);
    }
}

proof fn lemma_conv_unit(a: Seq<FieldElement>, b: Seq<FieldElement>, k: int, i: nat)
    requires
        b.len() == 1,
        i <= a.len(),
    ensures
        conv_sum(a, b, k, i) == if 0 <= k < i {
            a[k].0 * b[0].0
        } else {
            0
        },
    decreases i,
{
    if i > 0 {
        lemma_conv_unit(a, b, k, (i - 1) as nat);
    }
}

/// Multiplying by the constant polynomial 1 changes nothing.
pub proof fn lemma_mul_one(a: Seq<FieldElement>)
    requires
        a.len() > 0,
        forall|i: int| 0 <= i < a.len() ==> (#[trigger] a[i]).wf(),
    ensures
        poly_mul(a, seq![FieldElement(1)]) == a,
{
    let one = seq![FieldElement(1)];
    let r = poly_mul(a, one);
    assert forall|k: int| 0 <= k < a.len() implies #[trigger] r[k] == a[k] by {
        lemma_conv_unit(a, one, k, a.len());
        vstd::arithmetic::div_mod::lemma_small_mod(a[k].0 as nat, MODULUS as nat);
    }
    assert(r =~= a);
}

/// `+` on polynomials is `Polynomial::add`, whose contract gives the coefficients.
impl std::ops::Add for Polynomial {
    type Output = Self;

    fn add(self, rhs: Self) -> (r: Self)
        ensures
            r@ == poly_add(self@, rhs@),
    {
        Polynomial::add(self, rhs)
    }
}

impl vstd::std_specs::ops::AddSpecImpl for Polynomial {
    /// A vector is not determined by its contents, so no single value is promised here.
    open spec fn obeys_add_spec() -> bool {
        false
    }

    open spec fn add_req(self, rhs: Self) -> bool {
        true
    }

    open spec fn add_spec(self, rhs: Self) -> Self {
        arbitrary()
    }
}

/// `-` on polynomials is `Polynomial::sub`, whose contract gives the coefficients.
impl std::ops::Sub for Polynomial {
    type Output = Self;

    fn sub(self, rhs: Self) -> (r: Self)
        ensures
            r@ == poly_sub(self@, rhs@),
    {
        Polynomial::sub(self, rhs)
    }
}

impl vstd::std_specs::ops::SubSpecImpl for Polynomial {
    /// A vector is not determined by its contents, so no single value is promised here.
    open spec fn obeys_sub_spec() -> bool {
        false
    }

    open spec fn sub_req(self, rhs: Self) -> bool {
        true
    }

    open spec fn sub_spec(self, rhs: Self) -> Self {
        arbitrary()
    }
}

/// `*` on polynomials is `Polynomial::mul`, whose contract gives the coefficients.
impl std::ops::Mul for Polynomial {
    type Output = Polynomial;

    fn mul(self, rhs: Self) -> (r: Polynomial)
        ensures
            r@ == poly_mul(self@, rhs@),
    {
        Polynomial::mul(self, rhs)
    }
}

impl vstd::std_specs::ops::MulSpecImpl for Polynomial {
    /// A vector is not determined by its contents, so no single value is promised here.
    open spec fn obeys_mul_spec() -> bool {
        false
    }

    /// Both operands non-empty, and the product's length fits in a `usize`.
    open spec fn mul_req(self, rhs: Self) -> bool {
        &&& self@.len() > 0
        &&& rhs@.len() > 0
        &&& self@.len() + rhs@.len() <= usize::MAX
    }

    open spec fn mul_spec(self, rhs: Self) -> Self {
        arbitrary()
    }
}

} // verus!
