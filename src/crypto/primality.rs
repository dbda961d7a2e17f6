use vstd::prelude::*;

verus! {

use vstd::arithmetic::power::{pow, lemma_pow_adds, lemma_pow_multiplies, lemma_pow_mod_noop, lemma_pow1, lemma_pow0};
use vstd::arithmetic::div_mod::{lemma_mul_mod_noop, lemma_mod_multiples_vanish, lemma_fundamental_div_mod, lemma_small_mod};
use vstd::set_lib::{set_int_range, lemma_int_range, lemma_map_size, lemma_len_subset};
use super::field::MODULUS;

/// An element of order 2^32 in the multiplicative group of the field.
pub open spec fn two_adic_root() -> int {
    1753635133440165772
}

/// The root squared `k` times, reduced modulo p at each step.
pub open spec fn root_squarings(k: nat) -> int
    decreases k,
{
    if k == 0 {
        two_adic_root()
    } else {
        (root_squarings((k - 1) as nat) * root_squarings((k - 1) as nat)) % (MODULUS as int)
    }
}

proof fn lemma_root_squarings_values()
    ensures
        root_squarings(31) == MODULUS as int - 1,
        root_squarings(32) == 1,
{
    reveal_with_fuel(root_squarings, 2);
    assert(root_squarings(1) == 4614640910117430873int);
    assert(root_squarings(2) == 9123114210336311365int);
    assert(root_squarings(3) == 16116352524544190054int);
    assert(root_squarings(4) == 6414415596519834757int);
    assert(root_squarings(5) == 1213594585890690845int);
    assert(root_squarings(6) == 17096174751763063430int);
    assert(root_squarings(7) == 5456943929260765144int);
    assert(root_squarings(8) == 9713644485405565297int);
    assert(root_squarings(9) == 16905767614792059275int);
    assert(root_squarings(10) == 5416168637041100469int);
    assert(root_squarings(11) == 17654865857378133588int);
    assert(root_squarings(12) == 3511170319078647661int);
    assert(root_squarings(13) == 18146160046829613826int);
    assert(root_squarings(14) == 9306717745644682924int);
    assert(root_squarings(15) == 12380578893860276750int);
    assert(root_squarings(16) == 6115771955107415310int);
    assert(root_squarings(17) == 17776499369601055404int);
    assert(root_squarings(18) == 16207902636198568418int);
    assert(root_squarings(19) == 1532612707718625687int);
    assert(root_squarings(20) == 17492915097719143606int);
    assert(root_squarings(21) == 455906449640507599int);
    assert(root_squarings(22) == 11353340290879379826int);
    assert(root_squarings(23) == 1803076106186727246int);
    assert(root_squarings(24) == 13797081185216407910int);
    assert(root_squarings(25) == 17870292113338400769int);
    assert(root_squarings(26) == 549755813888int);
    assert(root_squarings(27) == 70368744161280int);
    assert(root_squarings(28) == 17293822564807737345int);
    assert(root_squarings(29) == 18446744069397807105int);
    assert(root_squarings(30) == 281474976710656int);
    assert(root_squarings(31) == 18446744069414584320int);
    assert(root_squarings(32) == 1int);
}

proof fn lemma_root_squarings_are_powers(k: nat)
    ensures
        pow(two_adic_root(), pow(2, k) as nat) % (MODULUS as int) == root_squarings(k),
    decreases k,
{
    let p = MODULUS as int;
    let b = two_adic_root();
    if k == 0 {
        lemma_pow0(2);
        lemma_pow1(b);
    } else {
        let k1 = (k - 1) as nat;
        lemma_root_squarings_are_powers(k1);
        let e = pow(2, k1);
        vstd::arithmetic::power::lemma_pow_positive(2, k1);
        reveal(pow);
        assert(pow(2, k) == 2 * e);
        lemma_pow_adds(b, e as nat, e as nat);
        assert((e + e) as nat == pow(2, k) as nat);
        lemma_mul_mod_noop(pow(b, e as nat), pow(b, e as nat), p);
    }
}

/// b^(2^31) = -1 and b^(2^32) = 1 modulo p.
proof fn lemma_root_order()
    ensures
        pow(two_adic_root(), pow(2, 31) as nat) % (MODULUS as int) == MODULUS as int - 1,
        pow(two_adic_root(), pow(2, 32) as nat) % (MODULUS as int) == 1,
{
    lemma_root_squarings_values();
    lemma_root_squarings_are_powers(31);
    lemma_root_squarings_are_powers(32);
}

/// Reduction modulo a divisor `s` of `m` commutes with reduction modulo `m`.
proof fn lemma_mod_divisor(x: int, m: int, s: int)
    requires
        1 < s,
        0 < m,
        m % s == 0,
    ensures
        (x % m) % s == x % s,
{
    let k = m / s;
    lemma_fundamental_div_mod(m, s);
    assert(k > 0) by (nonlinear_arith)
        requires
            m == s * k,
            m > 0,
            s > 1,
    ;
    vstd::arithmetic::div_mod::lemma_mod_mod(x, s, k);
    assert(s * k == m);
}

proof fn lemma_pow_one_mod(y: int, c: nat, s: int)
    requires
        s > 1,
        y % s == 1,
    ensures
        pow(y, c) % s == 1,
{
    lemma_pow_mod_noop(y, c, s);
    vstd::arithmetic::power::lemma1_pow(c);
    lemma_small_mod(1, s as nat);
}

/// Splits a positive integer into a power of two and an odd factor.
proof fn lemma_odd_part(d: nat) -> (r: (nat, nat))
    requires
        d > 0,
    ensures
        d == pow(2, r.0) * r.1,
        r.1 % 2 == 1,
    decreases d,
{
    reveal(pow);
    if d % 2 == 1 {
        (0, d)
    } else {
        let (k, u) = lemma_odd_part(d / 2);
        assert(pow(2, k + 1) == 2 * pow(2, k));
        assert(d == 2 * (d / 2));
        vstd::arithmetic::mul::lemma_mul_is_associative(2, pow(2, k), u as int);
        (k + 1, u)
    }
}

/// Facts about the root of unity modulo a nontrivial divisor `s` of p.
proof fn lemma_root_mod_divisor(s: int)
    requires
        1 < s,
        (MODULUS as int) % s == 0,
    ensures
        pow(two_adic_root(), pow(2, 32) as nat) % s == 1,
        pow(two_adic_root(), pow(2, 31) as nat) % s == s - 1,
        s % 2 == 1,
{
    let p = MODULUS as int;
    lemma_root_order();
    lemma_mod_divisor(pow(two_adic_root(), pow(2, 32) as nat), p, s);
    lemma_small_mod(1, s as nat);
    lemma_mod_divisor(pow(two_adic_root(), pow(2, 31) as nat), p, s);
    let k = p / s;
    lemma_fundamental_div_mod(p, s);
    assert(k >= 1) by (nonlinear_arith)
        requires
            p == s * k,
            p > 0,
            s > 1,
    ;
    assert(p - 1 == s * (k - 1) + (s - 1)) by (nonlinear_arith)
        requires
            p == s * k,
    ;
    lemma_mod_multiples_vanish(k - 1, s - 1, s);
    lemma_small_mod((s - 1) as nat, s as nat);
    if s % 2 == 0 {
        lemma_mod_divisor(p, s, 2);
    }
}

/// No positive exponent below 2^32 maps the root to 1 modulo a nontrivial divisor of p.
proof fn lemma_no_small_order(s: int, d: nat)
    requires
        1 < s,
        (MODULUS as int) % s == 0,
        0 < d < pow(2, 32),
    ensures
        pow(two_adic_root(), d) % s != 1,
{
    let b = two_adic_root();
    lemma_root_mod_divisor(s);
    if pow(b, d) % s == 1 {
        let (k, u) = lemma_odd_part(d);
        if k >= 32 {
            vstd::arithmetic::power::lemma_pow_increases(2, 32, k);
            assert(pow(2, k) * u >= pow(2, k)) by (nonlinear_arith)
                requires
                    u >= 1,
                    pow(2, k) > 0,
            ;
            assert(false);
        }
        let h = pow(2, 31);
        let rest = (31 - k) as nat;
        lemma_pow_adds(2, k, rest);
        assert(k + rest == 31);
        // b^(h*u) = (b^d)^(2^rest)
        let m = h * u;
        assert(m == d * pow(2, rest)) by (nonlinear_arith)
            requires
                h == pow(2, k) * pow(2, rest),
                d == pow(2, k) * u,
                m == h * u,
        ;
        vstd::arithmetic::power::lemma_pow_positive(2, rest);
        lemma_pow_multiplies(b, d, pow(2, rest) as nat);
        lemma_pow_one_mod(pow(b, d), pow(2, rest) as nat, s);
        // b^(h*u) = (b^h)^u with u odd
        vstd::arithmetic::power::lemma_pow_positive(2, 31);
        lemma_pow_multiplies(b, h as nat, u);
        let y = pow(b, h as nat);
        let w = (u / 2) as nat;
        assert(u == 2 * w + 1);
        lemma_pow_adds(y, 2 * w, 1);
        lemma_pow1(y);
        lemma_pow_multiplies(y, 2, w);
        lemma_pow_multiplies(b, h as nat, 2);
        assert(pow(2, 32) == h * 2) by { reveal(pow); }
        lemma_pow_one_mod(pow(y, 2), w, s);
        lemma_mul_mod_noop(pow(y, 2 * w), y, s);
        assert(pow(y, 2 * w) % s == 1);
        lemma_small_mod((s - 1) as nat, s as nat);
        assert(pow(b, m as nat) % s == s - 1);
        assert(pow(b, m as nat) % s == 1);
    }
}

/// Every nontrivial divisor of p exceeds 2^32.
proof fn lemma_divisor_is_large(s: int)
    requires
        1 < s,
        (MODULUS as int) % s == 0,
    ensures
        s > pow(2, 32),
{
    let b = two_adic_root();
    let n = pow(2, 32);
    vstd::arithmetic::power::lemma_pow_positive(2, 32);
    lemma_root_mod_divisor(s);
    let f = |i: int| pow(b, i as nat) % s;
    let dom = set_int_range(0, n);
    let img = dom.map(f);
    // each power is a unit modulo s
    assert forall|i: int| 0 <= i < n implies #[trigger] f(i) != 0 by {
        lemma_pow_adds(b, i as nat, (n - i) as nat);
        lemma_mul_mod_noop(pow(b, i as nat), pow(b, (n - i) as nat), s);
        if f(i) == 0 {
            let x = pow(b, i as nat);
            let y = pow(b, (n - i) as nat);
            assert(x % s == 0);
            assert((x % s) * (y % s) == 0) by (nonlinear_arith)
                requires
                    x % s == 0,
            ;
            lemma_small_mod(0, s as nat);
            assert(pow(b, n as nat) % s == 0);
        }
    }
    assert forall|i: int, j: int| 0 <= i < j < n implies #[trigger] f(i) != #[trigger] f(j) by {
        if f(i) == f(j) {
            let d = (j - i) as nat;
            let c = (n - i) as nat;
            lemma_pow_adds(b, j as nat, c);
            lemma_pow_adds(b, i as nat, c);
            lemma_pow_adds(b, n as nat, d);
            assert(j as nat + c == n as nat + d);
            lemma_mul_mod_noop(pow(b, j as nat), pow(b, c), s);
            lemma_mul_mod_noop(pow(b, i as nat), pow(b, c), s);
            lemma_mul_mod_noop(pow(b, n as nat), pow(b, d), s);
            lemma_small_mod(1, s as nat);
            vstd::arithmetic::div_mod::lemma_mod_twice(pow(b, d), s);
            lemma_no_small_order(s, d);
        }
    }
    assert(vstd::relations::injective_on(f, dom)) by {
        assert forall|x1: int, x2: int|
            dom.contains(x1) && dom.contains(x2) && #[trigger] f(x1) == #[trigger] f(x2)
            implies x1 == x2 by {
            if x1 < x2 {
                assert(f(x1) != f(x2));
            } else if x2 < x1 {
                assert(f(x2) != f(x1));
            }
        }
    }
    lemma_int_range(0, n);
    lemma_map_size(dom, img, f);
    let target = set_int_range(1, s);
    assert(img.subset_of(target)) by {
        assert forall|y: int| img.contains(y) implies target.contains(y) by {
            let x = choose|x: int| dom.contains(x) && f(x) == y;
            vstd::arithmetic::div_mod::lemma_mod_bound(pow(b, x as nat), s);
        }
    }
    lemma_int_range(1, s);
    lemma_len_subset(img, target);
}

/// The modulus p = 2^64 - 2^32 + 1 is prime: it has no divisor strictly between 1 and p.
pub proof fn lemma_modulus_is_prime()
    ensures
        forall|d: int| 1 < d < MODULUS ==> #[trigger] ((MODULUS as int) % d) != 0,
{
    let p = MODULUS as int;
    assert forall|d: int| 1 < d < MODULUS implies #[trigger] ((MODULUS as int) % d) != 0 by {
        if p % d == 0 {
            let e = p / d;
            lemma_fundamental_div_mod(p, d);
            assert(1 < e) by (nonlinear_arith)
                requires
                    p == d * e,
                    d < p,
                    d > 1,
            ;
            assert(p % e == 0) by {
                vstd::arithmetic::div_mod::lemma_mod_multiples_basic(d, e);
                vstd::arithmetic::mul::lemma_mul_is_commutative(d, e);
            }
            lemma_divisor_is_large(d);
            lemma_divisor_is_large(e);
            assert(pow(2, 32) == 4294967296) by {
                reveal_with_fuel(pow, 33);
            }
            assert(d * e > p) by (nonlinear_arith)
                requires
                    d > 4294967296,
                    e > 4294967296,
                    p == 18446744069414584321,
            ;
        }
    }
}

} // verus!
