//! Elementary number theory behind textbook RSA: Bezout's identity, Euclid's
//! lemma, binomial coefficients and Fermat's little theorem, and the
//! Chinese-remainder step for two distinct primes.
use crate::toy_ca::gcd_of;
use vstd::arithmetic::div_mod::{
    lemma_add_mod_noop,
    lemma_fundamental_div_mod,
    lemma_mod_multiples_basic,
    lemma_mod_multiples_vanish,
    lemma_mul_mod_noop_right,
};
use vstd::arithmetic::power::{lemma0_pow, lemma_pow1, lemma_pow_adds, pow};
use vstd::prelude::*;

verus! {

/// A prime: at least 2, and no number strictly between 1 and itself
/// divides it.
pub open spec fn is_prime(p: nat) -> bool {
    &&& p >= 2
    &&& forall|d: nat| 1 < d < p ==> #[trigger] (p % d) != 0
}

/// Bezout's identity: gcd(a, b) is an integer combination of a and b.
proof fn lemma_bezout(a: nat, b: nat) -> (st: (int, int))
    ensures
        st.0 * a + st.1 * b == gcd_of(a, b),
    decreases b,
{
    if b == 0 {
        (1, 0)
    } else {
        let (s, t) = lemma_bezout(b, a % b);
        let qa = (a / b) as int;
        lemma_fundamental_div_mod(a as int, b as int);
        assert(t * a + (s - t * qa) * b == s * b + t * (a % b)) by (nonlinear_arith)
            requires
                a == b * qa + a % b,
        ;
        (t, s - t * qa)
    }
}

/// gcd(a, b) is positive and divides both a and b.
proof fn lemma_gcd_divides(a: nat, b: nat)
    requires
        a > 0,
    ensures
        gcd_of(a, b) > 0,
        a % gcd_of(a, b) == 0,
        b % gcd_of(a, b) == 0,
    decreases b,
{
    if b == 0 {
        vstd::arithmetic::div_mod::lemma_mod_self_0(a as int);
        assert(0nat % a == 0) by {
            vstd::arithmetic::div_mod::lemma_small_mod(0, a);
        }
    } else {
        lemma_gcd_divides(b, a % b);
        let g = gcd_of(a, b);
        assert(g == gcd_of(b, a % b));
        lemma_fundamental_div_mod(a as int, b as int);
        lemma_fundamental_div_mod(b as int, g as int);
        lemma_fundamental_div_mod((a % b) as int, g as int);
        let u = (b / g) as int;
        let v = ((a % b) / g) as int;
        let w = (a / b) as int;
        assert(a == ((w * u) + v) * g) by (nonlinear_arith)
            requires
                a == b * w + a % b,
                b == g * u,
                a % b == g * v,
        ;
        lemma_mod_multiples_basic(w * u + v, g as int);
    }
}

/// A divisor of a positive number is at most that number.
proof fn lemma_divisor_le(x: nat, g: nat)
    requires
        x > 0,
        g > 0,
        x % g == 0,
    ensures
        g <= x,
{
    lemma_fundamental_div_mod(x as int, g as int);
    let k = x / g;
    assert(x == g * k);
    if k == 0 {
        assert(g * k == 0) by (nonlinear_arith)
            requires
                k == 0,
        ;
    } else {
        assert(g <= g * k) by (nonlinear_arith)
            requires
                k >= 1,
                g > 0,
        ;
    }
}

/// A prime is coprime to every positive number below it.
proof fn lemma_prime_coprime(p: nat, k: nat)
    requires
        is_prime(p),
        0 < k < p,
    ensures
        gcd_of(p, k) == 1,
{
    lemma_gcd_divides(p, k);
    let g = gcd_of(p, k);
    lemma_divisor_le(k, g);
    if g > 1 {
        assert(p % g != 0);
    }
}

/// Euclid's lemma: when gcd(a, b) is 1, a divisor of a product with the
/// other number divides the remaining factor.
proof fn lemma_coprime_cancel(a: nat, b: nat, c: int)
    requires
        a > 0,
        b > 0,
        gcd_of(a, b) == 1,
    ensures
        (b * c) % (a as int) == 0 ==> c % (a as int) == 0,
        (a * c) % (b as int) == 0 ==> c % (b as int) == 0,
{
    let (s, t) = lemma_bezout(a, b);
    if (b * c) % (a as int) == 0 {
        lemma_fundamental_div_mod(b * c, a as int);
        let w = (b * c) / (a as int);
        assert(c == (s * c + t * w) * a) by (nonlinear_arith)
            requires
                s * a + t * b == 1,
                b * c == a * w,
        ;
        lemma_mod_multiples_basic(s * c + t * w, a as int);
    }
    if (a * c) % (b as int) == 0 {
        lemma_fundamental_div_mod(a * c, b as int);
        let w = (a * c) / (b as int);
        assert(c == (s * w + t * c) * b) by (nonlinear_arith)
            requires
                s * a + t * b == 1,
                a * c == b * w,
        ;
        lemma_mod_multiples_basic(s * w + t * c, b as int);
    }
}

/// Binomial coefficients by Pascal's rule.
pub open spec fn binom(n: nat, k: nat) -> nat
    decreases n,
{
    if k == 0 {
        1
    } else if n == 0 {
        0
    } else {
        binom((n - 1) as nat, (k - 1) as nat) + binom((n - 1) as nat, k)
    }
}

/// No way to choose more items than there are.
proof fn lemma_binom_above(n: nat, k: nat)
    requires
        k > n,
    ensures
        binom(n, k) == 0,
    decreases n,
{
    if n > 0 {
        lemma_binom_above((n - 1) as nat, (k - 1) as nat);
        lemma_binom_above((n - 1) as nat, k);
    }
}

/// One way to choose everything.
proof fn lemma_binom_all(n: nat)
    ensures
        binom(n, n) == 1,
    decreases n,
{
    if n > 0 {
        lemma_binom_all((n - 1) as nat);
        lemma_binom_above((n - 1) as nat, n);
    }
}

/// n ways to choose one item.
proof fn lemma_binom_one(n: nat)
    ensures
        binom(n, 1) == n,
    decreases n,
{
    if n > 0 {
        lemma_binom_one((n - 1) as nat);
        assert(binom((n - 1) as nat, 0) == 1);
        assert(binom(n, 1) == binom((n - 1) as nat, 0) + binom((n - 1) as nat, 1));
    }
}

/// The absorption identity k C(n, k) = n C(n - 1, k - 1).
proof fn lemma_binom_absorb(n: nat, k: nat)
    requires
        n >= 1,
        k >= 1,
    ensures
        k * binom(n, k) == n * binom((n - 1) as nat, (k - 1) as nat),
    decreases n,
{
    if k == 1 {
        lemma_binom_one(n);
        assert(binom((n - 1) as nat, 0) == 1);
    } else if n == 1 {
        lemma_binom_above(1, k);
        lemma_binom_above(0, (k - 1) as nat);
    } else {
        let a = binom((n - 1) as nat, (k - 1) as nat);
        let b = binom((n - 1) as nat, k);
        let c = binom((n - 2) as nat, (k - 2) as nat);
        let d = binom((n - 2) as nat, (k - 1) as nat);
        lemma_binom_absorb((n - 1) as nat, (k - 1) as nat);
        lemma_binom_absorb((n - 1) as nat, k);
        assert(binom(n, k) == a + b);
        assert(a == c + d);
        assert(k * (a + b) == n * a) by (nonlinear_arith)
            requires
                (k - 1) * a == (n - 1) * c,
                k * b == (n - 1) * d,
                a == c + d,
        ;
    }
}

/// A prime divides every binomial coefficient C(p, k) with 0 < k < p.
proof fn lemma_prime_divides_binom(p: nat, k: nat)
    requires
        is_prime(p),
        0 < k < p,
    ensures
        binom(p, k) % p == 0,
{
    lemma_binom_absorb(p, k);
    let r = binom((p - 1) as nat, (k - 1) as nat);
    lemma_mod_multiples_basic(r as int, p as int);
    assert((k * (binom(p, k) as int)) % (p as int) == 0) by {
        assert(k * binom(p, k) == r * p) by (nonlinear_arith)
            requires
                k * binom(p, k) == p * r,
        ;
    }
    lemma_prime_coprime(p, k);
    lemma_coprime_cancel(p, k, binom(p, k) as int);
}

/// The first `m` terms of the binomial expansion of (x + 1)^n:
/// the sum of C(n, k) x^k for k < m.
pub open spec fn binom_sum(n: nat, m: nat, x: int) -> int
    decreases m,
{
    if m == 0 {
        0
    } else {
        binom_sum(n, (m - 1) as nat, x) + binom(n, (m - 1) as nat) * pow(x, (m - 1) as nat)
    }
}

/// The first term of every expansion is 1.
proof fn lemma_binom_sum_one(n: nat, x: int)
    ensures
        binom_sum(n, 1, x) == 1,
{
    vstd::arithmetic::power::lemma_pow0(x);
    assert(binom_sum(n, 0, x) == 0);
    assert(binom(n, 0) == 1);
    assert(binom_sum(n, 1, x) == binom_sum(n, 0, x) + binom(n, 0) * pow(x, 0));
}

/// Pascal's rule lifted to the partial sums.
proof fn lemma_binom_sum_pascal(n: nat, m: nat, x: int)
    ensures
        binom_sum(n + 1, m + 1, x) == binom_sum(n, m + 1, x) + x * binom_sum(n, m, x),
    decreases m,
{
    reveal(pow);
    if m == 0 {
        lemma_binom_sum_one(n + 1, x);
        lemma_binom_sum_one(n, x);
    } else {
        let mm = (m - 1) as nat;
        lemma_binom_sum_pascal(n, mm, x);
        let a = binom_sum(n, m, x);
        let b = binom_sum(n, mm, x);
        let cm = binom(n, mm) as int;
        let cn = binom(n, m) as int;
        let xm = pow(x, mm);
        let xn = pow(x, m);
        assert(xn == x * xm);
        assert(binom(n + 1, m) == cm + cn);
        assert(binom_sum(n + 1, m + 1, x) == binom_sum(n + 1, m, x) + (cm + cn) * xn);
        assert(binom_sum(n + 1, m, x) == a + x * b);
        assert(a == b + cm * xm);
        assert(binom_sum(n, m + 1, x) == a + cn * xn);
        assert(a + x * b + (cm + cn) * xn == (a + cn * xn) + x * a) by (nonlinear_arith)
            requires
                xn == x * xm,
                a == b + cm * xm,
        ;
    }
}

/// Terms past C(n, n) vanish.
proof fn lemma_binom_sum_full(n: nat, m: nat, x: int)
    requires
        m >= n + 1,
    ensures
        binom_sum(n, m, x) == binom_sum(n, n + 1, x),
    decreases m,
{
    if m > n + 1 {
        lemma_binom_sum_full(n, (m - 1) as nat, x);
        lemma_binom_above(n, (m - 1) as nat);
    }
}

/// The binomial theorem for (x + 1)^n.
proof fn lemma_binomial_theorem(n: nat, x: int)
    ensures
        pow(x + 1, n) == binom_sum(n, n + 1, x),
    decreases n,
{
    reveal(pow);
    if n == 0 {
        lemma_binom_sum_one(0, x);
    } else {
        let k = (n - 1) as nat;
        lemma_binomial_theorem(k, x);
        lemma_binom_sum_pascal(k, n, x);
        lemma_binom_sum_full(k, n + 1, x);
        let s = binom_sum(k, n, x);
        assert(pow(x + 1, n) == (x + 1) * s);
        assert((x + 1) * s == s + x * s) by (nonlinear_arith);
    }
}

/// Modulo a prime p, the partial sums of (x + 1)^p below the last term are 1.
proof fn lemma_binom_sum_prime(p: nat, m: nat, x: int)
    requires
        is_prime(p),
        1 <= m <= p,
    ensures
        binom_sum(p, m, x) % (p as int) == 1,
    decreases m,
{
    if m == 1 {
        lemma_binom_sum_one(p, x);
        vstd::arithmetic::div_mod::lemma_small_mod(1, p);
    } else {
        let k = (m - 1) as nat;
        lemma_binom_sum_prime(p, k, x);
        lemma_prime_divides_binom(p, k);
        lemma_fundamental_div_mod(binom(p, k) as int, p as int);
        let w = (binom(p, k) / p) as int;
        let t = pow(x, k);
        assert(binom(p, k) * t == p * (w * t)) by (nonlinear_arith)
            requires
                binom(p, k) == p * w,
        ;
        lemma_mod_multiples_vanish(w * t, binom_sum(p, k, x), p as int);
    }
}

/// The "freshman's dream" modulo a prime: (x + 1)^p = x^p + 1 (mod p).
proof fn lemma_freshmans_dream(p: nat, x: int)
    requires
        is_prime(p),
    ensures
        pow(x + 1, p) % (p as int) == (pow(x, p) + 1) % (p as int),
{
    lemma_binomial_theorem(p, x);
    lemma_binom_sum_prime(p, p, x);
    lemma_binom_all(p);
    let s = binom_sum(p, p, x);
    assert(pow(x + 1, p) == s + pow(x, p));
    lemma_add_mod_noop(s, pow(x, p), p as int);
    lemma_add_mod_noop(1, pow(x, p), p as int);
    vstd::arithmetic::div_mod::lemma_small_mod(1, p);
}

/// Fermat's little theorem in the form a^p = a (mod p).
pub proof fn lemma_fermat(p: nat, a: nat)
    requires
        is_prime(p),
    ensures
        pow(a as int, p) % (p as int) == (a as int) % (p as int),
    decreases a,
{
    if a == 0 {
        lemma0_pow(p);
    } else {
        let b = (a - 1) as nat;
        lemma_fermat(p, b);
        lemma_freshmans_dream(p, b as int);
        lemma_add_mod_noop(pow(b as int, p), 1, p as int);
        lemma_add_mod_noop(b as int, 1, p as int);
    }
}

/// Raising to 1 + j (p - 1) is the identity modulo a prime p.
proof fn lemma_pow_cycle(p: nat, m: nat, j: nat)
    requires
        is_prime(p),
    ensures
        pow(m as int, (1 + j * (p - 1)) as nat) % (p as int) == (m as int) % (p as int),
    decreases j,
{
    let mi = m as int;
    let pi = p as int;
    if j == 0 {
        lemma_pow1(mi);
        assert((1 + j * (p - 1)) as nat == 1) by (nonlinear_arith)
            requires
                j == 0,
        ;
    } else {
        let i = (j - 1) as nat;
        lemma_pow_cycle(p, m, i);
        assert(1 + j * (p - 1) == i * (p - 1) + p && i * (p - 1) >= 0) by (nonlinear_arith)
            requires
                i == j - 1,
                p >= 2,
        ;
        let base = (i * (p - 1)) as nat;
        assert((1 + i * (p - 1)) as nat == base + 1);
        lemma_pow_adds(mi, base, p);
        lemma_pow_adds(mi, base, 1);
        lemma_pow1(mi);
        lemma_fermat(p, m);
        lemma_mul_mod_noop_right(pow(mi, base), pow(mi, p), pi);
        lemma_mul_mod_noop_right(pow(mi, base), mi, pi);
    }
}

/// Two numbers below p q that agree modulo each of two distinct primes
/// p and q are equal.
proof fn lemma_crt_unique(p: nat, q: nat, x: int, m: int)
    requires
        is_prime(p),
        is_prime(q),
        p != q,
        0 <= x < p * q,
        0 <= m < p * q,
        x % (p as int) == m % (p as int),
        x % (q as int) == m % (q as int),
    ensures
        x == m,
{
    let pi = p as int;
    let qi = q as int;
    let diff = x - m;
    vstd::arithmetic::div_mod::lemma_mod_equivalence(x, m, pi);
    vstd::arithmetic::div_mod::lemma_mod_equivalence(x, m, qi);
    lemma_fundamental_div_mod(diff, pi);
    let u = diff / pi;
    assert(diff == pi * u);
    if p < q {
        lemma_prime_coprime(q, p);
        lemma_coprime_cancel(q, p, u);
    } else {
        lemma_prime_coprime(p, q);
        lemma_coprime_cancel(p, q, u);
    }
    assert(u % qi == 0);
    lemma_fundamental_div_mod(u, qi);
    let v = u / qi;
    assert(diff == (pi * qi) * v) by (nonlinear_arith)
        requires
            diff == pi * u,
            u == qi * v,
    ;
    assert(v == 0) by (nonlinear_arith)
        requires
            diff == (pi * qi) * v,
            -(pi * qi) < diff < pi * qi,
            pi * qi > 0,
    ;
}

/// Textbook RSA undoes itself: with n = p q for distinct primes and
/// e d = 1 modulo (p - 1)(q - 1), (m^d mod n)^e mod n = m for every m < n.
pub proof fn lemma_rsa_roundtrip(p: nat, q: nat, e: nat, d: nat, m: nat)
    requires
        is_prime(p),
        is_prime(q),
        p != q,
        (e * d) % ((p - 1) * (q - 1)) as nat == 1,
        m < p * q,
    ensures
        pow(pow(m as int, d) % (p * q) as int, e) % (p * q) as int == m,
{
    let n = (p * q) as int;
    let phi = ((p - 1) * (q - 1)) as nat;
    let ed = e * d;
    assert(n > 0 && phi > 0) by (nonlinear_arith)
        requires
            p >= 2,
            q >= 2,
            n == p * q,
            phi == (p - 1) * (q - 1),
    ;
    let mi = m as int;
    vstd::arithmetic::power::lemma_pow_mod_noop(pow(mi, d), e, n);
    vstd::arithmetic::power::lemma_pow_multiplies(mi, d, e);
    assert(d * e == ed) by (nonlinear_arith)
        requires
            ed == e * d,
    ;
    let x = pow(mi, ed) % n;
    vstd::arithmetic::div_mod::lemma_mod_bound(pow(mi, ed), n);
    lemma_fundamental_div_mod(ed as int, phi as int);
    let k = ed / phi;
    assert(ed == 1 + (k * (q - 1)) * (p - 1) && ed == 1 + (k * (p - 1)) * (q - 1))
        by (nonlinear_arith)
        requires
            ed == phi * k + 1,
            phi == (p - 1) * (q - 1),
    ;
    lemma_pow_cycle(p, m, (k * (q - 1)) as nat);
    lemma_pow_cycle(q, m, (k * (p - 1)) as nat);
    vstd::arithmetic::div_mod::lemma_mod_mod(pow(mi, ed), p as int, q as int);
    vstd::arithmetic::div_mod::lemma_mod_mod(pow(mi, ed), q as int, p as int);
    assert((q as int) * (p as int) == n) by (nonlinear_arith)
        requires
            n == p * q,
    ;
    lemma_crt_unique(p, q, x, mi);
}

} // verus!
