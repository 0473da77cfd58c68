//! Number theory behind the Miller-Rabin test: Euclid's lemma, Fermat's
//! little theorem and the square roots of one modulo a prime, which together
//! show that a prime passes every round.
use crate::crypto::{mod_pow_spec, odd_part, passes_round, probable_prime_spec, twos};
use vstd::arithmetic::div_mod::{
    lemma_add_mod_noop, lemma_fundamental_div_mod, lemma_mod_equivalence, lemma_mod_multiples_basic,
    lemma_mod_multiples_vanish, lemma_small_mod,
};
use vstd::arithmetic::power::{lemma_pow_adds, pow};
use vstd::arithmetic::power2::pow2;
use vstd::prelude::*;

verus! {

/// `n` is prime.
pub open spec fn is_prime(n: nat) -> bool {
    n >= 2 && forall|k: nat| 2 <= k < n ==> #[trigger] (n % k) != 0
}

/// Binomial coefficients, by Pascal's rule.
pub open spec fn binom(n: nat, k: nat) -> nat
    decreases n,
{
    if k == 0 {
        1
    } else if n == 0 {
        0
    } else {
        binom((n - 1) as nat, (k - 1) as nat) + binom((n - 1) as nat, k)
    }
}

/// The first `j` terms of the expansion of `(x + 1)^n`.
pub open spec fn binom_sum(n: nat, x: int, j: nat) -> int
    decreases j,
{
    if j == 0 {
        0
    } else {
        binom_sum(n, x, (j - 1) as nat) + binom(n, (j - 1) as nat) * pow(x, (j - 1) as nat)
    }
}

/// A prime dividing a product of a number below it divides the other factor.
proof fn lemma_euclid(p: nat, a: nat, b: nat)
    requires
        is_prime(p),
        0 < a < p,
        ((a * b) as int) % (p as int) == 0,
    ensures
        b % p == 0,
    decreases a,
{
    if a > 1 {
        let r = p % a;
        let q = p / a;
        assert(p % a != 0);
        lemma_fundamental_div_mod(p as int, a as int);
        lemma_fundamental_div_mod((a * b) as int, p as int);
        let m = (a * b) / p;
        assert(a * b == p * m);
        assert(r * b == p * (b - q * m)) by (nonlinear_arith)
            requires p == a * q + r, a * b == p * m;
        assert(r * b >= 0) by (nonlinear_arith);
        assert(b - q * m >= 0) by (nonlinear_arith)
            requires r * b == p * (b - q * m), r * b >= 0, p > 0;
        lemma_mod_multiples_basic(b - q * m, p as int);
        assert((p * (b - q * m)) == (b - q * m) * p) by (nonlinear_arith);
        lemma_euclid(p, r, b);
    } else {
        assert(a * b == b) by (nonlinear_arith)
            requires a == 1;
    }
}

proof fn lemma_binom_zero(n: nat, k: nat)
    requires
        k > n,
    ensures
        binom(n, k) == 0,
    decreases n,
{
    if n > 0 {
        lemma_binom_zero((n - 1) as nat, (k - 1) as nat);
        lemma_binom_zero((n - 1) as nat, k);
    }
}

proof fn lemma_binom_diag(n: nat)
    ensures
        binom(n, n) == 1,
    decreases n,
{
    if n > 0 {
        lemma_binom_diag((n - 1) as nat);
        lemma_binom_zero((n - 1) as nat, n);
    }
}

proof fn lemma_binom_one(n: nat)
    ensures
        binom(n, 1) == n,
    decreases n,
{
    if n > 0 {
        lemma_binom_one((n - 1) as nat);
        assert(binom((n - 1) as nat, 0) == 1);
        assert(binom(n, 1) == binom((n - 1) as nat, 0) + binom((n - 1) as nat, 1));
    }
}

/// `k * C(n, k) == n * C(n - 1, k - 1)`.
proof fn lemma_absorption(n: nat, k: nat)
    requires
        n >= 1,
        k >= 1,
    ensures
        k * binom(n, k) == n * binom((n - 1) as nat, (k - 1) as nat),
    decreases n,
{
    if k == 1 {
        lemma_binom_one(n);
        assert(binom((n - 1) as nat, 0) == 1);
    } else if n == 1 {
        lemma_binom_zero(0, (k - 1) as nat);
        lemma_binom_zero(0, k);
        assert(binom(1, k) == 0);
    } else {
        let n1 = (n - 1) as nat;
        let k1 = (k - 1) as nat;
        lemma_absorption(n1, k1);
        lemma_absorption(n1, k);
        let a = binom(n1, k1);
        let b = binom(n1, k);
        let c = binom((n1 - 1) as nat, (k1 - 1) as nat);
        let d = binom((n1 - 1) as nat, k1);
        assert(binom(n, k) == a + b);
        assert(a == c + d);
        assert(k * (a + b) == n * a) by (nonlinear_arith)
            requires k1 * a == n1 * c, k * b == n1 * d, a == c + d, k1 == k - 1, n1 == n - 1;
    }
}

/// A prime divides every inner binomial coefficient of its row.
proof fn lemma_prime_divides_binom(p: nat, k: nat)
    requires
        is_prime(p),
        0 < k < p,
    ensures
        binom(p, k) % p == 0,
{
    lemma_absorption(p, k);
    let c = binom((p - 1) as nat, (k - 1) as nat);
    lemma_mod_multiples_basic(c as int, p as int);
    assert(k * binom(p, k) == c * p) by (nonlinear_arith)
        requires k * binom(p, k) == p * c;
    lemma_euclid(p, k, binom(p, k));
}

proof fn lemma_pascal_sum(n: nat, x: int, j: nat)
    requires
        n >= 1,
        j >= 1,
    ensures
        binom_sum(n, x, j) == binom_sum((n - 1) as nat, x, j) + x * binom_sum((n - 1) as nat, x, (j - 1) as nat),
    decreases j,
{
    let n1 = (n - 1) as nat;
    if j == 1 {
        assert(pow(x, 0) == 1) by {
            reveal_with_fuel(pow, 1);
        }
        assert(binom(n, 0) == 1 && binom(n1, 0) == 1);
        assert(binom_sum(n, x, 0) == 0 && binom_sum(n1, x, 0) == 0);
        assert(binom_sum(n, x, 1) == binom_sum(n, x, 0) + binom(n, 0) * pow(x, 0));
        assert(binom_sum(n1, x, 1) == binom_sum(n1, x, 0) + binom(n1, 0) * pow(x, 0));
    } else {
        let j1 = (j - 1) as nat;
        let j2 = (j - 2) as nat;
        lemma_pascal_sum(n, x, j1);
        lemma_pow_adds(x, 1, j2);
        assert(pow(x, 1) == x) by {
            reveal_with_fuel(pow, 2);
        }
        assert(j1 == 1 + j2);
        assert(binom(n, j1) == binom(n1, j2) + binom(n1, j1));
        let s1 = binom_sum(n1, x, j1);
        let s2 = binom_sum(n1, x, j2);
        assert(binom_sum(n1, x, j) == s1 + binom(n1, j1) * pow(x, j1));
        assert(binom_sum(n1, x, j1) == s2 + binom(n1, j2) * pow(x, j2));
        assert(binom_sum(n, x, j) == binom_sum(n, x, j1) + binom(n, j1) * pow(x, j1));
        assert(x * (s2 + binom(n1, j2) * pow(x, j2)) == x * s2 + binom(n1, j2) * (x * pow(x, j2)))
            by (nonlinear_arith);
        assert((binom(n1, j2) + binom(n1, j1)) * pow(x, j1) == binom(n1, j2) * pow(x, j1) + binom(n1, j1) * pow(
            x,
            j1,
        )) by (nonlinear_arith);
    }
}

/// The binomial theorem for `(x + 1)^n`.
proof fn lemma_binomial(n: nat, x: int)
    ensures
        pow(x + 1, n) == binom_sum(n, x, n + 1),
    decreases n,
{
    if n == 0 {
        assert(pow(x + 1, 0) == 1) by {
            reveal_with_fuel(pow, 1);
        }
        assert(pow(x, 0) == 1) by {
            reveal_with_fuel(pow, 1);
        }
        assert(binom(0, 0) == 1);
        assert(binom_sum(0, x, 0) == 0);
        assert(binom_sum(0, x, 1) == binom_sum(0, x, 0) + binom(0, 0) * pow(x, 0));
    } else {
        let n1 = (n - 1) as nat;
        lemma_binomial(n1, x);
        lemma_pascal_sum(n, x, n + 1);
        lemma_binom_zero(n1, n);
        assert(binom_sum(n1, x, n + 1) == binom_sum(n1, x, n) + binom(n1, n) * pow(x, n));
        assert(pow(x + 1, n) == (x + 1) * pow(x + 1, n1)) by {
            reveal(pow);
        }
        assert((x + 1) * binom_sum(n1, x, n) == binom_sum(n1, x, n) + x * binom_sum(n1, x, n)) by (nonlinear_arith);
    }
}

/// Modulo a prime, the inner terms of the expansion vanish.
proof fn lemma_binom_sum_mod(p: nat, x: nat, j: nat)
    requires
        is_prime(p),
        1 <= j <= p,
    ensures
        binom_sum(p, x as int, j) % (p as int) == 1,
    decreases j,
{
    if j == 1 {
        assert(pow(x as int, 0) == 1) by {
            reveal_with_fuel(pow, 1);
        }
        assert(binom(p, 0) == 1);
        assert(binom_sum(p, x as int, 0) == 0);
        assert(binom_sum(p, x as int, 1) == binom_sum(p, x as int, 0) + binom(p, 0) * pow(x as int, 0));
        lemma_small_mod(1, p);
    } else {
        let j1 = (j - 1) as nat;
        lemma_binom_sum_mod(p, x, j1);
        lemma_prime_divides_binom(p, j1);
        let c = binom(p, j1) / p;
        lemma_fundamental_div_mod(binom(p, j1) as int, p as int);
        let t = c * pow(x as int, j1);
        assert(binom(p, j1) * pow(x as int, j1) == p * t) by (nonlinear_arith)
            requires binom(p, j1) == p * c, t == c * pow(x as int, j1);
        lemma_mod_multiples_vanish(t, binom_sum(p, x as int, j1), p as int);
    }
}

/// Fermat: `x^p == x` modulo a prime `p`.
proof fn lemma_fermat_pow(p: nat, x: nat)
    requires
        is_prime(p),
    ensures
        pow(x as int, p) % (p as int) == (x as int) % (p as int),
    decreases x,
{
    let pi = p as int;
    if x == 0 {
        vstd::arithmetic::power::lemma0_pow(p);
    } else {
        let x1 = (x - 1) as nat;
        lemma_fermat_pow(p, x1);
        lemma_binomial(p, x1 as int);
        lemma_binom_sum_mod(p, x1, p);
        lemma_binom_diag(p);
        let s = binom_sum(p, x1 as int, p);
        assert(x1 as int + 1 == x as int);
        assert(binom_sum(p, x1 as int, p + 1) == s + binom(p, p) * pow(x1 as int, p));
        assert(pow(x as int, p) == s + pow(x1 as int, p));
        lemma_add_mod_noop(s, pow(x1 as int, p), pi);
        lemma_add_mod_noop(1, x1 as int, pi);
        lemma_small_mod(1, p);
    }
}

/// Fermat's little theorem: `a^(p - 1) == 1` modulo a prime `p > a > 0`.
proof fn lemma_fermat(p: nat, a: nat)
    requires
        is_prime(p),
        0 < a < p,
    ensures
        pow(a as int, (p - 1) as nat) % (p as int) == 1,
{
    let pi = p as int;
    let e = pow(a as int, (p - 1) as nat);
    lemma_fermat_pow(p, a);
    lemma_pow_adds(a as int, 1, (p - 1) as nat);
    assert(pow(a as int, 1) == a) by {
        reveal_with_fuel(pow, 2);
    }
    vstd::arithmetic::power::lemma_pow_positive(a as int, (p - 1) as nat);
    assert(pow(a as int, p) == a * e);
    lemma_mod_equivalence(a * e, a as int, pi);
    assert(a * e - a == a * (e - 1)) by (nonlinear_arith);
    lemma_euclid(p, a, (e - 1) as nat);
    lemma_mod_equivalence(e, 1, pi);
    lemma_small_mod(1, p);
}

/// Modulo a prime, the only square roots of one are 1 and `p - 1`.
proof fn lemma_roots_of_one(p: nat, y: nat)
    requires
        is_prime(p),
        y < p,
        ((y * y) as int) % (p as int) == 1,
    ensures
        y == 1 || y == p - 1,
{
    let pi = p as int;
    if y == 0 {
        assert(y * y == 0);
        lemma_small_mod(0, p);
    } else if y != 1 {
        lemma_small_mod(1, p);
        lemma_mod_equivalence((y * y) as int, 1, pi);
        let a = (y - 1) as nat;
        let b = y + 1;
        assert(y * y - 1 == a * b) by (nonlinear_arith)
            requires a == y - 1, b == y + 1, y >= 1;
        assert(((a * b) as int) % pi == 0);
        lemma_euclid(p, a, b);
        if b < p {
            lemma_small_mod(b, p);
        }
        assert(b == p);
    }
}

/// Walking down from `a^(d 2^i) == 1`: the round passes.
proof fn lemma_chain(n: nat, a: nat, i: nat)
    requires
        is_prime(n),
        n >= 3,
        i <= twos((n - 1) as nat),
        odd_part((n - 1) as nat) > 0,
        mod_pow_spec(a, odd_part((n - 1) as nat) * pow2(i), n) == 1,
    ensures
        passes_round(n, a),
    decreases i,
{
    let d = odd_part((n - 1) as nat);
    if i == 0 {
        assert(pow2(0) == 1) by {
            vstd::arithmetic::power2::lemma2_to64();
        }
        assert(d * pow2(0) == d);
    } else {
        let i1 = (i - 1) as nat;
        vstd::arithmetic::power2::lemma_pow2_unfold(i);
        vstd::arithmetic::power2::lemma_pow2_pos(i1);
        let e = d * pow2(i1);
        assert(e > 0) by (nonlinear_arith)
            requires d > 0, pow2(i1) > 0, e == d * pow2(i1);
        assert(e * 2 == d * pow2(i)) by (nonlinear_arith)
            requires pow2(i) == 2 * pow2(i1), e == d * pow2(i1);
        crate::crypto::lemma_square_pow(a, e, n);
        let y = mod_pow_spec(a, e, n);
        assert(y < n);
        assert(mod_pow_spec(y, 2, n) == 1);
        assert(pow(y as int, 2) == y * y) by {
            reveal_with_fuel(pow, 3);
        }
        lemma_roots_of_one(n, y);
        if y == n - 1 {
            assert(mod_pow_spec(a, d * pow2(i1), n) == n - 1);
        } else {
            lemma_chain(n, a, i1);
        }
    }
}

/// Every witness `1 <= a < n` passes its Miller-Rabin round on an odd prime.
pub proof fn lemma_prime_passes_round(n: nat, a: nat)
    requires
        is_prime(n),
        n >= 3,
        1 <= a < n,
    ensures
        passes_round(n, a),
{
    let k = (n - 1) as nat;
    crate::crypto::lemma_odd_part(k);
    lemma_fermat(n, a);
    lemma_chain(n, a, twos(k));
}

/// The Miller-Rabin test never rejects a prime: with any witnesses in
/// `[1, n - 1]` its verdict on a prime `n` is true.
pub proof fn lemma_prime_passes(n: nat, witnesses: Seq<nat>)
    requires
        is_prime(n),
        forall|j: int| 0 <= j < witnesses.len() ==> 1 <= #[trigger] witnesses[j] < n,
    ensures
        probable_prime_spec(n, witnesses),
{
    if n > 3 {
        assert(n % 2 != 0);
        assert forall|j: int| 0 <= j < witnesses.len() implies passes_round(n, #[trigger] witnesses[j]) by {
            lemma_prime_passes_round(n, witnesses[j]);
        }
    }
}

} // verus!
