//! Modular exponentiation, Miller-Rabin primality testing, group-parameter
//! generation and the key-pair operations of the exchange.
use crate::bignum::{difference, halve, less_than, product, random_bits, random_range, remainder, set_bit, with_bit_set, BigNat};
use vstd::arithmetic::div_mod::{lemma_mul_mod_noop_left, lemma_mul_mod_noop_right};
use vstd::arithmetic::power::{lemma1_pow, lemma_pow_adds, lemma_pow_mod_noop, lemma_pow_multiplies, pow};
use vstd::arithmetic::power2::{lemma_pow2_strictly_increases, lemma_pow2_unfold, pow2};
use crate::primality::{is_prime, lemma_prime_passes};
use vstd::prelude::*;

verus! {

/// `base^exponent mod modulus`, except that a zero exponent gives 1 whatever
/// the modulus.
pub open spec fn mod_pow_spec(base: nat, exponent: nat, modulus: nat) -> nat {
    if exponent == 0 {
        1
    } else {
        (pow(base as int, exponent) % (modulus as int)) as nat
    }
}

/// Repeated multiplication: start from 1 and multiply by `base` modulo
/// `modulus`, `exponent` times.
pub open spec fn naive_mod_pow(base: nat, exponent: nat, modulus: nat) -> nat
    decreases exponent,
{
    if exponent == 0 {
        1
    } else {
        (naive_mod_pow(base, (exponent - 1) as nat, modulus) * base) % modulus
    }
}

/// One square-and-multiply step keeps `acc * base^e` fixed modulo `m`.
proof fn lemma_square_step(acc: nat, b: nat, e: nat, m: nat)
    requires
        m > 0,
    ensures
        ((if e % 2 == 1 { (acc * b) % m } else { acc }) * pow(((b * b) % m) as int, e / 2)) % (m as int)
            == (acc * pow(b as int, e)) % (m as int),
{
    let mi = m as int;
    let h = e / 2;
    let q = pow(b as int, 2);
    assert(q == b * b) by {
        reveal_with_fuel(pow, 3);
    }
    lemma_pow_multiplies(b as int, 2, h);
    lemma_pow_mod_noop((b * b) as int, h, mi);
    lemma_pow_adds(b as int, 2 * h, e % 2);
    assert(e == 2 * h + e % 2);
    let ph = pow(((b * b) % m) as int, h);
    let pq = pow(q, h);
    assert(ph % mi == pq % mi);
    assert(pq == pow(b as int, 2 * h));
    if e % 2 == 1 {
        assert(pow(b as int, 1) == b) by {
            reveal_with_fuel(pow, 2);
        }
        assert(pow(b as int, e) == pq * b);
        lemma_mul_mod_noop_left((acc * b) as int, ph, mi);
        lemma_mul_mod_noop_right((acc * b) as int, ph, mi);
        lemma_mul_mod_noop_right((acc * b) as int, pq, mi);
        assert(((acc * b) % m) * ph % mi == (acc * b) * ph % mi);
        assert((acc * b) * pq == acc * (pq * b)) by (nonlinear_arith);
    } else {
        assert(pow(b as int, 0) == 1) by {
            reveal_with_fuel(pow, 1);
        }
        assert(pow(b as int, e) == pq);
        lemma_mul_mod_noop_right(acc as int, ph, mi);
        lemma_mul_mod_noop_right(acc as int, pq, mi);
    }
}

/// Modular exponentiation by repeated squaring: `base^exponent mod modulus`,
/// and 1 for a zero exponent.
pub fn mod_pow(base: &BigNat, exponent: &BigNat, modulus: &BigNat) -> (r: BigNat)
    requires
        modulus@ >= 1,
    ensures
        r@ == mod_pow_spec(base@, exponent@, modulus@),
{
    let ghost m = modulus@;
    let mut result = BigNat::from_u64(1);
    let mut b = remainder(base, modulus);
    let mut e = exponent.duplicate();
    proof {
        lemma_pow_mod_noop(base@ as int, exponent@, m as int);
    }
    while !e.is_zero()
        invariant
            m == modulus@,
            m >= 1,
            b@ < m,
            (result@ * pow(b@ as int, e@)) % (m as int) == pow(base@ as int, exponent@) % (m as int),
            exponent@ == 0 ==> result@ == 1 && e@ == 0,
            exponent@ > 0 ==> (result@ < m || e@ > 0),
        decreases e@,
    {
        proof {
            lemma_square_step(result@, b@, e@, m);
        }
        if e.is_odd() {
            let t = product(&result, &b);
            result = remainder(&t, modulus);
        }
        e = halve(&e);
        let sq = product(&b, &b);
        b = remainder(&sq, modulus);
    }
    proof {
        assert(pow(b@ as int, 0) == 1) by {
            reveal_with_fuel(pow, 1);
        }
        if exponent@ > 0 {
            vstd::arithmetic::div_mod::lemma_small_mod(result@, m);
        }
    }
    result
}

/// Square-and-multiply agrees with repeated multiplication for every modulus
/// above zero, and a zero exponent gives 1.
pub proof fn lemma_mod_pow_matches_naive(base: nat, exponent: nat, modulus: nat)
    requires
        modulus > 0,
    ensures
        mod_pow_spec(base, exponent, modulus) == naive_mod_pow(base, exponent, modulus),
        mod_pow_spec(base, 0, modulus) == 1,
    decreases exponent,
{
    if exponent > 0 {
        let e1 = (exponent - 1) as nat;
        let mi = modulus as int;
        lemma_pow_adds(base as int, e1, 1);
        assert(pow(base as int, 1) == base) by {
            reveal_with_fuel(pow, 2);
        }
        if e1 == 0 {
            assert(pow(base as int, 0) == 1) by {
                reveal_with_fuel(pow, 1);
            }
            assert(naive_mod_pow(base, 0, modulus) == 1);
        } else {
            lemma_mod_pow_matches_naive(base, e1, modulus);
            lemma_mul_mod_noop_left(pow(base as int, e1), base as int, mi);
        }
    }
}

/// The odd part of `k`: `k` with every factor two removed (zero stays zero).
pub open spec fn odd_part(k: nat) -> nat
    decreases k,
{
    if k > 0 && k % 2 == 0 {
        odd_part(k / 2)
    } else {
        k
    }
}

/// The number of factors two in `k > 0`.
pub open spec fn twos(k: nat) -> nat
    decreases k,
{
    if k > 0 && k % 2 == 0 {
        twos(k / 2) + 1
    } else {
        0
    }
}

/// Witness `a` does not show `n` composite: with `n - 1 == d * 2^s` and `d`
/// odd, `a^d == 1 (mod n)` or `a^(d * 2^i) == n - 1 (mod n)` for some `i < s`.
pub open spec fn passes_round(n: nat, a: nat) -> bool {
    let d = odd_part((n - 1) as nat);
    let s = twos((n - 1) as nat);
    mod_pow_spec(a, d, n) == 1 || exists|i: nat| i < s && #[trigger] mod_pow_spec(a, d * pow2(i), n) == n - 1
}

/// The Miller-Rabin verdict on `n` for the given witnesses: below 2 false, 2
/// and 3 true, other even numbers false, and otherwise whether every witness
/// passes its round.
pub open spec fn probable_prime_spec(n: nat, witnesses: Seq<nat>) -> bool {
    if n < 2 {
        false
    } else if n <= 3 {
        true
    } else if n % 2 == 0 {
        false
    } else {
        forall|j: int| 0 <= j < witnesses.len() ==> passes_round(n, #[trigger] witnesses[j])
    }
}

pub(crate) proof fn lemma_odd_part(k: nat)
    requires
        k > 0,
    ensures
        odd_part(k) * pow2(twos(k)) == k,
        odd_part(k) % 2 == 1,
        odd_part(k) > 0,
    decreases k,
{
    if k % 2 == 0 {
        lemma_odd_part(k / 2);
        lemma_pow2_unfold(twos(k));
        let d = odd_part(k / 2);
        let q = pow2(twos(k / 2));
        assert(twos(k) == twos(k / 2) + 1);
        assert(pow2(twos(k)) == 2 * q);
        assert(d * (2 * q) == 2 * (d * q)) by (nonlinear_arith);
        assert(odd_part(k) == d);
        assert(d * q == k / 2);
        assert(odd_part(k) * pow2(twos(k)) == k);
    } else {
        assert(pow2(0) == 1) by {
            vstd::arithmetic::power2::lemma2_to64();
        }
        assert(twos(k) == 0);
        assert(odd_part(k) == k);
        assert(k * pow2(0) == k);
    }
}

/// Squaring modulo `n` doubles the exponent.
pub(crate) proof fn lemma_square_pow(a: nat, e: nat, n: nat)
    requires
        n > 0,
        e > 0,
    ensures
        mod_pow_spec(mod_pow_spec(a, e, n), 2, n) == mod_pow_spec(a, e * 2, n),
{
    lemma_pow_mod_noop(pow(a as int, e), 2, n as int);
    lemma_pow_multiplies(a as int, e, 2);
}

/// Splits `k > 0` into its odd part.
fn split_odd(k: &BigNat) -> (d: BigNat)
    requires
        k@ > 0,
    ensures
        d@ == odd_part(k@),
{
    let mut d = k.duplicate();
    while !d.is_odd()
        invariant
            d@ > 0,
            odd_part(d@) == odd_part(k@),
        decreases d@,
    {
        d = halve(&d);
    }
    d
}

/// One Miller-Rabin round on odd `n >= 3` with witness `a`, given `n - 1`
/// and its odd part `d`.
fn witness_round(n: &BigNat, n_minus_1: &BigNat, d: &BigNat, a: &BigNat) -> (r: bool)
    requires
        n@ >= 3,
        n@ % 2 == 1,
        n_minus_1@ == n@ - 1,
        d@ == odd_part((n@ - 1) as nat),
    ensures
        r == passes_round(n@, a@),
{
    let ghost k = (n@ - 1) as nat;
    let ghost s = twos(k);
    proof {
        lemma_odd_part(k);
        assert(s > 0);
    }
    let one = BigNat::from_u64(1);
    let two = BigNat::from_u64(2);
    let mut x = mod_pow(a, d, n);
    if x.equals(&one) {
        return true;
    }
    proof {
        assert(pow2(0) == 1) by {
            vstd::arithmetic::power2::lemma2_to64();
        }
        assert(d@ * pow2(0) == d@);
    }
    if x.equals(n_minus_1) {
        assert(mod_pow_spec(a@, d@ * pow2(0), n@) == n@ - 1);
        assert(passes_round(n@, a@));
        return true;
    }
    let mut e = d.duplicate();
    let ghost mut i: nat = 0;
    loop
        invariant
            n@ >= 3,
            n_minus_1@ == n@ - 1,
            k == n@ - 1,
            s == twos(k),
            d@ == odd_part(k),
            d@ > 0,
            d@ * pow2(s) == k,
            two@ == 2,
            e@ == d@ * pow2(i),
            i < s,
            x@ == mod_pow_spec(a@, e@, n@),
            mod_pow_spec(a@, d@, n@) != 1,
            forall|j: nat| j <= i ==> #[trigger] mod_pow_spec(a@, d@ * pow2(j), n@) != n@ - 1,
        decreases s - i,
    {
        let e2 = product(&e, &two);
        proof {
            lemma_pow2_unfold(i + 1);
            assert(d@ * pow2(i) * 2 == d@ * pow2(i + 1)) by (nonlinear_arith)
                requires pow2(i + 1) == 2 * pow2(i);
            if i + 1 < s {
                lemma_pow2_strictly_increases(i + 1, s);
                assert(d@ * pow2(i + 1) < d@ * pow2(s)) by (nonlinear_arith)
                    requires pow2(i + 1) < pow2(s), d@ > 0;
            }
        }
        if e2.equals(n_minus_1) {
            proof {
                assert(i + 1 == s);
                assert forall|j: nat| j < s implies #[trigger] mod_pow_spec(a@, d@ * pow2(j), n@) != n@ - 1 by {
                    assert(j <= i);
                }
                assert(!passes_round(n@, a@));
            }
            return false;
        }
        proof {
            lemma_pow2_strictly_increases(i + 1, s);
            vstd::arithmetic::power2::lemma_pow2_pos(i);
            assert(e@ > 0) by (nonlinear_arith)
                requires e@ == d@ * pow2(i), d@ > 0, pow2(i) > 0;
            lemma_square_pow(a@, e@, n@);
        }
        x = mod_pow(&x, &two, n);
        e = e2;
        proof {
            i = i + 1;
        }
        if x.equals(n_minus_1) {
            assert(mod_pow_spec(a@, d@ * pow2(i), n@) == n@ - 1);
            assert(i < s);
            assert(passes_round(n@, a@));
            return true;
        }
    }
}

/// The Miller-Rabin test with the given witnesses.
pub fn is_probable_prime_with(n: &BigNat, witnesses: &Vec<BigNat>) -> (r: bool)
    ensures
        r == probable_prime_spec(n@, witnesses@.map_values(|w: BigNat| w@)),
{
    let ghost ws = witnesses@.map_values(|w: BigNat| w@);
    if n.is_below(2) {
        return false;
    }
    if n.is_below(4) {
        return true;
    }
    if !n.is_odd() {
        return false;
    }
    let one = BigNat::from_u64(1);
    let n_minus_1 = difference(n, &one);
    let d = split_odd(&n_minus_1);
    let mut j: usize = 0;
    while j < witnesses.len()
        invariant
            n@ >= 4,
            n@ % 2 == 1,
            n_minus_1@ == n@ - 1,
            d@ == odd_part((n@ - 1) as nat),
            ws == witnesses@.map_values(|w: BigNat| w@),
            j <= witnesses.len(),
            forall|t: int| 0 <= t < j ==> passes_round(n@, #[trigger] ws[t]),
        decreases witnesses.len() - j,
    {
        if !witness_round(n, &n_minus_1, &d, &witnesses[j]) {
            assert(!passes_round(n@, ws[j as int]));
            return false;
        }
        j = j + 1;
    }
    true
}

/// What holds of every verdict of the randomised test: it is the verdict of
/// the test with some `rounds` witnesses, each in `[2, n - 2]` where `n` is
/// odd and above 3.
pub open spec fn probable_prime_outcome(n: nat, rounds: nat, r: bool) -> bool {
    exists|ws: Seq<nat>|
        ws.len() == rounds && (n >= 5 && n % 2 == 1 ==> forall|j: int|
            0 <= j < ws.len() ==> 2 <= #[trigger] ws[j] <= n - 2) && r == probable_prime_spec(n, ws)
}

/// Miller-Rabin primality test with `rounds` witnesses drawn uniformly from
/// `[2, n - 2]`. A prime is always reported prime; a composite is reported
/// prime with probability at most `4^(-rounds)`.
pub fn is_probable_prime(n: &BigNat, rounds: usize) -> (r: bool)
    ensures
        probable_prime_outcome(n@, rounds as nat, r),
        is_prime(n@) ==> r,
        n@ < 2 ==> !r,
        n@ == 2 || n@ == 3 ==> r,
        n@ > 3 && n@ % 2 == 0 ==> !r,
{
    let mut witnesses: Vec<BigNat> = Vec::new();
    if n.is_below(5) || !n.is_odd() {
        let r = is_probable_prime_with(n, &witnesses);
        proof {
            let ws = Seq::new(rounds as nat, |j: int| 0nat);
            let empty = witnesses@.map_values(|w: BigNat| w@);
            assert(r == probable_prime_spec(n@, empty));
            assert(probable_prime_spec(n@, empty) == probable_prime_spec(n@, ws));
            assert(ws.len() == rounds as nat && (n@ >= 5 && n@ % 2 == 1 ==> forall|j: int|
                0 <= j < ws.len() ==> 2 <= #[trigger] ws[j] <= n@ - 2) && r == probable_prime_spec(n@, ws));
        }
        return r;
    }
    let two = BigNat::from_u64(2);
    let one = BigNat::from_u64(1);
    let n_minus_1 = difference(n, &one);
    let mut i: usize = 0;
    while i < rounds
        invariant
            two@ == 2,
            n_minus_1@ == n@ - 1,
            n@ >= 5,
            i <= rounds,
            witnesses@.len() == i,
            forall|j: int| 0 <= j < i ==> 2 <= #[trigger] witnesses@[j]@ <= n@ - 2,
        decreases rounds - i,
    {
        let a = random_range(&two, &n_minus_1);
        witnesses.push(a);
        i = i + 1;
    }
    let r = is_probable_prime_with(n, &witnesses);
    proof {
        let ws = witnesses@.map_values(|w: BigNat| w@);
        assert forall|j: int| 0 <= j < ws.len() implies 2 <= #[trigger] ws[j] <= n@ - 2 by {
            assert(ws[j] == witnesses@[j]@);
        }
        if is_prime(n@) {
            lemma_prime_passes(n@, ws);
        }
    }
    r
}

/// The candidate formed from `raw` by setting its lowest bit and bit
/// `bit_length - 1`.
pub open spec fn candidate_spec(raw: nat, bit_length: nat) -> nat {
    with_bit_set(with_bit_set(raw, 0), (bit_length - 1) as nat)
}

/// Setting a bit below `b` keeps a number below `2^b`.
proof fn lemma_with_bit_below(n: nat, k: nat, b: nat)
    requires
        n < pow2(b),
        k < b,
    ensures
        with_bit_set(n, k) < pow2(b),
{
    let q = pow2(k);
    vstd::arithmetic::power2::lemma_pow2_pos(k);
    let t = n / q;
    let r = n % q;
    if t % 2 != 1 {
        let m = pow2((b - k) as nat);
        vstd::arithmetic::power2::lemma_pow2_adds(k, (b - k) as nat);
        lemma_pow2_unfold((b - k) as nat);
        assert(pow2(b) == q * m);
        assert(n == t * q + r && r < q) by (nonlinear_arith)
            requires t == n / q, r == n % q, q > 0;
        assert(t < m) by (nonlinear_arith)
            requires n == t * q + r, n < q * m, q > 0, r >= 0;
        assert(t + 2 <= m);
        assert(n + q < q * m) by (nonlinear_arith)
            requires n == t * q + r, r < q, t + 2 <= m, q > 0;
    }
}

proof fn lemma_candidate(raw: nat, bit_length: nat)
    requires
        bit_length >= 2,
    ensures
        candidate_spec(raw, bit_length) % 2 == 1,
        candidate_spec(raw, bit_length) >= pow2((bit_length - 1) as nat),
        raw < pow2(bit_length) ==> candidate_spec(raw, bit_length) < pow2(bit_length),
{
    if raw < pow2(bit_length) {
        lemma_with_bit_below(raw, 0, bit_length);
        lemma_with_bit_below(with_bit_set(raw, 0), (bit_length - 1) as nat, bit_length);
    }
    let k = (bit_length - 1) as nat;
    vstd::arithmetic::power2::lemma2_to64();
    let o = with_bit_set(raw, 0);
    assert(raw / 1 == raw);
    assert(o % 2 == 1);
    lemma_pow2_unfold(k);
    vstd::arithmetic::power2::lemma_pow2_pos(k);
    let q = pow2(k);
    if (o / q) % 2 == 1 {
        assert(o / q >= 1);
        assert(o >= q) by (nonlinear_arith)
            requires o / q >= 1, q > 0;
    } else {
        assert((o + q) % 2 == 1) by (nonlinear_arith)
            requires o % 2 == 1, q == 2 * pow2((k - 1) as nat);
    }
}

/// Shapes a random draw into a prime candidate: the lowest bit and bit
/// `bit_length - 1` are set.
pub fn prime_candidate(raw: &BigNat, bit_length: u64) -> (r: BigNat)
    requires
        bit_length >= 1,
    ensures
        r@ == candidate_spec(raw@, bit_length as nat),
{
    let odd = set_bit(raw, 0);
    set_bit(&odd, bit_length - 1)
}

/// A random prime of `bit_length` bits: draws candidates until one passes
/// the Miller-Rabin test with 64 rounds. `None` only after `u64::MAX`
/// rejected candidates.
pub fn generate_random_prime(bit_length: u64) -> (r: Option<BigNat>)
    requires
        bit_length >= 2,
    ensures
        r matches Some(p) ==> p@ % 2 == 1 && pow2((bit_length - 1) as nat) <= p@ < pow2(bit_length as nat)
            && probable_prime_outcome(p@, 64, true),
{
    let mut attempts: u64 = 0;
    while attempts < u64::MAX
        invariant
            bit_length >= 2,
        decreases u64::MAX - attempts,
    {
        let raw = random_bits(bit_length);
        let p = prime_candidate(&raw, bit_length);
        proof {
            lemma_candidate(raw@, bit_length as nat);
        }
        if is_probable_prime(&p, 64) {
            return Some(p);
        }
        attempts = attempts + 1;
    }
    None
}

/// `g^((p - 1) / 2) mod p` is not 1: `g` lies outside the subgroup of
/// squares, so it is not of order two.
pub open spec fn generator_ok(g: nat, p: nat) -> bool {
    mod_pow_spec(g, ((p - 1) as nat) / 2, p) != 1
}

/// The generator check on candidate `g` for the prime `p`.
pub fn is_valid_generator(g: &BigNat, p: &BigNat) -> (r: bool)
    requires
        p@ >= 1,
    ensures
        r == generator_ok(g@, p@),
{
    let one = BigNat::from_u64(1);
    let p_minus_1 = difference(p, &one);
    let exp = halve(&p_minus_1);
    let t = mod_pow(g, &exp, p);
    !t.equals(&one)
}

/// A random element of `[2, p - 2]` that passes the generator check.
/// `None` only after `u64::MAX` rejected candidates.
pub fn find_generator(p: &BigNat) -> (r: Option<BigNat>)
    requires
        p@ >= 4,
    ensures
        r matches Some(g) ==> 2 <= g@ <= p@ - 2 && generator_ok(g@, p@),
{
    let two = BigNat::from_u64(2);
    let one = BigNat::from_u64(1);
    let p_minus_1 = difference(p, &one);
    let mut attempts: u64 = 0;
    while attempts < u64::MAX
        invariant
            two@ == 2,
            p_minus_1@ == p@ - 1,
            p@ >= 4,
        decreases u64::MAX - attempts,
    {
        let g = random_range(&two, &p_minus_1);
        if is_valid_generator(&g, p) {
            return Some(g);
        }
        attempts = attempts + 1;
    }
    None
}

/// The validity of group parameters that can be checked without testing
/// primality: `p` odd and at least 5, `1 < g < p - 1`, and `g` passes the
/// generator check.
pub open spec fn group_ok(p: nat, g: nat) -> bool {
    p >= 5 && p % 2 == 1 && 2 <= g <= p - 2 && generator_ok(g, p)
}

/// The public group parameters `(p, g)` of the exchange.
#[derive(Debug)]
pub struct GroupParameters {
    p: BigNat,
    g: BigNat,
}

impl View for GroupParameters {
    type V = (nat, nat);

    closed spec fn view(&self) -> (nat, nat) {
        (self.p@, self.g@)
    }
}

impl GroupParameters {
    #[verifier::type_invariant]
    closed spec fn inv(&self) -> bool {
        group_ok(self.p@, self.g@)
    }

    /// Parameters from a given prime `p` and generator `g`; `None` where
    /// they fail [`group_ok`]. The primality of `p` is taken as given.
    pub fn new(p: BigNat, g: BigNat) -> (r: Option<GroupParameters>)
        ensures
            r is Some <==> group_ok(p@, g@),
            r matches Some(v) ==> v@ == (p@, g@),
    {
        if p.is_below(5) || !p.is_odd() || g.is_below(2) {
            return None;
        }
        let two = BigNat::from_u64(2);
        let p_minus_2 = difference(&p, &two);
        if less_than(&p_minus_2, &g) {
            return None;
        }
        if !is_valid_generator(&g, &p) {
            return None;
        }
        Some(GroupParameters { p, g })
    }

    /// The prime modulus.
    pub fn p(&self) -> (r: &BigNat)
        ensures
            r@ == self@.0,
            group_ok(self@.0, self@.1),
    {
        proof {
            use_type_invariant(self);
        }
        &self.p
    }

    /// The generator.
    pub fn g(&self) -> (r: &BigNat)
        ensures
            r@ == self@.1,
            group_ok(self@.0, self@.1),
    {
        proof {
            use_type_invariant(self);
        }
        &self.g
    }

    /// A copy of the parameters.
    pub fn duplicate(&self) -> (r: GroupParameters)
        ensures
            r@ == self@,
    {
        proof {
            use_type_invariant(self);
        }
        GroupParameters { p: self.p.duplicate(), g: self.g.duplicate() }
    }
}

/// Generates group parameters: a random prime `p` of `bit_length` bits and
/// a generator `g` of it. `None` only after `u64::MAX` rejected draws.
pub fn generate_dh_params(bit_length: usize) -> (r: Option<GroupParameters>)
    requires
        bit_length >= 3,
    ensures
        r matches Some(v) ==> pow2((bit_length - 1) as nat) <= v@.0 < pow2(bit_length as nat)
            && probable_prime_outcome(v@.0, 64, true) && group_ok(v@.0, v@.1),
{
    let p = match generate_random_prime(bit_length as u64) {
        Some(p) => p,
        None => return None,
    };
    proof {
        vstd::arithmetic::power2::lemma2_to64();
        if bit_length - 1 > 2 {
            lemma_pow2_strictly_increases(2, (bit_length - 1) as nat);
        }
    }
    let g = match find_generator(&p) {
        Some(g) => g,
        None => return None,
    };
    Some(GroupParameters { p, g })
}

/// A random secret exponent in `[2, p - 2]`.
pub fn generate_secret_key(p: &BigNat) -> (r: BigNat)
    requires
        p@ >= 4,
    ensures
        2 <= r@ <= p@ - 2,
{
    let two = BigNat::from_u64(2);
    let one = BigNat::from_u64(1);
    let p_minus_1 = difference(p, &one);
    random_range(&two, &p_minus_1)
}

/// The public value `g^secret mod p`.
pub fn compute_public_key(secret_key: &BigNat, g: &BigNat, p: &BigNat) -> (r: BigNat)
    requires
        p@ >= 1,
    ensures
        r@ == mod_pow_spec(g@, secret_key@, p@),
{
    mod_pow(g, secret_key, p)
}

/// The shared secret `peer_public^own_secret mod p`.
pub fn compute_shared_secret(peer_public: &BigNat, own_secret: &BigNat, p: &BigNat) -> (r: BigNat)
    requires
        p@ >= 1,
    ensures
        r@ == mod_pow_spec(peer_public@, own_secret@, p@),
{
    mod_pow(peer_public, own_secret, p)
}

/// Both parties reach the same secret: for a modulus above 1 and any two
/// secret exponents `x` and `y`, raising `g^y` to `x` and `g^x` to `y`
/// modulo `p` agree.
pub proof fn lemma_shared_secret_agreement(p: nat, g: nat, x: nat, y: nat)
    requires
        p > 1,
    ensures
        mod_pow_spec(mod_pow_spec(g, y, p), x, p) == mod_pow_spec(mod_pow_spec(g, x, p), y, p),
{
    let pi = p as int;
    if x == 0 || y == 0 {
        lemma1_pow(x);
        lemma1_pow(y);
        vstd::arithmetic::div_mod::lemma_small_mod(1, p);
    } else {
        lemma_pow_mod_noop(pow(g as int, y), x, pi);
        lemma_pow_mod_noop(pow(g as int, x), y, pi);
        lemma_pow_multiplies(g as int, y, x);
        lemma_pow_multiplies(g as int, x, y);
        assert(y * x == x * y) by (nonlinear_arith);
    }
}

} // verus!
