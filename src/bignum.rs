//! Arbitrary-precision natural numbers held as canonical big-endian bytes.
//!
//! Arithmetic is delegated to `num_bigint::BigUint`; each wrapper states its
//! result over the value of the number (`x@`).
use num_bigint::{BigUint, RandBigInt};
use vstd::arithmetic::power2::pow2;
use vstd::prelude::*;

verus! {

/// Value of a big-endian byte string.
pub open spec fn be_value(s: Seq<u8>) -> nat
    decreases s.len(),
{
    if s.len() == 0 {
        0
    } else {
        be_value(s.drop_last()) * 256 + s.last() as nat
    }
}

/// The shortest big-endian byte string of `n`: one byte for values below 256,
/// and never a leading zero byte otherwise.
pub open spec fn be_bytes(n: nat) -> Seq<u8>
    decreases n,
{
    if n < 256 {
        seq![n as u8]
    } else {
        be_bytes(n / 256).push((n % 256) as u8)
    }
}

/// `s` is the shortest big-endian form of its value.
pub open spec fn is_canonical(s: Seq<u8>) -> bool {
    s.len() >= 1 && (s.len() == 1 || s[0] != 0)
}

/// `n` with bit `k` set.
pub open spec fn with_bit_set(n: nat, k: nat) -> nat {
    if (n / pow2(k)) % 2 == 1 {
        n
    } else {
        n + pow2(k)
    }
}

/// The shortest form of `n` is canonical and has value `n`.
pub proof fn lemma_be_bytes_value(n: nat)
    ensures
        be_value(be_bytes(n)) == n,
        is_canonical(be_bytes(n)),
        n >= 1 ==> be_bytes(n)[0] != 0,
    decreases n,
{
    let s = be_bytes(n);
    if n >= 256 {
        let t = be_bytes(n / 256);
        lemma_be_bytes_value(n / 256);
        assert(s.drop_last() =~= t);
        assert(n / 256 >= 1);
        assert((n / 256) * 256 + n % 256 == n) by (nonlinear_arith);
        assert(s[0] == t[0]);
    } else {
        lemma_single_byte(s);
    }
}

proof fn lemma_single_byte(s: Seq<u8>)
    requires
        s.len() == 1,
    ensures
        be_value(s) == s[0] as nat,
{
    assert(s.drop_last().len() == 0);
    assert(be_value(s.drop_last()) == 0);
}

proof fn lemma_leading_nonzero(s: Seq<u8>)
    requires
        s.len() >= 1,
        s[0] != 0,
    ensures
        be_value(s) >= 1,
        s.len() >= 2 ==> be_value(s) >= 256,
    decreases s.len(),
{
    if s.len() >= 2 {
        lemma_leading_nonzero(s.drop_last());
        assert(s.drop_last()[0] == s[0]);
    } else {
        lemma_single_byte(s);
    }
}

/// A canonical byte string is the shortest form of its own value.
pub proof fn lemma_canonical_unique(s: Seq<u8>)
    requires
        is_canonical(s),
    ensures
        be_bytes(be_value(s)) == s,
    decreases s.len(),
{
    if s.len() == 1 {
        lemma_single_byte(s);
        assert(be_bytes(be_value(s)) =~= s);
    } else {
        let t = s.drop_last();
        lemma_leading_nonzero(t);
        lemma_canonical_unique(t);
        let v = be_value(s);
        assert(v == be_value(t) * 256 + s.last() as nat);
        assert(v / 256 == be_value(t) && v % 256 == s.last() as nat) by (nonlinear_arith)
            requires v == be_value(t) * 256 + s.last() as nat, s.last() < 256;
        assert(be_bytes(v) =~= s);
    }
}

/// A smaller number has no longer shortest form.
pub proof fn lemma_be_bytes_len_monotone(n: nat, m: nat)
    requires
        n <= m,
    ensures
        be_bytes(n).len() <= be_bytes(m).len(),
    decreases m,
{
    if n >= 256 {
        lemma_be_bytes_len_monotone(n / 256, m / 256);
    } else if m >= 256 {
        lemma_be_bytes_value(m);
    }
}

/// Two canonical byte strings are equal exactly when their values are.
pub proof fn lemma_canonical_eq(s: Seq<u8>, t: Seq<u8>)
    requires
        is_canonical(s),
        is_canonical(t),
    ensures
        (s == t) <==> (be_value(s) == be_value(t)),
{
    lemma_canonical_unique(s);
    lemma_canonical_unique(t);
}

/// An arbitrary-precision natural number.
#[derive(Debug)]
pub struct BigNat {
    bytes: Vec<u8>,
}

impl View for BigNat {
    type V = nat;

    closed spec fn view(&self) -> nat {
        be_value(self.bytes@)
    }
}

impl BigNat {
    #[verifier::type_invariant]
    closed spec fn inv(&self) -> bool {
        is_canonical(self.bytes@)
    }

    /// The big-endian bytes of the number, without leading zeros (zero is
    /// the single byte `0`).
    pub fn to_bytes_be(&self) -> (r: Vec<u8>)
        ensures
            r@ == be_bytes(self@),
    {
        proof {
            use_type_invariant(self);
            lemma_canonical_unique(self.bytes@);
        }
        self.bytes.clone()
    }

    /// A copy of the number.
    pub fn duplicate(&self) -> (r: BigNat)
        ensures
            r@ == self@,
    {
        proof {
            use_type_invariant(self);
        }
        BigNat { bytes: self.bytes.clone() }
    }

    /// Whether the number is zero.
    pub fn is_zero(&self) -> (r: bool)
        ensures
            r == (self@ == 0),
    {
        proof {
            use_type_invariant(self);
            if self.bytes.len() >= 2 {
                lemma_leading_nonzero(self.bytes@);
            }
            if self.bytes.len() == 1 {
                lemma_single_byte(self.bytes@);
            }
        }
        self.bytes.len() == 1 && self.bytes[0] == 0
    }

    /// Whether the number is below the small bound `k`.
    pub fn is_below(&self, k: u8) -> (r: bool)
        ensures
            r == (self@ < k),
    {
        proof {
            use_type_invariant(self);
            if self.bytes.len() >= 2 {
                lemma_leading_nonzero(self.bytes@);
            }
            if self.bytes.len() == 1 {
                lemma_single_byte(self.bytes@);
            }
        }
        self.bytes.len() == 1 && self.bytes[0] < k
    }

    /// Whether the number is odd.
    pub fn is_odd(&self) -> (r: bool)
        ensures
            r == (self@ % 2 == 1),
    {
        proof {
            use_type_invariant(self);
            let s = self.bytes@;
            let v = be_value(s.drop_last());
            assert((v * 256 + s.last() as nat) % 2 == (s.last() as nat) % 2) by (nonlinear_arith);
        }
        let last = self.bytes[self.bytes.len() - 1];
        proof {
            assert(last % 2 == 1 <==> (last & 1) == 1) by (bit_vector);
        }
        (last & 1) == 1
    }

    /// Whether two numbers are equal.
    pub fn equals(&self, other: &BigNat) -> (r: bool)
        ensures
            r == (self@ == other@),
    {
        proof {
            use_type_invariant(self);
            use_type_invariant(other);
            lemma_canonical_eq(self.bytes@, other.bytes@);
        }
        let n = self.bytes.len();
        if n != other.bytes.len() {
            assert(self.bytes@.len() != other.bytes@.len());
            return false;
        }
        let mut i: usize = 0;
        while i < n
            invariant
                n == self.bytes.len(),
                n == other.bytes.len(),
                i <= n,
                forall|j: int| 0 <= j < i ==> self.bytes[j] == other.bytes[j],
                is_canonical(self.bytes@),
                is_canonical(other.bytes@),
            decreases n - i,
        {
            if self.bytes[i] != other.bytes[i] {
                assert(self.bytes@[i as int] != other.bytes@[i as int]);
                proof {
                    lemma_canonical_eq(self.bytes@, other.bytes@);
                }
                return false;
            }
            i = i + 1;
        }
        assert(self.bytes@ =~= other.bytes@);
        true
    }

    /// The number held by a big-endian byte string; leading zeros are
    /// ignored and the empty string is zero.
    pub fn from_bytes_be(bytes: &[u8]) -> (r: BigNat)
        ensures
            r@ == be_value(bytes@),
    {
        from_be_slice(bytes)
    }

    /// The number `v`.
    pub fn from_u64(v: u64) -> (r: BigNat)
        ensures
            r@ == v,
    {
        from_machine_int(v)
    }
}

/// Relies on `BigUint::from_bytes_be` (value of big-endian bytes, empty is
/// zero) and on `BigUint::to_bytes_be` (shortest big-endian form, zero as `[0]`).
#[verifier::external_body]
fn from_be_slice(bytes: &[u8]) -> (r: BigNat)
    ensures
        r@ == be_value(bytes@),
{
    BigNat { bytes: BigUint::from_bytes_be(bytes).to_bytes_be() }
}

/// Relies on `BigUint::from(u64)`: the same value.
#[verifier::external_body]
fn from_machine_int(v: u64) -> (r: BigNat)
    ensures
        r@ == v,
{
    BigNat { bytes: BigUint::from(v).to_bytes_be() }
}

/// Relies on `BigUint * BigUint`: the product.
#[verifier::external_body]
pub(crate) fn product(a: &BigNat, b: &BigNat) -> (r: BigNat)
    ensures
        r@ == a@ * b@,
{
    let x = BigUint::from_bytes_be(&a.bytes);
    let y = BigUint::from_bytes_be(&b.bytes);
    BigNat { bytes: (x * y).to_bytes_be() }
}

/// Relies on `BigUint % BigUint`: the remainder; it panics on a zero divisor.
#[verifier::external_body]
pub(crate) fn remainder(a: &BigNat, m: &BigNat) -> (r: BigNat)
    requires
        m@ > 0,
    ensures
        r@ == a@ % m@,
{
    let x = BigUint::from_bytes_be(&a.bytes);
    let y = BigUint::from_bytes_be(&m.bytes);
    BigNat { bytes: (x % y).to_bytes_be() }
}

/// Relies on `BigUint - BigUint`: the difference; it panics below zero.
#[verifier::external_body]
pub(crate) fn difference(a: &BigNat, b: &BigNat) -> (r: BigNat)
    requires
        a@ >= b@,
    ensures
        r@ == a@ - b@,
{
    let x = BigUint::from_bytes_be(&a.bytes);
    let y = BigUint::from_bytes_be(&b.bytes);
    BigNat { bytes: (x - y).to_bytes_be() }
}

/// Relies on `BigUint < BigUint`: the order of the values.
#[verifier::external_body]
pub(crate) fn less_than(a: &BigNat, b: &BigNat) -> (r: bool)
    ensures
        r == (a@ < b@),
{
    BigUint::from_bytes_be(&a.bytes) < BigUint::from_bytes_be(&b.bytes)
}

/// Relies on `BigUint >> 1`: the value halved, rounding down.
#[verifier::external_body]
pub(crate) fn halve(a: &BigNat) -> (r: BigNat)
    ensures
        r@ == a@ / 2,
{
    let x = BigUint::from_bytes_be(&a.bytes);
    BigNat { bytes: (x >> 1u32).to_bytes_be() }
}

/// Relies on `BigUint::set_bit(bit, true)`: bit `bit` of the value is set,
/// the others are kept.
#[verifier::external_body]
pub(crate) fn set_bit(a: &BigNat, bit: u64) -> (r: BigNat)
    ensures
        r@ == with_bit_set(a@, bit as nat),
{
    let mut x = BigUint::from_bytes_be(&a.bytes);
    x.set_bit(bit, true);
    BigNat { bytes: x.to_bytes_be() }
}

/// Relies on `RandBigInt::gen_biguint` over `rand::thread_rng`: a random
/// number of at most `bits` bits.
#[verifier::external_body]
pub(crate) fn random_bits(bits: u64) -> (r: BigNat)
    ensures
        r@ < pow2(bits as nat),
{
    let x = rand::thread_rng().gen_biguint(bits);
    BigNat { bytes: x.to_bytes_be() }
}

/// Relies on `RandBigInt::gen_biguint_range` over `rand::thread_rng`: a
/// random number in `[low, high)`; it panics on an empty range.
#[verifier::external_body]
pub(crate) fn random_range(low: &BigNat, high: &BigNat) -> (r: BigNat)
    requires
        low@ < high@,
    ensures
        low@ <= r@ < high@,
{
    let lo = BigUint::from_bytes_be(&low.bytes);
    let hi = BigUint::from_bytes_be(&high.bytes);
    BigNat { bytes: rand::thread_rng().gen_biguint_range(&lo, &hi).to_bytes_be() }
}

impl PartialEq for BigNat {
    fn eq(&self, other: &BigNat) -> (r: bool) {
        self.equals(other)
    }
}

impl vstd::std_specs::cmp::PartialEqSpecImpl for BigNat {
    open spec fn obeys_eq_spec() -> bool {
        true
    }

    open spec fn eq_spec(&self, other: &BigNat) -> bool {
        self@ == other@
    }
}

} // verus!
