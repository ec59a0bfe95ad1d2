//! Arbitrary-precision signed integers held as a sign and a big-endian magnitude.
use vstd::prelude::*;
use vstd::arithmetic::power::pow;
use num_bigint::{BigInt, Sign};
use num_traits::ToPrimitive;

verus! {

/// The natural number whose big-endian base-256 digits are `bytes`.
pub open spec fn be_value(bytes: Seq<u8>) -> nat
    decreases bytes.len(),
{
    if bytes.len() == 0 {
        0
    } else {
        be_value(bytes.drop_last()) * 256 + bytes.last() as nat
    }
}

/// The integer with the given sign and big-endian magnitude.
pub open spec fn signed_value(negative: bool, magnitude: Seq<u8>) -> int {
    if negative {
        -(be_value(magnitude) as int)
    } else {
        be_value(magnitude) as int
    }
}

/// A magnitude without leading zero bytes, and no negative zero.
pub open spec fn is_canonical(negative: bool, magnitude: Seq<u8>) -> bool {
    &&& (magnitude.len() == 0 || magnitude[0] != 0)
    &&& (magnitude.len() == 0 ==> !negative)
}

/// A magnitude of `n` bytes is below `256^n`.
pub proof fn lemma_be_value_upper_bound(bytes: Seq<u8>)
    ensures
        be_value(bytes) < pow(256, bytes.len()),
    decreases bytes.len(),
{
    reveal(pow);
    if bytes.len() > 0 {
        let d = bytes.drop_last();
        lemma_be_value_upper_bound(d);
        let x = be_value(d) as int;
        let p = pow(256, d.len());
        assert(x * 256 + 255 < p * 256) by (nonlinear_arith)
            requires
                x < p,
        ;
    }
}

/// A magnitude of `n` bytes whose first byte is not zero is at least `256^(n-1)`.
pub proof fn lemma_be_value_lower_bound(bytes: Seq<u8>)
    requires
        bytes.len() > 0,
        bytes[0] != 0,
    ensures
        be_value(bytes) >= pow(256, (bytes.len() - 1) as nat),
    decreases bytes.len(),
{
    reveal(pow);
    if bytes.len() > 1 {
        let d = bytes.drop_last();
        lemma_be_value_lower_bound(d);
        let x = be_value(d) as int;
        let p = pow(256, (d.len() - 1) as nat);
        assert(x * 256 >= p * 256) by (nonlinear_arith)
            requires
                x >= p,
        ;
    } else {
        assert(bytes.drop_last().len() == 0);
    }
}

/// A magnitude without leading zero bytes has at most `n` bytes exactly when
/// its value is below `256^n`.
pub proof fn lemma_fits_iff(bytes: Seq<u8>, n: nat)
    requires
        bytes.len() == 0 || bytes[0] != 0,
    ensures
        bytes.len() <= n <==> be_value(bytes) < pow(256, n),
{
    lemma_be_value_upper_bound(bytes);
    if bytes.len() <= n {
        vstd::arithmetic::power::lemma_pow_increases(256, bytes.len(), n);
    } else {
        lemma_be_value_lower_bound(bytes);
        vstd::arithmetic::power::lemma_pow_increases(256, n, (bytes.len() - 1) as nat);
    }
}

/// The last byte is the value modulo 256, the others give the quotient.
pub proof fn lemma_be_value_digits(bytes: Seq<u8>)
    requires
        bytes.len() > 0,
    ensures
        be_value(bytes) / 256 == be_value(bytes.drop_last()),
        be_value(bytes) % 256 == bytes.last() as nat,
{
    vstd::arithmetic::div_mod::lemma_fundamental_div_mod_converse(
        be_value(bytes) as int,
        256,
        be_value(bytes.drop_last()) as int,
        bytes.last() as int,
    );
}

/// Two magnitudes of one length are equal when their values are.
pub proof fn lemma_be_value_injective_same_len(a: Seq<u8>, b: Seq<u8>)
    requires
        a.len() == b.len(),
        be_value(a) == be_value(b),
    ensures
        a == b,
    decreases a.len(),
{
    if a.len() > 0 {
        lemma_be_value_digits(a);
        lemma_be_value_digits(b);
        lemma_be_value_injective_same_len(a.drop_last(), b.drop_last());
        assert(a =~= a.drop_last().push(a.last()));
        assert(b =~= b.drop_last().push(b.last()));
    } else {
        assert(a =~= b);
    }
}

/// Two magnitudes without leading zero bytes are equal when their values are.
pub proof fn lemma_be_value_injective(a: Seq<u8>, b: Seq<u8>)
    requires
        a.len() == 0 || a[0] != 0,
        b.len() == 0 || b[0] != 0,
        be_value(a) == be_value(b),
    ensures
        a == b,
{
    lemma_fits_iff(a, b.len());
    lemma_fits_iff(b, a.len());
    lemma_be_value_upper_bound(a);
    lemma_be_value_upper_bound(b);
    lemma_be_value_injective_same_len(a, b);
}

/// `k` zero bytes.
pub open spec fn zeros(k: nat) -> Seq<u8> {
    Seq::new(k, |i: int| 0u8)
}

/// Leading zero bytes do not change the value.
pub proof fn lemma_be_value_zero_prefix(k: nat, bytes: Seq<u8>)
    ensures
        be_value(zeros(k) + bytes) == be_value(bytes),
    decreases bytes.len(), k,
{
    if bytes.len() > 0 {
        assert((zeros(k) + bytes).drop_last() =~= zeros(k) + bytes.drop_last());
        lemma_be_value_zero_prefix(k, bytes.drop_last());
    } else if k > 0 {
        assert((zeros(k) + bytes).drop_last() =~= zeros((k - 1) as nat) + bytes);
        lemma_be_value_zero_prefix((k - 1) as nat, bytes);
    } else {
        assert(zeros(k) + bytes =~= bytes);
    }
}

/// The `n`-byte big-endian encoding of `v` (the low `n` bytes of `v`).
pub open spec fn be_encode(v: nat, n: nat) -> Seq<u8>
    decreases n,
{
    if n == 0 {
        Seq::empty()
    } else {
        be_encode(v / 256, (n - 1) as nat).push((v % 256) as u8)
    }
}

/// Encoding the value of `bytes` with as many bytes gives `bytes` back.
pub proof fn lemma_be_encode_value(bytes: Seq<u8>)
    ensures
        be_encode(be_value(bytes), bytes.len()) == bytes,
    decreases bytes.len(),
{
    if bytes.len() > 0 {
        lemma_be_value_digits(bytes);
        lemma_be_encode_value(bytes.drop_last());
        assert(bytes =~= bytes.drop_last().push(bytes.last()));
    } else {
        assert(bytes =~= Seq::<u8>::empty());
    }
}

/// The shortest big-endian byte sequence of `v`: one zero byte for zero.
pub open spec fn be_bytes_min(v: nat) -> Seq<u8>
    decreases v,
{
    if v < 256 {
        seq![v as u8]
    } else {
        be_bytes_min(v / 256).push((v % 256) as u8)
    }
}

/// The shortest encoding of `v` denotes `v`, has at least one byte, and starts
/// with a non-zero byte unless `v` is zero (then it is a single zero byte).
pub proof fn lemma_be_bytes_min(v: nat)
    ensures
        be_value(be_bytes_min(v)) == v,
        be_bytes_min(v).len() >= 1,
        v != 0 ==> be_bytes_min(v)[0] != 0,
        v == 0 ==> be_bytes_min(v) == seq![0u8],
    decreases v,
{
    let s = be_bytes_min(v);
    if v < 256 {
        assert(s.drop_last() =~= Seq::<u8>::empty());
        assert(be_value(s.drop_last()) == 0);
    } else {
        lemma_be_bytes_min(v / 256);
        assert(s.drop_last() =~= be_bytes_min(v / 256));
        assert(s.last() == (v % 256) as u8);
        assert(((v % 256) as u8) as nat == v % 256);
        assert(be_value(s) == be_value(s.drop_last()) * 256 + s.last() as nat);
        assert(v == (v / 256) * 256 + v % 256);
    }
}

/// `v` fits in `n >= 1` bytes exactly when its shortest encoding does, and then
/// padding that encoding with zeros on the left gives the `n`-byte encoding.
pub proof fn lemma_be_bytes_min_pad(v: nat, n: nat)
    requires
        n >= 1,
    ensures
        be_bytes_min(v).len() <= n <==> v < pow(256, n),
        v < pow(256, n) ==> zeros((n - be_bytes_min(v).len()) as nat) + be_bytes_min(v) == be_encode(v, n),
{
    lemma_be_bytes_min(v);
    let s = be_bytes_min(v);
    if v == 0 {
        vstd::arithmetic::power::lemma_pow_positive(256, n);
    } else {
        lemma_fits_iff(s, n);
    }
    if v < pow(256, n) {
        let p = zeros((n - s.len()) as nat) + s;
        lemma_be_value_zero_prefix((n - s.len()) as nat, s);
        lemma_be_encode_value(p);
    }
}

/// A non-empty magnitude without leading zero bytes has a positive value.
pub proof fn lemma_magnitude_positive(bytes: Seq<u8>)
    requires
        bytes.len() == 0 || bytes[0] != 0,
    ensures
        bytes.len() > 0 <==> be_value(bytes) > 0,
{
    if bytes.len() > 0 {
        lemma_be_value_lower_bound(bytes);
        vstd::arithmetic::power::lemma_pow_positive(256, (bytes.len() - 1) as nat);
    }
}

/// An arbitrary-precision integer: a sign and a big-endian magnitude without
/// leading zero bytes (zero is the empty magnitude and is not negative).
#[derive(Debug, PartialEq, Eq)]
pub struct Integer {
    negative: bool,
    magnitude: Vec<u8>,
}

impl Integer {
    #[verifier::type_invariant]
    spec fn well_formed(self) -> bool {
        is_canonical(self.negative, self.magnitude@)
    }
}

impl View for Integer {
    type V = int;

    closed spec fn view(&self) -> int {
        signed_value(self.negative, self.magnitude@)
    }
}


/// The absolute value of `v`.
pub open spec fn abs(v: int) -> nat {
    if v < 0 {
        (-v) as nat
    } else {
        v as nat
    }
}

/// Builds `num_bigint::BigInt::from(x)` (`From<i64>`) and reads it back with
/// `BigInt::to_bytes_be`: the sign (true for `Sign::Minus`) and the big-endian
/// magnitude. Claimed: these denote `x`.
#[verifier::external_body]
fn bigint_from_i64(x: i64) -> (r: (bool, Vec<u8>))
    ensures
        signed_value(r.0, r.1@) == x,
{
    let (sign, bytes) = BigInt::from(x).to_bytes_be();
    match sign {
        Sign::Minus => (true, bytes),
        Sign::NoSign => (false, bytes),
        Sign::Plus => (false, bytes),
    }
}

/// Subtracts one with `num_bigint`'s `Sub<i32>` for `BigInt` on the integer
/// built by `BigInt::from_bytes_be`, and reads the difference back with
/// `BigInt::to_bytes_be`. Claimed: the result denotes the argument minus one.
#[verifier::external_body]
fn bigint_sub_one(negative: bool, magnitude: &[u8]) -> (r: (bool, Vec<u8>))
    ensures
        signed_value(r.0, r.1@) == signed_value(negative, magnitude@) - 1,
{
    let sign = match negative {
        true => Sign::Minus,
        false => Sign::Plus,
    };
    let (sign, bytes) = (BigInt::from_bytes_be(sign, magnitude) - 1i32).to_bytes_be();
    match sign {
        Sign::Minus => (true, bytes),
        Sign::NoSign => (false, bytes),
        Sign::Plus => (false, bytes),
    }
}

/// `num_traits::ToPrimitive::to_u64` on the integer built by
/// `BigInt::from_bytes_be`. Claimed: `Some` of the value exactly when it lies in
/// `0..=u64::MAX`, else `None`.
#[verifier::external_body]
fn bigint_to_u64(negative: bool, magnitude: &[u8]) -> (r: Option<u64>)
    ensures
        r == (if 0 <= signed_value(negative, magnitude@) <= u64::MAX {
            Some(signed_value(negative, magnitude@) as u64)
        } else {
            None::<u64>
        }),
{
    let sign = match negative {
        true => Sign::Minus,
        false => Sign::Plus,
    };
    BigInt::from_bytes_be(sign, magnitude).to_u64()
}

/// `num_bigint`'s `>` (`PartialOrd` for `BigInt`) on the integers built by
/// `BigInt::from_bytes_be`. Claimed: true exactly when the first is greater.
#[verifier::external_body]
fn bigint_gt(a_negative: bool, a_magnitude: &[u8], b_negative: bool, b_magnitude: &[u8]) -> (r:
    bool)
    ensures
        r == (signed_value(a_negative, a_magnitude@) > signed_value(b_negative, b_magnitude@)),
{
    let a_sign = match a_negative {
        true => Sign::Minus,
        false => Sign::Plus,
    };
    let b_sign = match b_negative {
        true => Sign::Minus,
        false => Sign::Plus,
    };
    BigInt::from_bytes_be(a_sign, a_magnitude) > BigInt::from_bytes_be(b_sign, b_magnitude)
}

impl Integer {
    /// Whether this integer is greater than `other`.
    pub fn is_greater_than(&self, other: &Integer) -> (r: bool)
        ensures
            r == (self@ > other@),
    {
        bigint_gt(
            self.negative,
            self.magnitude.as_slice(),
            other.negative,
            other.magnitude.as_slice(),
        )
    }

    /// The integer with the given sign and big-endian magnitude (leading zero
    /// bytes are dropped, and a zero magnitude gives zero whatever the sign).
    pub fn from_sign_magnitude(negative: bool, magnitude: &[u8]) -> (r: Integer)
        ensures
            r@ == signed_value(negative, magnitude@),
    {
        let n = magnitude.len();
        let mut k: usize = 0;
        while k < n && magnitude[k] == 0
            invariant
                n == magnitude@.len(),
                k <= n,
                forall|i: int| 0 <= i < k ==> magnitude@[i] == 0,
            decreases n - k,
        {
            k += 1;
        }
        let mut m: Vec<u8> = Vec::new();
        let mut j = k;
        while j < n
            invariant
                n == magnitude@.len(),
                k <= j <= n,
                k == n || magnitude@[k as int] != 0,
                m@ == magnitude@.subrange(k as int, j as int),
            decreases n - j,
        {
            m.push(magnitude[j]);
            j += 1;
            assert(m@ =~= magnitude@.subrange(k as int, j as int));
        }
        proof {
            assert(magnitude@ =~= zeros(k as nat) + m@);
            lemma_be_value_zero_prefix(k as nat, m@);
        }
        let neg = negative && m.len() > 0;
        Integer { negative: neg, magnitude: m }
    }

    /// The non-negative integer whose big-endian bytes are `bytes`.
    pub fn from_bytes_be(bytes: &[u8]) -> (r: Integer)
        ensures
            r@ == be_value(bytes@),
    {
        Self::from_sign_magnitude(false, bytes)
    }

    /// The integer `x`.
    pub fn from_i64(x: i64) -> (r: Integer)
        ensures
            r@ == x,
    {
        let (negative, magnitude) = bigint_from_i64(x);
        Self::from_sign_magnitude(negative, magnitude.as_slice())
    }

    /// Whether the integer is negative, and its shortest big-endian magnitude
    /// (a single zero byte for zero).
    pub fn to_bytes_be(&self) -> (r: (bool, Vec<u8>))
        ensures
            r.0 == (self@ < 0),
            r.1@ == be_bytes_min(abs(self@)),
    {
        proof {
            use_type_invariant(self);
            lemma_be_bytes_min(abs(self@));
        }
        if self.magnitude.len() == 0 {
            let mut v: Vec<u8> = Vec::new();
            v.push(0u8);
            proof {
                assert(v@ =~= seq![0u8]);
            }
            (false, v)
        } else {
            let m = self.magnitude.clone();
            proof {
                assert(m@ =~= self.magnitude@);
                lemma_magnitude_positive(self.magnitude@);
                lemma_be_value_injective(be_bytes_min(abs(self@)), m@);
            }
            (self.negative, m)
        }
    }

    /// Whether the integer is greater than zero.
    pub fn is_positive(&self) -> (r: bool)
        ensures
            r == (self@ > 0),
    {
        proof {
            use_type_invariant(self);
            lemma_magnitude_positive(self.magnitude@);
        }
        !self.negative && self.magnitude.len() > 0
    }

    /// Whether the integer is less than zero.
    pub fn is_negative(&self) -> (r: bool)
        ensures
            r == (self@ < 0),
    {
        proof {
            use_type_invariant(self);
            lemma_magnitude_positive(self.magnitude@);
        }
        self.negative
    }

    /// Whether `0 <= self < 256^n`, that is, whether the integer is written
    /// with `n` big-endian bytes.
    pub fn fits_in_bytes(&self, n: usize) -> (r: bool)
        ensures
            r == (0 <= self@ < pow(256, n as nat)),
    {
        proof {
            use_type_invariant(self);
            lemma_fits_iff(self.magnitude@, n as nat);
            lemma_magnitude_positive(self.magnitude@);
        }
        !self.negative && self.magnitude.len() <= n
    }

    /// The integer minus one.
    pub fn sub_one(&self) -> (r: Integer)
        ensures
            r@ == self@ - 1,
    {
        let (negative, magnitude) = bigint_sub_one(self.negative, self.magnitude.as_slice());
        Self::from_sign_magnitude(negative, magnitude.as_slice())
    }

    /// The integer as a `u64`, when it lies in `0..=u64::MAX`.
    pub fn to_u64(&self) -> (r: Option<u64>)
        ensures
            r == (if 0 <= self@ <= u64::MAX {
                Some(self@ as u64)
            } else {
                None::<u64>
            }),
    {
        bigint_to_u64(self.negative, self.magnitude.as_slice())
    }

    /// Whether two integers are equal.
    pub fn equals(&self, other: &Integer) -> (r: bool)
        ensures
            r == (self@ == other@),
    {
        proof {
            use_type_invariant(self);
            use_type_invariant(other);
            lemma_magnitude_positive(self.magnitude@);
            lemma_magnitude_positive(other.magnitude@);
            if self@ == other@ {
                lemma_be_value_injective(self.magnitude@, other.magnitude@);
                assert(self.magnitude@ == other.magnitude@);
                assert(self.negative == other.negative);
                assert(self.magnitude@.len() == other.magnitude@.len());
            }
        }
        if self.negative != other.negative || self.magnitude.len() != other.magnitude.len() {
            return false;
        }
        let n = self.magnitude.len();
        let mut i: usize = 0;
        while i < n
            invariant
                n == self.magnitude@.len(),
                n == other.magnitude@.len(),
                i <= n,
                forall|j: int| 0 <= j < i ==> self.magnitude@[j] == other.magnitude@[j],
                self@ == other@ ==> self.magnitude@ == other.magnitude@,
            decreases n - i,
        {
            if self.magnitude[i] != other.magnitude[i] {
                return false;
            }
            i += 1;
        }
        proof {
            assert(self.magnitude@ =~= other.magnitude@);
        }
        true
    }
}

impl Clone for Integer {
    fn clone(&self) -> (r: Self)
        ensures
            r@ == self@,
    {
        proof {
            use_type_invariant(self);
        }
        let m = self.magnitude.clone();
        proof {
            assert(m@ =~= self.magnitude@);
        }
        Integer { negative: self.negative, magnitude: m }
    }
}

} // verus!
