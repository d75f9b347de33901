//! Unsigned integers of any size, as cells hold them.
use crate::cell::integer::{
    bits_to_nat, bits_to_u64, lemma_bits_round_trip, lemma_bits_to_nat_bound, lemma_first_bit,
    nat_to_bits, u64_to_bits,
};
use vstd::arithmetic::power2::{lemma2_to64, lemma_pow2_strictly_increases, pow2};
use vstd::prelude::*;
use vstd::std_specs::cmp::PartialEqSpecImpl;
use vstd::std_specs::convert::FromSpecImpl;

verus! {

/// An unsigned integer of any size.
///
/// It is kept as its binary digits, most significant first and without
/// leading zeros, so that two values are equal exactly when their digits are.
#[derive(Debug, Eq)]
pub struct BigUint {
    bits: Vec<bool>,
}

impl View for BigUint {
    type V = nat;

    closed spec fn view(&self) -> nat {
        bits_to_nat(self.bits@)
    }
}

/// Zero bits in front of a run of bits do not change the number it spells.
pub proof fn lemma_leading_zeros(bits: Seq<bool>, zeros: int)
    requires
        0 <= zeros <= bits.len(),
        forall|i: int| 0 <= i < zeros ==> !bits[i],
    ensures
        bits_to_nat(bits.skip(zeros)) == bits_to_nat(bits),
    decreases bits.len(),
{
    if zeros == bits.len() {
        assert(bits.skip(zeros).len() == 0);
        if bits.len() > 0 {
            lemma_leading_zeros(bits.drop_last(), zeros - 1);
            assert(bits.drop_last().skip(zeros - 1).len() == 0);
        }
    } else {
        lemma_leading_zeros(bits.drop_last(), zeros);
        assert(bits.skip(zeros).drop_last() =~= bits.drop_last().skip(zeros));
    }
}

impl BigUint {
    #[verifier::type_invariant]
    spec fn canonical(&self) -> bool {
        self.bits@.len() == 0 || self.bits@[0]
    }

    /// The number that `bits` spell, most significant bit first.
    pub fn from_bits(bits: &Vec<bool>) -> (r: BigUint)
        ensures
            r@ == bits_to_nat(bits@),
    {
        let mut zeros: usize = 0;
        while zeros < bits.len() && !bits[zeros]
            invariant
                zeros <= bits@.len(),
                forall|i: int| 0 <= i < zeros ==> !bits@[i],
            decreases bits@.len() - zeros,
        {
            zeros = zeros + 1;
        }
        let mut digits: Vec<bool> = Vec::new();
        let mut i: usize = zeros;
        while i < bits.len()
            invariant
                zeros <= i <= bits@.len(),
                digits@ == bits@.subrange(zeros as int, i as int),
            decreases bits@.len() - i,
        {
            digits.push(bits[i]);
            assert(digits@ =~= bits@.subrange(zeros as int, i + 1));
            i = i + 1;
        }
        proof {
            assert(digits@ =~= bits@.skip(zeros as int));
            lemma_leading_zeros(bits@, zeros as int);
        }
        BigUint { bits: digits }
    }

    /// `value` as an integer of any size.
    pub fn from_u64(value: u64) -> (r: BigUint)
        ensures
            r@ == value,
    {
        proof {
            lemma2_to64();
            crate::cell::integer::lemma_nat_round_trip(value as nat, 64);
        }
        match u64_to_bits(value, 64) {
            Some(bits) => BigUint::from_bits(&bits),
            None => BigUint { bits: Vec::new() },
        }
    }

    /// The value as a `u64`, or `None` where it is too large for one.
    pub fn to_u64(&self) -> (r: Option<u64>)
        ensures
            r is Some <==> self@ <= u64::MAX,
            r matches Some(value) ==> value == self@,
    {
        proof {
            use_type_invariant(self);
            lemma2_to64();
            lemma_bits_to_nat_bound(self.bits@);
            if self.bits@.len() > 64 {
                lemma_first_bit(self.bits@);
                if self.bits@.len() > 65 {
                    lemma_pow2_strictly_increases(64, (self.bits@.len() - 1) as nat);
                }
            } else if self.bits@.len() < 64 {
                lemma_pow2_strictly_increases(self.bits@.len(), 64);
            }
        }
        if self.bits.len() > 64 {
            None
        } else {
            Some(bits_to_u64(&self.bits))
        }
    }

    /// The number of binary digits of the value; zero has none.
    pub fn bit_len(&self) -> (n: usize)
        ensures
            self@ < pow2(n as nat),
            n > 0 ==> self@ >= pow2((n - 1) as nat),
    {
        proof {
            use_type_invariant(self);
            lemma_bits_to_nat_bound(self.bits@);
            if self.bits@.len() > 0 {
                lemma_first_bit(self.bits@);
            }
        }
        self.bits.len()
    }

    /// The `n` lowest binary digits of the value, most significant first, or
    /// `None` where the value has more than `n` digits.
    pub fn to_bits(&self, n: usize) -> (r: Option<Vec<bool>>)
        ensures
            r is Some <==> self@ < pow2(n as nat),
            r matches Some(bits) ==> bits@ == nat_to_bits(self@, n as nat),
    {
        proof {
            use_type_invariant(self);
            lemma_bits_to_nat_bound(self.bits@);
            if self.bits@.len() > 0 {
                lemma_first_bit(self.bits@);
            }
            if self.bits@.len() > n + 1 {
                lemma_pow2_strictly_increases(n as nat, (self.bits@.len() - 1) as nat);
            }
            if self.bits@.len() < n {
                lemma_pow2_strictly_increases(self.bits@.len(), n as nat);
            }
        }
        if self.bits.len() > n {
            return None;
        }
        let zeros: usize = n - self.bits.len();
        let mut bits: Vec<bool> = Vec::new();
        while bits.len() < zeros
            invariant
                bits@.len() <= zeros,
                forall|i: int| 0 <= i < bits@.len() ==> !bits@[i],
            decreases zeros - bits@.len(),
        {
            bits.push(false);
        }
        let mut i: usize = 0;
        while i < self.bits.len()
            invariant
                i <= self.bits@.len(),
                zeros + self.bits@.len() == n,
                bits@.len() == zeros + i,
                forall|k: int| 0 <= k < zeros ==> !bits@[k],
                bits@.skip(zeros as int) == self.bits@.subrange(0, i as int),
            decreases self.bits@.len() - i,
        {
            bits.push(self.bits[i]);
            assert(bits@.skip(zeros as int) =~= self.bits@.subrange(0, i + 1));
            i = i + 1;
        }
        proof {
            assert(bits@.skip(zeros as int) =~= self.bits@);
            lemma_leading_zeros(bits@, zeros as int);
            lemma_bits_round_trip(bits@);
        }
        Some(bits)
    }
}

/// Two runs of binary digits without leading zeros that spell the same
/// number are the same run.
pub proof fn lemma_same_digits(a: Seq<bool>, b: Seq<bool>)
    requires
        a.len() == 0 || a[0],
        b.len() == 0 || b[0],
        bits_to_nat(a) == bits_to_nat(b),
    ensures
        a == b,
{
    lemma_bits_to_nat_bound(a);
    lemma_bits_to_nat_bound(b);
    if a.len() > 0 {
        lemma_first_bit(a);
    }
    if b.len() > 0 {
        lemma_first_bit(b);
    }
    if a.len() < b.len() {
        if a.len() + 1 < b.len() {
            lemma_pow2_strictly_increases(a.len(), (b.len() - 1) as nat);
        }
        assert(false);
    }
    if b.len() < a.len() {
        if b.len() + 1 < a.len() {
            lemma_pow2_strictly_increases(b.len(), (a.len() - 1) as nat);
        }
        assert(false);
    }
    lemma_bits_round_trip(a);
    lemma_bits_round_trip(b);
}

impl PartialEq for BigUint {
    /// Two values are equal exactly when they are the same number.
    fn eq(&self, other: &BigUint) -> (r: bool) {
        proof {
            use_type_invariant(self);
            use_type_invariant(other);
            if self@ == other@ {
                lemma_same_digits(self.bits@, other.bits@);
            }
        }
        if self.bits.len() != other.bits.len() {
            return false;
        }
        let mut i: usize = 0;
        while i < self.bits.len()
            invariant
                i <= self.bits@.len() == other.bits@.len(),
                self@ == other@ ==> self.bits@ == other.bits@,
                forall|n: int| 0 <= n < i ==> self.bits@[n] == other.bits@[n],
            decreases self.bits@.len() - i,
        {
            if self.bits[i] != other.bits[i] {
                return false;
            }
            i = i + 1;
        }
        assert(self.bits@ =~= other.bits@);
        true
    }
}

impl PartialEqSpecImpl for BigUint {
    open spec fn obeys_eq_spec() -> bool {
        true
    }

    open spec fn eq_spec(&self, other: &BigUint) -> bool {
        self@ == other@
    }
}

impl Clone for BigUint {
    fn clone(&self) -> (r: Self)
        ensures
            r@ == self@,
    {
        proof {
            use_type_invariant(self);
        }
        BigUint { bits: self.bits.clone() }
    }
}

impl From<u32> for BigUint {
    fn from(value: u32) -> (r: BigUint)
        ensures
            r@ == value,
    {
        BigUint::from_u64(value as u64)
    }
}

impl FromSpecImpl<u32> for BigUint {
    /// The value that comes back is stated by `from` itself, over its view.
    open spec fn obeys_from_spec() -> bool {
        false
    }

    open spec fn from_spec(value: u32) -> BigUint {
        arbitrary()
    }
}

impl FromSpecImpl<u64> for BigUint {
    /// The value that comes back is stated by `from` itself, over its view.
    open spec fn obeys_from_spec() -> bool {
        false
    }

    open spec fn from_spec(value: u64) -> BigUint {
        arbitrary()
    }
}

impl From<u64> for BigUint {
    fn from(value: u64) -> (r: BigUint)
        ensures
            r@ == value,
    {
        BigUint::from_u64(value)
    }
}

} // verus!
