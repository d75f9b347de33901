//! Signed integers of any size, as cells hold them.
use crate::cell::integer::{
    bits_to_i64, bits_to_int, bits_to_nat, fits_signed, i64_to_bits, int_to_bits,
    lemma_bits_round_trip, lemma_bits_to_int_bound, lemma_bits_to_nat_bound, lemma_first_bit,
    lemma_int_round_trip,
};
use vstd::arithmetic::power2::{lemma2_to64, lemma_pow2_strictly_increases, lemma_pow2_unfold, pow2};
use vstd::prelude::*;
use vstd::std_specs::cmp::PartialEqSpecImpl;

verus! {

/// A signed integer of any size.
///
/// It is kept in two's complement, most significant bit first, in the
/// fewest bits that tell it: at least one, and no leading bit that only
/// repeats the one behind it.
#[derive(Debug, Eq)]
pub struct BigInt {
    bits: Vec<bool>,
}

impl View for BigInt {
    type V = int;

    closed spec fn view(&self) -> int {
        bits_to_int(self.bits@)
    }
}

/// Whether `bits` are the fewest that tell their number in two's complement.
pub open spec fn shortest(bits: Seq<bool>) -> bool {
    bits.len() >= 1 && (bits.len() >= 2 ==> bits[0] != bits[1])
}

/// The number that bits spell is what their first bit weighs plus the
/// number that the bits behind it spell.
pub proof fn lemma_leading_bit(bits: Seq<bool>)
    requires
        bits.len() > 0,
    ensures
        bits_to_nat(bits) == bits_to_nat(bits.skip(1)) + if bits[0] {
            pow2((bits.len() - 1) as nat)
        } else {
            0nat
        },
    decreases bits.len(),
{
    lemma2_to64();
    let shorter = bits.drop_last();
    let rest = bits.skip(1);
    assert(bits_to_nat(bits) == 2 * bits_to_nat(shorter) + if bits.last() {
        1nat
    } else {
        0nat
    });
    if bits.len() == 1 {
        assert(shorter.len() == 0);
        assert(rest.len() == 0);
        assert(bits_to_nat(shorter) == 0);
        assert(bits_to_nat(rest) == 0);
        assert(bits.last() == bits[0]);
    } else {
        lemma_leading_bit(shorter);
        assert(shorter.skip(1) =~= rest.drop_last());
        assert(rest.last() == bits.last());
        assert(shorter[0] == bits[0]);
        assert(bits_to_nat(rest) == 2 * bits_to_nat(rest.drop_last()) + if rest.last() {
            1nat
        } else {
            0nat
        });
        lemma_pow2_unfold((bits.len() - 1) as nat);
    }
}

/// A leading bit that repeats the bit behind it does not change the number
/// in two's complement.
pub proof fn lemma_repeated_sign(bits: Seq<bool>)
    requires
        bits.len() >= 2,
        bits[0] == bits[1],
    ensures
        bits_to_int(bits.skip(1)) == bits_to_int(bits),
{
    lemma_leading_bit(bits);
    lemma_pow2_unfold(bits.len());
    assert(bits.skip(1)[0] == bits[1]);
}

/// Leading bits that all repeat the bit behind them do not change the
/// number in two's complement.
pub proof fn lemma_sign_extension(bits: Seq<bool>, k: int)
    requires
        0 <= k < bits.len(),
        forall|i: int| 0 <= i < k ==> bits[i] == bits[k],
    ensures
        bits_to_int(bits.skip(k)) == bits_to_int(bits),
    decreases k,
{
    if k > 0 {
        let rest = bits.skip(1);
        assert(rest.skip(k - 1) =~= bits.skip(k));
        lemma_sign_extension(rest, k - 1);
        lemma_repeated_sign(bits);
    } else {
        assert(bits.skip(0) =~= bits);
    }
}

/// What fits in fewer bits fits in more.
pub proof fn lemma_fits_more(value: int, fewer: nat, more: nat)
    requires
        fits_signed(value, fewer),
        fewer <= more,
    ensures
        fits_signed(value, more),
{
    if fewer < more {
        lemma_pow2_strictly_increases((fewer - 1) as nat, (more - 1) as nat);
    }
}

/// The fewest bits that tell a number are too many for any number that
/// fewer bits tell.
pub proof fn lemma_shortest_is_needed(bits: Seq<bool>, n: nat)
    requires
        shortest(bits),
        n < bits.len(),
    ensures
        !fits_signed(bits_to_int(bits), n),
{
    let m = bits.len();
    if n >= 1 {
        let rest = bits.skip(1);
        lemma_leading_bit(bits);
        lemma_first_bit(rest);
        lemma_bits_to_nat_bound(rest);
        lemma_pow2_unfold(m);
        lemma_pow2_unfold((m - 1) as nat);
        assert(rest[0] == bits[1]);
        assert(!fits_signed(bits_to_int(bits), (m - 1) as nat));
        if fits_signed(bits_to_int(bits), n) {
            lemma_fits_more(bits_to_int(bits), n, (m - 1) as nat);
        }
    }
}

impl BigInt {
    #[verifier::type_invariant]
    spec fn canonical(&self) -> bool {
        shortest(self.bits@)
    }

    /// The number that `bits` spell in two's complement, most significant
    /// bit first; zero where there are no bits.
    pub fn from_bits(bits: &Vec<bool>) -> (r: BigInt)
        ensures
            r@ == bits_to_int(bits@),
    {
        if bits.len() == 0 {
            let mut zero: Vec<bool> = Vec::new();
            zero.push(false);
            proof {
                reveal_with_fuel(bits_to_nat, 2);
                assert(zero@.drop_last().len() == 0);
            }
            return BigInt { bits: zero };
        }
        let len: usize = bits.len();
        let mut skipped: usize = 0;
        while len - skipped > 1 && bits[skipped] == bits[skipped + 1]
            invariant
                skipped < bits@.len() == len,
                forall|i: int| 0 <= i < skipped ==> bits@[i] == bits@[skipped as int],
            decreases bits@.len() - skipped,
        {
            skipped = skipped + 1;
        }
        let mut digits: Vec<bool> = Vec::new();
        let mut i: usize = skipped;
        while i < bits.len()
            invariant
                skipped <= i <= bits@.len(),
                digits@ == bits@.subrange(skipped as int, i as int),
            decreases bits@.len() - i,
        {
            digits.push(bits[i]);
            assert(digits@ =~= bits@.subrange(skipped as int, i + 1));
            i = i + 1;
        }
        proof {
            assert(digits@ =~= bits@.skip(skipped as int));
            lemma_sign_extension(bits@, skipped as int);
        }
        BigInt { bits: digits }
    }

    /// `value` as an integer of any size.
    pub fn from_i64(value: i64) -> (r: BigInt)
        ensures
            r@ == value,
    {
        proof {
            lemma2_to64();
            vstd::arithmetic::power2::lemma2_to64_rest();
            lemma_int_round_trip(value as int, 64);
        }
        match i64_to_bits(value, 64) {
            Some(bits) => BigInt::from_bits(&bits),
            None => BigInt::from_bits(&Vec::new()),
        }
    }

    /// The `n` bits of the value in two's complement, most significant
    /// first, or `None` where `n` bits cannot tell it.
    pub fn to_bits(&self, n: usize) -> (r: Option<Vec<bool>>)
        ensures
            r is Some <==> fits_signed(self@, n as nat),
            r matches Some(bits) ==> bits@ == int_to_bits(self@, n as nat),
    {
        proof {
            use_type_invariant(self);
        }
        if self.bits.len() > n {
            proof {
                lemma_shortest_is_needed(self.bits@, n as nat);
            }
            return None;
        }
        let sign: bool = self.bits[0];
        let more: usize = n - self.bits.len();
        let mut bits: Vec<bool> = Vec::new();
        while bits.len() < more
            invariant
                bits@.len() <= more,
                forall|i: int| 0 <= i < bits@.len() ==> bits@[i] == sign,
            decreases more - bits@.len(),
        {
            bits.push(sign);
        }
        let mut i: usize = 0;
        while i < self.bits.len()
            invariant
                i <= self.bits@.len(),
                more + self.bits@.len() == n,
                bits@.len() == more + i,
                forall|k: int| 0 <= k < more ==> bits@[k] == sign,
                bits@.skip(more as int) == self.bits@.subrange(0, i as int),
            decreases self.bits@.len() - i,
        {
            bits.push(self.bits[i]);
            assert(bits@.skip(more as int) =~= self.bits@.subrange(0, i + 1));
            i = i + 1;
        }
        proof {
            let wide = bits@;
            assert(wide.skip(more as int) =~= self.bits@);
            assert(wide[more as int] == self.bits@[0]);
            lemma_sign_extension(wide, more as int);
            lemma_bits_to_int_bound(wide);
            lemma_bits_round_trip(wide);
            lemma_bits_to_nat_bound(wide);
        }
        Some(bits)
    }

    /// The value as an `i64`, or `None` where it is too large or too small for one.
    pub fn to_i64(&self) -> (r: Option<i64>)
        ensures
            r is Some <==> i64::MIN <= self@ <= i64::MAX,
            r matches Some(value) ==> value == self@,
    {
        proof {
            lemma2_to64();
            vstd::arithmetic::power2::lemma2_to64_rest();
        }
        match self.to_bits(64) {
            Some(bits) => {
                proof {
                    crate::cell::integer::lemma_nat_to_bits_len(self@ as nat, 64);
                    crate::cell::integer::lemma_nat_to_bits_len((self@ + pow2(64)) as nat, 64);
                    lemma_int_round_trip(self@, 64);
                }
                Some(bits_to_i64(&bits))
            },
            None => None,
        }
    }
}

/// Two shortest runs of bits that spell the same number in two's
/// complement are the same run.
pub proof fn lemma_same_bits(a: Seq<bool>, b: Seq<bool>)
    requires
        shortest(a),
        shortest(b),
        bits_to_int(a) == bits_to_int(b),
    ensures
        a == b,
{
    lemma_bits_to_int_bound(a);
    lemma_bits_to_int_bound(b);
    if a.len() < b.len() {
        lemma_shortest_is_needed(b, a.len());
    }
    if b.len() < a.len() {
        lemma_shortest_is_needed(a, b.len());
    }
    lemma_bits_to_nat_bound(a);
    lemma_bits_to_nat_bound(b);
    lemma_bits_round_trip(a);
    lemma_bits_round_trip(b);
}

impl PartialEq for BigInt {
    /// Two values are equal exactly when they are the same number.
    fn eq(&self, other: &BigInt) -> (r: bool) {
        proof {
            use_type_invariant(self);
            use_type_invariant(other);
            if self@ == other@ {
                lemma_same_bits(self.bits@, other.bits@);
            }
        }
        if self.bits.len() != other.bits.len() {
            return false;
        }
        let mut i: usize = 0;
        while i < self.bits.len()
            invariant
                i <= self.bits@.len() == other.bits@.len(),
                self@ == other@ ==> self.bits@ == other.bits@,
                forall|n: int| 0 <= n < i ==> self.bits@[n] == other.bits@[n],
            decreases self.bits@.len() - i,
        {
            if self.bits[i] != other.bits[i] {
                return false;
            }
            i = i + 1;
        }
        assert(self.bits@ =~= other.bits@);
        true
    }
}

impl PartialEqSpecImpl for BigInt {
    open spec fn obeys_eq_spec() -> bool {
        true
    }

    open spec fn eq_spec(&self, other: &BigInt) -> bool {
        self@ == other@
    }
}

impl Clone for BigInt {
    fn clone(&self) -> (r: Self)
        ensures
            r@ == self@,
    {
        proof {
            use_type_invariant(self);
        }
        BigInt { bits: self.bits.clone() }
    }
}

} // verus!
