//! Integers as runs of bits, most significant bit first.
use vstd::arithmetic::div_mod::{lemma_basic_div, lemma_div_denominator, lemma_small_div_converse};
use vstd::arithmetic::power2::{lemma2_to64, lemma2_to64_rest, lemma_pow2_pos, lemma_pow2_strictly_increases, lemma_pow2_unfold, pow2};
use vstd::prelude::*;

verus! {

/// The number that `bits` spell in base two.
pub open spec fn bits_to_nat(bits: Seq<bool>) -> nat
    decreases bits.len(),
{
    if bits.len() == 0 {
        0
    } else {
        2 * bits_to_nat(bits.drop_last()) + if bits.last() {
            1nat
        } else {
            0nat
        }
    }
}

/// The `n` lowest binary digits of `value`.
pub open spec fn nat_to_bits(value: nat, n: nat) -> Seq<bool>
    decreases n,
{
    if n == 0 {
        Seq::empty()
    } else {
        nat_to_bits(value / 2, (n - 1) as nat).push(value % 2 == 1)
    }
}

/// The number that `bits` spell in two's complement.
pub open spec fn bits_to_int(bits: Seq<bool>) -> int {
    if bits.len() > 0 && bits[0] {
        bits_to_nat(bits) - pow2(bits.len())
    } else {
        bits_to_nat(bits) as int
    }
}

/// Whether `value` can be told from `n` bits in two's complement.
pub open spec fn fits_signed(value: int, n: nat) -> bool {
    n >= 1 && -pow2((n - 1) as nat) <= value < pow2((n - 1) as nat)
}

/// `value` in two's complement of `n` bits.
pub open spec fn int_to_bits(value: int, n: nat) -> Seq<bool> {
    if value >= 0 {
        nat_to_bits(value as nat, n)
    } else {
        nat_to_bits((value + pow2(n)) as nat, n)
    }
}

/// `n` bits spell a number below the `n`-th power of two.
pub proof fn lemma_bits_to_nat_bound(bits: Seq<bool>)
    ensures
        bits_to_nat(bits) < pow2(bits.len()),
    decreases bits.len(),
{
    if bits.len() == 0 {
        lemma2_to64();
    } else {
        lemma_bits_to_nat_bound(bits.drop_last());
        lemma_pow2_unfold(bits.len());
    }
}

/// `nat_to_bits` gives as many bits as it was asked for.
pub proof fn lemma_nat_to_bits_len(value: nat, n: nat)
    ensures
        nat_to_bits(value, n).len() == n,
    decreases n,
{
    if n > 0 {
        lemma_nat_to_bits_len(value / 2, (n - 1) as nat);
    }
}

/// A number that `n` bits can tell is read back from its `n` bits.
pub proof fn lemma_nat_round_trip(value: nat, n: nat)
    requires
        value < pow2(n),
    ensures
        bits_to_nat(nat_to_bits(value, n)) == value,
    decreases n,
{
    if n == 0 {
        lemma2_to64();
    } else {
        lemma_pow2_unfold(n);
        lemma_nat_round_trip(value / 2, (n - 1) as nat);
        let shorter = nat_to_bits(value / 2, (n - 1) as nat);
        assert(nat_to_bits(value, n).drop_last() =~= shorter);
    }
}

/// Bits are written back as they were read.
pub proof fn lemma_bits_round_trip(bits: Seq<bool>)
    ensures
        nat_to_bits(bits_to_nat(bits), bits.len()) == bits,
    decreases bits.len(),
{
    if bits.len() > 0 {
        lemma_bits_round_trip(bits.drop_last());
        assert(bits.drop_last().push(bits.last()) =~= bits);
    } else {
        assert(nat_to_bits(bits_to_nat(bits), bits.len()) =~= bits);
    }
}

/// The first of `n` bits is set exactly when the number they spell reaches
/// the `n - 1`-th power of two.
pub proof fn lemma_first_bit(bits: Seq<bool>)
    requires
        bits.len() > 0,
    ensures
        bits[0] <==> bits_to_nat(bits) >= pow2((bits.len() - 1) as nat),
    decreases bits.len(),
{
    lemma2_to64();
    if bits.len() == 1 {
        assert(bits.drop_last().len() == 0);
        assert(bits_to_nat(bits.drop_last()) == 0);
    } else {
        lemma_first_bit(bits.drop_last());
        lemma_pow2_unfold((bits.len() - 1) as nat);
    }
}

/// What one or more bits spell in two's complement can be told from as many bits.
pub proof fn lemma_bits_to_int_bound(bits: Seq<bool>)
    requires
        bits.len() > 0,
    ensures
        fits_signed(bits_to_int(bits), bits.len()),
{
    lemma_first_bit(bits);
    lemma_bits_to_nat_bound(bits);
    lemma_pow2_unfold(bits.len());
}

/// A number that `n` bits can tell in two's complement is read back from its `n` bits.
pub proof fn lemma_int_round_trip(value: int, n: nat)
    requires
        fits_signed(value, n),
    ensures
        bits_to_int(int_to_bits(value, n)) == value,
{
    lemma_pow2_unfold(n);
    lemma_pow2_pos((n - 1) as nat);
    let encoded = if value >= 0 {
        value as nat
    } else {
        (value + pow2(n)) as nat
    };
    lemma_nat_round_trip(encoded, n);
    lemma_nat_to_bits_len(encoded, n);
    lemma_first_bit(nat_to_bits(encoded, n));
}

/// The `n`-th power of two.
fn power_of_two(n: usize) -> (p: u128)
    requires
        n <= 64,
    ensures
        p == pow2(n as nat),
{
    let mut p: u128 = 1;
    let mut i: usize = 0;
    proof {
        lemma2_to64();
    }
    while i < n
        invariant
            i <= n <= 64,
            p == pow2(i as nat),
            p <= 0x1_0000_0000_0000_0000,
        decreases n - i,
    {
        proof {
            lemma_pow2_unfold((i + 1) as nat);
            lemma2_to64();
            if i + 1 < 64 {
                lemma_pow2_strictly_increases((i + 1) as nat, 64);
            }
        }
        p = p * 2;
        i = i + 1;
    }
    p
}

/// Reads `bits` as an unsigned number.
pub(crate) fn bits_to_u64(bits: &Vec<bool>) -> (value: u64)
    requires
        bits@.len() <= 64,
    ensures
        value == bits_to_nat(bits@),
{
    let mut value: u64 = 0;
    let mut i: usize = 0;
    while i < bits.len()
        invariant
            i <= bits@.len() <= 64,
            value == bits_to_nat(bits@.subrange(0, i as int)),
        decreases bits@.len() - i,
    {
        proof {
            let longer = bits@.subrange(0, i + 1);
            assert(longer.drop_last() =~= bits@.subrange(0, i as int));
            lemma_bits_to_nat_bound(longer);
            lemma2_to64();
            if i + 1 < 64 {
                lemma_pow2_strictly_increases((i + 1) as nat, 64);
            }
        }
        value = 2 * value + (if bits[i] { 1 } else { 0 });
        i = i + 1;
    }
    assert(bits@.subrange(0, i as int) =~= bits@);
    value
}

/// Spells `value` in `n` bits, where `n` bits can tell it.
pub fn u64_to_bits(value: u64, n: usize) -> (r: Option<Vec<bool>>)
    ensures
        r is Some <==> n <= 64 && value < pow2(n as nat),
        r matches Some(bits) ==> bits@ == nat_to_bits(value as nat, n as nat),
{
    if n > 64 {
        return None;
    }
    let mut bits: Vec<bool> = Vec::new();
    let mut rest: u64 = value;
    let mut i: usize = 0;
    proof {
        lemma2_to64();
        assert(nat_to_bits(value as nat, n as nat) =~= nat_to_bits(rest as nat, (n - i) as nat) + bits@);
    }
    while i < n
        invariant
            i <= n <= 64,
            rest == value as int / pow2(i as nat) as int,
            nat_to_bits(value as nat, n as nat) == nat_to_bits(rest as nat, (n - i) as nat) + bits@,
        decreases n - i,
    {
        let ghost before = bits@;
        proof {
            lemma_pow2_pos(i as nat);
            lemma_pow2_unfold((i + 1) as nat);
            lemma_div_denominator(value as int, pow2(i as nat) as int, 2);
            let shorter = nat_to_bits(rest as nat / 2, (n - i - 1) as nat);
            assert(nat_to_bits(rest as nat, (n - i) as nat) == shorter.push(rest % 2 == 1));
            assert(shorter.push(rest % 2 == 1) + before =~= shorter + (seq![rest % 2 == 1] + before));
        }
        bits.insert(0, rest % 2 == 1);
        assert(bits@ =~= seq![rest % 2 == 1] + before);
        rest = rest / 2;
        i = i + 1;
    }
    proof {
        lemma_pow2_pos(n as nat);
        if rest == 0 {
            lemma_small_div_converse(value as int, pow2(n as nat) as int);
        } else {
            if value < pow2(n as nat) {
                lemma_basic_div(value as int, pow2(n as nat) as int);
            }
        }
        assert(nat_to_bits(rest as nat, 0) + bits@ =~= bits@);
    }
    if rest == 0 {
        Some(bits)
    } else {
        None
    }
}

/// Reads `bits` as a number in two's complement.
pub(crate) fn bits_to_i64(bits: &Vec<bool>) -> (value: i64)
    requires
        1 <= bits@.len() <= 64,
    ensures
        value == bits_to_int(bits@),
{
    let magnitude: u64 = bits_to_u64(bits);
    proof {
        lemma_first_bit(bits@);
        lemma_bits_to_nat_bound(bits@);
        lemma_pow2_unfold(bits@.len());
        lemma2_to64();
        if bits@.len() < 64 {
            lemma_pow2_strictly_increases(bits@.len(), 64);
        }
    }
    if bits[0] {
        let modulus: u128 = power_of_two(bits.len());
        (magnitude as i128 - modulus as i128) as i64
    } else {
        magnitude as i64
    }
}

/// Spells `value` in two's complement of `n` bits, where `n` bits can tell it.
pub fn i64_to_bits(value: i64, n: usize) -> (r: Option<Vec<bool>>)
    ensures
        r is Some <==> n <= 64 && fits_signed(value as int, n as nat),
        r matches Some(bits) ==> bits@ == int_to_bits(value as int, n as nat),
{
    if n == 0 || n > 64 {
        return None;
    }
    let half: u128 = power_of_two(n - 1);
    proof {
        lemma_pow2_unfold(n as nat);
        lemma2_to64();
        lemma2_to64_rest();
        if n - 1 < 63 {
            lemma_pow2_strictly_increases((n - 1) as nat, 63);
        }
    }
    let wide: i128 = value as i128;
    if wide < -(half as i128) || wide >= half as i128 {
        return None;
    }
    let encoded: u64 = if value >= 0 {
        value as u64
    } else {
        (wide + 2 * (half as i128)) as u64
    };
    u64_to_bits(encoded, n)
}

} // verus!
