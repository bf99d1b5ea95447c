//! The range check on a transfer amount: the amount and both balances after
//! the transfer must decompose into 64 bits, so that no balance wraps.

use vstd::prelude::*;
use crate::merkle::pow2;

verus! {

/// Number of bits in a balance.
pub const BALANCE_BITS: usize = 64;

/// The largest amount that neither empties the sender below zero nor lifts
/// the receiver above the largest 64-bit balance.
pub open spec fn max_delta_spec(sender_balance: u64, receiver_balance: u64) -> int {
    if sender_balance <= u64::MAX - receiver_balance {
        sender_balance as int
    } else {
        u64::MAX - receiver_balance
    }
}

/// The range constraints on a transfer of `delta`: the amount and both
/// balances after the transfer lie in the 64-bit range.
pub open spec fn range_holds(delta: int, sender_balance: int, receiver_balance: int) -> bool {
    &&& 0 <= delta < pow2(64)
    &&& 0 <= sender_balance - delta < pow2(64)
    &&& 0 <= receiver_balance + delta < pow2(64)
}

pub proof fn lemma_pow2_64()
    ensures
        pow2(64) == 0x1_0000_0000_0000_0000,
{
    reveal_with_fuel(pow2, 65);
}

/// The integer that a sequence of bits encodes, least significant bit first.
pub open spec fn bits_value(bits: Seq<bool>) -> int
    decreases bits.len(),
{
    if bits.len() == 0 {
        0
    } else {
        (if bits[0] {
            1int
        } else {
            0int
        }) + 2 * bits_value(bits.drop_first())
    }
}

proof fn lemma_bits_push(bits: Seq<bool>, b: bool)
    ensures
        bits_value(bits.push(b)) == bits_value(bits) + (if b {
            1int
        } else {
            0int
        }) * pow2(bits.len()),
    decreases bits.len(),
{
    if bits.len() > 0 {
        assert(bits.push(b).drop_first() =~= bits.drop_first().push(b));
        lemma_bits_push(bits.drop_first(), b);
        assert(bits.push(b)[0] == bits[0]);
        assert(pow2(bits.len()) == 2 * pow2((bits.len() - 1) as nat));
        if b {
            assert(bits_value(bits.push(b)) == bits_value(bits) + pow2(bits.len()));
        } else {
            assert(bits_value(bits.push(b)) == bits_value(bits));
        }
    } else {
        assert(bits.push(b).drop_first() =~= Seq::<bool>::empty());
        assert(bits_value(Seq::<bool>::empty()) == 0);
        assert(bits_value(bits) == 0);
        assert(pow2(0) == 1);
        assert(bits.push(b)[0] == b);
    }
}

/// The largest safe amount for a transfer between the two balances.
pub fn max_delta(sender_balance: u64, receiver_balance: u64) -> (r: u64)
    ensures
        r == max_delta_spec(sender_balance, receiver_balance),
{
    let room = u64::MAX - receiver_balance;
    if sender_balance <= room {
        sender_balance
    } else {
        room
    }
}

/// The lowest `n` bits of `v`, least significant first, and whether they
/// encode all of `v`.
pub fn decompose(v: u128, n: usize) -> (r: (Vec<bool>, bool))
    requires
        n <= 64,
    ensures
        r.0@.len() == n,
        r.1 == (v < pow2(n as nat)),
        bits_value(r.0@) == v as int % pow2(n as nat) as int,
        r.1 ==> bits_value(r.0@) == v,
{
    let mut bits: Vec<bool> = Vec::new();
    let mut rem: u128 = v;
    let mut scale: u128 = 1;
    let mut t: usize = 0;
    while t < n
        invariant
            t <= n,
            n <= 64,
            bits@.len() == t,
            scale == pow2(t as nat),
            v == rem * scale + bits_value(bits@),
            0 <= bits_value(bits@) < scale,
        decreases n - t,
    {
        proof {
            crate::merkle::lemma_pow2_mono(t as nat + 1, 64);
            lemma_pow2_64();
        }
        let b = rem % 2 == 1;
        proof {
            lemma_bits_push(bits@, b);
            let q = rem / 2;
            let d = rem % 2;
            assert(rem == 2 * q + d);
            assert(rem * scale == q * (2 * scale) + d * scale) by (nonlinear_arith)
                requires
                    rem == 2 * q + d,
            ;
        }
        bits.push(b);
        rem = rem / 2;
        scale = scale * 2;
        t = t + 1;
    }
    proof {
        vstd::arithmetic::div_mod::lemma_fundamental_div_mod_converse(
            v as int,
            scale as int,
            rem as int,
            bits_value(bits@),
        );
        if rem >= 1 {
            assert(rem * scale >= scale) by (nonlinear_arith)
                requires
                    rem >= 1,
                    scale >= 0,
            ;
        }
    }
    (bits, rem == 0)
}

/// The range check on a transfer: the amount, the sender's balance after
/// the debit and the receiver's balance after the credit each decompose into
/// 64 bits. Debit and credit are computed without bound, as in the field, so
/// a debit below zero or a credit past the largest balance shows up as a
/// value that needs more bits.
pub fn range_check(delta: u64, sender_balance: u64, receiver_balance: u64) -> (r: bool)
    ensures
        r == range_holds(delta as int, sender_balance as int, receiver_balance as int),
        r == (delta <= max_delta_spec(sender_balance, receiver_balance)),
{
    let debited: u128 = (sender_balance as u128).wrapping_sub(delta as u128);
    let credited: u128 = receiver_balance as u128 + delta as u128;
    let (_, delta_ok) = decompose(delta as u128, BALANCE_BITS);
    let (_, debit_ok) = decompose(debited, BALANCE_BITS);
    let (_, credit_ok) = decompose(credited, BALANCE_BITS);
    proof {
        lemma_pow2_64();
    }
    delta_ok && debit_ok && credit_ok
}

/// The largest safe amount satisfies the range constraints, and one more
/// violates them.
pub proof fn lemma_range_boundary(sender_balance: u64, receiver_balance: u64)
    ensures
        range_holds(
            max_delta_spec(sender_balance, receiver_balance),
            sender_balance as int,
            receiver_balance as int,
        ),
        !range_holds(
            max_delta_spec(sender_balance, receiver_balance) + 1,
            sender_balance as int,
            receiver_balance as int,
        ),
{
    lemma_pow2_64();
}

} // verus!
