//! The per-signature sub-trace: its hash columns and its bit columns. Each
//! row of a signature cycle is built from the previous one by an operation
//! that depends on the row's step alone: the hash columns run the sponge
//! over the message (rounds, then a chunk injection, and in the final cycle
//! a clearing of the rate), and the bit columns hold, on each step of the
//! double-and-add schedule, the bit of the response scalar and of the
//! challenge that the step reads, most significant first.
//!
//! The curve point columns (the two accumulators, their doubling and
//! addition, and the final affine normalization compared with the
//! commitment) are not part of this trace: the curve and its extension field
//! are not available here. The trace therefore records which steps and bits
//! a signature verification would use, and checks the hash; it does not by
//! itself show that a signature is valid.

use vstd::prelude::*;
use crate::hash::{apply_round, round_of, Digest, NUM_HASH_ROUNDS, RATE_START, RATE_WIDTH, STATE_WIDTH};

verus! {

/// Rows per hash cycle: the rounds, then one injection row.
pub const HASH_CYCLE_LENGTH: usize = 8;
/// Hash cycles per signature: one per message chunk, then a final one.
pub const NUM_HASH_ITER: usize = 3;
/// Rows of the hash phase.
pub const TOTAL_HASH_LENGTH: usize = 24;
/// Field elements in a transfer message: two keys, the amount, the nonce,
/// and zero padding up to whole chunks.
pub const MESSAGE_LENGTH: usize = 16;
/// Bits of a scalar used by the double-and-add schedule.
pub const SCALAR_BITS: usize = 255;
/// Bytes of an encoded scalar.
pub const SCALAR_BYTES: usize = 32;
/// Rows of double and add steps.
pub const SCALAR_MUL_LENGTH: usize = 510;
/// Rows of one signature cycle.
pub const SIG_CYCLE_LENGTH: usize = 512;
/// Columns of the sub-trace: the response bit, the challenge bit, and the
/// sponge state.
pub const TRACE_WIDTH: usize = 14;
/// Column of the response scalar's bit.
pub const S_BIT_COL: usize = 0;
/// Column of the challenge's bit.
pub const H_BIT_COL: usize = 1;
/// First column of the sponge state.
pub const HASH_COL: usize = 2;

/// A signature: the commitment point's x-coordinate, as a digest of field
/// elements, and the response scalar as little-endian bytes.
pub struct Signature {
    pub commitment: Digest,
    pub response: Vec<u8>,
}

/// What a row does to the sponge state.
#[derive(Clone, Copy, Debug, PartialEq, Eq, Structural)]
pub enum HashOp {
    /// One permutation round with this round index.
    Round(usize),
    /// Overwrite the rate with this message chunk.
    Inject(usize),
    /// Zero the rate.
    Clear,
    /// Keep the state.
    Hold,
}

/// What a row does in the double-and-add schedule.
#[derive(Clone, Copy, Debug, PartialEq, Eq, Structural)]
pub enum MulOp {
    /// A doubling step; the bit columns take the bits of this index.
    Double(usize),
    /// An addition step; the bit columns take the bits of this index.
    Add(usize),
    /// The step after the schedule; the response column is set to one.
    Finalize,
    /// No step; the bit columns are kept.
    Idle,
}

pub open spec fn hash_op_spec(step: int) -> HashOp {
    if step < TOTAL_HASH_LENGTH && step % (HASH_CYCLE_LENGTH as int) < NUM_HASH_ROUNDS {
        HashOp::Round((step % (HASH_CYCLE_LENGTH as int)) as usize)
    } else if step < (NUM_HASH_ITER - 1) * HASH_CYCLE_LENGTH {
        HashOp::Inject((step / (HASH_CYCLE_LENGTH as int)) as usize)
    } else if step < TOTAL_HASH_LENGTH {
        HashOp::Clear
    } else {
        HashOp::Hold
    }
}

pub open spec fn mul_op_spec(step: int) -> MulOp {
    if step < SCALAR_MUL_LENGTH {
        let bit = (SCALAR_BITS - 1 - step / 2) as usize;
        if step % 2 == 0 {
            MulOp::Double(bit)
        } else {
            MulOp::Add(bit)
        }
    } else if step == SCALAR_MUL_LENGTH {
        MulOp::Finalize
    } else {
        MulOp::Idle
    }
}

/// The sponge operation of row `step`.
pub fn hash_op(step: usize) -> (r: HashOp)
    ensures
        r == hash_op_spec(step as int),
{
    let phase = step % HASH_CYCLE_LENGTH;
    if step < TOTAL_HASH_LENGTH && phase < NUM_HASH_ROUNDS {
        HashOp::Round(phase)
    } else if step < (NUM_HASH_ITER - 1) * HASH_CYCLE_LENGTH {
        HashOp::Inject(step / HASH_CYCLE_LENGTH)
    } else if step < TOTAL_HASH_LENGTH {
        HashOp::Clear
    } else {
        HashOp::Hold
    }
}

/// The double-and-add operation of row `step`.
pub fn scalar_mul_op(step: usize) -> (r: MulOp)
    ensures
        r == mul_op_spec(step as int),
{
    if step < SCALAR_MUL_LENGTH {
        let bit = SCALAR_BITS - 1 - step / 2;
        if step % 2 == 0 {
            MulOp::Double(bit)
        } else {
            MulOp::Add(bit)
        }
    } else if step == SCALAR_MUL_LENGTH {
        MulOp::Finalize
    } else {
        MulOp::Idle
    }
}

/// Bit `k` of byte `b`, least significant first.
pub open spec fn byte_bit(b: u8, k: nat) -> bool
    decreases k,
{
    if k == 0 {
        b % 2 == 1
    } else {
        byte_bit(b / 2, (k - 1) as nat)
    }
}

/// Bit `i` of a little-endian byte string, least significant first.
pub open spec fn scalar_bit(bytes: Seq<u8>, i: int) -> bool {
    byte_bit(bytes[i / 8], (i % 8) as nat)
}

pub open spec fn bit_value(b: bool) -> u64 {
    if b {
        1
    } else {
        0
    }
}

/// Bit `i` of a little-endian byte string.
pub fn bit_at(bytes: &Vec<u8>, i: usize) -> (r: bool)
    requires
        i < 8 * bytes@.len(),
    ensures
        r == scalar_bit(bytes@, i as int),
{
    let mut b = bytes[i / 8];
    let k = i % 8;
    let mut j: usize = 0;
    while j < k
        invariant
            j <= k,
            k == i % 8,
            byte_bit(bytes@[i as int / 8], k as nat) == byte_bit(b, (k - j) as nat),
        decreases k - j,
    {
        b = b / 2;
        j = j + 1;
    }
    b % 2 == 1
}

/// The message signed for a transfer: the sender's key, the receiver's key,
/// the amount and the sender's nonce, padded with zeros.
pub open spec fn message_spec(s_key: Digest, r_key: Digest, amount: u64, nonce: u64) -> Seq<u64> {
    seq![s_key.e0, s_key.e1, s_key.e2, s_key.e3, r_key.e0, r_key.e1, r_key.e2, r_key.e3, amount, nonce]
        + Seq::new(6, |j: int| 0u64)
}

/// Lays out the message signed for a transfer.
pub fn build_tx_message(s_key: Digest, r_key: Digest, amount: u64, nonce: u64) -> (r: Vec<u64>)
    ensures
        r@ == message_spec(s_key, r_key, amount, nonce),
        r@.len() == MESSAGE_LENGTH,
{
    let mut m: Vec<u64> = vec![s_key.e0, s_key.e1, s_key.e2, s_key.e3, r_key.e0, r_key.e1, r_key.e2, r_key.e3, amount, nonce];
    let mut j: usize = 0;
    while j < 6
        invariant
            j <= 6,
            m@ == seq![s_key.e0, s_key.e1, s_key.e2, s_key.e3, r_key.e0, r_key.e1, r_key.e2, r_key.e3, amount, nonce]
                + Seq::new(j as nat, |t: int| 0u64),
        decreases 6 - j,
    {
        m.push(0);
        j = j + 1;
        assert(m@ =~= seq![s_key.e0, s_key.e1, s_key.e2, s_key.e3, r_key.e0, r_key.e1, r_key.e2, r_key.e3, amount, nonce]
            + Seq::new(j as nat, |t: int| 0u64));
    }
    m
}

/// The sponge state after row `step` acts on `hs`.
pub open spec fn hash_step(step: int, msg: Seq<u64>, hs: Seq<u64>) -> Seq<u64> {
    match hash_op_spec(step) {
        HashOp::Round(r) => round_of(hs, r as nat),
        HashOp::Inject(c) => Seq::new(
            hs.len(),
            |j: int|
                if RATE_START <= j {
                    msg[RATE_WIDTH * c + j - RATE_START]
                } else {
                    hs[j]
                },
        ),
        HashOp::Clear => Seq::new(
            hs.len(),
            |j: int|
                if RATE_START <= j {
                    0u64
                } else {
                    hs[j]
                },
        ),
        HashOp::Hold => hs,
    }
}

/// The sponge state at the start: the commitment in the capacity, the rate
/// zero.
pub open spec fn sponge_init(commitment: Digest) -> Seq<u64> {
    seq![commitment.e0, commitment.e1, commitment.e2, commitment.e3] + Seq::new(8, |j: int| 0u64)
}

/// The sponge state after the first `k` rows.
pub open spec fn sponge_state(commitment: Digest, msg: Seq<u64>, k: nat) -> Seq<u64>
    decreases k,
{
    if k == 0 {
        sponge_init(commitment)
    } else {
        hash_step(k - 1, msg, sponge_state(commitment, msg, (k - 1) as nat))
    }
}

/// The digest of a sponge state: its capacity elements, which the final
/// cycle's clearing of the rate leaves in place.
pub open spec fn state_digest(hs: Seq<u64>) -> Digest {
    Digest { e0: hs[0], e1: hs[1], e2: hs[2], e3: hs[3] }
}

/// The hash of a message under a commitment.
pub open spec fn message_hash(commitment: Digest, msg: Seq<u64>) -> Digest {
    state_digest(sponge_state(commitment, msg, TOTAL_HASH_LENGTH as nat))
}

/// Applies the sponge operation of row `step`.
pub fn apply_hash_step(step: usize, msg: &Vec<u64>, hs: &mut Vec<u64>)
    requires
        old(hs)@.len() == STATE_WIDTH,
        msg@.len() == MESSAGE_LENGTH,
    ensures
        final(hs)@ == hash_step(step as int, msg@, old(hs)@),
        final(hs)@.len() == STATE_WIDTH,
{
    match hash_op(step) {
        HashOp::Round(r) => {
            apply_round(hs, r);
        },
        HashOp::Inject(c) => {
            let mut j: usize = 0;
            while j < RATE_WIDTH
                invariant
                    j <= RATE_WIDTH,
                    c < NUM_HASH_ITER - 1,
                    msg@.len() == MESSAGE_LENGTH,
                    hs@.len() == STATE_WIDTH,
                    forall|t: int| 0 <= t < RATE_START + j ==> #[trigger] hs@[t] == (if RATE_START <= t {
                        msg@[RATE_WIDTH * c + t - RATE_START]
                    } else {
                        old(hs)@[t]
                    }),
                    forall|t: int| RATE_START + j <= t < STATE_WIDTH ==> #[trigger] hs@[t] == old(hs)@[t],
                decreases RATE_WIDTH - j,
            {
                hs.set(RATE_START + j, msg[RATE_WIDTH * c + j]);
                j = j + 1;
            }
            assert(hs@ =~= hash_step(step as int, msg@, old(hs)@));
        },
        HashOp::Clear => {
            let mut j: usize = 0;
            while j < RATE_WIDTH
                invariant
                    j <= RATE_WIDTH,
                    hs@.len() == STATE_WIDTH,
                    forall|t: int| 0 <= t < RATE_START + j ==> #[trigger] hs@[t] == (if RATE_START <= t {
                        0u64
                    } else {
                        old(hs)@[t]
                    }),
                    forall|t: int| RATE_START + j <= t < STATE_WIDTH ==> #[trigger] hs@[t] == old(hs)@[t],
                decreases RATE_WIDTH - j,
            {
                hs.set(RATE_START + j, 0);
                j = j + 1;
            }
            assert(hs@ =~= hash_step(step as int, msg@, old(hs)@));
        },
        HashOp::Hold => {},
    }
}

/// Byte `j` of `x` in little-endian order.
pub open spec fn le_byte(x: int, j: nat) -> u8
    decreases j,
{
    if j == 0 {
        (x % 256) as u8
    } else {
        le_byte(x / 256, (j - 1) as nat)
    }
}

/// The bytes whose bits drive the challenge side of the double-and-add
/// schedule: the first element of the message hash in little-endian order,
/// then zeros. Only that element is used, to keep the challenge within one
/// field element.
pub open spec fn challenge_bytes(h: Digest) -> Seq<u8> {
    Seq::new(SCALAR_BYTES as nat, |j: int| if j < 8 { le_byte(h.e0 as int, j as nat) } else { 0u8 })
}

/// Runs the hash phase of a signature cycle on its own.
pub fn hash_message(commitment: Digest, message: &Vec<u64>) -> (r: Digest)
    requires
        message@.len() == MESSAGE_LENGTH,
    ensures
        r == message_hash(commitment, message@),
{
    let mut hs: Vec<u64> = vec![commitment.e0, commitment.e1, commitment.e2, commitment.e3, 0, 0, 0, 0, 0, 0, 0, 0];
    assert(hs@ =~= sponge_init(commitment));
    let mut step: usize = 0;
    while step < TOTAL_HASH_LENGTH
        invariant
            step <= TOTAL_HASH_LENGTH,
            message@.len() == MESSAGE_LENGTH,
            hs@.len() == STATE_WIDTH,
            hs@ == sponge_state(commitment, message@, step as nat),
        decreases TOTAL_HASH_LENGTH - step,
    {
        apply_hash_step(step, message, &mut hs);
        step = step + 1;
    }
    Digest { e0: hs[0], e1: hs[1], e2: hs[2], e3: hs[3] }
}

/// The response bytes and the challenge bytes of a signature over a message.
pub fn build_sig_info(message: &Vec<u64>, signature: &Signature) -> (r: (Vec<u8>, Vec<u8>))
    requires
        message@.len() == MESSAGE_LENGTH,
    ensures
        r.0@ == signature.response@,
        r.1@ == challenge_bytes(message_hash(signature.commitment, message@)),
{
    let mut s_bytes: Vec<u8> = Vec::new();
    let mut i: usize = 0;
    while i < signature.response.len()
        invariant
            i <= signature.response@.len(),
            s_bytes@ == signature.response@.take(i as int),
        decreases signature.response@.len() - i,
    {
        s_bytes.push(signature.response[i]);
        i = i + 1;
        assert(s_bytes@ =~= signature.response@.take(i as int));
    }
    assert(s_bytes@ =~= signature.response@);
    let h = hash_message(signature.commitment, message);
    let ghost want = challenge_bytes(h);
    let mut h_bytes: Vec<u8> = Vec::new();
    let mut v: u64 = h.e0;
    let mut j: usize = 0;
    while j < SCALAR_BYTES
        invariant
            j <= SCALAR_BYTES,
            want == challenge_bytes(h),
            h_bytes@ == want.take(j as int),
            j <= 8 ==> forall|t: nat| #[trigger] le_byte(v as int, t) == le_byte(h.e0 as int, (t + j) as nat),
        decreases SCALAR_BYTES - j,
    {
        if j < 8 {
            assert(le_byte(v as int, 0) == le_byte(h.e0 as int, j as nat));
            h_bytes.push((v % 256) as u8);
            proof {
                assert forall|t: nat| #[trigger] le_byte(v as int / 256, t) == le_byte(h.e0 as int, (t + j + 1) as nat) by {
                    assert(le_byte(v as int, (t + 1) as nat) == le_byte(v as int / 256, t));
                }
            }
            v = v / 256;
        } else {
            h_bytes.push(0);
        }
        j = j + 1;
        assert(h_bytes@ =~= want.take(j as int));
    }
    assert(h_bytes@ =~= want);
    (s_bytes, h_bytes)
}

/// The first row of a signature cycle: both bit columns zero, the sponge at
/// its start.
pub open spec fn init_row(commitment: Digest) -> Seq<u64> {
    seq![0u64, 0u64] + sponge_init(commitment)
}

/// The row after row `step`: the sponge operation of the step on the hash
/// columns, and in the bit columns the bits of the index that the step's
/// double or add names (after the schedule the response column is set to
/// one and the challenge column kept; afterwards both are kept).
pub open spec fn next_row(step: int, msg: Seq<u64>, s_bytes: Seq<u8>, h_bytes: Seq<u8>, row: Seq<u64>) -> Seq<u64> {
    let hs = hash_step(step, msg, row.subrange(HASH_COL as int, row.len() as int));
    let bits = match mul_op_spec(step) {
        MulOp::Double(b) => seq![bit_value(scalar_bit(s_bytes, b as int)), bit_value(scalar_bit(h_bytes, b as int))],
        MulOp::Add(b) => seq![bit_value(scalar_bit(s_bytes, b as int)), bit_value(scalar_bit(h_bytes, b as int))],
        MulOp::Finalize => seq![1u64, row[H_BIT_COL as int]],
        MulOp::Idle => seq![row[S_BIT_COL as int], row[H_BIT_COL as int]],
    };
    bits + hs
}

/// Row `k` of the cycle of a signature whose commitment is `commitment`.
pub open spec fn sig_row(commitment: Digest, msg: Seq<u64>, s_bytes: Seq<u8>, h_bytes: Seq<u8>, k: nat) -> Seq<u64>
    decreases k,
{
    if k == 0 {
        init_row(commitment)
    } else {
        next_row(k - 1, msg, s_bytes, h_bytes, sig_row(commitment, msg, s_bytes, h_bytes, (k - 1) as nat))
    }
}

/// Writes the first row of a signature cycle.
pub fn init_sig_verification_state(commitment: Digest, state: &mut Vec<u64>)
    requires
        old(state)@.len() == TRACE_WIDTH,
    ensures
        final(state)@ == init_row(commitment),
{
    let mut j: usize = 0;
    while j < TRACE_WIDTH
        invariant
            j <= TRACE_WIDTH,
            state@.len() == TRACE_WIDTH,
            forall|t: int| 0 <= t < j ==> #[trigger] state@[t] == 0,
        decreases TRACE_WIDTH - j,
    {
        state.set(j, 0);
        j = j + 1;
    }
    state.set(HASH_COL, commitment.e0);
    state.set(HASH_COL + 1, commitment.e1);
    state.set(HASH_COL + 2, commitment.e2);
    state.set(HASH_COL + 3, commitment.e3);
    assert(state@ =~= init_row(commitment));
}

/// Builds the row after row `step` in place.
pub fn update_sig_verification_state(
    step: usize,
    message: &Vec<u64>,
    s_bytes: &Vec<u8>,
    h_bytes: &Vec<u8>,
    state: &mut Vec<u64>,
)
    requires
        old(state)@.len() == TRACE_WIDTH,
        message@.len() == MESSAGE_LENGTH,
        s_bytes@.len() == SCALAR_BYTES,
        h_bytes@.len() == SCALAR_BYTES,
    ensures
        final(state)@ == next_row(step as int, message@, s_bytes@, h_bytes@, old(state)@),
        final(state)@.len() == TRACE_WIDTH,
{
    let mut hs: Vec<u64> = Vec::new();
    let mut j: usize = HASH_COL;
    while j < TRACE_WIDTH
        invariant
            HASH_COL <= j <= TRACE_WIDTH,
            state@.len() == TRACE_WIDTH,
            hs@ == state@.subrange(HASH_COL as int, j as int),
        decreases TRACE_WIDTH - j,
    {
        hs.push(state[j]);
        j = j + 1;
        assert(hs@ =~= state@.subrange(HASH_COL as int, j as int));
    }
    assert(hs@ =~= old(state)@.subrange(HASH_COL as int, old(state)@.len() as int));
    apply_hash_step(step, message, &mut hs);
    let (c0, c1) = match scalar_mul_op(step) {
        MulOp::Double(b) => (if bit_at(s_bytes, b) { 1u64 } else { 0u64 }, if bit_at(h_bytes, b) { 1u64 } else { 0u64 }),
        MulOp::Add(b) => (if bit_at(s_bytes, b) { 1u64 } else { 0u64 }, if bit_at(h_bytes, b) { 1u64 } else { 0u64 }),
        MulOp::Finalize => (1u64, state[H_BIT_COL]),
        MulOp::Idle => (state[S_BIT_COL], state[H_BIT_COL]),
    };
    let ghost want = next_row(step as int, message@, s_bytes@, h_bytes@, old(state)@);
    assert(want.len() == TRACE_WIDTH);
    assert(want[0] == c0 && want[1] == c1);
    assert(forall|t: int| 0 <= t < STATE_WIDTH ==> want[HASH_COL + t] == hs@[t]);
    state.set(S_BIT_COL, c0);
    state.set(H_BIT_COL, c1);
    let mut j: usize = 0;
    while j < STATE_WIDTH
        invariant
            j <= STATE_WIDTH,
            hs@.len() == STATE_WIDTH,
            state@.len() == TRACE_WIDTH,
            state@[0] == c0,
            state@[1] == c1,
            forall|t: int| 0 <= t < j ==> #[trigger] state@[HASH_COL + t] == hs@[t],
        decreases STATE_WIDTH - j,
    {
        state.set(HASH_COL + j, hs[j]);
        j = j + 1;
    }
    assert(state@ =~= want);
}

/// Row `k` of the cycle of a signature over `msg`, with the challenge bits
/// taken from the message hash.
pub open spec fn cycle_row(msg: Seq<u64>, sig: Signature, k: nat) -> Seq<u64> {
    sig_row(
        sig.commitment,
        msg,
        sig.response@,
        challenge_bytes(message_hash(sig.commitment, msg)),
        k,
    )
}

proof fn lemma_sponge_holds(commitment: Digest, msg: Seq<u64>, k: nat)
    requires
        k >= TOTAL_HASH_LENGTH,
    ensures
        sponge_state(commitment, msg, k) == sponge_state(commitment, msg, TOTAL_HASH_LENGTH as nat),
    decreases k,
{
    if k > TOTAL_HASH_LENGTH {
        lemma_sponge_holds(commitment, msg, (k - 1) as nat);
    }
}

proof fn lemma_row_hash_columns(commitment: Digest, msg: Seq<u64>, s_bytes: Seq<u8>, h_bytes: Seq<u8>, k: nat)
    ensures
        sig_row(commitment, msg, s_bytes, h_bytes, k).len() >= HASH_COL,
        sig_row(commitment, msg, s_bytes, h_bytes, k).subrange(
            HASH_COL as int,
            sig_row(commitment, msg, s_bytes, h_bytes, k).len() as int,
        ) == sponge_state(commitment, msg, k),
    decreases k,
{
    let row = sig_row(commitment, msg, s_bytes, h_bytes, k);
    if k == 0 {
        assert(row.subrange(HASH_COL as int, row.len() as int) =~= sponge_init(commitment));
    } else {
        lemma_row_hash_columns(commitment, msg, s_bytes, h_bytes, (k - 1) as nat);
        assert(row.subrange(HASH_COL as int, row.len() as int) =~= sponge_state(commitment, msg, k));
    }
}

/// Along a signature cycle the hash columns of each row hold the sponge
/// state after the rows before it, and from the end of the hash phase on
/// they hold the message hash whose first element gave the challenge bits.
pub proof fn lemma_cycle_hash_columns(msg: Seq<u64>, sig: Signature, k: nat)
    ensures
        cycle_row(msg, sig, k).subrange(HASH_COL as int, cycle_row(msg, sig, k).len() as int)
            == sponge_state(sig.commitment, msg, k),
        k >= TOTAL_HASH_LENGTH ==> state_digest(
            cycle_row(msg, sig, k).subrange(HASH_COL as int, cycle_row(msg, sig, k).len() as int),
        ) == message_hash(sig.commitment, msg),
{
    lemma_row_hash_columns(
        sig.commitment,
        msg,
        sig.response@,
        challenge_bytes(message_hash(sig.commitment, msg)),
        k,
    );
    if k >= TOTAL_HASH_LENGTH {
        lemma_sponge_holds(sig.commitment, msg, k);
    }
}

/// The row after the double step for bit `b` carries bit `b` of the
/// response in the response column and bit `b` of the challenge bytes in the
/// challenge column; the double steps run from the most significant bit
/// down, one every two rows.
pub proof fn lemma_cycle_bit_columns(msg: Seq<u64>, sig: Signature, b: int)
    requires
        0 <= b < SCALAR_BITS,
    ensures
        ({
            let row = cycle_row(msg, sig, (2 * (SCALAR_BITS - 1 - b) + 1) as nat);
            &&& row[S_BIT_COL as int] == bit_value(scalar_bit(sig.response@, b))
            &&& row[H_BIT_COL as int] == bit_value(
                scalar_bit(challenge_bytes(message_hash(sig.commitment, msg)), b),
            )
        }),
{
    let step = 2 * (SCALAR_BITS - 1 - b);
    assert(mul_op_spec(step) == MulOp::Double(b as usize));
}

fn copy_row(v: &Vec<u64>) -> (r: Vec<u64>)
    ensures
        r@ == v@,
{
    let mut r: Vec<u64> = Vec::new();
    let mut i: usize = 0;
    while i < v.len()
        invariant
            i <= v@.len(),
            r@ == v@.take(i as int),
        decreases v@.len() - i,
    {
        r.push(v[i]);
        i = i + 1;
        assert(r@ =~= v@.take(i as int));
    }
    assert(r@ =~= v@);
    r
}

/// The trace of a batch of signatures: one cycle of rows per signature, in
/// order.
pub fn build_trace(messages: &Vec<Vec<u64>>, signatures: &Vec<Signature>) -> (r: Vec<Vec<u64>>)
    requires
        messages@.len() == signatures@.len(),
        messages@.len() * SIG_CYCLE_LENGTH <= usize::MAX,
        forall|i: int| 0 <= i < messages@.len() ==> (#[trigger] messages@[i])@.len() == MESSAGE_LENGTH,
        forall|i: int| 0 <= i < signatures@.len() ==> (#[trigger] signatures@[i]).response@.len() == SCALAR_BYTES,
    ensures
        r@.len() == SIG_CYCLE_LENGTH * messages@.len(),
        forall|row: int| 0 <= row < r@.len() ==> (#[trigger] r@[row])@.len() == TRACE_WIDTH,
        forall|row: int|
            0 <= row < r@.len() ==> (#[trigger] r@[row])@ == cycle_row(
                messages@[row / SIG_CYCLE_LENGTH as int]@,
                signatures@[row / SIG_CYCLE_LENGTH as int],
                (row % SIG_CYCLE_LENGTH as int) as nat,
            ),
{
    let n = messages.len();
    let mut rows: Vec<Vec<u64>> = Vec::new();
    let mut i: usize = 0;
    while i < n
        invariant
            i <= n,
            n == messages@.len(),
            n == signatures@.len(),
            n * SIG_CYCLE_LENGTH <= usize::MAX,
            forall|i: int| 0 <= i < messages@.len() ==> (#[trigger] messages@[i])@.len() == MESSAGE_LENGTH,
            forall|i: int| 0 <= i < signatures@.len() ==> (#[trigger] signatures@[i]).response@.len() == SCALAR_BYTES,
            rows@.len() == SIG_CYCLE_LENGTH * i,
            forall|row: int| 0 <= row < rows@.len() ==> (#[trigger] rows@[row])@.len() == TRACE_WIDTH,
            forall|row: int|
                0 <= row < rows@.len() ==> (#[trigger] rows@[row])@ == cycle_row(
                    messages@[row / SIG_CYCLE_LENGTH as int]@,
                    signatures@[row / SIG_CYCLE_LENGTH as int],
                    (row % SIG_CYCLE_LENGTH as int) as nat,
                ),
        decreases n - i,
    {
        let message = &messages[i];
        let signature = &signatures[i];
        let (s_bytes, h_bytes) = build_sig_info(message, signature);
        let ghost msg = message@;
        let ghost sig = signatures@[i as int];
        let mut state: Vec<u64> = vec![0, 0, 0, 0, 0, 0, 0, 0, 0, 0, 0, 0, 0, 0];
        init_sig_verification_state(signature.commitment, &mut state);
        let base: usize = SIG_CYCLE_LENGTH * i;
        rows.push(copy_row(&state));
        let mut step: usize = 0;
        while step < SIG_CYCLE_LENGTH - 1
            invariant
                step < SIG_CYCLE_LENGTH,
                i < n,
                n == messages@.len(),
                n == signatures@.len(),
                n * SIG_CYCLE_LENGTH <= usize::MAX,
                base == SIG_CYCLE_LENGTH * i,
                message@ == msg,
                msg == messages@[i as int]@,
                sig == signatures@[i as int],
                msg.len() == MESSAGE_LENGTH,
                s_bytes@ == sig.response@,
                s_bytes@.len() == SCALAR_BYTES,
                h_bytes@ == challenge_bytes(message_hash(sig.commitment, msg)),
                state@.len() == TRACE_WIDTH,
                state@ == cycle_row(msg, sig, step as nat),
                rows@.len() == base + step + 1,
                forall|row: int| 0 <= row < rows@.len() ==> (#[trigger] rows@[row])@.len() == TRACE_WIDTH,
                forall|row: int|
                    0 <= row < rows@.len() ==> (#[trigger] rows@[row])@ == cycle_row(
                        messages@[row / SIG_CYCLE_LENGTH as int]@,
                        signatures@[row / SIG_CYCLE_LENGTH as int],
                        (row % SIG_CYCLE_LENGTH as int) as nat,
                    ),
            decreases SIG_CYCLE_LENGTH - step,
        {
            update_sig_verification_state(step, message, &s_bytes, &h_bytes, &mut state);
            step = step + 1;
            let ghost at = base + step;
            assert(at / SIG_CYCLE_LENGTH as int == i as int && at % SIG_CYCLE_LENGTH as int == step as int);
            rows.push(copy_row(&state));
        }
        i = i + 1;
    }
    rows
}

/// The constraints on row `t` of a trace: it has the trace's width; the
/// first row of a cycle is the starting row of its signature; every other
/// row is the row before it after the step that the row's position in the
/// cycle selects.
#[verifier::opaque]
pub open spec fn row_ok(trace: Seq<Vec<u64>>, messages: Seq<Vec<u64>>, sigs: Seq<Signature>, t: int) -> bool {
    let i = t / SIG_CYCLE_LENGTH as int;
    let k = t % SIG_CYCLE_LENGTH as int;
    let msg = messages[i]@;
    let sig = sigs[i];
    &&& trace[t]@.len() == TRACE_WIDTH
    &&& (k == 0 ==> trace[t]@ == init_row(sig.commitment))
    &&& (k > 0 ==> trace[t]@ == next_row(
        k - 1,
        msg,
        sig.response@,
        challenge_bytes(message_hash(sig.commitment, msg)),
        trace[t - 1]@,
    ))
}

/// The trace has one cycle per signature and every row meets its
/// constraints.
pub open spec fn trace_ok(trace: Seq<Vec<u64>>, messages: Seq<Vec<u64>>, sigs: Seq<Signature>) -> bool {
    &&& trace.len() == SIG_CYCLE_LENGTH * messages.len()
    &&& forall|t: int| 0 <= t < trace.len() ==> #[trigger] row_ok(trace, messages, sigs, t)
}

/// A trace whose rows are the cycle rows of its signatures, each of the
/// trace's width, meets every constraint.
pub proof fn lemma_cycle_rows_satisfy(trace: Seq<Vec<u64>>, messages: Seq<Vec<u64>>, sigs: Seq<Signature>)
    requires
        trace.len() == SIG_CYCLE_LENGTH * messages.len(),
        forall|t: int| 0 <= t < trace.len() ==> (#[trigger] trace[t])@.len() == TRACE_WIDTH,
        forall|t: int|
            0 <= t < trace.len() ==> (#[trigger] trace[t])@ == cycle_row(
                messages[t / SIG_CYCLE_LENGTH as int]@,
                sigs[t / SIG_CYCLE_LENGTH as int],
                (t % SIG_CYCLE_LENGTH as int) as nat,
            ),
    ensures
        trace_ok(trace, messages, sigs),
{
    assert forall|t: int| 0 <= t < trace.len() implies #[trigger] row_ok(trace, messages, sigs, t) by {
        reveal(row_ok);
        let k = t % SIG_CYCLE_LENGTH as int;
        assert(trace[t]@ == cycle_row(
            messages[t / SIG_CYCLE_LENGTH as int]@,
            sigs[t / SIG_CYCLE_LENGTH as int],
            k as nat,
        ));
        if k > 0 {
            assert((t - 1) / SIG_CYCLE_LENGTH as int == t / SIG_CYCLE_LENGTH as int);
            assert((t - 1) % SIG_CYCLE_LENGTH as int == k - 1);
            assert(trace[t - 1]@ == cycle_row(
                messages[t / SIG_CYCLE_LENGTH as int]@,
                sigs[t / SIG_CYCLE_LENGTH as int],
                (k - 1) as nat,
            ));
        }
    }
}

proof fn lemma_row_is_cycle_row(trace: Seq<Vec<u64>>, messages: Seq<Vec<u64>>, sigs: Seq<Signature>, t: int)
    requires
        trace_ok(trace, messages, sigs),
        0 <= t < trace.len(),
    ensures
        trace[t]@ == cycle_row(
            messages[t / SIG_CYCLE_LENGTH as int]@,
            sigs[t / SIG_CYCLE_LENGTH as int],
            (t % SIG_CYCLE_LENGTH as int) as nat,
        ),
    decreases t % SIG_CYCLE_LENGTH as int,
{
    assert(row_ok(trace, messages, sigs, t));
    reveal(row_ok);
    let k = t % SIG_CYCLE_LENGTH as int;
    if k > 0 {
        assert((t - 1) / SIG_CYCLE_LENGTH as int == t / SIG_CYCLE_LENGTH as int);
        assert((t - 1) % SIG_CYCLE_LENGTH as int == k - 1);
        lemma_row_is_cycle_row(trace, messages, sigs, t - 1);
    }
}

/// A trace that meets every constraint is the one built for its messages
/// and signatures: each row is the cycle row at its position.
pub proof fn lemma_satisfying_trace_is_built(trace: Seq<Vec<u64>>, messages: Seq<Vec<u64>>, sigs: Seq<Signature>)
    requires
        trace_ok(trace, messages, sigs),
    ensures
        forall|t: int|
            0 <= t < trace.len() ==> (#[trigger] trace[t])@ == cycle_row(
                messages[t / SIG_CYCLE_LENGTH as int]@,
                sigs[t / SIG_CYCLE_LENGTH as int],
                (t % SIG_CYCLE_LENGTH as int) as nat,
            ),
{
    assert forall|t: int| 0 <= t < trace.len() implies (#[trigger] trace[t])@ == cycle_row(
        messages[t / SIG_CYCLE_LENGTH as int]@,
        sigs[t / SIG_CYCLE_LENGTH as int],
        (t % SIG_CYCLE_LENGTH as int) as nat,
    ) by {
        lemma_row_is_cycle_row(trace, messages, sigs, t);
    }
}

fn rows_equal(a: &Vec<u64>, b: &Vec<u64>) -> (r: bool)
    ensures
        r == (a@ == b@),
{
    if a.len() != b.len() {
        return false;
    }
    let mut i: usize = 0;
    while i < a.len()
        invariant
            i <= a@.len(),
            a@.len() == b@.len(),
            forall|j: int| 0 <= j < i ==> a@[j] == b@[j],
        decreases a@.len() - i,
    {
        if a[i] != b[i] {
            return false;
        }
        i = i + 1;
    }
    assert(a@ =~= b@);
    true
}

/// Checks every constraint of the hash and bit columns of a trace against
/// the messages and signatures that it was built for. A signature's
/// validity is not among them: that needs the curve point columns.
pub fn check_trace(trace: &Vec<Vec<u64>>, messages: &Vec<Vec<u64>>, signatures: &Vec<Signature>) -> (r: bool)
    requires
        messages@.len() == signatures@.len(),
        forall|i: int| 0 <= i < messages@.len() ==> (#[trigger] messages@[i])@.len() == MESSAGE_LENGTH,
        forall|i: int| 0 <= i < signatures@.len() ==> (#[trigger] signatures@[i]).response@.len() == SCALAR_BYTES,
    ensures
        r == trace_ok(trace@, messages@, signatures@),
{
    let n = messages.len();
    let tl = trace.len();
    if n > usize::MAX / SIG_CYCLE_LENGTH || tl != SIG_CYCLE_LENGTH * n {
        return false;
    }
    let mut i: usize = 0;
    while i < n
        invariant
            i <= n,
            n == messages@.len(),
            n == signatures@.len(),
            trace@.len() == SIG_CYCLE_LENGTH * n,
            n <= usize::MAX / SIG_CYCLE_LENGTH,
            forall|i: int| 0 <= i < messages@.len() ==> (#[trigger] messages@[i])@.len() == MESSAGE_LENGTH,
            forall|i: int| 0 <= i < signatures@.len() ==> (#[trigger] signatures@[i]).response@.len() == SCALAR_BYTES,
            forall|t: int| 0 <= t < SIG_CYCLE_LENGTH * i ==> #[trigger] row_ok(trace@, messages@, signatures@, t),
        decreases n - i,
    {
        let message = &messages[i];
        let signature = &signatures[i];
        let (s_bytes, h_bytes) = build_sig_info(message, signature);
        let base: usize = SIG_CYCLE_LENGTH * i;
        let mut k: usize = 0;
        while k < SIG_CYCLE_LENGTH
            invariant
                k <= SIG_CYCLE_LENGTH,
                i < n,
                n == messages@.len(),
                n == signatures@.len(),
                n <= usize::MAX / SIG_CYCLE_LENGTH,
                base == SIG_CYCLE_LENGTH * i,
                trace@.len() == SIG_CYCLE_LENGTH * n,
                message@ == messages@[i as int]@,
                *signature == signatures@[i as int],
                message@.len() == MESSAGE_LENGTH,
                s_bytes@ == signature.response@,
                s_bytes@.len() == SCALAR_BYTES,
                h_bytes@ == challenge_bytes(message_hash(signature.commitment, message@)),
                forall|t: int| 0 <= t < base + k ==> #[trigger] row_ok(trace@, messages@, signatures@, t),
            decreases SIG_CYCLE_LENGTH - k,
        {
            let t = base + k;
            let row = &trace[t];
            assert(t as int / SIG_CYCLE_LENGTH as int == i as int && t as int % SIG_CYCLE_LENGTH as int == k as int);
            if row.len() != TRACE_WIDTH {
                assert(!row_ok(trace@, messages@, signatures@, t as int)) by {
                    reveal(row_ok);
                }
                return false;
            }
            let mut want: Vec<u64> = vec![0, 0, 0, 0, 0, 0, 0, 0, 0, 0, 0, 0, 0, 0];
            if k == 0 {
                init_sig_verification_state(signature.commitment, &mut want);
            } else {
                assert(trace@[t - 1]@.len() == TRACE_WIDTH) by {
                    assert(row_ok(trace@, messages@, signatures@, t - 1));
                    reveal(row_ok);
                }
                want = copy_row(&trace[t - 1]);
                update_sig_verification_state(k - 1, message, &s_bytes, &h_bytes, &mut want);
            }
            if !rows_equal(row, &want) {
                assert(!row_ok(trace@, messages@, signatures@, t as int)) by {
                    reveal(row_ok);
                }
                return false;
            }
            assert(row_ok(trace@, messages@, signatures@, t as int)) by {
                reveal(row_ok);
            }
            k = k + 1;
        }
        i = i + 1;
    }
    true
}

} // verus!
