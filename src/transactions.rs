//! Accounts, transfers, and the sequential pass over a batch of transfers
//! that records, for each transfer, the roots, the old leaves and the
//! authentication paths that the trace needs.

use vstd::prelude::*;
use crate::hash::{merge, merge_of, Digest};
use crate::merkle::{
    lemma_path_ignores_own_leaf,
    climb, exact_log2, is_pow2, lemma_path_reaches_root, lemma_pow2_strict, path_of, pow2, tree_root,
    valid_leaf_count, MerkleTree,
};
use crate::range::max_delta;
use crate::sig_trace::{build_tx_message, message_spec, Signature};

verus! {

/// `2^64`.
pub const BALANCE_RANGE: u128 = 0x1_0000_0000_0000_0000;

/// An account leaf: a public key commitment, a balance and a nonce.
#[derive(Clone, Copy, Debug, PartialEq, Eq, Structural)]
pub struct Account {
    pub key: Digest,
    pub balance: u64,
    pub nonce: u64,
}

/// A transfer of `delta` from leaf `sender` to leaf `receiver`.
#[derive(Clone, Copy, Debug, PartialEq, Eq, Structural)]
pub struct Transfer {
    pub sender: usize,
    pub receiver: usize,
    pub delta: u64,
}

/// Errors of batch construction.
#[derive(Clone, Copy, Debug, PartialEq, Eq, Structural)]
pub enum BatchError {
    /// The number of accounts is not a power of two of at least two.
    InvalidLeafCount,
    /// The depth of the tree plus one is not a power of two.
    InvalidDepth,
    /// A transfer names an account outside the tree.
    IndexOutOfBounds,
    /// A transfer has the same sender and receiver.
    SameAccount,
    /// The number of signatures differs from the number of transfers.
    SignatureCount,
}

/// The digest of an account leaf: its key compressed with its balance and nonce.
pub open spec fn leaf_of(a: Account) -> Digest {
    merge_of(a.key, Digest { e0: a.balance, e1: a.nonce, e2: 0, e3: 0 })
}

/// The leaf digests of a sequence of accounts.
pub open spec fn leaves_of(accounts: Seq<Account>) -> Seq<Digest> {
    Seq::new(accounts.len(), |i: int| leaf_of(accounts[i]))
}

/// `x - y` in the 64-bit domain.
pub open spec fn sub_wrapped(x: u64, y: u64) -> u64 {
    ((x + BALANCE_RANGE - y) % (BALANCE_RANGE as int)) as u64
}

/// `x + y` in the 64-bit domain.
pub open spec fn add_wrapped(x: u64, y: u64) -> u64 {
    ((x + y) % (BALANCE_RANGE as int)) as u64
}

/// The sender after the transfer: debited, with its nonce bumped.
pub open spec fn debited(a: Account, delta: u64) -> Account {
    Account { balance: sub_wrapped(a.balance, delta), nonce: add_wrapped(a.nonce, 1), ..a }
}

/// The receiver after the transfer: credited.
pub open spec fn credited(a: Account, delta: u64) -> Account {
    Account { balance: add_wrapped(a.balance, delta), ..a }
}

/// A transfer names two distinct accounts among `n`.
pub open spec fn transfer_valid(t: Transfer, n: nat) -> bool {
    t.sender < n && t.receiver < n && t.sender != t.receiver
}

/// The accounts after one transfer.
pub open spec fn apply_transfer(accounts: Seq<Account>, t: Transfer) -> Seq<Account> {
    let a1 = accounts.update(t.sender as int, debited(accounts[t.sender as int], t.delta));
    a1.update(t.receiver as int, credited(a1[t.receiver as int], t.delta))
}

/// The accounts after the first `k` transfers.
pub open spec fn state_at(accounts: Seq<Account>, transfers: Seq<Transfer>, k: nat) -> Seq<Account>
    decreases k,
{
    if k == 0 {
        accounts
    } else {
        apply_transfer(state_at(accounts, transfers, (k - 1) as nat), transfers[k - 1])
    }
}

/// Every transfer names two distinct accounts among `n`.
pub open spec fn batch_valid(transfers: Seq<Transfer>, n: nat) -> bool {
    forall|u: int| 0 <= u < transfers.len() ==> transfer_valid(#[trigger] transfers[u], n)
}

proof fn lemma_state_len(accounts: Seq<Account>, transfers: Seq<Transfer>, k: nat)
    requires
        k <= transfers.len(),
        batch_valid(transfers, accounts.len()),
    ensures
        state_at(accounts, transfers, k).len() == accounts.len(),
    decreases k,
{
    if k > 0 {
        lemma_state_len(accounts, transfers, (k - 1) as nat);
        assert(transfer_valid(transfers[k - 1], accounts.len()));
    }
}

/// The amount of a transfer is no larger than the largest safe one between
/// the two balances.
pub open spec fn transfer_safe(accounts: Seq<Account>, t: Transfer) -> bool {
    t.delta <= crate::range::max_delta_spec(
        accounts[t.sender as int].balance,
        accounts[t.receiver as int].balance,
    )
}

/// Every transfer of the batch is safe against the balances that the
/// transfers before it left.
pub open spec fn batch_safe(accounts: Seq<Account>, transfers: Seq<Transfer>) -> bool {
    forall|u: int|
        0 <= u < transfers.len() ==> #[trigger] transfer_safe(
            state_at(accounts, transfers, u as nat),
            transfers[u],
        )
}

/// Transfer `u` is the one that draws `3u`, `3u + 1` and `3u + 2` pick
/// against the accounts left by the transfers before it.
pub open spec fn transfer_is_drawn(accounts: Seq<Account>, transfers: Seq<Transfer>, draws: Seq<u64>, u: int) -> bool {
    transfers[u] == drawn_transfer(
        state_at(accounts, transfers, u as nat),
        draws[3 * u],
        draws[3 * u + 1],
        draws[3 * u + 2],
    )
}

/// Every transfer of the batch is the one its draws pick.
pub open spec fn batch_drawn(accounts: Seq<Account>, transfers: Seq<Transfer>, draws: Seq<u64>) -> bool {
    forall|u: int| 0 <= u < transfers.len() ==> #[trigger] transfer_is_drawn(accounts, transfers, draws, u)
}

/// The states along a batch depend only on the transfers already applied.
proof fn lemma_state_prefix(accounts: Seq<Account>, transfers: Seq<Transfer>, t: Transfer, k: nat)
    ensures
        forall|u: nat| u <= k && u <= transfers.len() ==> #[trigger] state_at(accounts, transfers.push(t), u)
            == state_at(accounts, transfers, u),
    decreases k,
{
    if k > 0 {
        lemma_state_prefix(accounts, transfers, t, (k - 1) as nat);
        assert forall|u: nat| u <= k && u <= transfers.len() implies #[trigger] state_at(
            accounts,
            transfers.push(t),
            u,
        ) == state_at(accounts, transfers, u) by {
            if u == k {
                assert(transfers.push(t)[k - 1] == transfers[k - 1]);
                assert(state_at(accounts, transfers.push(t), (k - 1) as nat) == state_at(accounts, transfers, (k - 1) as nat));
            }
        }
    }
}

/// For a batch of valid transfers over `2^d` accounts, the sender's old leaf
/// and path recompute the root before each transfer, and the receiver's new
/// leaf and path recompute the root after it, which is the root before the
/// next transfer.
pub proof fn lemma_batch_paths(accounts: Seq<Account>, transfers: Seq<Transfer>, d: nat, u: int)
    requires
        accounts.len() == pow2(d),
        batch_valid(transfers, accounts.len()),
        0 <= u < transfers.len(),
    ensures
        ({
            let before = state_at(accounts, transfers, u as nat);
            let after = state_at(accounts, transfers, (u + 1) as nat);
            let t = transfers[u];
            &&& climb(leaf_of(before[t.sender as int]), t.sender as int, path_of(leaves_of(before), t.sender as int, d))
                == tree_root(leaves_of(before))
            &&& climb(leaf_of(after[t.receiver as int]), t.receiver as int, path_of(leaves_of(after), t.receiver as int, d))
                == tree_root(leaves_of(after))
            &&& after[t.sender as int] == debited(before[t.sender as int], t.delta)
            &&& after[t.receiver as int] == credited(before[t.receiver as int], t.delta)
        }),
{
    lemma_state_len(accounts, transfers, u as nat);
    lemma_state_len(accounts, transfers, (u + 1) as nat);
    let before = state_at(accounts, transfers, u as nat);
    let after = state_at(accounts, transfers, (u + 1) as nat);
    let t = transfers[u];
    assert(transfer_valid(t, accounts.len()));
    lemma_path_reaches_root(leaves_of(before), t.sender as int, d);
    lemma_path_reaches_root(leaves_of(after), t.receiver as int, d);
}

/// Over the metadata of a batch, each sender's old leaf and path recompute
/// the root recorded before its transfer, and each receiver's credited leaf
/// and new path recompute the root recorded before the next transfer, or the
/// final root after the last one: the recorded roots chain from the first to
/// the final root.
pub proof fn lemma_metadata_chains(
    m: &TransactionMetadata,
    accounts: Seq<Account>,
    transfers: Seq<Transfer>,
    d: nat,
)
    requires
        m.describes(accounts, transfers, d),
        batch_valid(transfers, accounts.len()),
    ensures
        forall|u: int|
            0 <= u < m.len_spec() ==> climb(
                leaf_of(#[trigger] m.s_old_values@[u]),
                m.s_indices@[u] as int,
                m.s_paths@[u]@,
            ) == m.initial_roots@[u],
        forall|u: int|
            0 <= u < m.len_spec() ==> climb(
                leaf_of(credited(#[trigger] m.r_old_values@[u], m.deltas@[u])),
                m.r_indices@[u] as int,
                m.r_paths@[u]@,
            ) == (if u + 1 < m.len_spec() {
                m.initial_roots@[u + 1]
            } else {
                m.final_root
            }),
{
    assert forall|u: int| 0 <= u < m.len_spec() implies climb(
        leaf_of(#[trigger] m.s_old_values@[u]),
        m.s_indices@[u] as int,
        m.s_paths@[u]@,
    ) == m.initial_roots@[u] by {
        assert(m.record_ok(accounts, transfers, d, u));
        lemma_batch_paths(accounts, transfers, d, u);
    }
    assert forall|u: int| 0 <= u < m.len_spec() implies climb(
        leaf_of(credited(#[trigger] m.r_old_values@[u], m.deltas@[u])),
        m.r_indices@[u] as int,
        m.r_paths@[u]@,
    ) == (if u + 1 < m.len_spec() {
        m.initial_roots@[u + 1]
    } else {
        m.final_root
    }) by {
        assert(m.record_ok(accounts, transfers, d, u));
        lemma_batch_paths(accounts, transfers, d, u);
        assert(transfer_valid(transfers[u], accounts.len()));
        lemma_state_len(accounts, transfers, u as nat);
        if u + 1 < m.len_spec() {
            assert(m.record_ok(accounts, transfers, d, u + 1));
        }
    }
}

proof fn lemma_continuity_at(m: &TransactionMetadata, accounts: Seq<Account>, transfers: Seq<Transfer>, d: nat, u: int)
    requires
        m.describes(accounts, transfers, d),
        batch_valid(transfers, accounts.len()),
        0 <= u < m.len_spec(),
    ensures
        climb(
            leaf_of(debited(m.s_old_values@[u], m.deltas@[u])),
            m.s_indices@[u] as int,
            m.s_paths@[u]@,
        ) == climb(leaf_of(m.r_old_values@[u]), m.r_indices@[u] as int, m.r_paths@[u]@),
{
    assert(m.record_ok(accounts, transfers, d, u));
    let t = transfers[u];
    assert(transfer_valid(t, accounts.len()));
    lemma_state_len(accounts, transfers, u as nat);
    let before = state_at(accounts, transfers, u as nat);
    let after = state_at(accounts, transfers, (u + 1) as nat);
    let s = t.sender as int;
    let r = t.receiver as int;
    let s_new = debited(before[s], t.delta);
    let mid = leaves_of(before).update(s, leaf_of(s_new));
    lemma_path_ignores_own_leaf(leaves_of(before), s, d, leaf_of(s_new));
    lemma_path_reaches_root(mid, s, d);
    assert(leaves_of(after) =~= mid.update(r, leaf_of(after[r])));
    lemma_path_ignores_own_leaf(mid, r, d, leaf_of(after[r]));
    lemma_path_reaches_root(mid, r, d);
}

/// Inside each transfer the two halves meet: the sender's debited leaf
/// with its path and the receiver's old leaf with its new path recompute
/// the same root, the root of the tree after the sender's update alone. A
/// transfer of zero leaves the receiver's leaf as it was, and its old leaf
/// with its new path recomputes the next recorded root.
pub proof fn lemma_metadata_continuity(
    m: &TransactionMetadata,
    accounts: Seq<Account>,
    transfers: Seq<Transfer>,
    d: nat,
)
    requires
        m.describes(accounts, transfers, d),
        batch_valid(transfers, accounts.len()),
    ensures
        forall|u: int|
            0 <= u < m.len_spec() ==> climb(
                leaf_of(debited(#[trigger] m.s_old_values@[u], m.deltas@[u])),
                m.s_indices@[u] as int,
                m.s_paths@[u]@,
            ) == climb(leaf_of(m.r_old_values@[u]), m.r_indices@[u] as int, m.r_paths@[u]@),
        forall|u: int|
            0 <= u < m.len_spec() && m.deltas@[u] == 0 ==> climb(
                leaf_of(#[trigger] m.r_old_values@[u]),
                m.r_indices@[u] as int,
                m.r_paths@[u]@,
            ) == (if u + 1 < m.len_spec() {
                m.initial_roots@[u + 1]
            } else {
                m.final_root
            }),
{
    lemma_metadata_chains(m, accounts, transfers, d);
    assert forall|u: int| 0 <= u < m.len_spec() implies climb(
        leaf_of(debited(#[trigger] m.s_old_values@[u], m.deltas@[u])),
        m.s_indices@[u] as int,
        m.s_paths@[u]@,
    ) == climb(leaf_of(m.r_old_values@[u]), m.r_indices@[u] as int, m.r_paths@[u]@) by {
        lemma_continuity_at(m, accounts, transfers, d, u);
    }
    assert forall|u: int| 0 <= u < m.len_spec() && m.deltas@[u] == 0 implies climb(
        leaf_of(#[trigger] m.r_old_values@[u]),
        m.r_indices@[u] as int,
        m.r_paths@[u]@,
    ) == (if u + 1 < m.len_spec() {
        m.initial_roots@[u + 1]
    } else {
        m.final_root
    }) by {
        assert(credited(m.r_old_values@[u], m.deltas@[u]) == m.r_old_values@[u]);
    }
}

/// Transfers never change a key: along a valid batch every account keeps
/// the key it started with.
pub proof fn lemma_keys_unchanged(accounts: Seq<Account>, transfers: Seq<Transfer>, k: nat)
    requires
        k <= transfers.len(),
        batch_valid(transfers, accounts.len()),
    ensures
        forall|i: int| 0 <= i < accounts.len() ==> (#[trigger] state_at(accounts, transfers, k)[i]).key
            == accounts[i].key,
    decreases k,
{
    lemma_state_len(accounts, transfers, k);
    if k > 0 {
        lemma_keys_unchanged(accounts, transfers, (k - 1) as nat);
        lemma_state_len(accounts, transfers, (k - 1) as nat);
        let prev = state_at(accounts, transfers, (k - 1) as nat);
        assert(transfer_valid(transfers[k - 1], accounts.len()));
        assert forall|i: int| 0 <= i < accounts.len() implies (#[trigger] state_at(accounts, transfers, k)[i]).key
            == accounts[i].key by {
            assert(prev[i].key == accounts[i].key);
        }
    }
}

/// A transfer no larger than the largest safe amount satisfies the range
/// constraints, and its debit and credit are exact: no balance wraps.
pub proof fn lemma_safe_transfer_exact(sender: Account, receiver: Account, delta: u64)
    requires
        delta <= crate::range::max_delta_spec(sender.balance, receiver.balance),
    ensures
        crate::range::range_holds(delta as int, sender.balance as int, receiver.balance as int),
        debited(sender, delta).balance == sender.balance - delta,
        credited(receiver, delta).balance == receiver.balance + delta,
{
    crate::range::lemma_pow2_64();
    let x = sender.balance + BALANCE_RANGE - delta;
    assert(x % (BALANCE_RANGE as int) == sender.balance - delta) by {
        vstd::arithmetic::div_mod::lemma_mod_sub_multiples_vanish(
            (sender.balance - delta) as int,
            BALANCE_RANGE as int,
        );
        vstd::arithmetic::div_mod::lemma_small_mod((sender.balance - delta) as nat, BALANCE_RANGE as nat);
    }
    vstd::arithmetic::div_mod::lemma_small_mod((receiver.balance + delta) as nat, BALANCE_RANGE as nat);
}

/// The digest of an account leaf.
pub fn account_leaf(a: Account) -> (r: Digest)
    ensures
        r == leaf_of(a),
{
    merge(a.key, Digest { e0: a.balance, e1: a.nonce, e2: 0, e3: 0 })
}

/// The sender after a transfer of `delta`.
pub fn debit(a: Account, delta: u64) -> (r: Account)
    ensures
        r == debited(a, delta),
{
    let balance = ((a.balance as u128 + BALANCE_RANGE - delta as u128) % BALANCE_RANGE) as u64;
    let nonce = ((a.nonce as u128 + 1) % BALANCE_RANGE) as u64;
    Account { key: a.key, balance, nonce }
}

/// The receiver after a transfer of `delta`.
pub fn credit(a: Account, delta: u64) -> (r: Account)
    ensures
        r == credited(a, delta),
{
    let balance = ((a.balance as u128 + delta as u128) % BALANCE_RANGE) as u64;
    Account { key: a.key, balance, nonce: a.nonce }
}

/// The transfer that three drawn numbers pick among `accounts`: the sender
/// is the first draw modulo the number of accounts; the receiver the second
/// draw modulo that number, or the account after the sender (wrapping to the
/// first) when the two coincide; the amount the third draw modulo one more
/// than the largest safe amount, or the whole draw when that amount is the
/// largest 64-bit value.
pub open spec fn drawn_transfer(accounts: Seq<Account>, s_draw: u64, r_draw: u64, amount_draw: u64) -> Transfer {
    let n = accounts.len() as int;
    let s = s_draw as int % n;
    let r0 = r_draw as int % n;
    let r = if r0 != s {
        r0
    } else if s + 1 < n {
        s + 1
    } else {
        0
    };
    let bound = crate::range::max_delta_spec(accounts[s].balance, accounts[r].balance);
    let delta = if bound == u64::MAX {
        amount_draw as int
    } else {
        amount_draw as int % (bound + 1)
    };
    Transfer { sender: s as usize, receiver: r as usize, delta: delta as u64 }
}

/// Picks a transfer among `n` accounts from three drawn numbers: the sender
/// from the first, the receiver from the second (moved on by one when it
/// falls on the sender), and an amount no larger than the largest safe one
/// from the third.
pub fn transfer_from_draws(accounts: &Vec<Account>, s_draw: u64, r_draw: u64, amount_draw: u64) -> (r: Transfer)
    requires
        accounts@.len() >= 2,
    ensures
        r == drawn_transfer(accounts@, s_draw, r_draw, amount_draw),
        transfer_valid(r, accounts@.len()),
        r.delta <= crate::range::max_delta_spec(
            accounts@[r.sender as int].balance,
            accounts@[r.receiver as int].balance,
        ),
{
    let n = accounts.len();
    let s = (s_draw % (n as u64)) as usize;
    let mut r = (r_draw % (n as u64)) as usize;
    if r == s {
        r = if s + 1 < n { s + 1 } else { 0 };
    }
    let bound = max_delta(accounts[s].balance, accounts[r].balance);
    let delta = if bound == u64::MAX { amount_draw } else { amount_draw % (bound + 1) };
    Transfer { sender: s, receiver: r, delta }
}

/// What the sequential pass records over a batch: per transfer, the root
/// before it, the two old leaves, the two indices, the sender's path before
/// the transfer, the receiver's path after both leaves were updated, and the
/// amount; the root after the last transfer; and one signature per transfer
/// once they are attached.
pub struct TransactionMetadata {
    pub initial_roots: Vec<Digest>,
    pub final_root: Digest,
    pub s_old_values: Vec<Account>,
    pub r_old_values: Vec<Account>,
    pub s_indices: Vec<usize>,
    pub r_indices: Vec<usize>,
    pub s_paths: Vec<Vec<Digest>>,
    pub r_paths: Vec<Vec<Digest>>,
    pub deltas: Vec<u64>,
    pub signatures: Vec<Signature>,
}

impl TransactionMetadata {
    /// One signature is attached per transfer.
    pub open spec fn signed(&self) -> bool {
        self.signatures@.len() == self.initial_roots@.len()
    }

    /// The message that transfer `u` signs: the sender's and receiver's
    /// keys, the amount and the sender's nonce before the transfer.
    pub open spec fn message_of(&self, u: int) -> Seq<u64> {
        message_spec(
            self.s_old_values@[u].key,
            self.r_old_values@[u].key,
            self.deltas@[u],
            self.s_old_values@[u].nonce,
        )
    }

    /// The messages that the transfers sign, in order.
    pub fn messages(&self) -> (r: Vec<Vec<u64>>)
        requires
            self.lengths_agree(),
        ensures
            r@.len() == self.len_spec(),
            forall|u: int| 0 <= u < r@.len() ==> (#[trigger] r@[u])@ == self.message_of(u),
    {
        let mut r: Vec<Vec<u64>> = Vec::new();
        let mut u: usize = 0;
        while u < self.initial_roots.len()
            invariant
                self.lengths_agree(),
                u <= self.len_spec(),
                r@.len() == u,
                forall|v: int| 0 <= v < u ==> (#[trigger] r@[v])@ == self.message_of(v),
            decreases self.len_spec() - u,
        {
            let s = self.s_old_values[u];
            let rc = self.r_old_values[u];
            r.push(build_tx_message(s.key, rc.key, self.deltas[u], s.nonce));
            u = u + 1;
        }
        r
    }

    /// Attaches one signature per transfer; the other fields stay as they
    /// are.
    pub fn attach_signatures(&mut self, signatures: Vec<Signature>) -> (r: Result<(), BatchError>)
        ensures
            r is Ok <==> signatures@.len() == old(self).len_spec(),
            r matches Err(e) ==> e == BatchError::SignatureCount && final(self).signatures == old(self).signatures,
            r is Ok ==> final(self).signatures == signatures && final(self).signed(),
            final(self).initial_roots == old(self).initial_roots,
            final(self).final_root == old(self).final_root,
            final(self).s_old_values == old(self).s_old_values,
            final(self).r_old_values == old(self).r_old_values,
            final(self).s_indices == old(self).s_indices,
            final(self).r_indices == old(self).r_indices,
            final(self).s_paths == old(self).s_paths,
            final(self).r_paths == old(self).r_paths,
            final(self).deltas == old(self).deltas,
    {
        if signatures.len() != self.initial_roots.len() {
            return Err(BatchError::SignatureCount);
        }
        self.signatures = signatures;
        Ok(())
    }

    /// Number of recorded transfers.
    pub open spec fn len_spec(&self) -> nat {
        self.initial_roots@.len()
    }

    /// Every per-transfer vector has one entry per transfer.
    pub open spec fn lengths_agree(&self) -> bool {
        let n = self.initial_roots@.len();
        &&& self.s_old_values@.len() == n
        &&& self.r_old_values@.len() == n
        &&& self.s_indices@.len() == n
        &&& self.r_indices@.len() == n
        &&& self.s_paths@.len() == n
        &&& self.r_paths@.len() == n
        &&& self.deltas@.len() == n
    }

    /// Record `u` is the one that the batch gives, in a tree of depth `d`.
    pub open spec fn record_ok(
        &self,
        accounts: Seq<Account>,
        transfers: Seq<Transfer>,
        d: nat,
        u: int,
    ) -> bool {
        let before = state_at(accounts, transfers, u as nat);
        let after = state_at(accounts, transfers, (u + 1) as nat);
        let t = transfers[u];
        &&& self.initial_roots@[u] == tree_root(leaves_of(before))
        &&& self.s_old_values@[u] == before[t.sender as int]
        &&& self.r_old_values@[u] == before[t.receiver as int]
        &&& self.s_indices@[u] == t.sender
        &&& self.r_indices@[u] == t.receiver
        &&& self.deltas@[u] == t.delta
        &&& self.s_paths@[u]@ == path_of(leaves_of(before), t.sender as int, d)
        &&& self.r_paths@[u]@ == path_of(leaves_of(after), t.receiver as int, d)
    }

    /// The metadata is what the sequential pass over `transfers`, starting
    /// from `accounts` in a tree of depth `d`, records.
    pub open spec fn describes(&self, accounts: Seq<Account>, transfers: Seq<Transfer>, d: nat) -> bool {
        &&& accounts.len() == pow2(d)
        &&& self.lengths_agree()
        &&& self.len_spec() == transfers.len()
        &&& forall|u: int| 0 <= u < transfers.len() ==> #[trigger] self.record_ok(accounts, transfers, d, u)
        &&& self.final_root == tree_root(leaves_of(state_at(accounts, transfers, transfers.len())))
    }

    /// Gathers the recorded vectors, which must all have one entry per
    /// transfer.
    pub fn new(
        initial_roots: Vec<Digest>,
        final_root: Digest,
        s_old_values: Vec<Account>,
        r_old_values: Vec<Account>,
        s_indices: Vec<usize>,
        r_indices: Vec<usize>,
        s_paths: Vec<Vec<Digest>>,
        r_paths: Vec<Vec<Digest>>,
        deltas: Vec<u64>,
        signatures: Vec<Signature>,
    ) -> (r: TransactionMetadata)
        requires
            s_old_values@.len() == initial_roots@.len(),
            r_old_values@.len() == initial_roots@.len(),
            s_indices@.len() == initial_roots@.len(),
            r_indices@.len() == initial_roots@.len(),
            s_paths@.len() == initial_roots@.len(),
            r_paths@.len() == initial_roots@.len(),
            deltas@.len() == initial_roots@.len(),
            signatures@.len() == initial_roots@.len(),
        ensures
            r.lengths_agree(),
            r.signed(),
            r.signatures == signatures,
            r.initial_roots == initial_roots,
            r.final_root == final_root,
            r.s_old_values == s_old_values,
            r.r_old_values == r_old_values,
            r.s_indices == s_indices,
            r.r_indices == r_indices,
            r.s_paths == s_paths,
            r.r_paths == r_paths,
            r.deltas == deltas,
    {
        TransactionMetadata {
            initial_roots,
            final_root,
            s_old_values,
            r_old_values,
            s_indices,
            r_indices,
            s_paths,
            r_paths,
            deltas,
            signatures,
        }
    }

    /// Builds a batch of `num_transactions` transfers chosen from drawn
    /// numbers, three per transfer (see `transfer_from_draws`), each drawn
    /// against the balances left by the transfers before it, so that every
    /// amount is safe. As with `build`, signatures are attached afterwards.
    pub fn build_random(accounts: Vec<Account>, num_transactions: usize, draws: &Vec<u64>) -> (r: Result<
        TransactionMetadata,
        BatchError,
    >)
        requires
            accounts@.len() <= usize::MAX / 4,
            draws@.len() == 3 * num_transactions,
        ensures
            r is Ok <==> valid_leaf_count(accounts@.len() as nat),
            r matches Err(e) ==> (e == BatchError::InvalidLeafCount <==> !(accounts@.len() >= 2
                && is_pow2(accounts@.len() as nat))),
            r matches Err(e) ==> (e == BatchError::InvalidDepth <==> (accounts@.len() >= 2 && is_pow2(
                accounts@.len() as nat,
            ) && !valid_leaf_count(accounts@.len() as nat))),
            r matches Ok(m) ==> exists|d: nat, transfers: Seq<Transfer>|
                #[trigger] pow2(d) == accounts@.len() && #[trigger] m.describes(accounts@, transfers, d)
                    && transfers.len() == num_transactions && batch_valid(transfers, accounts@.len())
                    && batch_safe(accounts@, transfers) && batch_drawn(accounts@, transfers, draws@),
            r matches Ok(m) ==> m.signatures@.len() == 0,
    {
        let n = accounts.len();
        if n < 2 {
            proof {
                if valid_leaf_count(n as nat) {
                    let d = choose|d: nat| d >= 1 && #[trigger] pow2(d) == n && is_pow2(d + 1);
                    crate::merkle::lemma_pow2_mono(1, d);
                    reveal_with_fuel(pow2, 2);
                }
            }
            return Err(BatchError::InvalidLeafCount);
        }
        let mut cur: Vec<Account> = Vec::new();
        let mut i: usize = 0;
        while i < n
            invariant
                i <= n,
                n == accounts@.len(),
                cur@ == accounts@.take(i as int),
            decreases n - i,
        {
            cur.push(accounts[i]);
            i = i + 1;
            assert(cur@ =~= accounts@.take(i as int));
        }
        assert(cur@ =~= accounts@);
        let mut transfers: Vec<Transfer> = Vec::new();
        let dl = draws.len();
        let mut t: usize = 0;
        while t < num_transactions
            invariant
                t <= num_transactions,
                dl == draws@.len(),
                n == accounts@.len(),
                n >= 2,
                draws@.len() == 3 * num_transactions,
                transfers@.len() == t,
                batch_valid(transfers@, n as nat),
                batch_safe(accounts@, transfers@),
                batch_drawn(accounts@, transfers@, draws@),
                cur@ == state_at(accounts@, transfers@, t as nat),
                cur@.len() == n,
            decreases num_transactions - t,
        {
            let tr = transfer_from_draws(&cur, draws[3 * t], draws[3 * t + 1], draws[3 * t + 2]);
            let ghost before = cur@;
            let ghost old_transfers = transfers@;
            let s_new = debit(cur[tr.sender], tr.delta);
            cur.set(tr.sender, s_new);
            let r_new = credit(cur[tr.receiver], tr.delta);
            cur.set(tr.receiver, r_new);
            transfers.push(tr);
            proof {
                assert(cur@ =~= apply_transfer(before, tr));
                assert forall|u: int| 0 <= u < t + 1 implies transfer_valid(#[trigger] transfers@[u], n as nat) by {
                    if u < t {
                        assert(transfers@[u] == old_transfers[u]);
                    }
                }
                lemma_state_prefix(accounts@, old_transfers, tr, t as nat);
                assert forall|u: int| 0 <= u < t + 1 implies #[trigger] transfer_is_drawn(
                    accounts@,
                    transfers@,
                    draws@,
                    u,
                ) by {
                    if u < t {
                        assert(transfers@[u] == old_transfers[u]);
                        assert(transfer_is_drawn(accounts@, old_transfers, draws@, u));
                    }
                }
                assert forall|u: int| 0 <= u < t + 1 implies #[trigger] transfer_safe(
                    state_at(accounts@, transfers@, u as nat),
                    transfers@[u],
                ) by {
                    if u < t {
                        assert(transfers@[u] == old_transfers[u]);
                        assert(transfer_safe(state_at(accounts@, old_transfers, u as nat), old_transfers[u]));
                    }
                }
                assert(state_at(accounts@, transfers@, (t + 1) as nat) == apply_transfer(
                    state_at(accounts@, transfers@, t as nat),
                    transfers@[t as int],
                ));
            }
            t = t + 1;
        }
        let r = TransactionMetadata::build(accounts, &transfers);
        proof {
            if r is Ok {
                let m = r->Ok_0;
                let d = choose|d: nat| #[trigger] pow2(d) == accounts@.len() && m.describes(accounts@, transfers@, d);
                assert(pow2(d) == accounts@.len() && m.describes(accounts@, transfers@, d)
                    && transfers@.len() == num_transactions && batch_valid(transfers@, accounts@.len())
                    && batch_safe(accounts@, transfers@) && batch_drawn(accounts@, transfers@, draws@));
            }
        }
        r
    }

    /// Runs the batch of transfers over a tree whose leaves are the digests
    /// of `accounts`, in order: for each transfer it records the root and
    /// the sender's path, debits the sender and bumps its nonce, credits the
    /// receiver, updates both leaves, and records the receiver's new path.
    /// Amounts are not checked here: an unsafe amount is caught by the
    /// range check of the trace. The batch comes back without signatures:
    /// signing needs the curve arithmetic, which is not part of this
    /// library; the signer takes `messages` and hands its signatures to
    /// `attach_signatures`.
    pub fn build(accounts: Vec<Account>, transfers: &Vec<Transfer>) -> (r: Result<
        TransactionMetadata,
        BatchError,
    >)
        requires
            accounts@.len() <= usize::MAX / 4,
        ensures
            r is Ok <==> (valid_leaf_count(accounts@.len() as nat) && batch_valid(
                transfers@,
                accounts@.len(),
            )),
            r matches Err(e) ==> (e == BatchError::InvalidLeafCount <==> !(accounts@.len() >= 2
                && is_pow2(accounts@.len() as nat))),
            r matches Err(e) ==> (e == BatchError::InvalidDepth <==> (accounts@.len() >= 2 && is_pow2(
                accounts@.len() as nat,
            ) && !valid_leaf_count(accounts@.len() as nat))),
            r matches Ok(m) ==> exists|d: nat| #[trigger] pow2(d) == accounts@.len() && m.describes(accounts@, transfers@, d),
            r matches Ok(m) ==> m.signatures@.len() == 0,
    {
        let n = accounts.len();
        let mut leaves: Vec<Digest> = Vec::new();
        let mut i: usize = 0;
        while i < n
            invariant
                i <= n,
                n == accounts@.len(),
                leaves@ == leaves_of(accounts@).take(i as int),
            decreases n - i,
        {
            leaves.push(account_leaf(accounts[i]));
            assert(leaves@ =~= leaves_of(accounts@).take(i as int + 1));
            i = i + 1;
        }
        assert(leaves@ =~= leaves_of(accounts@));
        let mut tree = match MerkleTree::new(leaves) {
            Ok(t) => t,
            Err(_) => {
                proof {
                    if valid_leaf_count(n as nat) {
                        let d = choose|d: nat| d >= 1 && #[trigger] pow2(d) == n && is_pow2(d + 1);
                        assert(is_pow2(n as nat));
                        crate::merkle::lemma_pow2_mono(1, d);
                        reveal_with_fuel(pow2, 2);
                    }
                }
                return Err(BatchError::InvalidLeafCount);
            },
        };
        let ghost d = tree.depth_spec();
        proof {
            assert forall|d2: nat| #[trigger] pow2(d2) == n implies d2 == d by {
                if d2 < d {
                    lemma_pow2_strict(d2, d);
                } else if d < d2 {
                    lemma_pow2_strict(d, d2);
                }
            }
        }
        let depth = tree.depth();
        proof {
            crate::merkle::lemma_pow2_gt(d);
        }
        match exact_log2(depth + 1) {
            Some(e) => {
                proof {
                    assert(is_pow2(d + 1));
                    assert(d >= 1 && pow2(d) == n && is_pow2(d + 1));
                }
            },
            None => {
                return Err(BatchError::InvalidDepth);
            },
        }
        let mut cur = accounts;
        let mut m = TransactionMetadata {
            initial_roots: Vec::new(),
            final_root: Digest::zero(),
            s_old_values: Vec::new(),
            r_old_values: Vec::new(),
            s_indices: Vec::new(),
            r_indices: Vec::new(),
            s_paths: Vec::new(),
            r_paths: Vec::new(),
            deltas: Vec::new(),
            signatures: Vec::new(),
        };
        let mut t: usize = 0;
        while t < transfers.len()
            invariant
                t <= transfers@.len(),
                n == accounts@.len(),
                n >= 2,
                pow2(d) == n,
                valid_leaf_count(n as nat),
                tree.wf(),
                tree.depth_spec() == d,
                cur@ == state_at(accounts@, transfers@, t as nat),
                tree@ == leaves_of(cur@),
                cur@.len() == n,
                m.lengths_agree(),
                m.len_spec() == t,
                m.signatures@.len() == 0,
                batch_valid(transfers@.take(t as int), n as nat),
                forall|u: int| 0 <= u < t ==> #[trigger] m.record_ok(accounts@, transfers@, d, u),
            decreases transfers@.len() - t,
        {
            let tr = transfers[t];
            if tr.sender >= n || tr.receiver >= n {
                proof {
                    assert(!transfer_valid(transfers@[t as int], n as nat));
                }
                return Err(BatchError::IndexOutOfBounds);
            }
            if tr.sender == tr.receiver {
                proof {
                    assert(!transfer_valid(transfers@[t as int], n as nat));
                }
                return Err(BatchError::SameAccount);
            }
            let ghost before = cur@;
            let ghost m0 = m;
            let root = tree.root();
            let s_path = match tree.prove(tr.sender) {
                Ok(p) => p,
                Err(_) => {
                    return Err(BatchError::IndexOutOfBounds);
                },
            };
            let s_old = cur[tr.sender];
            let r_old = cur[tr.receiver];
            let s_new = debit(s_old, tr.delta);
            cur.set(tr.sender, s_new);
            let r_new = credit(cur[tr.receiver], tr.delta);
            cur.set(tr.receiver, r_new);
            assert(cur@ =~= apply_transfer(before, tr));
            let _ = tree.update(tr.sender, account_leaf(s_new));
            let _ = tree.update(tr.receiver, account_leaf(r_new));
            assert(tree@ =~= leaves_of(cur@));
            let r_path = match tree.prove(tr.receiver) {
                Ok(p) => p,
                Err(_) => {
                    return Err(BatchError::IndexOutOfBounds);
                },
            };
            m.initial_roots.push(root);
            m.s_old_values.push(s_old);
            m.r_old_values.push(r_old);
            m.s_indices.push(tr.sender);
            m.r_indices.push(tr.receiver);
            m.s_paths.push(s_path);
            m.r_paths.push(r_path);
            m.deltas.push(tr.delta);
            proof {
                assert(m.record_ok(accounts@, transfers@, d, t as int));
                assert forall|u: int| 0 <= u < t + 1 implies #[trigger] m.record_ok(
                    accounts@,
                    transfers@,
                    d,
                    u,
                ) by {
                    if u < t {
                        assert(m0.record_ok(accounts@, transfers@, d, u));
                    }
                }
                assert forall|u: int| 0 <= u < t + 1 implies transfer_valid(
                    #[trigger] transfers@.take(t as int + 1)[u],
                    n as nat,
                ) by {
                    if u < t {
                        assert(transfers@.take(t as int)[u] == transfers@.take(t as int + 1)[u]);
                    }
                }
            }
            t = t + 1;
        }
        let ghost m1 = m;
        m.final_root = tree.root();
        proof {
            assert forall|u: int| 0 <= u < transfers@.len() implies #[trigger] m.record_ok(
                accounts@,
                transfers@,
                d,
                u,
            ) by {
                assert(m1.record_ok(accounts@, transfers@, d, u));
            }
            assert(transfers@.take(t as int) =~= transfers@);
            assert(m.describes(accounts@, transfers@, d));
            assert(pow2(d) == accounts@.len());
        }
        Ok(m)
    }
}

} // verus!
