use rescue_transactions::hash::{Digest, FIELD_MODULUS};
use rescue_transactions::merkle::{verify_path, MerkleTree, TreeError};
use rescue_transactions::range::{decompose, max_delta, range_check};
use rescue_transactions::sig_trace::{
    bit_at, build_sig_info, build_trace, check_trace, build_tx_message, hash_message, hash_op,
    init_sig_verification_state, scalar_mul_op, update_sig_verification_state, HashOp, MulOp,
    Signature, SIG_CYCLE_LENGTH, TRACE_WIDTH,
};
use rescue_transactions::transactions::{
    account_leaf, credit, debit, transfer_from_draws, Account, BatchError, Transfer,
    TransactionMetadata,
};

fn key(i: u64) -> Digest {
    Digest { e0: i + 1, e1: 2 * i + 3, e2: 7 * i, e3: 11 }
}

fn digest_of(i: u64) -> Digest {
    Digest { e0: i, e1: i + 1, e2: i + 2, e3: i + 3 }
}

fn accounts(n: usize) -> Vec<Account> {
    (0..n)
        .map(|i| Account { key: key(i as u64), balance: 1000 * (i as u64 + 1), nonce: i as u64 })
        .collect()
}

fn leaves(n: usize) -> Vec<Digest> {
    (0..n).map(|i| digest_of(i as u64)).collect()
}

// a small deterministic generator for drawn numbers
fn draws(count: usize, seed: u64) -> Vec<u64> {
    let mut x = seed;
    (0..count)
        .map(|_| {
            x = x.wrapping_mul(6364136223846793005).wrapping_add(1442695040888963407);
            x >> 11
        })
        .collect()
}

// the root of a two-leaf tree is the compression of its leaves
fn merge2(a: Digest, b: Digest) -> Digest {
    MerkleTree::new(vec![a, b]).unwrap().root()
}

#[test]
fn merge_is_a_compression() {
    let a = digest_of(1);
    let b = digest_of(2);
    let h = merge2(a, b);
    assert_ne!(h, a);
    assert_ne!(h, b);
    assert_ne!(h, merge2(b, a));
    assert_eq!(h, merge2(a, b));
    assert!(h.e0 < FIELD_MODULUS && h.e1 < FIELD_MODULUS && h.e2 < FIELD_MODULUS && h.e3 < FIELD_MODULUS);
}

#[test]
fn round_changes_state() {
    let msg = build_tx_message(key(0), key(1), 40, 0);
    let bytes = vec![0u8; 32];
    let mut s: Vec<u64> = (0..14).collect();
    let before = s.clone();
    update_sig_verification_state(0, &msg, &bytes, &bytes, &mut s);
    assert_eq!(s.len(), 14);
    assert_ne!(&s[2..], &before[2..]);
    let mut t = before.clone();
    update_sig_verification_state(1, &msg, &bytes, &bytes, &mut t);
    assert_ne!(&s[2..], &t[2..]);
    // a later round of the same cycle uses other constants again
    let mut u = before.clone();
    update_sig_verification_state(16, &msg, &bytes, &bytes, &mut u);
    assert_eq!(&s[2..], &u[2..]);
}

#[test]
fn tree_rejects_bad_leaf_counts() {
    assert!(matches!(MerkleTree::new(vec![]), Err(TreeError::InvalidLeafCount)));
    assert!(matches!(MerkleTree::new(leaves(1)), Err(TreeError::InvalidLeafCount)));
    assert!(matches!(MerkleTree::new(leaves(6)), Err(TreeError::InvalidLeafCount)));
    assert!(MerkleTree::new(leaves(2)).is_ok());
    assert!(MerkleTree::new(leaves(8)).is_ok());
}

#[test]
fn tree_root_of_two_leaves() {
    let t = MerkleTree::new(leaves(2)).unwrap();
    assert_eq!(t.depth(), 1);
    assert_eq!(t.root(), merge2(digest_of(0), digest_of(1)));
}

#[test]
fn tree_root_of_four_leaves() {
    let t = MerkleTree::new(leaves(4)).unwrap();
    assert_eq!(t.depth(), 2);
    let l = merge2(digest_of(0), digest_of(1));
    let r = merge2(digest_of(2), digest_of(3));
    assert_eq!(t.root(), merge2(l, r));
    assert_eq!(t.prove(2).unwrap(), vec![digest_of(3), l]);
    assert_eq!(t.prove(1).unwrap(), vec![digest_of(0), r]);
}

#[test]
fn paths_verify_against_root() {
    let t = MerkleTree::new(leaves(8)).unwrap();
    let root = t.root();
    for i in 0..8 {
        let p = t.prove(i).unwrap();
        assert_eq!(p.len(), 3);
        assert!(verify_path(root, digest_of(i as u64), i, &p));
        assert!(!verify_path(root, digest_of(100), i, &p));
        assert!(!verify_path(root, digest_of(i as u64), i ^ 1, &p));
    }
}

#[test]
fn prove_out_of_bounds() {
    let mut t = MerkleTree::new(leaves(4)).unwrap();
    assert!(matches!(t.prove(4), Err(TreeError::IndexOutOfBounds)));
    let root = t.root();
    assert!(matches!(t.update(9, digest_of(5)), Err(TreeError::IndexOutOfBounds)));
    assert_eq!(t.root(), root);
}

#[test]
fn update_matches_fresh_tree() {
    let mut t = MerkleTree::new(leaves(8)).unwrap();
    t.update(5, digest_of(42)).unwrap();
    let mut l = leaves(8);
    l[5] = digest_of(42);
    let fresh = MerkleTree::new(l).unwrap();
    assert_eq!(t.root(), fresh.root());
    for i in 0..8 {
        assert_eq!(t.prove(i).unwrap(), fresh.prove(i).unwrap());
    }
}

#[test]
fn update_with_same_value_keeps_root() {
    let mut t = MerkleTree::new(leaves(8)).unwrap();
    let root = t.root();
    let path = t.prove(3).unwrap();
    t.update(3, digest_of(3)).unwrap();
    assert_eq!(t.root(), root);
    assert_eq!(t.prove(3).unwrap(), path);
}

#[test]
fn max_delta_values() {
    assert_eq!(max_delta(100, 0), 100);
    assert_eq!(max_delta(100, u64::MAX - 10), 10);
    assert_eq!(max_delta(0, 5), 0);
    assert_eq!(max_delta(u64::MAX, 0), u64::MAX);
}

#[test]
fn range_check_boundary() {
    let cases = [(100u64, 0u64), (100, u64::MAX - 10), (0, 0), (u64::MAX, 0), (5, u64::MAX)];
    for (s, r) in cases {
        let bound = max_delta(s, r);
        assert!(range_check(bound, s, r));
        if bound < u64::MAX {
            assert!(!range_check(bound + 1, s, r));
        }
    }
    assert!(range_check(40, 100, 0));
    assert!(range_check(100, 100, 0));
    assert!(!range_check(101, 100, 0));
    assert!(!range_check(11, 100, u64::MAX - 10));
}

#[test]
fn decompose_bits() {
    let (bits, ok) = decompose(6, 4);
    assert!(ok);
    assert_eq!(bits, vec![false, true, true, false]);
    let (bits, ok) = decompose(16, 4);
    assert!(!ok);
    assert_eq!(bits, vec![false, false, false, false]);
    let (_, ok) = decompose(u64::MAX as u128, 64);
    assert!(ok);
    let (_, ok) = decompose(u64::MAX as u128 + 1, 64);
    assert!(!ok);
}

#[test]
fn debit_and_credit() {
    let a = Account { key: key(0), balance: 100, nonce: 0 };
    let d = debit(a, 40);
    assert_eq!(d.balance, 60);
    assert_eq!(d.nonce, 1);
    assert_eq!(d.key, a.key);
    let c = credit(Account { key: key(1), balance: 0, nonce: 3 }, 40);
    assert_eq!(c.balance, 40);
    assert_eq!(c.nonce, 3);
    // out-of-range amounts wrap in the 64-bit domain
    assert_eq!(debit(a, 101).balance, u64::MAX);
    assert_eq!(credit(Account { key: key(1), balance: u64::MAX, nonce: 0 }, 1).balance, 0);
}

#[test]
fn account_leaf_digest() {
    let a = Account { key: key(3), balance: 7, nonce: 2 };
    assert_eq!(account_leaf(a), merge2(key(3), Digest { e0: 7, e1: 2, e2: 0, e3: 0 }));
    assert_ne!(account_leaf(a), account_leaf(Account { key: key(3), balance: 8, nonce: 2 }));
}

#[test]
fn single_transfer_scenario() {
    let mut accts = vec![Account { key: Digest { e0: 0, e1: 0, e2: 0, e3: 0 }, balance: 0, nonce: 0 }; 8];
    accts[0] = Account { key: key(0), balance: 100, nonce: 0 };
    accts[1] = Account { key: key(1), balance: 0, nonce: 0 };
    let transfers = vec![Transfer { sender: 0, receiver: 1, delta: 40 }];
    let m = TransactionMetadata::build(accts.clone(), &transfers).unwrap();
    assert_eq!(m.s_old_values[0], accts[0]);
    assert_eq!(m.r_old_values[0], accts[1]);
    let s_new = debit(m.s_old_values[0], 40);
    let r_new = credit(m.r_old_values[0], 40);
    assert_eq!((s_new.balance, s_new.nonce), (60, 1));
    assert_eq!((r_new.balance, r_new.nonce), (40, 0));
    assert_ne!(m.final_root, m.initial_roots[0]);
    assert!(verify_path(m.initial_roots[0], account_leaf(accts[0]), 0, &m.s_paths[0]));
    assert!(verify_path(m.final_root, account_leaf(r_new), 1, &m.r_paths[0]));
    // after the debit alone, both halves of the transfer reach the same root
    let mut mid = accts.clone();
    mid[0] = s_new;
    let mid_root = MerkleTree::new(mid.iter().map(|a| account_leaf(*a)).collect()).unwrap().root();
    assert!(verify_path(mid_root, account_leaf(s_new), 0, &m.s_paths[0]));
    assert!(verify_path(mid_root, account_leaf(accts[1]), 1, &m.r_paths[0]));
    // the new tree holds the new leaves
    let mut after = accts.clone();
    after[0] = s_new;
    after[1] = r_new;
    let tree = MerkleTree::new(after.iter().map(|a| account_leaf(*a)).collect()).unwrap();
    assert_eq!(tree.root(), m.final_root);
    // a message signed at nonce 0 hashes differently from one at nonce 1
    let c = key(9);
    let at0 = build_tx_message(key(0), key(1), 40, 0);
    let at1 = build_tx_message(key(0), key(1), 40, s_new.nonce);
    assert_ne!(hash_message(c, &at0), hash_message(c, &at1));
}

#[test]
fn batch_errors() {
    let t = vec![Transfer { sender: 0, receiver: 1, delta: 1 }];
    assert!(matches!(TransactionMetadata::build(accounts(6), &t), Err(BatchError::InvalidLeafCount)));
    // four leaves make a tree of depth two, and three is no power of two
    assert!(matches!(TransactionMetadata::build(accounts(4), &t), Err(BatchError::InvalidDepth)));
    assert!(TransactionMetadata::build(accounts(2), &t).is_ok());
    assert!(matches!(
        TransactionMetadata::build_random(accounts(4), 1, &draws(3, 1)),
        Err(BatchError::InvalidDepth)
    ));
    let bad = vec![Transfer { sender: 0, receiver: 8, delta: 1 }];
    assert!(matches!(TransactionMetadata::build(accounts(8), &bad), Err(BatchError::IndexOutOfBounds)));
    let same = vec![Transfer { sender: 2, receiver: 2, delta: 1 }];
    assert!(matches!(TransactionMetadata::build(accounts(8), &same), Err(BatchError::SameAccount)));
    assert!(matches!(
        TransactionMetadata::build_random(accounts(1), 1, &draws(3, 1)),
        Err(BatchError::InvalidLeafCount)
    ));
}

#[test]
fn batch_roots_chain() {
    let accts = accounts(8);
    let m = TransactionMetadata::build_random(accts.clone(), 6, &draws(18, 7)).unwrap();
    assert_eq!(m.initial_roots.len(), 6);
    let first = MerkleTree::new(accts.iter().map(|a| account_leaf(*a)).collect()).unwrap();
    assert_eq!(m.initial_roots[0], first.root());
    for u in 0..6 {
        let s = m.s_indices[u];
        let r = m.r_indices[u];
        assert_ne!(s, r);
        assert!(m.deltas[u] <= max_delta(m.s_old_values[u].balance, m.r_old_values[u].balance));
        assert!(range_check(m.deltas[u], m.s_old_values[u].balance, m.r_old_values[u].balance));
        assert!(verify_path(m.initial_roots[u], account_leaf(m.s_old_values[u]), s, &m.s_paths[u]));
        let next = if u + 1 < 6 { m.initial_roots[u + 1] } else { m.final_root };
        let r_new = credit(m.r_old_values[u], m.deltas[u]);
        assert!(verify_path(next, account_leaf(r_new), r, &m.r_paths[u]));
        assert_eq!(m.s_old_values[u].key, accts[s].key);
        assert_eq!(m.r_old_values[u].key, accts[r].key);
    }
}

#[test]
fn messages_and_signatures() {
    let accts = accounts(8);
    let mut m = TransactionMetadata::build_random(accts, 3, &draws(9, 5)).unwrap();
    assert!(m.signatures.is_empty());
    let msgs = m.messages();
    assert_eq!(msgs.len(), 3);
    for u in 0..3 {
        let s = m.s_old_values[u];
        assert_eq!(msgs[u], build_tx_message(s.key, m.r_old_values[u].key, m.deltas[u], s.nonce));
    }
    let root = m.final_root;
    let one = vec![Signature { commitment: key(1), response: vec![0; 32] }];
    assert!(matches!(m.attach_signatures(one), Err(BatchError::SignatureCount)));
    assert!(m.signatures.is_empty());
    let three: Vec<Signature> = (0..3).map(|u| Signature { commitment: key(u), response: vec![u as u8; 32] }).collect();
    assert!(m.attach_signatures(three).is_ok());
    assert_eq!(m.signatures.len(), 3);
    assert_eq!(m.signatures[2].response, vec![2u8; 32]);
    assert_eq!(m.final_root, root);
    let trace = build_trace(&msgs, &m.signatures);
    assert!(check_trace(&trace, &msgs, &m.signatures));
}

#[test]
fn new_keeps_its_arguments() {
    let sigs = vec![Signature { commitment: key(4), response: vec![9; 32] }];
    let m = TransactionMetadata::new(
        vec![digest_of(1)],
        digest_of(2),
        vec![accounts(1)[0]],
        vec![accounts(2)[1]],
        vec![0],
        vec![1],
        vec![vec![digest_of(3)]],
        vec![vec![digest_of(4)]],
        vec![17],
        sigs,
    );
    assert_eq!(m.initial_roots, vec![digest_of(1)]);
    assert_eq!(m.final_root, digest_of(2));
    assert_eq!(m.r_indices, vec![1]);
    assert_eq!(m.s_paths, vec![vec![digest_of(3)]]);
    assert_eq!(m.deltas, vec![17]);
    assert_eq!(m.signatures[0].response, vec![9; 32]);
}

#[test]
fn batch_follows_draws() {
    let accts = accounts(8);
    let d = draws(12, 11);
    let m = TransactionMetadata::build_random(accts.clone(), 4, &d).unwrap();
    let mut cur = accts;
    for u in 0..4 {
        let t = transfer_from_draws(&cur, d[3 * u], d[3 * u + 1], d[3 * u + 2]);
        assert_eq!((m.s_indices[u], m.r_indices[u], m.deltas[u]), (t.sender, t.receiver, t.delta));
        assert_eq!(m.s_old_values[u], cur[t.sender]);
        assert_eq!(m.r_old_values[u], cur[t.receiver]);
        cur[t.sender] = debit(cur[t.sender], t.delta);
        cur[t.receiver] = credit(cur[t.receiver], t.delta);
    }
}

#[test]
fn transfer_from_draws_picks_distinct_accounts() {
    let accts = accounts(4);
    let t = transfer_from_draws(&accts, 5, 1, 1_000_000);
    assert_eq!(t.sender, 1);
    assert_eq!(t.receiver, 2);
    assert_eq!(t.delta, 1_000_000 % 2001);
    let t = transfer_from_draws(&accts, 0, 6, 12345);
    assert_eq!((t.sender, t.receiver, t.delta), (0, 2, 12345 % 1001));
    let rich = vec![Account { key: key(0), balance: u64::MAX, nonce: 0 }, Account { key: key(1), balance: 0, nonce: 0 }];
    let t = transfer_from_draws(&rich, 0, 0, u64::MAX - 3);
    assert_eq!((t.sender, t.receiver, t.delta), (0, 1, u64::MAX - 3));
    let t = transfer_from_draws(&accts, 3, 7, 0);
    assert_eq!((t.sender, t.receiver, t.delta), (3, 0, 0));
}

#[test]
fn hash_schedule() {
    assert_eq!(hash_op(0), HashOp::Round(0));
    assert_eq!(hash_op(6), HashOp::Round(6));
    assert_eq!(hash_op(7), HashOp::Inject(0));
    assert_eq!(hash_op(15), HashOp::Inject(1));
    assert_eq!(hash_op(16), HashOp::Round(0));
    assert_eq!(hash_op(23), HashOp::Clear);
    assert_eq!(hash_op(24), HashOp::Hold);
    assert_eq!(hash_op(511), HashOp::Hold);
}

#[test]
fn scalar_mul_schedule() {
    assert_eq!(scalar_mul_op(0), MulOp::Double(254));
    assert_eq!(scalar_mul_op(1), MulOp::Add(254));
    assert_eq!(scalar_mul_op(2), MulOp::Double(253));
    assert_eq!(scalar_mul_op(509), MulOp::Add(0));
    assert_eq!(scalar_mul_op(510), MulOp::Finalize);
    assert_eq!(scalar_mul_op(511), MulOp::Idle);
}

#[test]
fn bits_of_bytes() {
    let b = vec![0b0000_0101u8, 0b1000_0000];
    assert!(bit_at(&b, 0));
    assert!(!bit_at(&b, 1));
    assert!(bit_at(&b, 2));
    assert!(bit_at(&b, 15));
    assert!(!bit_at(&b, 14));
}

#[test]
fn tx_message_layout() {
    let m = build_tx_message(key(0), key(1), 40, 3);
    assert_eq!(m.len(), 16);
    assert_eq!(&m[0..4], &[1, 3, 0, 11]);
    assert_eq!(&m[4..8], &[2, 5, 7, 11]);
    assert_eq!(m[8], 40);
    assert_eq!(m[9], 3);
    assert!(m[10..].iter().all(|x| *x == 0));
}

#[test]
fn sig_info_takes_first_hash_element() {
    let msg = build_tx_message(key(0), key(1), 40, 0);
    let sig = Signature { commitment: key(5), response: (0..32).collect() };
    let (s, h) = build_sig_info(&msg, &sig);
    assert_eq!(s, sig.response);
    let d = hash_message(sig.commitment, &msg);
    assert_eq!(&h[0..8], &d.e0.to_le_bytes());
    assert!(h[8..].iter().all(|x| *x == 0));
    assert_eq!(h.len(), 32);
}

#[test]
fn rows_follow_schedule() {
    let msg = build_tx_message(key(0), key(1), 40, 0);
    let c = key(5);
    let mut state = vec![9u64; TRACE_WIDTH];
    init_sig_verification_state(c, &mut state);
    assert_eq!(state, vec![0, 0, c.e0, c.e1, c.e2, c.e3, 0, 0, 0, 0, 0, 0, 0, 0]);
    let s_bytes = vec![0xffu8; 32];
    let h_bytes = vec![0u8; 32];
    let init = state.clone();
    update_sig_verification_state(0, &msg, &s_bytes, &h_bytes, &mut state);
    assert_ne!(&state[2..], &init[2..]);
    assert_eq!(state[0], 1);
    assert_eq!(state[1], 0);
    // an injection row overwrites the rate with the first chunk
    let mut st = vec![0u64; TRACE_WIDTH];
    update_sig_verification_state(7, &msg, &s_bytes, &h_bytes, &mut st);
    assert_eq!(&st[6..14], &msg[0..8]);
    // the final row sets the response column to one
    let mut st = vec![0u64; TRACE_WIDTH];
    update_sig_verification_state(510, &msg, &s_bytes, &h_bytes, &mut st);
    assert_eq!(st[0], 1);
}

#[test]
fn trace_of_five_signatures() {
    let accts = accounts(8);
    let m = TransactionMetadata::build_random(accts, 5, &draws(15, 3)).unwrap();
    let mut messages = Vec::new();
    let mut sigs = Vec::new();
    for u in 0..5 {
        let r_key = m.r_old_values[u].key;
        messages.push(build_tx_message(m.s_old_values[u].key, r_key, m.deltas[u], m.s_old_values[u].nonce));
        sigs.push(Signature { commitment: key(u as u64 + 20), response: draws(32, u as u64).iter().map(|x| *x as u8).collect() });
    }
    let trace = build_trace(&messages, &sigs);
    assert_eq!(trace.len(), 5 * SIG_CYCLE_LENGTH);
    assert!(trace.iter().all(|row| row.len() == TRACE_WIDTH));
    for u in 0..5 {
        let first = &trace[u * SIG_CYCLE_LENGTH];
        assert_eq!(&first[2..6], &[sigs[u].commitment.e0, sigs[u].commitment.e1, sigs[u].commitment.e2, sigs[u].commitment.e3]);
        let d = hash_message(sigs[u].commitment, &messages[u]);
        let last = &trace[u * SIG_CYCLE_LENGTH + SIG_CYCLE_LENGTH - 1];
        assert_eq!(&last[2..6], &[d.e0, d.e1, d.e2, d.e3]);
        assert!(last[6..14].iter().all(|x| *x == 0));
        assert_eq!(last[0], 1);
    }
    assert!(check_trace(&trace, &messages, &sigs));
}

#[test]
fn altered_traces_fail_the_constraints() {
    let messages = vec![build_tx_message(key(0), key(1), 40, 0), build_tx_message(key(2), key(3), 7, 5)];
    let sigs = vec![
        Signature { commitment: key(8), response: (0..32).map(|x| (x * 37) as u8).collect() },
        Signature { commitment: key(9), response: (0..32).map(|x| (x * 11 + 1) as u8).collect() },
    ];
    let trace = build_trace(&messages, &sigs);
    assert!(check_trace(&trace, &messages, &sigs));
    for (row, col) in [(0usize, 2usize), (5, 9), (300, 0), (511, 1), (512, 3), (1023, 13)] {
        let mut bad = trace.clone();
        bad[row][col] ^= 1;
        assert!(!check_trace(&bad, &messages, &sigs), "row {} column {}", row, col);
    }
    let mut short = trace.clone();
    short.pop();
    assert!(!check_trace(&short, &messages, &sigs));
    let mut other = vec![Signature { commitment: key(8), response: sigs[0].response.clone() }];
    other.push(Signature { commitment: key(10), response: sigs[1].response.clone() });
    assert!(!check_trace(&trace, &messages, &other));
    let other_msgs = vec![messages[0].clone(), build_tx_message(key(2), key(3), 7, 6)];
    assert!(!check_trace(&trace, &other_msgs, &sigs));
    assert!(check_trace(&vec![], &vec![], &vec![]));
}
