//! A fixed-depth binary Merkle tree over digests, compressed with the
//! permutation hash, with authentication paths and single-leaf updates.
//!
//! The tree is kept here rather than taken from winterfell: winterfell's
//! `MerkleTree` (0.13) builds and opens a tree but has no way to replace a
//! leaf, and a batch of transfers rewrites two leaves per transfer, at a
//! cost proportional to the depth.

use vstd::prelude::*;
use crate::hash::{merge, merge_of, Digest};

verus! {

/// `2^e`.
pub open spec fn pow2(e: nat) -> nat
    decreases e,
{
    if e == 0 {
        1
    } else {
        2 * pow2((e - 1) as nat)
    }
}

/// `n` is a power of two.
pub open spec fn is_pow2(n: nat) -> bool {
    exists|d: nat| pow2(d) == n
}

/// `x` shifted right by `t` bits.
pub open spec fn shr(x: int, t: nat) -> int
    decreases t,
{
    if t == 0 {
        x
    } else {
        shr(x / 2, (t - 1) as nat)
    }
}

/// Node `k` of the complete tree over `leaves` in heap numbering: the root is
/// node 1, the children of node `k` are `2k` and `2k + 1`, leaf `i` is node `n + i`.
pub open spec fn node_of(leaves: Seq<Digest>, k: int) -> Digest
    decreases 2 * leaves.len() - k,
{
    if k <= 0 {
        Digest::zero_spec()
    } else if k >= leaves.len() {
        leaves[k - leaves.len()]
    } else {
        merge_of(node_of(leaves, 2 * k), node_of(leaves, 2 * k + 1))
    }
}

/// The root of the complete tree over `leaves`.
pub open spec fn tree_root(leaves: Seq<Digest>) -> Digest {
    node_of(leaves, 1)
}

/// The other child of the parent of node `k`.
pub open spec fn sibling(k: int) -> int {
    if k % 2 == 0 {
        k + 1
    } else {
        k - 1
    }
}

/// The authentication path of leaf `index` in a tree of depth `depth`: the
/// siblings of the leaf and of each of its ancestors below the root.
pub open spec fn path_of(leaves: Seq<Digest>, index: int, depth: nat) -> Seq<Digest> {
    Seq::new(depth, |t: int| node_of(leaves, sibling(shr(leaves.len() + index, t as nat))))
}

/// One compression step of a path walk: the running digest is the left input
/// when the position is even.
pub open spec fn combine(h: Digest, s: Digest, index: int) -> Digest {
    if index % 2 == 0 {
        merge_of(h, s)
    } else {
        merge_of(s, h)
    }
}

/// The digest reached from `h` at position `index` by compressing with each
/// sibling of `path` in turn.
pub open spec fn climb(h: Digest, index: int, path: Seq<Digest>) -> Digest
    decreases path.len(),
{
    if path.len() == 0 {
        h
    } else {
        climb(combine(h, path[0], index), index / 2, path.drop_first())
    }
}

pub proof fn lemma_pow2_pos(e: nat)
    ensures
        pow2(e) >= 1,
    decreases e,
{
    if e > 0 {
        lemma_pow2_pos((e - 1) as nat);
    }
}

pub proof fn lemma_pow2_mono(a: nat, b: nat)
    requires
        a <= b,
    ensures
        pow2(a) <= pow2(b),
    decreases b,
{
    if a < b {
        lemma_pow2_mono(a, (b - 1) as nat);
        lemma_pow2_pos((b - 1) as nat);
    }
}

pub proof fn lemma_pow2_gt(e: nat)
    ensures
        pow2(e) > e,
    decreases e,
{
    if e > 0 {
        lemma_pow2_gt((e - 1) as nat);
        lemma_pow2_pos((e - 1) as nat);
    }
}

pub proof fn lemma_pow2_strict(a: nat, b: nat)
    requires
        a < b,
    ensures
        pow2(a) < pow2(b),
{
    lemma_pow2_mono(a, (b - 1) as nat);
    lemma_pow2_pos((b - 1) as nat);
}

/// A tree of `n` leaves has a depth of at least one whose successor is a
/// power of two.
pub open spec fn valid_leaf_count(n: nat) -> bool {
    exists|d: nat| d >= 1 && #[trigger] pow2(d) == n && is_pow2(d + 1)
}

proof fn lemma_shr_step(x: int, t: nat)
    requires
        x >= 0,
    ensures
        shr(x, t + 1) == shr(x, t) / 2,
        shr(x, t) >= 0,
    decreases t,
{
    assert(shr(x, t + 1) == shr(x / 2, t));
    if t > 0 {
        lemma_shr_step(x / 2, (t - 1) as nat);
        assert(shr(x, t) == shr(x / 2, (t - 1) as nat));
    }
}

proof fn lemma_climb_push(h: Digest, index: int, path: Seq<Digest>, s: Digest)
    requires
        index >= 0,
    ensures
        climb(h, index, path.push(s)) == combine(climb(h, index, path), s, shr(index, path.len())),
    decreases path.len(),
{
    if path.len() > 0 {
        assert(path.push(s).drop_first() =~= path.drop_first().push(s));
        assert(path.push(s)[0] == path[0]);
        lemma_climb_push(combine(h, path[0], index), index / 2, path.drop_first(), s);
        assert(shr(index, path.len()) == shr(index / 2, (path.len() - 1) as nat));
    } else {
        assert(path.push(s).drop_first().len() == 0);
        assert(climb(combine(h, s, index), index / 2, path.push(s).drop_first()) == combine(h, s, index));
    }
}

/// Inner node `j` of a node array is the compression of its two children.
pub open spec fn node_ok(nodes: Seq<Digest>, j: int) -> bool {
    nodes[j] == merge_of(nodes[2 * j], nodes[2 * j + 1])
}

/// The node array holds the complete tree over its leaves.
proof fn lemma_nodes(nodes: Seq<Digest>, n: int, k: int)
    requires
        n >= 1,
        nodes.len() == 2 * n,
        1 <= k < 2 * n,
        forall|j: int| 1 <= j < n ==> #[trigger] node_ok(nodes, j),
    ensures
        nodes[k] == node_of(nodes.subrange(n, 2 * n), k),
    decreases 2 * n - k,
{
    if k < n {
        lemma_nodes(nodes, n, 2 * k);
        lemma_nodes(nodes, n, 2 * k + 1);
        assert(node_ok(nodes, k));
    }
}

/// Walking the first `t` siblings of a leaf's path from the leaf reaches its
/// ancestor `t` levels up.
proof fn lemma_climb_prefix(leaves: Seq<Digest>, index: int, d: nat, t: nat)
    requires
        leaves.len() == pow2(d),
        0 <= index < leaves.len(),
        t <= d,
    ensures
        climb(leaves[index], index, path_of(leaves, index, d).take(t as int)) == node_of(
            leaves,
            shr(leaves.len() + index, t),
        ),
        shr(leaves.len() + index, t) == pow2((d - t) as nat) + shr(index, t),
        0 <= shr(index, t) < pow2((d - t) as nat),
    decreases t,
{
    let n = leaves.len() as int;
    if t == 0 {
        assert(path_of(leaves, index, d).take(0).len() == 0);
    } else {
        let t1 = (t - 1) as nat;
        lemma_climb_prefix(leaves, index, d, t1);
        let k = shr(n + index, t1);
        let idx = shr(index, t1);
        let m = (d - t) as nat;
        assert(pow2((d - t1) as nat) == 2 * pow2(m));
        let p = path_of(leaves, index, d);
        assert(p.take(t as int) =~= p.take(t1 as int).push(p[t1 as int]));
        lemma_climb_push(leaves[index], index, p.take(t1 as int), p[t1 as int]);
        lemma_shr_step(n + index, t1);
        lemma_shr_step(index, t1);
        lemma_pow2_mono((d - t1) as nat, d);
        lemma_pow2_pos(m);
        let up = k / 2;
        assert(up == pow2(m) + idx / 2);
        assert(1 <= up < n);
        assert(node_of(leaves, up) == merge_of(node_of(leaves, 2 * up), node_of(leaves, 2 * up + 1)));
    }
}

/// Recomputing the root from a leaf and its authentication path gives the
/// root of the tree.
pub proof fn lemma_path_reaches_root(leaves: Seq<Digest>, index: int, d: nat)
    requires
        leaves.len() == pow2(d),
        0 <= index < leaves.len(),
    ensures
        climb(leaves[index], index, path_of(leaves, index, d)) == tree_root(leaves),
{
    lemma_climb_prefix(leaves, index, d, d);
    assert(path_of(leaves, index, d).take(d as int) =~= path_of(leaves, index, d));
}

/// Rewriting a leaf with the value it already holds changes neither the root
/// nor the authentication path of that leaf.
pub proof fn lemma_update_same_value(leaves: Seq<Digest>, index: int, d: nat)
    requires
        0 <= index < leaves.len(),
    ensures
        tree_root(leaves.update(index, leaves[index])) == tree_root(leaves),
        path_of(leaves.update(index, leaves[index]), index, d) == path_of(leaves, index, d),
{
    assert(leaves.update(index, leaves[index]) =~= leaves);
}

proof fn lemma_branch_parent(c: int, m: int)
    requires
        c >= 2,
        on_branch(c, m),
    ensures
        on_branch(c / 2, m),
    decreases m,
{
    assert(on_branch(c / 2, c / 2));
    if m != c {
        assert(on_branch(c, m / 2));
        lemma_branch_parent(c, m / 2);
        assert(on_branch(c / 2, m) == on_branch(c / 2, m / 2));
    } else {
        assert(on_branch(c / 2, c) == on_branch(c / 2, c / 2));
    }
}

proof fn lemma_branch_shr(j: int, m: int) -> (t: nat)
    requires
        j >= 1,
        on_branch(j, m),
    ensures
        shr(m, t) == j,
    decreases m,
{
    if m == j {
        0
    } else {
        let t0 = lemma_branch_shr(j, m / 2);
        assert(shr(m, t0 + 1) == shr(m / 2, t0));
        t0 + 1
    }
}

proof fn lemma_shr_add(x: int, a: nat, b: nat)
    requires
        x >= 0,
    ensures
        shr(x, a + b) == shr(shr(x, a), b),
    decreases a,
{
    if a > 0 {
        lemma_shr_add(x / 2, (a - 1) as nat, b);
        assert(shr(x, a + b) == shr(x / 2, (a + b - 1) as nat));
    }
}

proof fn lemma_shr_le(x: int, t: nat)
    requires
        x >= 0,
        t >= 1,
    ensures
        0 <= shr(x, t) <= x / 2,
    decreases t,
{
    lemma_shr_step(x, 0);
    if t > 1 {
        lemma_shr_le(x / 2, (t - 1) as nat);
    }
}

/// Nodes off the branch of node `m` do not depend on the leaf under `m`.
proof fn lemma_off_branch(leaves: Seq<Digest>, m: int, x: Digest, k: int)
    requires
        leaves.len() <= m < 2 * leaves.len(),
        1 <= k < 2 * leaves.len(),
        !on_branch(k, m),
    ensures
        node_of(leaves.update(m - leaves.len(), x), k) == node_of(leaves, k),
    decreases 2 * leaves.len() - k,
{
    let n = leaves.len() as int;
    let up = leaves.update(m - n, x);
    assert(up.len() == n);
    if k < n {
        if on_branch(2 * k, m) {
            lemma_branch_parent(2 * k, m);
        }
        if on_branch(2 * k + 1, m) {
            lemma_branch_parent(2 * k + 1, m);
        }
        lemma_off_branch(leaves, m, x, 2 * k);
        lemma_off_branch(leaves, m, x, 2 * k + 1);
        assert(node_of(up, k) == merge_of(node_of(up, 2 * k), node_of(up, 2 * k + 1)));
    } else {
        assert(k != m) by {
            if k == m {
                assert(on_branch(k, k));
            }
        }
        assert(up[k - n] == leaves[k - n]);
    }
}

/// The authentication path of a leaf does not depend on the leaf itself.
pub proof fn lemma_path_ignores_own_leaf(leaves: Seq<Digest>, index: int, d: nat, x: Digest)
    requires
        leaves.len() == pow2(d),
        0 <= index < leaves.len(),
    ensures
        path_of(leaves.update(index, x), index, d) == path_of(leaves, index, d),
{
    let n = leaves.len() as int;
    let m = n + index;
    assert forall|t: int| 0 <= t < d implies #[trigger] path_of(leaves.update(index, x), index, d)[t]
        == path_of(leaves, index, d)[t] by {
        lemma_climb_prefix(leaves, index, d, t as nat);
        lemma_pow2_mono(1, (d - t) as nat);
        let a = shr(m, t as nat);
        let s = sibling(a);
        assert(a >= 2);
        assert(1 <= s < 2 * n) by {
            lemma_pow2_mono((d - t) as nat, d);
            assert(pow2((d - t) as nat) == 2 * pow2((d - t - 1) as nat));
        }
        if on_branch(s, m) {
            let t2 = lemma_branch_shr(s, m);
            lemma_shr_step(m, t as nat);
            if t2 < t {
                lemma_shr_add(m, t2, (t - t2) as nat);
                lemma_shr_le(s, (t - t2) as nat);
            } else if t2 > t {
                lemma_shr_add(m, t as nat, (t2 - t) as nat);
                lemma_shr_le(a, (t2 - t) as nat);
            }
            assert(false);
        }
        lemma_off_branch(leaves, m, x, s);
        assert(leaves.update(index, x).len() == n);
    }
    assert(path_of(leaves.update(index, x), index, d) =~= path_of(leaves, index, d));
}

/// A path is checked against a root by recomputing the root from the leaf.
pub fn verify_path(root: Digest, leaf: Digest, index: usize, path: &Vec<Digest>) -> (r: bool)
    ensures
        r == (climb(leaf, index as int, path@) == root),
{
    let mut h = leaf;
    let mut idx = index;
    let mut t: usize = 0;
    assert(path@.skip(0) =~= path@);
    while t < path.len()
        invariant
            t <= path@.len(),
            climb(leaf, index as int, path@) == climb(h, idx as int, path@.skip(t as int)),
        decreases path@.len() - t,
    {
        let s = path[t];
        assert(path@.skip(t as int).drop_first() =~= path@.skip(t as int + 1));
        h = if idx % 2 == 0 { merge(h, s) } else { merge(s, h) };
        idx = idx / 2;
        t = t + 1;
    }
    assert(path@.skip(t as int).len() == 0);
    h == root
}

/// `j` is `k` or one of its ancestors.
pub open spec fn on_branch(j: int, k: int) -> bool
    decreases k,
{
    if k <= 0 || k < j {
        false
    } else if k == j {
        true
    } else {
        on_branch(j, k / 2)
    }
}

proof fn lemma_on_branch_self(j: int)
    requires
        j >= 1,
    ensures
        on_branch(j, j),
{
}

/// Recomputing node `k` from its children leaves every node off the branch
/// above `k` consistent.
proof fn lemma_refresh_branch(before: Seq<Digest>, n: int, k: int)
    requires
        1 <= k < n,
        before.len() == 2 * n,
        forall|j: int|
            1 <= j < n && !on_branch(j, k) ==> #[trigger] node_ok(before, j),
    ensures
        forall|j: int|
            1 <= j < n && !on_branch(j, k / 2) ==> #[trigger] node_ok(
                before.update(k, merge_of(before[2 * k], before[2 * k + 1])),
                j,
            ),
{
    let after = before.update(k, merge_of(before[2 * k], before[2 * k + 1]));
    assert forall|j: int| 1 <= j < n && !on_branch(j, k / 2) implies #[trigger] node_ok(after, j) by {
        if j != k {
            assert(!on_branch(j, k));
            assert(node_ok(before, j));
            if 2 * j == k || 2 * j + 1 == k {
                lemma_on_branch_self(j);
                assert(j == k / 2);
            }
        }
    }
}

/// The exponent of `n` when `n` is a power of two.
pub fn exact_log2(n: usize) -> (r: Option<usize>)
    ensures
        r is Some <==> is_pow2(n as nat),
        r matches Some(d) ==> pow2(d as nat) == n && d <= n,
{
    let mut depth: usize = 0;
    let mut p: u128 = 1;
    while p < n as u128
        invariant
            p == pow2(depth as nat),
            1 <= p <= 2 * (n as int) + 1,
            depth <= p,
            forall|d: nat| d < depth ==> pow2(d) < n,
        decreases 2 * (n as int) + 1 - p,
    {
        proof {
            assert forall|d: nat| d < depth + 1 implies pow2(d) < n by {
                if d < depth {
                }
            }
        }
        p = p * 2;
        depth = depth + 1;
    }
    if p != n as u128 {
        proof {
            if is_pow2(n as nat) {
                let d = choose|d: nat| pow2(d) == n;
                if d > depth {
                    lemma_pow2_mono(depth as nat, d);
                }
            }
        }
        return None;
    }
    Some(depth)
}

/// Errors of tree construction and of leaf access.
#[derive(Clone, Copy, Debug, PartialEq, Eq, Structural)]
pub enum TreeError {
    /// The number of leaves is not a power of two of at least two.
    InvalidLeafCount,
    /// The leaf index lies outside the tree.
    IndexOutOfBounds,
}

/// A complete binary Merkle tree with `2^depth` leaves.
pub struct MerkleTree {
    depth: usize,
    nodes: Vec<Digest>,
}

impl View for MerkleTree {
    type V = Seq<Digest>;

    /// The leaves, in order.
    closed spec fn view(&self) -> Seq<Digest> {
        self.nodes@.subrange(pow2(self.depth as nat) as int, (2 * pow2(self.depth as nat)) as int)
    }
}

impl MerkleTree {
    /// The number of leaves.
    pub closed spec fn width(&self) -> nat {
        pow2(self.depth as nat)
    }

    pub closed spec fn depth_spec(&self) -> nat {
        self.depth as nat
    }

    /// Every inner node is the compression of its two children.
    pub closed spec fn wf(&self) -> bool {
        &&& self.depth >= 1
        &&& self.nodes@.len() == 2 * self.width()
        &&& forall|j: int|
            1 <= j < self.width() ==> #[trigger] node_ok(self.nodes@, j)
    }

    /// The root digest.
    pub open spec fn root_spec(&self) -> Digest {
        tree_root(self@)
    }

    proof fn lemma_wf_nodes(&self, k: int)
        requires
            self.wf(),
            1 <= k < 2 * self.width(),
        ensures
            self.nodes@[k] == node_of(self@, k),
            self@.len() == self.width(),
    {
        lemma_nodes(self.nodes@, self.width() as int, k);
    }

    /// Builds the tree over `leaves`, whose number must be a power of two of
    /// at least two.
    pub fn new(leaves: Vec<Digest>) -> (r: Result<MerkleTree, TreeError>)
        requires
            leaves@.len() <= usize::MAX / 4,
        ensures
            r is Ok <==> (leaves@.len() >= 2 && is_pow2(leaves@.len() as nat)),
            r matches Ok(t) ==> t.wf() && t@ == leaves@ && pow2(t.depth_spec()) == leaves@.len()
                && t.depth_spec() >= 1,
            r matches Err(e) ==> e == TreeError::InvalidLeafCount,
    {
        let n = leaves.len();
        let depth = match exact_log2(n) {
            Some(d) if d >= 1 => d,
            _ => {
                proof {
                    if leaves@.len() >= 2 && is_pow2(n as nat) {
                        let d = choose|d: nat| pow2(d) == n;
                        if d == 0 {
                            assert(pow2(0) == 1);
                        }
                    }
                }
                return Err(TreeError::InvalidLeafCount);
            },
        };
        proof {
            lemma_pow2_pos((depth - 1) as nat);
        }
        let mut nodes: Vec<Digest> = Vec::new();
        let mut i: usize = 0;
        while i < n
            invariant
                i <= n,
                nodes@.len() == i,
            decreases n - i,
        {
            nodes.push(Digest::zero());
            i = i + 1;
        }
        let mut i: usize = 0;
        while i < n
            invariant
                i <= n,
                n == leaves@.len(),
                nodes@.len() == n + i,
                forall|j: int| 0 <= j < i ==> nodes@[n + j] == leaves@[j],
            decreases n - i,
        {
            nodes.push(leaves[i]);
            i = i + 1;
        }
        let mut k: usize = n - 1;
        while k >= 1
            invariant
                n >= 2,
                n <= usize::MAX / 4,
                n == leaves@.len(),
                k < n,
                nodes@.len() == 2 * n,
                forall|j: int| 0 <= j < n ==> nodes@[n + j] == leaves@[j],
                forall|j: int|
                    k < j < n ==> #[trigger] node_ok(nodes@, j),
            decreases k,
        {
            let h = merge(nodes[2 * k], nodes[2 * k + 1]);
            let ghost before = nodes@;
            nodes.set(k, h);
            assert forall|j: int| k <= j < n implies #[trigger] node_ok(nodes@, j) by {
                if j > k {
                    assert(node_ok(before, j));
                }
            }
            k = k - 1;
        }
        let t = MerkleTree { depth, nodes };
        assert(t@ =~= leaves@);
        assert(is_pow2(n as nat));
        Ok(t)
    }

    /// The authentication path of leaf `index`.
    pub fn prove(&self, index: usize) -> (r: Result<Vec<Digest>, TreeError>)
        requires
            self.wf(),
        ensures
            r is Ok <==> index < self@.len(),
            r matches Ok(p) ==> p@ == path_of(self@, index as int, self.depth_spec()) && climb(
                self@[index as int],
                index as int,
                p@,
            ) == self.root_spec(),
            r matches Err(e) ==> e == TreeError::IndexOutOfBounds,
    {
        proof {
            lemma_pow2_pos(self.depth as nat);
            self.lemma_wf_nodes(1);
        }
        let n = self.nodes.len() / 2;
        if index >= n {
            return Err(TreeError::IndexOutOfBounds);
        }
        let ghost d = self.depth as nat;
        let ghost full = path_of(self@, index as int, d);
        let mut path: Vec<Digest> = Vec::new();
        let mut k: usize = n + index;
        let mut t: usize = 0;
        while t < self.depth
            invariant
                self.wf(),
                n == self.width(),
                n == self@.len(),
                d == self.depth,
                0 <= index < n,
                t <= d,
                k == shr(n + index, t as nat),
                full == path_of(self@, index as int, d),
                path@ == full.take(t as int),
            decreases d - t,
        {
            proof {
                lemma_climb_prefix(self@, index as int, d, t as nat);
                lemma_pow2_mono(1, (d - t) as nat);
                lemma_pow2_mono((d - t) as nat, d);
                lemma_shr_step(n + index, t as nat);
            }
            let sib = if k % 2 == 0 { k + 1 } else { k - 1 };
            proof {
                self.lemma_wf_nodes(sib as int);
            }
            assert(sib as int == sibling(k as int));
            assert(full[t as int] == self.nodes@[sib as int]);
            path.push(self.nodes[sib]);
            assert(path@ =~= full.take(t as int + 1));
            k = k / 2;
            t = t + 1;
        }
        proof {
            assert(full.take(d as int) =~= full);
            lemma_path_reaches_root(self@, index as int, d);
        }
        Ok(path)
    }

    /// Replaces leaf `index` by `leaf` and recomputes its ancestors.
    pub fn update(&mut self, index: usize, leaf: Digest) -> (r: Result<(), TreeError>)
        requires
            old(self).wf(),
        ensures
            final(self).wf(),
            final(self).depth_spec() == old(self).depth_spec(),
            r is Ok <==> index < old(self)@.len(),
            r is Ok ==> final(self)@ == old(self)@.update(index as int, leaf),
            r matches Err(e) ==> e == TreeError::IndexOutOfBounds && final(self)@ == old(self)@,
    {
        proof {
            lemma_pow2_pos(self.depth as nat);
            self.lemma_wf_nodes(1);
            lemma_pow2_mono(1, self.depth as nat);
        }
        let len = self.nodes.len();
        let n = len / 2;
        if index >= n {
            return Err(TreeError::IndexOutOfBounds);
        }
        self.nodes.set(n + index, leaf);
        assert(self@ =~= old(self)@.update(index as int, leaf));
        let mut k: usize = (n + index) / 2;
        assert forall|j: int| 1 <= j < n && !on_branch(j, k as int) implies #[trigger] node_ok(self.nodes@, j) by {
            assert(node_ok(old(self).nodes@, j));
            if j != k {
                assert(j != (n + index) / 2);
            } else {
                assert(on_branch(j, j));
            }
        }
        while k >= 1
            invariant
                self.depth == old(self).depth,
                self.depth >= 1,
                n == self.width(),
                n >= 2,
                self.nodes@.len() == 2 * n,
                len == 2 * n,
                k < n,
                self@ == old(self)@.update(index as int, leaf),
                forall|j: int|
                    1 <= j < n && !on_branch(j, k as int) ==> #[trigger] node_ok(self.nodes@, j),
            decreases k,
        {
            let h = merge(self.nodes[2 * k], self.nodes[2 * k + 1]);
            let ghost before = self.nodes@;
            self.nodes.set(k, h);
            assert(self@ =~= old(self)@.update(index as int, leaf));
            proof {
                lemma_refresh_branch(before, n as int, k as int);
            }
            k = k / 2;
        }
        Ok(())
    }

    /// The depth of the tree.
    pub fn depth(&self) -> (r: usize)
        ensures
            r == self.depth_spec(),
    {
        self.depth
    }

    /// The root digest.
    pub fn root(&self) -> (r: Digest)
        requires
            self.wf(),
        ensures
            r == self.root_spec(),
    {
        proof {
            lemma_pow2_pos(self.depth as nat);
            self.lemma_wf_nodes(1);
        }
        self.nodes[1]
    }
}

} // verus!
