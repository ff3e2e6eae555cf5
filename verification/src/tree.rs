use std::sync::Arc;

use vstd::prelude::*;

use crate::hash::{poseidon_hash, poseidon_of, Field};
use crate::merkle::{fold_proof, lemma_pow2_mono, lemma_pow2_pos, lemma_proof_reconstructs_root, merkle_root, pow2, proof_of, Branch};

verus! {

/// A persistent tree node. An `Empty` node stands for a whole all-empty
/// subtree of whatever depth its position gives it; `Internal` nodes carry
/// their Merkle hash and share untouched children with older versions.
enum Node {
    Empty,
    Leaf { value: Field },
    Internal { hash: Field, left: Arc<Node>, right: Arc<Node> },
}

/// The table of all-empty subtree roots: entry `k` is the root of an empty
/// subtree of depth `k`, entry `0` the empty leaf value itself.
spec fn eh_ok(eh: Seq<Field>) -> bool {
    &&& eh.len() >= 1
    &&& forall|k: int| 0 <= k < eh.len() ==> (#[trigger] eh[k]).reduced()
    &&& forall|k: int| 1 <= k < eh.len() ==> (#[trigger] eh[k]) == poseidon_of(
        eh[k - 1],
        eh[k - 1],
    )
}

impl Node {
    /// The leaves of the subtree of depth `d` this node stands for, in index
    /// order, with `e` the empty leaf value.
    spec fn leaves(&self, d: nat, e: Field) -> Seq<Field>
        decreases d,
    {
        if d == 0 {
            match self {
                Node::Leaf { value } => seq![*value],
                _ => seq![e],
            }
        } else {
            match self {
                Node::Internal { left, right, .. } => left.leaves((d - 1) as nat, e) + right.leaves(
                    (d - 1) as nat,
                    e,
                ),
                _ => Seq::new(pow2(d), |j: int| e),
            }
        }
    }

    /// The Merkle root of this node at depth `d`.
    spec fn root_hash(&self, d: nat, eh: Seq<Field>) -> Field {
        match self {
            Node::Empty => eh[d as int],
            Node::Leaf { value } => *value,
            Node::Internal { hash, .. } => *hash,
        }
    }

    /// Well-formedness: leaves sit at depth zero only, every internal hash is
    /// the Poseidon hash of its children's roots, and every stored hash is
    /// reduced.
    spec fn wf(&self, d: nat, eh: Seq<Field>) -> bool
        decreases d,
    {
        match self {
            Node::Empty => true,
            Node::Leaf { value } => d == 0 && value.reduced(),
            Node::Internal { hash, left, right } => d >= 1 && left.wf((d - 1) as nat, eh)
                && right.wf((d - 1) as nat, eh) && hash.reduced() && hash == poseidon_of(
                left.root_hash((d - 1) as nat, eh),
                right.root_hash((d - 1) as nat, eh),
            ),
        }
    }

    proof fn lemma_leaves_len(&self, d: nat, e: Field)
        ensures
            self.leaves(d, e).len() == pow2(d),
        decreases d,
    {
        if d > 0 {
            match self {
                Node::Internal { left, right, .. } => {
                    left.lemma_leaves_len((d - 1) as nat, e);
                    right.lemma_leaves_len((d - 1) as nat, e);
                },
                _ => {},
            }
        }
    }

    /// A well-formed node's stored root is the Merkle root of its leaves.
    proof fn lemma_root_is_merkle(&self, d: nat, eh: Seq<Field>)
        requires
            self.wf(d, eh),
            eh_ok(eh),
            d < eh.len(),
        ensures
            self.root_hash(d, eh) == merkle_root(self.leaves(d, eh[0])),
        decreases d,
    {
        match self {
            Node::Empty => {
                lemma_empty_root(eh, d);
                assert(self.leaves(d, eh[0]) =~= Seq::new(pow2(d), |j: int| eh[0]));
            },
            Node::Leaf { value } => {},
            Node::Internal { hash, left, right } => {
                let dm = (d - 1) as nat;
                left.lemma_root_is_merkle(dm, eh);
                right.lemma_root_is_merkle(dm, eh);
                left.lemma_leaves_len(dm, eh[0]);
                right.lemma_leaves_len(dm, eh[0]);
                lemma_pow2_pos(dm);
                let ll = left.leaves(dm, eh[0]);
                let rl = right.leaves(dm, eh[0]);
                let s = ll + rl;
                let half = s.len() as int / 2;
                assert(s.take(half) =~= ll);
                assert(s.skip(half) =~= rl);
            },
        }
    }

    /// A well-formed node's root is reduced.
    proof fn lemma_root_reduced(&self, d: nat, eh: Seq<Field>)
        requires
            self.wf(d, eh),
            eh_ok(eh),
            d < eh.len(),
        ensures
            self.root_hash(d, eh).reduced(),
    {
    }
}

/// The root of an all-empty layer of `2^d` leaves is the table entry for
/// depth `d`.
proof fn lemma_empty_root(eh: Seq<Field>, d: nat)
    requires
        eh_ok(eh),
        d < eh.len(),
    ensures
        merkle_root(Seq::new(pow2(d), |j: int| eh[0])) == eh[d as int],
    decreases d,
{
    lemma_pow2_pos(d);
    if d > 0 {
        let dm = (d - 1) as nat;
        lemma_empty_root(eh, dm);
        lemma_pow2_pos(dm);
        let s = Seq::new(pow2(d), |j: int| eh[0]);
        let half = s.len() as int / 2;
        assert(s.len() == 2 * pow2(dm));
        assert(s.take(half) =~= Seq::new(pow2(dm), |j: int| eh[0]));
        assert(s.skip(half) =~= Seq::new(pow2(dm), |j: int| eh[0]));
    }
}

/// `2^d` as a machine integer.
fn pow2_exec(d: usize) -> (r: usize)
    requires
        d <= 31,
    ensures
        r == pow2(d as nat),
{
    proof {
        reveal_with_fuel(pow2, 33);
        assert(pow2(31) == 0x80000000);
        lemma_pow2_mono(d as nat, 31);
    }
    let mut r: usize = 1;
    let mut i: usize = 0;
    while i < d
        invariant
            i <= d,
            d <= 31,
            r == pow2(i as nat),
            pow2(d as nat) <= 0x80000000,
        decreases d - i,
    {
        proof {
            lemma_pow2_mono((i + 1) as nat, d as nat);
        }
        r = r * 2;
        i = i + 1;
    }
    r
}

fn node_root(n: &Node, d: usize, eh: &Vec<Field>) -> (r: Field)
    requires
        n.wf(d as nat, eh@),
        eh_ok(eh@),
        (d as int) < eh@.len(),
    ensures
        r == n.root_hash(d as nat, eh@),
        r.reduced(),
{
    proof {
        n.lemma_root_reduced(d as nat, eh@);
    }
    match n {
        Node::Empty => eh[d],
        Node::Leaf { value } => *value,
        Node::Internal { hash, .. } => *hash,
    }
}

fn node_get_leaf(n: &Node, d: usize, index: usize, eh: &Vec<Field>) -> (r: Field)
    requires
        n.wf(d as nat, eh@),
        eh_ok(eh@),
        (d as int) < eh@.len(),
        d <= 31,
        index < pow2(d as nat),
    ensures
        r == n.leaves(d as nat, eh@[0])[index as int],
    decreases d,
{
    if d == 0 {
        match n {
            Node::Leaf { value } => *value,
            _ => eh[0],
        }
    } else {
        match n {
            Node::Internal { left, right, .. } => {
                let half = pow2_exec(d - 1);
                proof {
                    left.lemma_leaves_len((d - 1) as nat, eh@[0]);
                    right.lemma_leaves_len((d - 1) as nat, eh@[0]);
                }
                if index < half {
                    node_get_leaf(&**left, d - 1, index, eh)
                } else {
                    node_get_leaf(&**right, d - 1, index - half, eh)
                }
            },
            _ => {
                proof {
                    assert(n is Empty);
                }
                eh[0]
            },
        }
    }
}

fn node_update(n: &Node, d: usize, index: usize, value: &Field, eh: &Vec<Field>) -> (r: Node)
    requires
        n.wf(d as nat, eh@),
        eh_ok(eh@),
        (d as int) < eh@.len(),
        d <= 31,
        index < pow2(d as nat),
        value.reduced(),
    ensures
        r.wf(d as nat, eh@),
        r.leaves(d as nat, eh@[0]) == n.leaves(d as nat, eh@[0]).update(index as int, *value),
    decreases d,
{
    let ghost e = eh@[0];
    if d == 0 {
        let r = Node::Leaf { value: *value };
        proof {
            assert(r.wf(d as nat, eh@));
            assert(r.leaves(0, e) =~= n.leaves(0, e).update(0, *value));
        }
        r
    } else {
        let half = pow2_exec(d - 1);
        let dm = d - 1;
        match n {
            Node::Internal { hash, left, right } => {
                proof {
                    left.lemma_leaves_len(dm as nat, e);
                    right.lemma_leaves_len(dm as nat, e);
                }
                let ghost ll = left.leaves(dm as nat, e);
                let ghost rl = right.leaves(dm as nat, e);
                if index < half {
                    let newl = Arc::new(node_update(&**left, dm, index, value, eh));
                    let lr = node_root(&*newl, dm, eh);
                    let rr = node_root(&**right, dm, eh);
                    let h = poseidon_hash(&lr, &rr);
                    let rclone = right.clone();
                    proof {
                        assert((d as nat - 1) as nat == dm as nat);
                    }
                    let r = Node::Internal { hash: h, left: newl, right: rclone };
                    proof {
                        assert(r.wf(d as nat, eh@));
                        assert(r.leaves(d as nat, e) =~= (ll + rl).update(index as int, *value));
                    }
                    r
                } else {
                    let newr = Arc::new(node_update(&**right, dm, index - half, value, eh));
                    let lr = node_root(&**left, dm, eh);
                    let rr = node_root(&*newr, dm, eh);
                    let h = poseidon_hash(&lr, &rr);
                    let r = Node::Internal { hash: h, left: left.clone(), right: newr };
                    proof {
                        assert((d as nat - 1) as nat == dm as nat);
                        assert(r.wf(d as nat, eh@));
                        assert(r.leaves(d as nat, e) =~= (ll + rl).update(index as int, *value));
                    }
                    r
                }
            },
            _ => {
                proof {
                    assert(n is Empty);
                }
                let ghost el = Node::Empty.leaves(dm as nat, e);
                proof {
                    Node::Empty.lemma_leaves_len(dm as nat, e);
                    assert(n.leaves(d as nat, e) =~= el + el);
                }
                if index < half {
                    let newl = Arc::new(node_update(&Node::Empty, dm, index, value, eh));
                    let lr = node_root(&*newl, dm, eh);
                    let rr = eh[dm];
                    let h = poseidon_hash(&lr, &rr);
                    let rce = Arc::new(Node::Empty);
                    let r = Node::Internal { hash: h, left: newl, right: rce };
                    proof {
                        assert((d as nat - 1) as nat == dm as nat);
                        assert(rce.wf(dm as nat, eh@));
                        assert(rce.root_hash(dm as nat, eh@) == eh@[dm as int]);
                        assert(r.wf(d as nat, eh@));
                        assert(r.leaves(d as nat, e) =~= (el + el).update(index as int, *value));
                        assert(r.leaves(d as nat, e) == n.leaves(d as nat, e).update(
                            index as int,
                            *value,
                        ));
                    }
                    r
                } else {
                    let newr = Arc::new(node_update(&Node::Empty, dm, index - half, value, eh));
                    let lr = eh[dm];
                    let rr = node_root(&*newr, dm, eh);
                    let h = poseidon_hash(&lr, &rr);
                    let lce = Arc::new(Node::Empty);
                    let r = Node::Internal { hash: h, left: lce, right: newr };
                    proof {
                        assert((d as nat - 1) as nat == dm as nat);
                        assert(lce.wf(dm as nat, eh@));
                        assert(lce.root_hash(dm as nat, eh@) == eh@[dm as int]);
                        assert(r.wf(d as nat, eh@));
                        assert(r.leaves(d as nat, e) =~= (el + el).update(index as int, *value));
                        assert(r.leaves(d as nat, e) == n.leaves(d as nat, e).update(
                            index as int,
                            *value,
                        ));
                    }
                    r
                }
            },
        }
    }
}

fn node_proof(n: &Node, d: usize, index: usize, eh: &Vec<Field>) -> (p: Vec<Branch>)
    requires
        n.wf(d as nat, eh@),
        eh_ok(eh@),
        (d as int) < eh@.len(),
        d <= 31,
        index < pow2(d as nat),
    ensures
        p@ == proof_of(n.leaves(d as nat, eh@[0]), index as int),
        p@.len() == d,
    decreases d,
{
    let ghost e = eh@[0];
    if d == 0 {
        let p: Vec<Branch> = Vec::new();
        p
    } else {
        let half = pow2_exec(d - 1);
        let dm = d - 1;
        let ghost s = n.leaves(d as nat, e);
        match n {
            Node::Internal { left, right, .. } => {
                proof {
                    left.lemma_leaves_len(dm as nat, e);
                    right.lemma_leaves_len(dm as nat, e);
                    left.lemma_root_is_merkle(dm as nat, eh@);
                    right.lemma_root_is_merkle(dm as nat, eh@);
                    assert(s.take(half as int) =~= left.leaves(dm as nat, e));
                    assert(s.skip(half as int) =~= right.leaves(dm as nat, e));
                }
                if index < half {
                    let rr = node_root(&**right, dm, eh);
                    let mut p = node_proof(&**left, dm, index, eh);
                    p.push(Branch::Left(rr));
                    proof {
                        assert(p@ =~= proof_of(s.take(half as int), index as int).push(
                            Branch::Left(merkle_root(s.skip(half as int))),
                        ));
                    }
                    p
                } else {
                    let lr = node_root(&**left, dm, eh);
                    let mut p = node_proof(&**right, dm, index - half, eh);
                    p.push(Branch::Right(lr));
                    proof {
                        assert(p@ =~= proof_of(s.skip(half as int), index as int - half as int).push(
                            Branch::Right(merkle_root(s.take(half as int))),
                        ));
                    }
                    p
                }
            },
            _ => {
                proof {
                    assert(n is Empty);
                    Node::Empty.lemma_leaves_len(dm as nat, e);
                    lemma_empty_root(eh@, dm as nat);
                    assert(s.take(half as int) =~= Node::Empty.leaves(dm as nat, e));
                    assert(s.skip(half as int) =~= Node::Empty.leaves(dm as nat, e));
                    assert(Node::Empty.leaves(dm as nat, e) =~= Seq::new(
                        pow2(dm as nat),
                        |j: int| e,
                    ));
                }
                let rr = eh[dm];
                if index < half {
                    let mut p = node_proof(&Node::Empty, dm, index, eh);
                    p.push(Branch::Left(rr));
                    proof {
                        assert(p@ =~= proof_of(s.take(half as int), index as int).push(
                            Branch::Left(merkle_root(s.skip(half as int))),
                        ));
                    }
                    p
                } else {
                    let mut p = node_proof(&Node::Empty, dm, index - half, eh);
                    p.push(Branch::Right(rr));
                    proof {
                        assert(p@ =~= proof_of(s.skip(half as int), index as int - half as int).push(
                            Branch::Right(merkle_root(s.take(half as int))),
                        ));
                    }
                    p
                }
            },
        }
    }
}

fn clone_hashes(v: &Vec<Field>) -> (r: Vec<Field>)
    ensures
        r@ == v@,
{
    let mut r: Vec<Field> = Vec::new();
    let mut i: usize = 0;
    while i < v.len()
        invariant
            i <= v.len(),
            r@ == v@.take(i as int),
        decreases v.len() - i,
    {
        r.push(v[i]);
        proof {
            assert(r@ =~= v@.take(i as int + 1));
        }
        i = i + 1;
    }
    proof {
        assert(v@.take(v@.len() as int) =~= v@);
    }
    r
}

/// A fixed-depth persistent Poseidon Merkle tree. The top
/// `dense_prefix_depth` levels are materialized as nodes at construction;
/// all-empty subtrees below collapse to a shared sentinel. `update` builds
/// `O(depth)` fresh nodes and shares every untouched subtree with the old
/// version, so snapshots are cheap and immutable.
pub struct PoseidonTree {
    depth: usize,
    dense_prefix_depth: usize,
    num_leaves: usize,
    empty_hashes: Vec<Field>,
    root: Arc<Node>,
}

impl View for PoseidonTree {
    type V = Seq<Field>;

    closed spec fn view(&self) -> Seq<Field> {
        self.root.leaves(self.depth as nat, self.empty_hashes@[0])
    }
}

impl PoseidonTree {
    pub closed spec fn wf(self) -> bool {
        &&& self.depth <= 31
        &&& self.dense_prefix_depth <= self.depth
        &&& self.empty_hashes@.len() == self.depth + 1
        &&& eh_ok(self.empty_hashes@)
        &&& self.num_leaves == pow2(self.depth as nat)
        &&& self.root.wf(self.depth as nat, self.empty_hashes@)
    }

    pub closed spec fn depth_spec(self) -> nat {
        self.depth as nat
    }

    pub closed spec fn empty_value_spec(self) -> Field {
        self.empty_hashes@[0]
    }

    /// A well-formed tree holds exactly `2^depth` leaves, all reduced.
    pub proof fn lemma_wf_facts(self)
        requires
            self.wf(),
        ensures
            self@.len() == pow2(self.depth_spec()),
            self.depth_spec() <= 31,
            self@.len() <= 0x80000000,
    {
        self.root.lemma_leaves_len(self.depth as nat, self.empty_hashes@[0]);
        reveal_with_fuel(pow2, 33);
        lemma_pow2_mono(self.depth as nat, 31);
    }

    /// A fresh tree of the given depth whose every leaf is `empty_value`,
    /// with the top `dense_prefix_depth` levels materialized.
    pub fn new_with_dense_prefix(depth: usize, dense_prefix_depth: usize, empty_value: &Field) -> (t:
        Self)
        requires
            dense_prefix_depth <= depth,
            depth <= 31,
            empty_value.reduced(),
        ensures
            t.wf(),
            t.depth_spec() == depth,
            t.empty_value_spec() == *empty_value,
            t@ == Seq::new(pow2(depth as nat), |j: int| *empty_value),
    {
        let mut eh: Vec<Field> = Vec::new();
        eh.push(*empty_value);
        let mut k: usize = 0;
        while k < depth
            invariant
                k <= depth,
                eh@.len() == k + 1,
                eh@[0] == *empty_value,
                eh_ok(eh@),
                empty_value.reduced(),
            decreases depth - k,
        {
            let prev = eh[k];
            let h = poseidon_hash(&prev, &prev);
            eh.push(h);
            k = k + 1;
        }
        let mut node: Arc<Node> = Arc::new(Node::Empty);
        let mut lvl: usize = depth - dense_prefix_depth;
        while lvl < depth
            invariant
                depth - dense_prefix_depth <= lvl <= depth,
                depth <= 31,
                eh@.len() == depth + 1,
                eh@[0] == *empty_value,
                eh_ok(eh@),
                node.wf(lvl as nat, eh@),
                node.root_hash(lvl as nat, eh@) == eh@[lvl as int],
                node.leaves(lvl as nat, eh@[0]) =~= Seq::new(
                    pow2(lvl as nat),
                    |j: int| *empty_value,
                ),
            decreases depth - lvl,
        {
            let ghost e = eh@[0];
            let ghost oldnode = node;
            let ghost oldlvl = lvl as nat;
            let h = eh[lvl + 1];
            let nn = Node::Internal { hash: h, left: node.clone(), right: node };
            node = Arc::new(nn);
            lvl = lvl + 1;
            proof {
                oldnode.lemma_leaves_len(oldlvl, e);
                assert(node.leaves(lvl as nat, e) =~= Seq::new(
                    pow2(lvl as nat),
                    |j: int| *empty_value,
                ));
            }
        }
        let num = pow2_exec(depth);
        let t = PoseidonTree {
            depth,
            dense_prefix_depth,
            num_leaves: num,
            empty_hashes: eh,
            root: node,
        };
        proof {
            assert(t@ =~= Seq::new(pow2(depth as nat), |j: int| *empty_value));
        }
        t
    }

    /// The number of leaves, `2^depth`.
    pub fn num_leaves(&self) -> (n: usize)
        requires
            self.wf(),
        ensures
            n == self@.len(),
    {
        proof {
            self.lemma_wf_facts();
        }
        self.num_leaves
    }

    /// A new version equal to this one except at leaf `index`, which becomes
    /// `value`. Every untouched subtree is shared with the receiver, which
    /// stays valid and unchanged.
    pub fn update(&self, index: usize, value: &Field) -> (t: Self)
        requires
            self.wf(),
            (index as int) < self@.len(),
            value.reduced(),
        ensures
            t.wf(),
            t@ == self@.update(index as int, *value),
            t.depth_spec() == self.depth_spec(),
            t.empty_value_spec() == self.empty_value_spec(),
    {
        proof {
            self.lemma_wf_facts();
        }
        let newroot = Arc::new(node_update(&*self.root, self.depth, index, value, &self.empty_hashes));
        PoseidonTree {
            depth: self.depth,
            dense_prefix_depth: self.dense_prefix_depth,
            num_leaves: self.num_leaves,
            empty_hashes: clone_hashes(&self.empty_hashes),
            root: newroot,
        }
    }

    /// The root hash of this version.
    pub fn root(&self) -> (h: Field)
        requires
            self.wf(),
        ensures
            h == merkle_root(self@),
            h.reduced(),
    {
        proof {
            self.root.lemma_root_is_merkle(self.depth as nat, self.empty_hashes@);
        }
        node_root(&*self.root, self.depth, &self.empty_hashes)
    }

    /// The value of leaf `index`.
    pub fn get_leaf(&self, index: usize) -> (h: Field)
        requires
            self.wf(),
            (index as int) < self@.len(),
        ensures
            h == self@[index as int],
    {
        proof {
            self.lemma_wf_facts();
        }
        node_get_leaf(&*self.root, self.depth, index, &self.empty_hashes)
    }

    /// The inclusion proof for leaf `index` against this version's root:
    /// one sibling per level, ordered from the leaf up.
    pub fn merkle_proof(&self, index: usize) -> (p: Vec<Branch>)
        requires
            self.wf(),
            (index as int) < self@.len(),
        ensures
            p@ == proof_of(self@, index as int),
            p@.len() == self.depth_spec(),
    {
        proof {
            self.lemma_wf_facts();
        }
        node_proof(&*self.root, self.depth, index, &self.empty_hashes)
    }
}

/// Merkle correctness for a whole tree version: the inclusion proof of any
/// leaf, folded over that leaf's value, reproduces the version's root.
pub proof fn lemma_tree_proof_reconstructs_root(t: PoseidonTree, i: int)
    requires
        t.wf(),
        0 <= i < t@.len(),
    ensures
        fold_proof(t@[i], proof_of(t@, i)) == merkle_root(t@),
{
    lemma_proof_reconstructs_root(t@, i);
}

impl Clone for PoseidonTree {
    /// A logical snapshot: the clone shares every node with the receiver.
    fn clone(&self) -> (t: Self)
        ensures
            t@ == self@,
            t.depth_spec() == self.depth_spec(),
            t.empty_value_spec() == self.empty_value_spec(),
            self.wf() ==> t.wf(),
    {
        PoseidonTree {
            depth: self.depth,
            dense_prefix_depth: self.dense_prefix_depth,
            num_leaves: self.num_leaves,
            empty_hashes: clone_hashes(&self.empty_hashes),
            root: self.root.clone(),
        }
    }
}

} // verus!
