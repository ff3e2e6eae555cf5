use vstd::prelude::*;

use crate::hash::{poseidon_of, Field};

verus! {

/// One step of an inclusion proof. `Left(s)` means the path runs through the
/// left child and `s` is the right sibling; `Right(s)` means the path runs
/// through the right child and `s` is the left sibling. A proof lists the
/// steps from the root down to the leaf.
#[derive(Clone, Copy, PartialEq, Eq, Structural, Debug)]
pub enum Branch {
    Left(Field),
    Right(Field),
}

/// Number of leaves of a perfect binary tree of the given depth.
pub open spec fn pow2(d: nat) -> nat
    decreases d,
{
    if d == 0 {
        1
    } else {
        2 * pow2((d - 1) as nat)
    }
}

pub proof fn lemma_pow2_pos(d: nat)
    ensures
        pow2(d) >= 1,
    decreases d,
{
    if d > 0 {
        lemma_pow2_pos((d - 1) as nat);
    }
}

pub proof fn lemma_pow2_mono(a: nat, b: nat)
    requires
        a <= b,
    ensures
        pow2(a) <= pow2(b),
    decreases b,
{
    if a < b {
        lemma_pow2_mono(a, (b - 1) as nat);
        lemma_pow2_pos((b - 1) as nat);
    }
}

/// The Merkle root of a complete layer of leaves: a single leaf is its own
/// root, and a longer layer hashes the roots of its two halves.
pub open spec fn merkle_root(s: Seq<Field>) -> Field
    decreases s.len(),
{
    if s.len() <= 1 {
        s[0]
    } else {
        let half = s.len() as int / 2;
        poseidon_of(merkle_root(s.take(half)), merkle_root(s.skip(half)))
    }
}

/// The inclusion proof for leaf `i` of the layer `s`: at every level the root
/// of the half not containing the leaf, ordered from the leaf up to the top
/// of the tree.
pub open spec fn proof_of(s: Seq<Field>, i: int) -> Seq<Branch>
    decreases s.len(),
{
    if s.len() <= 1 {
        seq![]
    } else {
        let half = s.len() as int / 2;
        if i < half {
            proof_of(s.take(half), i).push(Branch::Left(merkle_root(s.skip(half))))
        } else {
            proof_of(s.skip(half), i - half).push(Branch::Right(merkle_root(s.take(half))))
        }
    }
}

/// Recomputes a root from a leaf and an inclusion proof, applying the
/// siblings from the leaf up.
pub open spec fn fold_proof(leaf: Field, p: Seq<Branch>) -> Field
    decreases p.len(),
{
    if p.len() == 0 {
        leaf
    } else {
        match p.last() {
            Branch::Left(sib) => poseidon_of(fold_proof(leaf, p.drop_last()), sib),
            Branch::Right(sib) => poseidon_of(sib, fold_proof(leaf, p.drop_last())),
        }
    }
}

/// Merkle correctness: for every layer and every leaf index, folding the
/// inclusion proof of that leaf over the leaf value reproduces the root of
/// the layer.
pub proof fn lemma_proof_reconstructs_root(s: Seq<Field>, i: int)
    requires
        1 <= s.len(),
        0 <= i < s.len(),
    ensures
        fold_proof(s[i], proof_of(s, i)) == merkle_root(s),
    decreases s.len(),
{
    if s.len() > 1 {
        let half = s.len() as int / 2;
        if i < half {
            lemma_proof_reconstructs_root(s.take(half), i);
            let p = proof_of(s, i);
            assert(p.drop_last() =~= proof_of(s.take(half), i));
            assert(s.take(half)[i] == s[i]);
        } else {
            lemma_proof_reconstructs_root(s.skip(half), i - half);
            let p = proof_of(s, i);
            assert(p.drop_last() =~= proof_of(s.skip(half), i - half));
            assert(s.skip(half)[i - half] == s[i]);
        }
    }
}

} // verus!
