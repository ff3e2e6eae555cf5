use vstd::prelude::*;

use crate::abi::Mutation;
use crate::hash::Field;
use crate::tree::PoseidonTree;
use crate::tree_data::{apply_deletion, apply_insertion, snapshot_push, TreeData};

verus! {

/// The `(block, transaction index, log index)` of an applied on-chain event.
#[derive(Clone, Copy, PartialEq, Eq, Structural, Debug)]
pub struct ChainCursor {
    pub block: u64,
    pub tx_index: u64,
    pub log_index: u64,
}

/// Strict event order: by block, then transaction index, then log index.
pub open spec fn cursor_lt(a: ChainCursor, b: ChainCursor) -> bool {
    ||| a.block < b.block
    ||| (a.block == b.block && a.tx_index < b.tx_index)
    ||| (a.block == b.block && a.tx_index == b.tx_index && a.log_index < b.log_index)
}

/// A log is fresh when nothing has been applied yet, or it lies strictly
/// after the cursor.
pub open spec fn fresh_for(cursor: Option<ChainCursor>, meta: ChainCursor) -> bool {
    match cursor {
        None => true,
        Some(c) => cursor_lt(c, meta),
    }
}

/// Why a fresh mutation was refused: a contract-invariant violation that the
/// applier treats as fatal.
#[derive(Clone, Copy, PartialEq, Eq, Structural, Debug)]
pub enum ApplyError {
    IndexOutOfRange,
    CommitmentTooLarge,
}

/// Every index the mutation touches lies inside the tree.
pub open spec fn mutation_in_range(len: int, m: Mutation) -> bool {
    match m {
        Mutation::Insert { start_index, commitments } => start_index + commitments@.len() <= len,
        Mutation::Delete { indices } => forall|k: int|
            0 <= k < indices@.len() ==> (#[trigger] indices@[k]) < len,
    }
}

/// Every inserted commitment is a reduced field element.
pub open spec fn mutation_reduced(m: Mutation) -> bool {
    match m {
        Mutation::Insert { commitments, .. } => forall|k: int|
            0 <= k < commitments@.len() ==> (#[trigger] commitments@[k]).reduced(),
        Mutation::Delete { .. } => true,
    }
}

/// What one mutation does to the current layer.
pub open spec fn apply_mutation_spec(s: Seq<Field>, m: Mutation) -> Seq<Field> {
    match m {
        Mutation::Insert { start_index, commitments } => apply_insertion(
            s,
            start_index as int,
            commitments@,
        ),
        Mutation::Delete { indices } => apply_deletion(s, indices@),
    }
}

/// The layer after an ordered mutation log has been applied from `s`.
pub open spec fn replay(s: Seq<Field>, log: Seq<Mutation>) -> Seq<Field>
    decreases log.len(),
{
    if log.len() == 0 {
        s
    } else {
        replay(apply_mutation_spec(s, log[0]), log.skip(1))
    }
}

/// Determinism: replaying one ordered mutation log from equal starting
/// layers yields equal layers at every step; the applier's outcome is a
/// function of the log alone.
pub proof fn lemma_replay_deterministic(s1: Seq<Field>, s2: Seq<Field>, log: Seq<Mutation>)
    requires
        s1 == s2,
    ensures
        replay(s1, log) == replay(s2, log),
{
}

/// The tree state together with the cursor of the last applied log: the
/// single writer that brings the mirror to the chain head and keeps it
/// there.
pub struct WorldTree {
    pub tree_data: TreeData,
    pub cursor: Option<ChainCursor>,
}

impl WorldTree {
    pub open spec fn wf(self) -> bool {
        self.tree_data.wf()
    }

    pub fn new(tree: PoseidonTree, tree_history_size: usize) -> (t: Self)
        requires
            tree.wf(),
        ensures
            t.wf(),
            t.tree_data.current() == tree@,
            t.tree_data.history() == Seq::<Seq<Field>>::empty(),
            t.tree_data.cap() == tree_history_size,
            t.cursor is None,
    {
        WorldTree { tree_data: TreeData::new(tree, tree_history_size), cursor: None }
    }

    /// Applies one decoded log in cursor order. A stale or duplicate log is
    /// skipped; a fresh log with an out-of-range index or an oversized
    /// commitment is refused and changes nothing; otherwise the batch is
    /// applied, the pre-image snapshotted, and the cursor advanced.
    pub fn apply_log(&mut self, meta: ChainCursor, mutation: &Mutation) -> (r: Result<
        bool,
        ApplyError,
    >)
        requires
            old(self).wf(),
        ensures
            final(self).wf(),
            final(self).tree_data.cap() == old(self).tree_data.cap(),
            ({
                let pre = old(self).tree_data.current();
                let prehist = old(self).tree_data.history();
                let cap = old(self).tree_data.cap();
                match r {
                    Ok(true) => {
                        &&& fresh_for(old(self).cursor, meta)
                        &&& mutation_in_range(pre.len() as int, *mutation)
                        &&& mutation_reduced(*mutation)
                        &&& final(self).cursor == Some(meta)
                        &&& final(self).tree_data.current() == apply_mutation_spec(pre, *mutation)
                        &&& final(self).tree_data.history() == snapshot_push(prehist, pre, cap)
                    },
                    Ok(false) => {
                        &&& !fresh_for(old(self).cursor, meta)
                        &&& final(self).cursor == old(self).cursor
                        &&& final(self).tree_data.current() == pre
                        &&& final(self).tree_data.history() == prehist
                    },
                    Err(e) => {
                        &&& fresh_for(old(self).cursor, meta)
                        &&& !(mutation_in_range(pre.len() as int, *mutation) && mutation_reduced(
                            *mutation,
                        ))
                        &&& final(self).cursor == old(self).cursor
                        &&& final(self).tree_data.current() == pre
                        &&& final(self).tree_data.history() == prehist
                        &&& (e == ApplyError::IndexOutOfRange ==> !mutation_in_range(
                            pre.len() as int,
                            *mutation,
                        ))
                        &&& (e == ApplyError::CommitmentTooLarge ==> mutation_in_range(
                            pre.len() as int,
                            *mutation,
                        ) && !mutation_reduced(*mutation))
                    },
                }
            }),
    {
        let fresh = match self.cursor {
            None => true,
            Some(c) => c.block < meta.block || (c.block == meta.block && (c.tx_index < meta.tx_index
                || (c.tx_index == meta.tx_index && c.log_index < meta.log_index))),
        };
        if !fresh {
            return Ok(false);
        }
        let len = self.tree_data.num_leaves();
        match mutation {
            Mutation::Insert { start_index, commitments } => {
                let si = *start_index;
                if si > len as u64 || commitments.len() as u64 > len as u64 - si {
                    return Err(ApplyError::IndexOutOfRange);
                }
                if !all_reduced(commitments) {
                    return Err(ApplyError::CommitmentTooLarge);
                }
                self.tree_data.insert_many_at(si as usize, commitments);
                self.cursor = Some(meta);
                Ok(true)
            },
            Mutation::Delete { indices } => {
                if !all_below(indices, len) {
                    return Err(ApplyError::IndexOutOfRange);
                }
                self.tree_data.delete_many(indices);
                self.cursor = Some(meta);
                Ok(true)
            },
        }
    }
}

/// Tests that every listed commitment is a reduced field element.
fn all_reduced(v: &Vec<Field>) -> (r: bool)
    ensures
        r == (forall|k: int| 0 <= k < v@.len() ==> (#[trigger] v@[k]).reduced()),
{
    let n = v.len();
    let mut k: usize = 0;
    while k < n
        invariant
            k <= n,
            n == v@.len(),
            forall|j: int| 0 <= j < k ==> (#[trigger] v@[j]).reduced(),
        decreases n - k,
    {
        if !v[k].is_reduced() {
            return false;
        }
        k = k + 1;
    }
    true
}

/// Tests that every listed index lies below the leaf count.
fn all_below(v: &Vec<usize>, len: usize) -> (r: bool)
    ensures
        r == (forall|k: int| 0 <= k < v@.len() ==> (#[trigger] v@[k]) < len),
{
    let n = v.len();
    let mut k: usize = 0;
    while k < n
        invariant
            k <= n,
            n == v@.len(),
            forall|j: int| 0 <= j < k ==> (#[trigger] v@[j]) < len,
        decreases n - k,
    {
        if v[k] >= len {
            return false;
        }
        k = k + 1;
    }
    true
}

} // verus!
