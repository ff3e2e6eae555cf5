use vstd::prelude::*;

use crate::hash::Field;
use crate::merkle::{merkle_root, proof_of, Branch};
use crate::tree::PoseidonTree;

verus! {

/// An inclusion proof as served to clients: the root it was computed
/// against, the sibling path, and an always-empty message slot.
pub struct InclusionProof {
    pub root: Field,
    pub siblings: Vec<Branch>,
    pub message: Option<String>,
}

impl InclusionProof {
    pub fn new(root: Field, siblings: Vec<Branch>, message: Option<String>) -> (r: Self)
        ensures
            r.root == root,
            r.siblings == siblings,
            r.message == message,
    {
        InclusionProof { root, siblings, message }
    }
}

/// The layer after writing `ids` at consecutive indices from `start`.
pub open spec fn apply_insertion(s: Seq<Field>, start: int, ids: Seq<Field>) -> Seq<Field> {
    Seq::new(
        s.len(),
        |j: int|
            if start <= j < start + ids.len() {
                ids[j - start]
            } else {
                s[j]
            },
    )
}

/// The layer after zeroing every listed index.
pub open spec fn apply_deletion(s: Seq<Field>, idxs: Seq<usize>) -> Seq<Field> {
    Seq::new(
        s.len(),
        |j: int|
            if idxs.contains(j as usize) {
                Field::zero_spec()
            } else {
                s[j]
            },
    )
}

/// The history after one snapshot: unchanged when the capacity is zero,
/// otherwise the pre-mutation layer in front, with the oldest entry dropped
/// once the capacity is reached.
pub open spec fn snapshot_push(hist: Seq<Seq<Field>>, cur: Seq<Field>, cap: nat) -> Seq<Seq<
    Field,
>> {
    if cap == 0 {
        hist
    } else if hist.len() < cap {
        seq![cur] + hist
    } else {
        seq![cur] + hist.take(cap as int - 1)
    }
}

/// Index `i` holds `h` and every lower index does not.
pub open spec fn first_leaf_index(s: Seq<Field>, h: Field, i: int) -> bool {
    &&& 0 <= i < s.len()
    &&& s[i] == h
    &&& forall|j: int| 0 <= j < i ==> s[j] != h
}

pub open spec fn leaf_present(s: Seq<Field>, h: Field) -> bool {
    exists|i: int| 0 <= i < s.len() && s[i] == h
}

/// Snapshot `k` is the newest history entry whose root is `r`.
pub open spec fn first_history_match(hist: Seq<Seq<Field>>, r: Field, k: int) -> bool {
    &&& 0 <= k < hist.len()
    &&& merkle_root(hist[k]) == r
    &&& forall|j: int| 0 <= j < k ==> merkle_root(hist[j]) != r
}

pub open spec fn history_has_root(hist: Seq<Seq<Field>>, r: Field) -> bool {
    exists|k: int| 0 <= k < hist.len() && merkle_root(hist[k]) == r
}

/// What a successful query against layer `s` returns: the requested root,
/// the proof of the lowest index holding the identity, and no message.
pub open spec fn good_proof_for(s: Seq<Field>, identity: Field, rt: Field, p: InclusionProof) -> bool {
    &&& p.root == rt
    &&& p.message is None
    &&& exists|i: int| #[trigger] first_leaf_index(s, identity, i) && p.siblings@ == proof_of(s, i)
}

/// A query resolved against layer `s` succeeds exactly when the identity is
/// present there.
pub open spec fn query_result_for(
    s: Seq<Field>,
    rt: Field,
    identity: Field,
    res: Option<InclusionProof>,
) -> bool {
    match res {
        Some(p) => good_proof_for(s, identity, rt, p),
        None => !leaf_present(s, identity),
    }
}

/// The in-memory state of the World Tree: the current version and a bounded
/// first-in-first-out cache of pre-mutation versions, newest first.
pub struct TreeData {
    tree: PoseidonTree,
    tree_history_size: usize,
    tree_history: Vec<PoseidonTree>,
}

impl TreeData {
    pub closed spec fn wf(self) -> bool {
        &&& self.tree.wf()
        &&& self.tree_history@.len() <= self.tree_history_size
        &&& forall|k: int|
            0 <= k < self.tree_history@.len() ==> (#[trigger] self.tree_history@[k]).wf()
    }

    /// The leaves of the current tree version.
    pub closed spec fn current(self) -> Seq<Field> {
        self.tree@
    }

    /// The retained snapshots, newest first, each as its leaves.
    pub closed spec fn history(self) -> Seq<Seq<Field>> {
        Seq::new(self.tree_history@.len(), |k: int| self.tree_history@[k]@)
    }

    /// The fixed history capacity.
    pub closed spec fn cap(self) -> nat {
        self.tree_history_size as nat
    }

    /// A valid service's layer length is the tree's leaf count, which fits a
    /// machine integer.
    pub proof fn lemma_current_len(self)
        requires
            self.wf(),
        ensures
            self.current().len() <= 0x80000000,
    {
        self.tree.lemma_wf_facts();
    }

    /// History bound: a valid service never retains more snapshots than its
    /// capacity allows.
    pub proof fn lemma_history_bound(self)
        requires
            self.wf(),
        ensures
            self.history().len() <= self.cap(),
    {
    }

    pub fn new(tree: PoseidonTree, tree_history_size: usize) -> (t: Self)
        requires
            tree.wf(),
        ensures
            t.wf(),
            t.current() == tree@,
            t.history() == Seq::<Seq<Field>>::empty(),
            t.cap() == tree_history_size,
    {
        let t = TreeData { tree, tree_history_size, tree_history: Vec::new() };
        proof {
            assert(t.history() =~= Seq::<Seq<Field>>::empty());
        }
        t
    }

    /// The number of leaves of every version this service serves.
    pub fn num_leaves(&self) -> (n: usize)
        requires
            self.wf(),
        ensures
            n == self.current().len(),
    {
        self.tree.num_leaves()
    }

    /// The root of the current version.
    pub fn current_root(&self) -> (r: Field)
        requires
            self.wf(),
        ensures
            r == merkle_root(self.current()),
    {
        self.tree.root()
    }

    /// Number of retained snapshots.
    pub fn history_len(&self) -> (n: usize)
        requires
            self.wf(),
        ensures
            n == self.history().len(),
    {
        self.tree_history.len()
    }

    /// Caches the current version into history, unless the capacity is zero;
    /// at capacity the oldest snapshot is dropped first.
    pub fn cache_tree_history(&mut self)
        requires
            old(self).wf(),
        ensures
            final(self).wf(),
            final(self).current() == old(self).current(),
            final(self).cap() == old(self).cap(),
            final(self).history() == snapshot_push(
                old(self).history(),
                old(self).current(),
                old(self).cap(),
            ),
    {
        if self.tree_history_size != 0 {
            if self.tree_history.len() == self.tree_history_size {
                self.tree_history.pop();
            }
            let snap = self.tree.clone();
            self.tree_history.insert(0, snap);
            proof {
                assert(self.history() =~= snapshot_push(
                    old(self).history(),
                    old(self).current(),
                    old(self).cap(),
                ));
            }
        }
        proof {
            assert(self.history() =~= snapshot_push(
                old(self).history(),
                old(self).current(),
                old(self).cap(),
            ));
        }
    }

    /// Writes the identities at consecutive indices starting at
    /// `start_index`, after caching the pre-mutation version. One snapshot is
    /// taken for the whole batch.
    pub fn insert_many_at(&mut self, start_index: usize, identities: &Vec<Field>)
        requires
            old(self).wf(),
            start_index + identities@.len() <= old(self).current().len(),
            forall|k: int| 0 <= k < identities@.len() ==> (#[trigger] identities@[k]).reduced(),
        ensures
            final(self).wf(),
            final(self).cap() == old(self).cap(),
            final(self).current() == apply_insertion(
                old(self).current(),
                start_index as int,
                identities@,
            ),
            final(self).history() == snapshot_push(
                old(self).history(),
                old(self).current(),
                old(self).cap(),
            ),
    {
        self.cache_tree_history();
        let ghost cur0 = self.current();
        let ghost hist1 = self.history();
        proof {
            self.tree.lemma_wf_facts();
        }
        let n = identities.len();
        let mut i: usize = 0;
        while i < n
            invariant
                i <= n,
                n == identities@.len(),
                cur0.len() <= 0x80000000,
                self.wf(),
                self.cap() == old(self).cap(),
                self.history() == hist1,
                self.current().len() == cur0.len(),
                start_index + n <= cur0.len(),
                forall|k: int| 0 <= k < n ==> (#[trigger] identities@[k]).reduced(),
                forall|j: int|
                    0 <= j < cur0.len() ==> self.current()[j] == (if start_index <= j
                        < start_index + i {
                        identities@[j - start_index]
                    } else {
                        cur0[j]
                    }),
            decreases n - i,
        {
            let idx = start_index + i;
            let t = self.tree.update(idx, &identities[i]);
            self.tree = t;
            i = i + 1;
        }
        proof {
            assert(self.current() =~= apply_insertion(cur0, start_index as int, identities@));
        }
    }

    /// Zeroes the listed indices, after caching the pre-mutation version.
    /// Duplicate indices and already-empty leaves are permitted; deleting an
    /// empty leaf leaves the layer as it was.
    pub fn delete_many(&mut self, delete_indices: &Vec<usize>)
        requires
            old(self).wf(),
            forall|k: int|
                0 <= k < delete_indices@.len() ==> (#[trigger] delete_indices@[k])
                    < old(self).current().len(),
        ensures
            final(self).wf(),
            final(self).cap() == old(self).cap(),
            final(self).current() == apply_deletion(old(self).current(), delete_indices@),
            final(self).history() == snapshot_push(
                old(self).history(),
                old(self).current(),
                old(self).cap(),
            ),
    {
        self.cache_tree_history();
        let ghost cur0 = self.current();
        let ghost hist1 = self.history();
        proof {
            self.tree.lemma_wf_facts();
        }
        let n = delete_indices.len();
        let mut i: usize = 0;
        while i < n
            invariant
                i <= n,
                n == delete_indices@.len(),
                cur0.len() <= 0x80000000,
                self.wf(),
                self.cap() == old(self).cap(),
                self.history() == hist1,
                self.current().len() == cur0.len(),
                forall|k: int| 0 <= k < n ==> (#[trigger] delete_indices@[k]) < cur0.len(),
                forall|j: int|
                    0 <= j < cur0.len() ==> self.current()[j] == (if delete_indices@.take(
                        i as int,
                    ).contains(j as usize) {
                        Field::zero_spec()
                    } else {
                        cur0[j]
                    }),
            decreases n - i,
        {
            let idx = delete_indices[i];
            let ghost prev = self.current();
            let z = Field::zero();
            let t = self.tree.update(idx, &z);
            self.tree = t;
            proof {
                self.tree.lemma_wf_facts();
                let taken = delete_indices@.take(i as int);
                let ext = delete_indices@.take(i + 1);
                assert(ext =~= taken.push(delete_indices@[i as int]));
                assert(self.current() == prev.update(idx as int, Field::zero_spec()));
                assert forall|j: int| 0 <= j < cur0.len() implies self.current()[j] == (
                if ext.contains(j as usize) {
                    Field::zero_spec()
                } else {
                    cur0[j]
                }) by {
                    if j == idx as int {
                        assert(ext[i as int] == idx);
                        assert(ext.contains(j as usize));
                    } else {
                        assert(self.current()[j] == prev[j]);
                        if ext.contains(j as usize) {
                            let w = choose|m: int| 0 <= m < ext.len() && ext[m] == j as usize;
                            assert(ext[w] == j as usize);
                            assert(w != i);
                            assert(taken[w] == j as usize);
                            assert(taken.contains(j as usize));
                        } else {
                            assert forall|m: int|
                                0 <= m < taken.len() implies taken[m] != j as usize by {
                                assert(ext[m] == taken[m]);
                            }
                            assert(!taken.contains(j as usize));
                        }
                    }
                }
            }
            i = i + 1;
        }
        proof {
            assert(delete_indices@.take(n as int) =~= delete_indices@);
            assert(self.current() =~= apply_deletion(cur0, delete_indices@));
        }
    }

    /// The inclusion proof for `identity` against the requested root, or the
    /// current root when none is given. Roots other than the current one are
    /// looked up in the history, newest first; an evicted or unknown root,
    /// like an absent identity, yields nothing.
    pub fn get_inclusion_proof(&self, identity: Field, root: Option<Field>) -> (res: Option<
        InclusionProof,
    >)
        requires
            self.wf(),
        ensures
            ({
                let cur = self.current();
                match root {
                    None => query_result_for(cur, merkle_root(cur), identity, res),
                    Some(rt) => {
                        if rt == merkle_root(cur) {
                            query_result_for(cur, rt, identity, res)
                        } else if history_has_root(self.history(), rt) {
                            exists|k: int|
                                #[trigger] first_history_match(self.history(), rt, k)
                                    && query_result_for(self.history()[k], rt, identity, res)
                        } else {
                            res is None
                        }
                    },
                }
            }),
    {
        let cur_root = self.tree.root();
        match root {
            None => {
                match identity_proof(&self.tree, &identity) {
                    Some(p) => Some(InclusionProof::new(cur_root, p, None)),
                    None => None,
                }
            },
            Some(rt) => {
                if rt == cur_root {
                    match identity_proof(&self.tree, &identity) {
                        Some(p) => Some(InclusionProof::new(rt, p, None)),
                        None => None,
                    }
                } else {
                    let n = self.tree_history.len();
                    let mut k: usize = 0;
                    while k < n
                        invariant
                            self.wf(),
                            k <= n,
                            n == self.history().len(),
                            root == Some(rt),
                            rt != merkle_root(self.current()),
                            forall|j: int| 0 <= j < k ==> merkle_root(self.history()[j]) != rt,
                        decreases n - k,
                    {
                        let hr = self.tree_history[k].root();
                        if hr == rt {
                            proof {
                                assert(first_history_match(self.history(), rt, k as int));
                            }
                            let res = match identity_proof(&self.tree_history[k], &identity) {
                                Some(p) => Some(InclusionProof::new(rt, p, None)),
                                None => None,
                            };
                            proof {
                                assert(history_has_root(self.history(), rt));
                                assert(query_result_for(
                                    self.history()[k as int],
                                    rt,
                                    identity,
                                    res,
                                ));
                                assert(exists|kk: int|
                                    #[trigger] first_history_match(self.history(), rt, kk)
                                        && query_result_for(self.history()[kk], rt, identity, res));
                            }
                            return res;
                        }
                        k = k + 1;
                    }
                    None
                }
            },
        }
    }
}

/// The proof for the lowest-indexed leaf equal to `identity`, by a scan in
/// index order; nothing when the identity is absent.
fn identity_proof(tree: &PoseidonTree, identity: &Field) -> (r: Option<Vec<Branch>>)
    requires
        tree.wf(),
    ensures
        match r {
            Some(p) => exists|i: int|
                #[trigger] first_leaf_index(tree@, *identity, i) && p@ == proof_of(tree@, i),
            None => !leaf_present(tree@, *identity),
        },
{
    let n = tree.num_leaves();
    let mut i: usize = 0;
    while i < n
        invariant
            tree.wf(),
            i <= n,
            n == tree@.len(),
            forall|j: int| 0 <= j < i ==> tree@[j] != *identity,
        decreases n - i,
    {
        let leaf = tree.get_leaf(i);
        if leaf == *identity {
            let p = tree.merkle_proof(i);
            proof {
                assert(first_leaf_index(tree@, *identity, i as int));
            }
            return Some(p);
        }
        i = i + 1;
    }
    None
}

/// Writing a batch at consecutive indices leaf by leaf, as a reference
/// implementation would.
pub open spec fn apply_insertion_one_by_one(s: Seq<Field>, start: int, ids: Seq<Field>) -> Seq<
    Field,
>
    decreases ids.len(),
{
    if ids.len() == 0 {
        s
    } else {
        apply_insertion_one_by_one(s.update(start, ids[0]), start + 1, ids.skip(1))
    }
}

/// Zeroing listed indices one by one, as a reference implementation would.
pub open spec fn apply_deletion_one_by_one(s: Seq<Field>, idxs: Seq<usize>) -> Seq<Field>
    decreases idxs.len(),
{
    if idxs.len() == 0 {
        s
    } else {
        apply_deletion_one_by_one(s.update(idxs[0] as int, Field::zero_spec()), idxs.skip(1))
    }
}

/// Snapshot fidelity, insertions: a whole batch lands exactly as the same
/// updates applied leaf by leaf, in order, on a reference tree.
pub proof fn lemma_insertion_matches_reference(s: Seq<Field>, start: int, ids: Seq<Field>)
    requires
        0 <= start,
        start + ids.len() <= s.len(),
    ensures
        apply_insertion(s, start, ids) == apply_insertion_one_by_one(s, start, ids),
    decreases ids.len(),
{
    if ids.len() == 0 {
        assert(apply_insertion(s, start, ids) =~= s);
    } else {
        let s1 = s.update(start, ids[0]);
        lemma_insertion_matches_reference(s1, start + 1, ids.skip(1));
        assert(apply_insertion(s, start, ids) =~= apply_insertion(s1, start + 1, ids.skip(1)));
    }
}

/// Snapshot fidelity, deletions: a whole batch lands exactly as the same
/// zeroings applied leaf by leaf, in order, on a reference tree.
pub proof fn lemma_deletion_matches_reference(s: Seq<Field>, idxs: Seq<usize>)
    requires
        s.len() <= usize::MAX,
        forall|k: int| 0 <= k < idxs.len() ==> (#[trigger] idxs[k]) < s.len(),
    ensures
        apply_deletion(s, idxs) == apply_deletion_one_by_one(s, idxs),
    decreases idxs.len(),
{
    if idxs.len() > 0 {
        let s1 = s.update(idxs[0] as int, Field::zero_spec());
        lemma_deletion_matches_reference(s1, idxs.skip(1));
        assert forall|j: int| 0 <= j < s.len() implies apply_deletion(s, idxs)[j]
            == apply_deletion(s1, idxs.skip(1))[j] by {
            if idxs.contains(j as usize) {
                let w = choose|m: int| 0 <= m < idxs.len() && idxs[m] == j as usize;
                if w != 0 {
                    assert(idxs.skip(1)[w - 1] == j as usize);
                }
            } else {
                assert(!idxs.skip(1).contains(j as usize));
            }
        }
        assert(apply_deletion(s, idxs) =~= apply_deletion(s1, idxs.skip(1)));
    } else {
        assert(apply_deletion(s, idxs) =~= s);
    }
}

/// Idempotent deletes: zeroing indices whose leaves are already zero leaves
/// the layer unchanged.
pub proof fn lemma_delete_idempotent(s: Seq<Field>, idxs: Seq<usize>)
    requires
        s.len() <= usize::MAX,
        forall|k: int|
            0 <= k < idxs.len() ==> (#[trigger] idxs[k]) < s.len() && s[idxs[k] as int]
                == Field::zero_spec(),
    ensures
        apply_deletion(s, idxs) == s,
{
    assert forall|j: int| 0 <= j < s.len() implies apply_deletion(s, idxs)[j] == s[j] by {
        if idxs.contains(j as usize) {
            let w = choose|m: int| 0 <= m < idxs.len() && idxs[m] == j as usize;
            assert(s[idxs[w] as int] == Field::zero_spec());
        }
    }
    assert(apply_deletion(s, idxs) =~= s);
}

/// Root-eviction monotonicity, one step: a root that is neither retained nor
/// the root of the layer being cached is still not retained after the
/// snapshot. With the query contract, a query for an evicted root keeps
/// failing as long as no later batch reproduces that exact layer.
pub proof fn lemma_evicted_root_stays_out(
    hist: Seq<Seq<Field>>,
    cur: Seq<Field>,
    cap: nat,
    r: Field,
)
    requires
        !history_has_root(hist, r),
        r != merkle_root(cur),
    ensures
        !history_has_root(snapshot_push(hist, cur, cap), r),
{
    let newh = snapshot_push(hist, cur, cap);
    assert forall|k: int| 0 <= k < newh.len() implies merkle_root(newh[k]) != r by {
        if cap != 0 && k > 0 {
            assert(newh[k] == hist[k - 1]);
            assert(!(0 <= k - 1 < hist.len() && merkle_root(hist[k - 1]) == r));
        }
    }
}

/// Pre-image availability: with a capacity of at least one, the layer as it
/// stood immediately before a batch is the newest history entry right after
/// that batch.
pub proof fn lemma_preimage_available(hist: Seq<Seq<Field>>, cur: Seq<Field>, cap: nat)
    requires
        cap >= 1,
    ensures
        snapshot_push(hist, cur, cap).len() >= 1,
        snapshot_push(hist, cur, cap)[0] == cur,
{
}

} // verus!
