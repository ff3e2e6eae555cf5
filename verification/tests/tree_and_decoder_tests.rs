use ruint::aliases::U256;
use semaphore_rs::poseidon_tree::LazyPoseidonTree;
use semaphore_rs_trees::Branch as SemBranch;
use semaphore_rs_utils::keccak256;

use world_tree::abi::{decode_mutation, DecodeError, Mutation};
use world_tree::hash::{poseidon_hash, Field};
use world_tree::merkle::Branch;
use world_tree::tree::PoseidonTree;
use world_tree::world_tree::{ApplyError, ChainCursor, WorldTree};

fn to_u256(f: &Field) -> U256 {
    U256::from_limbs([f.w0, f.w1, f.w2, f.w3])
}

#[test]
fn test_root_and_proofs_match_reference_library() {
    let mut ours = PoseidonTree::new_with_dense_prefix(10, 10, &Field::zero());
    let mut reference = LazyPoseidonTree::new_with_dense_prefix(10, 10, &U256::ZERO).derived();

    for i in 0..10usize {
        let v = Field::from_u64((i + 1) as u64);
        ours = ours.update(i, &v);
        reference = reference.update(i, &to_u256(&v));
    }

    assert_eq!(to_u256(&ours.root()), reference.root());

    for i in [0usize, 3, 7, 9] {
        let p_ours = ours.merkle_proof(i);
        let p_ref = reference.proof(i).0;
        assert_eq!(p_ours.len(), p_ref.len());
        for (b, rb) in p_ours.iter().zip(p_ref.iter()) {
            match (b, rb) {
                (Branch::Left(a), SemBranch::Left(e)) => assert_eq!(to_u256(a), *e),
                (Branch::Right(a), SemBranch::Right(e)) => assert_eq!(to_u256(a), *e),
                _ => panic!("proof orientation differs from the reference library"),
            }
        }
    }
}

#[test]
fn test_proof_folds_back_to_root() {
    let mut tree = PoseidonTree::new_with_dense_prefix(6, 3, &Field::zero());
    for i in 0..20usize {
        tree = tree.update(i, &Field::from_u64((i * 7 + 1) as u64));
    }
    let root = tree.root();
    for i in [0usize, 5, 19, 63] {
        let leaf = tree.get_leaf(i);
        let p = tree.merkle_proof(i);
        let mut h = leaf;
        for b in p.iter() {
            h = match b {
                Branch::Left(s) => poseidon_hash(&h, s),
                Branch::Right(s) => poseidon_hash(s, &h),
            };
        }
        assert_eq!(h, root);
    }
}

#[test]
fn test_is_reduced() {
    assert!(Field::zero().is_reduced());
    assert!(Field::from_u64(u64::MAX).is_reduced());
    let too_big = Field { w0: u64::MAX, w1: u64::MAX, w2: u64::MAX, w3: u64::MAX };
    assert!(!too_big.is_reduced());
}

fn word_u64(v: u64) -> [u8; 32] {
    let mut w = [0u8; 32];
    w[24..32].copy_from_slice(&v.to_be_bytes());
    w
}

fn register_calldata(start_index: u64, commitments: &[u64]) -> Vec<u8> {
    let sig: &[u8] = b"registerIdentities(uint256[8],uint256,uint32,uint256[],uint256)";
    let mut cd: Vec<u8> = keccak256(sig)[0..4].to_vec();
    for _ in 0..8 {
        cd.extend_from_slice(&word_u64(0)); // insertionProof
    }
    cd.extend_from_slice(&word_u64(0)); // preRoot
    cd.extend_from_slice(&word_u64(start_index));
    cd.extend_from_slice(&word_u64(384)); // offset of identityCommitments
    cd.extend_from_slice(&word_u64(0)); // postRoot
    cd.extend_from_slice(&word_u64(commitments.len() as u64));
    for c in commitments {
        cd.extend_from_slice(&word_u64(*c));
    }
    cd
}

fn delete_calldata(slots: &[u32]) -> Vec<u8> {
    let sig: &[u8] = b"deleteIdentities(uint256[8],bytes,uint256,uint256)";
    let mut cd: Vec<u8> = keccak256(sig)[0..4].to_vec();
    for _ in 0..8 {
        cd.extend_from_slice(&word_u64(0)); // deletionProof
    }
    cd.extend_from_slice(&word_u64(352)); // offset of packedDeletionIndices
    cd.extend_from_slice(&word_u64(0)); // preRoot
    cd.extend_from_slice(&word_u64(0)); // postRoot
    cd.extend_from_slice(&word_u64((slots.len() * 4) as u64));
    let mut payload: Vec<u8> = Vec::new();
    for s in slots {
        payload.extend_from_slice(&s.to_be_bytes());
    }
    while payload.len() % 32 != 0 {
        payload.push(0);
    }
    cd.extend_from_slice(&payload);
    cd
}

#[test]
fn test_decode_register_trims_trailing_zeros() {
    let cd = register_calldata(2, &[11, 22, 0, 0]);
    let m = decode_mutation(&cd).unwrap();
    match m {
        Mutation::Insert { start_index, commitments } => {
            assert_eq!(start_index, 2);
            assert_eq!(commitments, vec![Field::from_u64(11), Field::from_u64(22)]);
        }
        _ => panic!("expected an insertion"),
    }
}

#[test]
fn test_decode_delete_drops_sentinels() {
    let cd = delete_calldata(&[5, 0xFFFFFFFF, 9, 0xFFFFFFFF]);
    let m = decode_mutation(&cd).unwrap();
    match m {
        Mutation::Delete { indices } => {
            assert_eq!(indices, vec![5usize, 9]);
        }
        _ => panic!("expected a deletion"),
    }
}

#[test]
fn test_decode_unknown_selector() {
    let cd = vec![0xde, 0xad, 0xbe, 0xef, 0, 0, 0, 0];
    assert_eq!(decode_mutation(&cd).unwrap_err(), DecodeError::UnknownSelector);
    let short = vec![0xde];
    assert_eq!(decode_mutation(&short).unwrap_err(), DecodeError::UnknownSelector);
}

#[test]
fn test_decode_malformed_register() {
    let mut cd = register_calldata(0, &[1]);
    cd[355] = 0x90; // corrupt the canonical commitments offset
    assert_eq!(decode_mutation(&cd).unwrap_err(), DecodeError::MalformedCalldata);
    let truncated = register_calldata(0, &[1])[0..100].to_vec();
    assert_eq!(decode_mutation(&truncated).unwrap_err(), DecodeError::MalformedCalldata);
}

#[test]
fn test_apply_log_ordering_and_errors() {
    let tree = PoseidonTree::new_with_dense_prefix(10, 4, &Field::zero());
    let mut wt = WorldTree::new(tree, 5);

    let m1 = Mutation::Insert { start_index: 0, commitments: vec![Field::from_u64(1)] };
    let m2 = Mutation::Insert { start_index: 1, commitments: vec![Field::from_u64(2)] };
    let c1 = ChainCursor { block: 1, tx_index: 0, log_index: 0 };
    let c2 = ChainCursor { block: 2, tx_index: 0, log_index: 0 };

    assert_eq!(wt.apply_log(c1, &m1), Ok(true));
    assert_eq!(wt.apply_log(c2, &m2), Ok(true));
    // A stale log is skipped and leaves the root unchanged.
    let root_before = wt.tree_data.current_root();
    assert_eq!(wt.apply_log(c1, &m1), Ok(false));
    assert_eq!(wt.tree_data.current_root(), root_before);

    // The final root matches an in-order replay on a fresh service.
    let tree2 = PoseidonTree::new_with_dense_prefix(10, 4, &Field::zero());
    let mut wt2 = WorldTree::new(tree2, 5);
    assert_eq!(wt2.apply_log(c1, &m1), Ok(true));
    assert_eq!(wt2.apply_log(c2, &m2), Ok(true));
    assert_eq!(wt2.tree_data.current_root(), wt.tree_data.current_root());

    let c3 = ChainCursor { block: 3, tx_index: 0, log_index: 0 };
    let out_of_range = Mutation::Insert { start_index: 1024, commitments: vec![Field::from_u64(3)] };
    assert_eq!(wt.apply_log(c3, &out_of_range), Err(ApplyError::IndexOutOfRange));

    let unreduced = Mutation::Insert {
        start_index: 5,
        commitments: vec![Field { w0: u64::MAX, w1: u64::MAX, w2: u64::MAX, w3: u64::MAX }],
    };
    assert_eq!(wt.apply_log(c3, &unreduced), Err(ApplyError::CommitmentTooLarge));

    let bad_delete = Mutation::Delete { indices: vec![5000usize] };
    assert_eq!(wt.apply_log(c3, &bad_delete), Err(ApplyError::IndexOutOfRange));

    // The refused logs did not advance the cursor; a valid one still applies.
    let good_delete = Mutation::Delete { indices: vec![0usize] };
    assert_eq!(wt.apply_log(c3, &good_delete), Ok(true));
}
