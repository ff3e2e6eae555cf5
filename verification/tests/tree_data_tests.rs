use world_tree::hash::Field;
use world_tree::tree::PoseidonTree;
use world_tree::tree_data::TreeData;

const TREE_DEPTH: usize = 10;
const NUM_IDENTITIES: usize = 10;
const TREE_HISTORY_SIZE: usize = 5;

fn initialize_tree_data(
    tree_depth: usize,
    tree_history_size: usize,
    num_identities: usize,
) -> (TreeData, PoseidonTree, Vec<Field>) {
    let poseidon_tree = PoseidonTree::new_with_dense_prefix(tree_depth, tree_depth, &Field::zero());
    let ref_tree = PoseidonTree::new_with_dense_prefix(tree_depth, tree_depth, &Field::zero());

    let identities: Vec<Field> = (0..num_identities).map(|i| Field::from_u64(i as u64)).collect();

    let tree: TreeData = TreeData::new(poseidon_tree, tree_history_size);

    (tree, ref_tree, identities)
}

#[test]
fn test_get_inclusion_proof() {
    let (mut tree_data, mut ref_tree, identities) =
        initialize_tree_data(TREE_DEPTH, TREE_HISTORY_SIZE, NUM_IDENTITIES);

    tree_data.insert_many_at(0, &identities);

    for (idx, identity) in identities.iter().enumerate() {
        ref_tree = ref_tree.update(idx, identity);
    }

    assert_eq!(
        tree_data.history_len(),
        1,
        "We should have 1 entry in tree history"
    );

    let root = ref_tree.root();

    for (i, identity) in identities.iter().enumerate().take(NUM_IDENTITIES) {
        let proof_from_world_tree = tree_data.get_inclusion_proof(*identity, Some(root)).unwrap();

        assert_eq!(ref_tree.merkle_proof(i), proof_from_world_tree.siblings);
    }
}

#[test]
fn test_get_inclusion_proof_for_intermediate_root() {
    let (mut tree_data, mut ref_tree, identities) =
        initialize_tree_data(TREE_DEPTH, TREE_HISTORY_SIZE, NUM_IDENTITIES);

    for (idx, identity) in identities.iter().enumerate().take(5) {
        ref_tree = ref_tree.update(idx, identity);
    }

    let root = ref_tree.root();

    tree_data.insert_many_at(0, &identities[0..5].to_vec());

    tree_data.insert_many_at(5, &identities[5..].to_vec());

    for (i, _identity) in identities.iter().enumerate().take(5) {
        let proof_from_world_tree =
            tree_data.get_inclusion_proof(identities[i], Some(root)).unwrap();

        assert_eq!(ref_tree.merkle_proof(i), proof_from_world_tree.siblings);
    }
}

#[test]
fn test_tree_history_capacity() {
    let (mut tree_data, _, identities) =
        initialize_tree_data(TREE_DEPTH, TREE_HISTORY_SIZE, NUM_IDENTITIES);

    for (idx, identity) in identities.into_iter().enumerate() {
        tree_data.insert_many_at(idx, &vec![identity]);
    }

    assert_eq!(tree_data.history_len(), TREE_HISTORY_SIZE);
}

#[test]
fn test_get_inclusion_proof_after_deletions() {
    let (mut tree_data, mut ref_tree, identities) =
        initialize_tree_data(TREE_DEPTH, TREE_HISTORY_SIZE, NUM_IDENTITIES);

    for (idx, identity) in identities.iter().enumerate() {
        ref_tree = ref_tree.update(idx, identity);
    }

    tree_data.insert_many_at(0, &identities);

    let deleted_identity_idxs = vec![3usize, 7];
    let non_deleted_identity_idxs: Vec<usize> =
        (0..NUM_IDENTITIES).filter(|idx| !deleted_identity_idxs.contains(idx)).collect();

    let zero = Field::zero();
    for idx in deleted_identity_idxs.iter() {
        ref_tree = ref_tree.update(*idx, &zero);
    }
    tree_data.delete_many(&deleted_identity_idxs);

    let root = ref_tree.root();

    for i in non_deleted_identity_idxs {
        let proof_from_world_tree =
            tree_data.get_inclusion_proof(identities[i], Some(root)).unwrap();

        assert_eq!(ref_tree.merkle_proof(i), proof_from_world_tree.siblings);
    }

    for i in deleted_identity_idxs.iter() {
        let proof_from_world_tree = tree_data.get_inclusion_proof(identities[*i], Some(root));

        assert!(proof_from_world_tree.is_none());
    }
}

#[test]
fn test_pre_first_batch_root_not_holding_identity() {
    let (mut tree_data, ref_tree, identities) =
        initialize_tree_data(TREE_DEPTH, TREE_HISTORY_SIZE, NUM_IDENTITIES);

    let root_pre_first_batch = ref_tree.root();

    tree_data.insert_many_at(0, &identities[0..5].to_vec());
    tree_data.insert_many_at(5, &identities[5..].to_vec());

    let res = tree_data.get_inclusion_proof(identities[2], Some(root_pre_first_batch));
    assert!(res.is_none());
}

#[test]
fn test_only_recent_preimages_queryable() {
    let (mut tree_data, mut ref_tree, identities) =
        initialize_tree_data(TREE_DEPTH, TREE_HISTORY_SIZE, NUM_IDENTITIES);

    let mut pre_batch_roots: Vec<Field> = Vec::new();
    for (idx, identity) in identities.iter().enumerate() {
        pre_batch_roots.push(ref_tree.root());
        tree_data.insert_many_at(idx, &vec![*identity]);
        ref_tree = ref_tree.update(idx, identity);
    }

    assert_eq!(tree_data.history_len(), TREE_HISTORY_SIZE);

    // identities[1] is present in every retained pre-image (batches 5..10),
    // and those pre-images are queryable; earlier pre-images were evicted.
    for k in 5..NUM_IDENTITIES {
        let res = tree_data.get_inclusion_proof(identities[1], Some(pre_batch_roots[k]));
        let proof = res.unwrap();
        assert_eq!(proof.root, pre_batch_roots[k]);
    }
    for k in 0..5 {
        let res = tree_data.get_inclusion_proof(identities[1], Some(pre_batch_roots[k]));
        assert!(res.is_none());
    }
}

#[test]
fn test_zero_history_capacity() {
    let (mut tree_data, ref_tree, identities) =
        initialize_tree_data(TREE_DEPTH, 0, NUM_IDENTITIES);

    let old_root = ref_tree.root();
    tree_data.insert_many_at(0, &identities);

    assert_eq!(tree_data.history_len(), 0);
    assert!(tree_data.get_inclusion_proof(identities[1], Some(old_root)).is_none());
}

#[test]
fn test_delete_of_empty_leaf_keeps_root() {
    let (mut tree_data, mut ref_tree, identities) =
        initialize_tree_data(TREE_DEPTH, TREE_HISTORY_SIZE, NUM_IDENTITIES);

    tree_data.insert_many_at(0, &identities);
    for (idx, identity) in identities.iter().enumerate() {
        ref_tree = ref_tree.update(idx, identity);
    }

    // Leaf 100 was never written; deleting it twice is a no-op on contents.
    tree_data.delete_many(&vec![100usize]);
    tree_data.delete_many(&vec![100usize]);

    let res = tree_data.get_inclusion_proof(identities[4], None).unwrap();
    assert_eq!(res.root, ref_tree.root());
    // Each batch still produced a history snapshot.
    assert_eq!(tree_data.history_len(), 3);
}

#[test]
fn test_query_without_root_uses_current_tree() {
    // Identities 1..=10 at indices 0..9: identity 5 sits at index 4.
    let tree = PoseidonTree::new_with_dense_prefix(10, 10, &Field::zero());
    let mut ref_tree = PoseidonTree::new_with_dense_prefix(10, 10, &Field::zero());
    let identities: Vec<Field> = (1..=10u64).map(Field::from_u64).collect();
    let mut tree_data = TreeData::new(tree, 5);

    tree_data.insert_many_at(0, &identities);
    for (idx, id) in identities.iter().enumerate() {
        ref_tree = ref_tree.update(idx, id);
    }

    assert_eq!(tree_data.history_len(), 1);
    let res = tree_data.get_inclusion_proof(Field::from_u64(5), None).unwrap();
    assert_eq!(res.root, ref_tree.root());
    assert_eq!(res.siblings, ref_tree.merkle_proof(4));
    assert!(res.message.is_none());
}
