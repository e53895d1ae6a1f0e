use merkledb::address::IndexAddress;
use merkledb::db::Database;
use merkledb::hash::hash;
use merkledb::proof_map_index::key::{BitsRange, ChildKind, ProofPath};
use merkledb::lex::Order;
use merkledb::proof_map_index::map_proof::{
    check_order, collect, combine, compare_paths, fold_range, hash_branch, holds_path, place_leaf,
    MapProof, MapProofError,
};
use merkledb::proof_map_index::prover::enters_any;
use merkledb::proof_map_index::node::BranchNode;
use merkledb::proof_map_index::ProofMapIndex;
use merkledb::temporary_db::TemporaryDB;
use merkledb::values::StorageValue;
use rand::{rngs::StdRng, Rng, RngCore, SeedableRng};

const IDX_NAME: &str = "index";

type Index = ProofMapIndex<merkledb::changes::ViewChanges, [u8; 32], Vec<u8>>;

fn zero_hash() -> merkledb::hash::Hash {
    merkledb::hash::Hash::zero()
}

/// The root hash of the tree of `entries`, computed from the keys alone:
/// a set of keys under one branch is split by the first bit at which they
/// differ.
fn expected_root(entries: &[([u8; 32], Vec<u8>)]) -> merkledb::hash::Hash {
    let mut sorted: Vec<([u8; 32], Vec<u8>)> = entries.to_vec();
    sorted.sort_by(|a, b| bit_order(&a.0, &b.0));
    sorted.dedup_by(|a, b| a.0 == b.0);
    match sorted.len() {
        0 => zero_hash(),
        1 => {
            let path = ProofPath::new(&sorted[0].0);
            let mut bytes = path.as_bytes().to_vec();
            bytes.extend_from_slice(hash(&sorted[0].1).as_bytes());
            hash(&bytes)
        }
        _ => subtree(&sorted).1,
    }
}

fn bit(key: &[u8; 32], pos: usize) -> bool {
    (key[pos / 8] >> (pos % 8)) & 1 == 1
}

fn bit_order(a: &[u8; 32], b: &[u8; 32]) -> std::cmp::Ordering {
    for pos in 0..256 {
        match (bit(a, pos), bit(b, pos)) {
            (false, true) => return std::cmp::Ordering::Less,
            (true, false) => return std::cmp::Ordering::Greater,
            _ => {}
        }
    }
    std::cmp::Ordering::Equal
}

/// The path and the hash of the tree of `sorted`, which are in bit order.
fn subtree(sorted: &[([u8; 32], Vec<u8>)]) -> (ProofPath, merkledb::hash::Hash) {
    if sorted.len() == 1 {
        return (ProofPath::new(&sorted[0].0), hash(&sorted[0].1));
    }
    let first = &sorted[0].0;
    let last = &sorted[sorted.len() - 1].0;
    let mut split = 0;
    while bit(first, split) == bit(last, split) {
        split += 1;
    }
    let at = sorted.iter().position(|e| bit(&e.0, split)).unwrap();
    let left = subtree(&sorted[..at]);
    let right = subtree(&sorted[at..]);
    let mut branch = BranchNode::empty();
    branch.set_child(ChildKind::Left, &left.0, &left.1);
    branch.set_child(ChildKind::Right, &right.0, &right.1);
    (ProofPath::new(first).prefix(split as u16), branch.hash())
}

fn random_entries(seed: u64, count: usize) -> Vec<([u8; 32], Vec<u8>)> {
    let mut rng = StdRng::seed_from_u64(seed);
    (0..count)
        .map(|_| {
            let mut key = [0u8; 32];
            rng.fill_bytes(&mut key);
            // Short common beginnings would hide mistakes deep in the tree.
            if rng.gen_bool(0.5) {
                for b in key.iter_mut().take(rng.gen_range(0..32)) {
                    *b = 0xAB;
                }
            }
            let len = rng.gen_range(0..10);
            let mut value = vec![0u8; len];
            rng.fill_bytes(&mut value);
            (key, value)
        })
        .collect()
}

fn check_proof(
    index: &Index,
    key: [u8; 32],
    expected: Option<Vec<u8>>,
) {
    let proof = index.get_proof(key);
    let checked = proof.verify(&index.merkle_root()).unwrap();
    assert_eq!(checked, vec![(key, expected)]);
    let mut wrong = index.merkle_root().to_vec();
    wrong[0] ^= 1;
    let wrong = merkledb::hash::Hash::from_slice(&wrong).unwrap();
    assert_eq!(proof.verify(&wrong), Err(MapProofError::HashMismatch));
}

#[test]
fn test_insert_trivial() {
    let db1 = TemporaryDB::default();
    let db2 = TemporaryDB::default();
    let storage1 = db1.fork();
    let storage2 = db2.fork();

    let mut index1: Index = ProofMapIndex::new(IDX_NAME, &storage1);
    index1.put(&[255; 32], vec![1]);
    index1.put(&[254; 32], vec![2]);

    let mut index2: Index = ProofMapIndex::new(IDX_NAME, &storage2);
    index2.put(&[254; 32], vec![2]);
    index2.put(&[255; 32], vec![1]);

    assert_eq!(index1.get(&[255; 32]), Some(vec![1]));
    assert_eq!(index1.get(&[254; 32]), Some(vec![2]));
    assert_eq!(index2.get(&[255; 32]), Some(vec![1]));
    assert_eq!(index2.get(&[254; 32]), Some(vec![2]));

    assert_ne!(index1.merkle_root(), zero_hash());
    assert_eq!(index1.merkle_root(), index2.merkle_root());
}

#[test]
fn empty_map_has_the_zero_root_hash() {
    let db = TemporaryDB::new();
    let fork = db.fork();
    let index: Index = ProofMapIndex::new(IDX_NAME, &fork);
    assert_eq!(index.merkle_root(), zero_hash());
    assert_eq!(index.get(&[1; 32]), None);
    assert!(!index.contains(&[1; 32]));
    let snapshot = db.snapshot();
    let index: ProofMapIndex<(), [u8; 32], Vec<u8>> = ProofMapIndex::new(IDX_NAME, &snapshot);
    assert_eq!(index.merkle_root(), zero_hash());
}

#[test]
fn root_hash_of_one_key_is_the_hash_of_path_and_value_hash() {
    let db = TemporaryDB::new();
    let fork = db.fork();
    let mut index: Index = ProofMapIndex::new(IDX_NAME, &fork);
    index.put(&[7; 32], vec![42]);
    let mut bytes = vec![1u8];
    bytes.extend_from_slice(&[7; 32]);
    bytes.push(0);
    bytes.extend_from_slice(hash(&[42]).as_bytes());
    assert_eq!(index.merkle_root(), hash(&bytes));
}

#[test]
fn root_hash_of_two_keys_is_the_hash_of_the_branch() {
    let db = TemporaryDB::new();
    let fork = db.fork();
    let mut index: Index = ProofMapIndex::new(IDX_NAME, &fork);
    let mut left = [0u8; 32];
    let mut right = [0u8; 32];
    left[0] = 0b0000_0011;
    right[0] = 0b0000_0111;
    index.put(&right, vec![2]);
    index.put(&left, vec![1]);
    let mut image = Vec::new();
    image.extend_from_slice(hash(&[1]).as_bytes());
    image.extend_from_slice(hash(&[2]).as_bytes());
    image.push(1);
    image.extend_from_slice(&left);
    image.push(0);
    image.push(1);
    image.extend_from_slice(&right);
    image.push(0);
    assert_eq!(image.len(), 132);
    assert_eq!(index.merkle_root(), hash(&image));
}

#[test]
fn leaf_proof() {
    let db = TemporaryDB::new();
    let fork = db.fork();
    let mut index: Index = ProofMapIndex::new(IDX_NAME, &fork);
    index.put(&[7; 32], vec![42]);
    let checked = index.get_proof([7; 32]).verify(&index.merkle_root()).unwrap();
    assert_eq!(checked, vec![([7; 32], Some(vec![42]))]);
}

#[test]
fn absence_proof() {
    let db = TemporaryDB::new();
    let fork = db.fork();
    let mut index: Index = ProofMapIndex::new(IDX_NAME, &fork);
    index.put(&[7; 32], vec![42]);
    let checked = index.get_proof([8; 32]).verify(&index.merkle_root()).unwrap();
    assert_eq!(checked, vec![([8; 32], None)]);
}

#[test]
fn proof_of_an_empty_map() {
    let db = TemporaryDB::new();
    let fork = db.fork();
    let index: Index = ProofMapIndex::new(IDX_NAME, &fork);
    let proof = index.get_proof([8; 32]);
    assert_eq!(proof.proof_len(), 0);
    assert_eq!(proof.verify(&zero_hash()).unwrap(), vec![([8; 32], None)]);
}

#[test]
fn multiproof() {
    let db = TemporaryDB::new();
    let fork = db.fork();
    let mut index: ProofMapIndex<_, [u8; 32], u64> = ProofMapIndex::new(IDX_NAME, &fork);
    for i in 0u8..100 {
        index.put(&[i; 32], i as u64);
    }
    let wanted: Vec<u8> = vec![0, 3, 50, 99, 100, 101, 150, 200, 255, 7, 8, 9, 120, 77, 78, 250, 1, 98, 180, 181];
    assert_eq!(wanted.len(), 20);
    let keys: Vec<[u8; 32]> = wanted.iter().map(|i| [*i; 32]).collect();
    let proof = index.get_multiproof(keys);
    let checked = proof.verify(&index.merkle_root()).unwrap();
    let expected: Vec<([u8; 32], Option<u64>)> = wanted
        .iter()
        .map(|i| ([*i; 32], if *i < 100 { Some(*i as u64) } else { None }))
        .collect();
    assert_eq!(checked, expected);
    let entries: Vec<([u8; 32], Vec<u8>)> =
        (0u8..100).map(|i| ([i; 32], (i as u64).into_bytes())).collect();
    assert_eq!(index.merkle_root(), expected_root(&entries));
}

#[test]
fn root_hash_is_that_of_the_tree_of_the_keys() {
    for seed in 0..20 {
        let entries = random_entries(seed, 1 + (seed as usize) * 3);
        let db = TemporaryDB::new();
        let fork = db.fork();
        let mut index: Index = ProofMapIndex::new(IDX_NAME, &fork);
        let mut so_far = Vec::new();
        for (k, v) in &entries {
            index.put(k, v.clone());
            so_far.retain(|e: &([u8; 32], Vec<u8>)| e.0 != *k);
            so_far.push((*k, v.clone()));
            assert_eq!(index.merkle_root(), expected_root(&so_far));
        }
        for (k, v) in &so_far {
            assert_eq!(index.get(k), Some(v.clone()));
        }
    }
}

#[test]
fn root_hash_does_not_depend_on_the_order_of_insertion() {
    let entries = random_entries(7, 40);
    let mut hashes = Vec::new();
    for round in 0..5 {
        let mut order = entries.clone();
        let mut rng = StdRng::seed_from_u64(round);
        for i in (1..order.len()).rev() {
            let j = rng.gen_range(0..=i);
            order.swap(i, j);
        }
        // One value for each key, whatever the order.
        let db = TemporaryDB::new();
        let fork = db.fork();
        let mut index: Index = ProofMapIndex::new(IDX_NAME, &fork);
        for (k, _) in &order {
            index.put(k, k.to_vec());
        }
        hashes.push(index.merkle_root());
    }
    assert!(hashes.windows(2).all(|w| w[0] == w[1]));
    assert_ne!(hashes[0], zero_hash());
}

#[test]
fn put_get_and_remove() {
    let db = TemporaryDB::new();
    let fork = db.fork();
    let mut index: Index = ProofMapIndex::new(IDX_NAME, &fork);
    index.put(&[1; 32], vec![1]);
    assert_eq!(index.get(&[1; 32]), Some(vec![1]));
    index.put(&[1; 32], vec![2]);
    assert_eq!(index.get(&[1; 32]), Some(vec![2]));
    index.remove(&[1; 32]);
    assert_eq!(index.get(&[1; 32]), None);
    assert_eq!(index.merkle_root(), zero_hash());
    index.remove(&[1; 32]);
    assert_eq!(index.merkle_root(), zero_hash());
}

#[test]
fn remove_leaves_the_tree_of_the_keys_that_stay() {
    for seed in 0..12 {
        let entries = random_entries(100 + seed, 30);
        let db = TemporaryDB::new();
        let fork = db.fork();
        let mut index: Index = ProofMapIndex::new(IDX_NAME, &fork);
        let mut so_far: Vec<([u8; 32], Vec<u8>)> = Vec::new();
        for (k, v) in &entries {
            index.put(k, v.clone());
            so_far.retain(|e| e.0 != *k);
            so_far.push((*k, v.clone()));
        }
        let mut rng = StdRng::seed_from_u64(seed);
        while !so_far.is_empty() {
            // A key that is not in the map is left alone.
            let before = index.merkle_root();
            let mut absent = [0u8; 32];
            rng.fill_bytes(&mut absent);
            index.remove(&absent);
            assert_eq!(index.merkle_root(), before);

            let at = rng.gen_range(0..so_far.len());
            let (k, _) = so_far.remove(at);
            index.remove(&k);
            assert_eq!(index.get(&k), None);
            assert!(!index.contains(&k));
            assert_eq!(index.merkle_root(), expected_root(&so_far));
            for (k, v) in &so_far {
                assert_eq!(index.get(k), Some(v.clone()));
            }
        }
        assert_eq!(index.merkle_root(), zero_hash());
    }
}

#[test]
fn proofs_of_random_maps_hold() {
    for seed in 0..10 {
        let entries = random_entries(200 + seed, 1 + (seed as usize) * 5);
        let db = TemporaryDB::new();
        let fork = db.fork();
        let mut index: Index = ProofMapIndex::new(IDX_NAME, &fork);
        let mut so_far: Vec<([u8; 32], Vec<u8>)> = Vec::new();
        for (k, v) in &entries {
            index.put(k, v.clone());
            so_far.retain(|e| e.0 != *k);
            so_far.push((*k, v.clone()));
        }
        for (k, v) in &so_far {
            check_proof(&index, *k, Some(v.clone()));
            // A key that differs from one of the map in one bit.
            for bit in [0usize, 1, 7, 8, 100, 255] {
                let mut other = *k;
                other[bit / 8] ^= 1 << (bit % 8);
                let expected = so_far.iter().find(|e| e.0 == other).map(|e| e.1.clone());
                check_proof(&index, other, expected);
            }
        }
        let mut rng = StdRng::seed_from_u64(seed);
        for _ in 0..20 {
            let mut key = [0u8; 32];
            rng.fill_bytes(&mut key);
            let expected = so_far.iter().find(|e| e.0 == key).map(|e| e.1.clone());
            check_proof(&index, key, expected);
        }
    }
}

#[test]
fn multiproofs_of_random_maps_hold() {
    for seed in 0..10 {
        let entries = random_entries(300 + seed, 2 + (seed as usize) * 6);
        let db = TemporaryDB::new();
        let fork = db.fork();
        let mut index: Index = ProofMapIndex::new(IDX_NAME, &fork);
        let mut so_far: Vec<([u8; 32], Vec<u8>)> = Vec::new();
        for (k, v) in &entries {
            index.put(k, v.clone());
            so_far.retain(|e| e.0 != *k);
            so_far.push((*k, v.clone()));
        }
        let mut rng = StdRng::seed_from_u64(seed);
        for _ in 0..10 {
            let mut keys: Vec<[u8; 32]> = Vec::new();
            for _ in 0..rng.gen_range(0..12) {
                if rng.gen_bool(0.6) {
                    keys.push(so_far[rng.gen_range(0..so_far.len())].0);
                } else {
                    let mut key = so_far[rng.gen_range(0..so_far.len())].0;
                    let bit = rng.gen_range(0..256);
                    key[bit / 8] ^= 1 << (bit % 8);
                    keys.push(key);
                }
            }
            // Keys that coincide are asked for on purpose: each stands once
            // in the proof.
            if let Some(first) = keys.first().copied() {
                keys.push(first);
            }
            let asked = keys.clone();
            let mut distinct: Vec<[u8; 32]> = Vec::new();
            for k in keys {
                if !distinct.contains(&k) {
                    distinct.push(k);
                }
            }
            let keys = distinct;
            let expected: Vec<([u8; 32], Option<Vec<u8>>)> = keys
                .iter()
                .map(|k| (*k, so_far.iter().find(|e| e.0 == *k).map(|e| e.1.clone())))
                .collect();
            let proof = index.get_multiproof(asked);
            for i in 1..proof.proof_len() {
                assert_eq!(
                    compare_paths(&proof.proof_at(i - 1).0, &proof.proof_at(i).0),
                    Order::Less
                );
            }
            let result = proof.verify(&index.merkle_root());
            assert_eq!(result.unwrap(), expected);
        }
    }
}

#[test]
fn proofs_that_were_tampered_with_do_not_hold() {
    let db = TemporaryDB::new();
    let fork = db.fork();
    let mut index: Index = ProofMapIndex::new(IDX_NAME, &fork);
    for i in 0u8..10 {
        index.put(&[i; 32], vec![i]);
    }
    let root = index.merkle_root();

    // Another value for a key found.
    let proof = index.get_proof([3; 32]);
    let parts: Vec<_> = (0..proof.proof_len()).map(|i| proof.proof_at(i)).collect();
    let forged: MapProof<[u8; 32], Vec<u8>> =
        MapProof::from_parts([3; 32], Some(vec![4]), parts.clone());
    assert_eq!(forged.verify(&root), Err(MapProofError::HashMismatch));

    // A key found said to be missing.
    let forged: MapProof<[u8; 32], Vec<u8>> = MapProof::from_parts([3; 32], None, parts.clone());
    assert_eq!(forged.verify(&root), Err(MapProofError::HashMismatch));

    // The parts in another order.
    let mut reversed = parts.clone();
    reversed.reverse();
    let forged: MapProof<[u8; 32], Vec<u8>> =
        MapProof::from_parts([3; 32], Some(vec![3]), reversed);
    assert_eq!(forged.verify(&root), Err(MapProofError::MalformedStructure));

    // A part twice.
    let mut doubled = parts.clone();
    doubled.insert(0, parts[0]);
    let forged: MapProof<[u8; 32], Vec<u8>> =
        MapProof::from_parts([3; 32], Some(vec![3]), doubled);
    assert_eq!(forged.verify(&root), Err(MapProofError::DuplicateEntry));

    // The leaf of the key among the parts as well.
    let mut with_leaf = parts.clone();
    let leaf = ProofPath::new(&[3u8; 32]);
    let at = with_leaf
        .iter()
        .position(|p| merkledb::proof_map_index::map_proof::compare_paths(&p.0, &leaf) == merkledb::lex::Order::Greater)
        .unwrap_or(with_leaf.len());
    with_leaf.insert(at, (leaf, hash(&[3])));
    let forged: MapProof<[u8; 32], Vec<u8>> =
        MapProof::from_parts([3; 32], Some(vec![3]), with_leaf);
    assert_eq!(forged.verify(&root), Err(MapProofError::DuplicateEntry));

    // A part that holds the path of a key said to be missing.
    let absent = index.get_proof([200; 32]);
    let absent_parts: Vec<_> = (0..absent.proof_len()).map(|i| absent.proof_at(i)).collect();
    let forged: MapProof<[u8; 32], Vec<u8>> = MapProof::from_parts([3; 32], None, absent_parts);
    assert_eq!(forged.verify(&root), Err(MapProofError::EmbeddedKey));

    // One part before a part that it begins.
    let first = ProofPath::new(&[0u8; 32]).prefix(3);
    let second = ProofPath::new(&[0u8; 32]);
    let forged: MapProof<[u8; 32], Vec<u8>> = MapProof::from_parts(
        [255; 32],
        None,
        vec![(first, hash(&[1])), (second, hash(&[2]))],
    );
    assert_eq!(forged.verify(&root), Err(MapProofError::EmbeddedKey));

    // A single part that is no leaf.
    let forged: MapProof<[u8; 32], Vec<u8>> =
        MapProof::from_parts([255; 32], None, vec![(first, hash(&[1]))]);
    assert_eq!(forged.verify(&root), Err(MapProofError::NonTerminalNode));

    // A value that is no encoding.
    let forged: MapProof<[u8; 32], u64> = MapProof::from_parts([3; 32], Some(vec![3]), parts);
    assert_eq!(forged.verify(&root), Err(MapProofError::MalformedStructure));
}

#[test]
fn iterators_walk_the_keys_in_order() {
    let db = TemporaryDB::new();
    let fork = db.fork();
    let mut index: ProofMapIndex<_, [u8; 32], u8> = ProofMapIndex::new(IDX_NAME, &fork);
    for i in [9u8, 3, 200, 7] {
        index.put(&[i; 32], i);
    }
    let mut it = index.iter();
    let mut seen = Vec::new();
    while let Some((k, v)) = it.next() {
        seen.push((k[0], v));
    }
    assert_eq!(seen, vec![(3, 3), (7, 7), (9, 9), (200, 200)]);

    let mut keys = index.keys();
    let mut seen = Vec::new();
    while let Some(k) = keys.next() {
        seen.push(k[0]);
    }
    assert_eq!(seen, vec![3, 7, 9, 200]);

    let mut values = index.values();
    let mut seen = Vec::new();
    while let Some(v) = values.next() {
        seen.push(v);
    }
    assert_eq!(seen, vec![3, 7, 9, 200]);

    let mut it = index.iter_from(&[8; 32]);
    let mut seen = Vec::new();
    while let Some((k, v)) = it.next() {
        seen.push((k[0], v));
    }
    assert_eq!(seen, vec![(9, 9), (200, 200)]);

    let mut keys = index.keys_from(&[9; 32]);
    let mut seen = Vec::new();
    while let Some(k) = keys.next() {
        seen.push(k[0]);
    }
    assert_eq!(seen, vec![9, 200]);

    let mut values = index.values_from(&[201; 32]);
    assert_eq!(values.next(), None);
}

#[test]
fn clear_empties_the_map() {
    let mut db = TemporaryDB::new();
    let mut fork = db.fork();
    let address = IndexAddress::with_root(IDX_NAME);
    {
        let mut index: Index = ProofMapIndex::new(IDX_NAME, &fork);
        index.put(&[1; 32], vec![1]);
        index.put(&[2; 32], vec![2]);
        fork.insert(&address, index);
    }
    db.merge(fork.into_patch()).unwrap();
    let mut fork = db.fork();
    let mut index: Index = ProofMapIndex::new(IDX_NAME, &fork);
    assert_eq!(index.get(&[1; 32]), Some(vec![1]));
    assert_ne!(index.merkle_root(), zero_hash());
    index.clear();
    assert_eq!(index.get(&[1; 32]), None);
    assert_eq!(index.merkle_root(), zero_hash());
    index.put(&[3; 32], vec![3]);
    let single = index.merkle_root();
    fork.insert(&address, index);
    db.merge(fork.into_patch()).unwrap();
    let snapshot = db.snapshot();
    let index: ProofMapIndex<(), [u8; 32], Vec<u8>> = ProofMapIndex::new(IDX_NAME, &snapshot);
    assert_eq!(index.get(&[1; 32]), None);
    assert_eq!(index.get(&[3; 32]), Some(vec![3]));
    assert_eq!(index.merkle_root(), single);
    assert_eq!(index.merkle_root(), expected_root(&[([3; 32], vec![3])]));
}

#[test]
fn maps_of_a_family_do_not_mix() {
    let db = TemporaryDB::new();
    let fork = db.fork();
    let mut one: Index = ProofMapIndex::new_in_family("family", &1u32, &fork);
    let mut two: Index = ProofMapIndex::new_in_family("family", &2u32, &fork);
    one.put(&[1; 32], vec![1]);
    two.put(&[1; 32], vec![2]);
    assert_eq!(one.get(&[1; 32]), Some(vec![1]));
    assert_eq!(two.get(&[1; 32]), Some(vec![2]));
    assert_ne!(one.merkle_root(), two.merkle_root());
}

#[test]
fn test_branch_node() {
    let mut branch = BranchNode::empty();

    let lh = hash(&[1, 2]);
    let rh = hash(&[3, 4]);
    let ls = ProofPath::new(&[253; 32]);
    let rs = ProofPath::new(&[244; 32]);

    branch.set_child(ChildKind::Left, &ls, &lh);
    branch.set_child(ChildKind::Right, &rs, &rh);

    assert_eq!(branch.child_hash(ChildKind::Left), lh);
    assert_eq!(branch.child_hash(ChildKind::Right), rh);
    assert_eq!(branch.child_path(ChildKind::Left), ls);
    assert_eq!(branch.child_path(ChildKind::Right), rs);
}

#[test]
fn branch_node_image() {
    let mut branch = BranchNode::empty();
    assert_eq!(branch.to_bytes(), vec![0u8; 132]);
    let path = ProofPath::new(&[0xFF; 32]).prefix(12);
    branch.set_child_path(ChildKind::Right, &path);
    branch.set_child_hash(ChildKind::Left, &hash(&[1]));
    let bytes = branch.to_bytes();
    assert_eq!(&bytes[0..32], hash(&[1]).as_bytes());
    assert_eq!(&bytes[32..98], &[0u8; 66][..]);
    assert_eq!(bytes[98], 0);
    assert_eq!(&bytes[99..101], &[0xFF, 0x0F]);
    assert_eq!(&bytes[101..131], &[0u8; 30][..]);
    assert_eq!(bytes[131], 12);
    assert_eq!(branch.hash(), hash(&bytes));
    let back = BranchNode::from_bytes(&bytes).unwrap();
    assert_eq!(back.to_bytes(), bytes);
    assert!(BranchNode::from_bytes(&bytes[1..]).is_none());
    let mut broken = bytes.clone();
    broken[64] = 1;
    broken[97] = 5;
    assert!(BranchNode::from_bytes(&broken).is_none());
}

#[test]
fn a_multiproof_of_an_empty_map_has_no_parts() {
    let db = TemporaryDB::new();
    let fork = db.fork();
    let index: Index = ProofMapIndex::new(IDX_NAME, &fork);
    let proof = index.get_multiproof(vec![[1; 32], [2; 32]]);
    assert_eq!(proof.proof_len(), 0);
    assert_eq!(proof.len(), 2);
    assert_eq!(
        proof.verify(&zero_hash()),
        Ok(vec![([1; 32], None), ([2; 32], None)])
    );
}

#[test]
fn a_multiproof_of_no_keys_has_the_children_of_the_root() {
    let db = TemporaryDB::new();
    let fork = db.fork();
    let mut index: Index = ProofMapIndex::new(IDX_NAME, &fork);
    index.put(&[0; 32], vec![1]);
    index.put(&[1; 32], vec![2]);
    index.put(&[3; 32], vec![3]);
    let proof = index.get_multiproof(Vec::new());
    assert_eq!(proof.proof_len(), 2);
    assert_eq!(proof.verify(&index.merkle_root()), Ok(Vec::new()));
}

#[test]
fn a_multiproof_of_all_keys_has_no_parts() {
    let db = TemporaryDB::new();
    let fork = db.fork();
    let mut index: Index = ProofMapIndex::new(IDX_NAME, &fork);
    let keys: Vec<[u8; 32]> = vec![[7; 32], [0; 32], [200; 32], [3; 32]];
    for (i, k) in keys.iter().enumerate() {
        index.put(k, vec![i as u8]);
    }
    let proof = index.get_multiproof(keys.clone());
    assert_eq!(proof.proof_len(), 0);
    let expected: Vec<([u8; 32], Option<Vec<u8>>)> =
        keys.iter().enumerate().map(|(i, k)| (*k, Some(vec![i as u8]))).collect();
    assert_eq!(proof.verify(&index.merkle_root()), Ok(expected));
}

#[test]
fn a_key_asked_for_twice_stands_once_in_the_proof() {
    let db = TemporaryDB::new();
    let fork = db.fork();
    let mut index: Index = ProofMapIndex::new(IDX_NAME, &fork);
    index.put(&[0; 32], vec![1]);
    index.put(&[1; 32], vec![2]);
    let proof = index.get_multiproof(vec![[1; 32], [9; 32], [1; 32], [9; 32], [0; 32], [1; 32]]);
    assert_eq!(proof.len(), 3);
    assert_eq!(
        proof.verify(&index.merkle_root()),
        Ok(vec![([1; 32], Some(vec![2])), ([9; 32], None), ([0; 32], Some(vec![1]))])
    );
    let proof = index.get_multiproof(vec![[9; 32], [9; 32]]);
    assert_eq!(proof.verify(&index.merkle_root()), Ok(vec![([9; 32], None)]));
}

#[test]
fn a_proof_that_names_a_key_found_twice_is_refused() {
    let db = TemporaryDB::new();
    let fork = db.fork();
    let mut index: Index = ProofMapIndex::new(IDX_NAME, &fork);
    index.put(&[0; 32], vec![1]);
    index.put(&[1; 32], vec![2]);
    let mut forged = index.get_proof([1; 32]);
    forged.merge(MapProof::from_parts([1; 32], Some(vec![2]), Vec::new()));
    assert_eq!(forged.verify(&index.merkle_root()), Err(MapProofError::DuplicateEntry));
}

#[test]
fn parts_are_checked_for_their_order() {
    let a = ProofPath::new(&[0u8; 32]);
    let b = ProofPath::new(&[1u8; 32]);
    let h = zero_hash();
    assert_eq!(check_order(&vec![]), None);
    assert_eq!(check_order(&vec![(a, h), (b, h)]), None);
    assert_eq!(check_order(&vec![(b, h), (a, h)]), Some(MapProofError::MalformedStructure));
    assert_eq!(check_order(&vec![(a, h), (a, h)]), Some(MapProofError::DuplicateEntry));
    assert_eq!(
        check_order(&vec![(a.prefix(3), h), (a, h)]),
        Some(MapProofError::EmbeddedKey)
    );
    assert_eq!(
        check_order(&vec![(a.suffix(1), h)]),
        Some(MapProofError::MalformedStructure)
    );
}

#[test]
fn a_leaf_is_put_at_its_place() {
    let a = ProofPath::new(&[0u8; 32]);
    let b = ProofPath::new(&[1u8; 32]);
    let c = ProofPath::new(&[3u8; 32]);
    let h = zero_hash();
    let mut items = vec![(a, h), (c, h)];
    assert_eq!(place_leaf(&mut items, b, h), None);
    assert_eq!(items.len(), 3);
    assert_eq!(items[1].0, b);
    assert_eq!(place_leaf(&mut items, b, h), Some(MapProofError::DuplicateEntry));
    assert_eq!(items.len(), 3);
    let mut items = vec![(a.prefix(8), h)];
    assert_eq!(place_leaf(&mut items, a, h), Some(MapProofError::EmbeddedKey));
    let mut items = Vec::new();
    assert_eq!(place_leaf(&mut items, a, h), None);
    assert_eq!(items.len(), 1);
}

#[test]
fn a_part_holds_the_paths_that_begin_with_it() {
    let a = ProofPath::new(&[0u8; 32]);
    let b = ProofPath::new(&[1u8; 32]);
    let h = zero_hash();
    assert!(holds_path(&vec![(b, h), (a.prefix(5), h)], &a));
    assert!(!holds_path(&vec![(b, h), (b.prefix(5), h)], &a));
    assert!(!holds_path(&Vec::new(), &a));
    assert!(enters_any(&vec![b, a], &a.prefix(5)));
    assert!(!enters_any(&vec![b], &a.prefix(5)));
    assert!(!enters_any(&Vec::new(), &a.prefix(5)));
}

#[test]
fn parts_fold_into_the_root() {
    let a = ProofPath::new(&[0u8; 32]);
    let b = ProofPath::new(&[1u8; 32]);
    let c = ProofPath::new(&[3u8; 32]);
    let ha = hash(&[1]);
    let hb = hash(&[2]);
    let hc = hash(&[3]);
    let items = vec![(a, ha), (b, hb), (c, hc)];
    // Bit 0 tells the first key from the others, bit 1 the second from the
    // third.
    let inner = hash_branch(&(b, hb), &(c, hc));
    let inner_path = b.prefix(1);
    let root = hash_branch(&(a, ha), &(inner_path, inner));
    assert_eq!(collect(&items), Ok(root));
    let folded = fold_range(&items, 1, 3).unwrap();
    assert_eq!(folded.0, inner_path);
    assert_eq!(folded.1, inner);
    assert_eq!(fold_range(&items, 0, 1), Ok((a, ha)));
    assert_eq!(collect(&Vec::new()), Ok(zero_hash()));
    assert_eq!(collect(&vec![(inner_path, inner)]), Err(MapProofError::NonTerminalNode));
    let mut bytes = a.as_bytes().to_vec();
    bytes.extend_from_slice(ha.as_bytes());
    assert_eq!(collect(&vec![(a, ha)]), Ok(hash(&bytes)));
    assert_eq!(
        collect(&vec![(b, hb), (a, ha)]),
        Err(MapProofError::MalformedStructure)
    );
    assert_eq!(
        collect(&vec![(a.prefix(4), ha), (a, ha)]),
        Err(MapProofError::EmbeddedKey)
    );
}

#[test]
fn left_and_right_parts_are_combined_in_order() {
    let a = ProofPath::new(&[0u8; 32]);
    let b = ProofPath::new(&[1u8; 32]);
    let c = ProofPath::new(&[3u8; 32]);
    let h = zero_hash();
    let all = combine(vec![(a, h)], vec![(c, h), (b, h)]);
    assert_eq!(all.len(), 3);
    assert_eq!(all[0].0, a);
    assert_eq!(all[1].0, b);
    assert_eq!(all[2].0, c);
    assert_eq!(compare_paths(&a, &b), Order::Less);
    assert_eq!(compare_paths(&c, &b), Order::Greater);
    assert_eq!(compare_paths(&b, &b), Order::Equal);
    assert_eq!(compare_paths(&b.prefix(9), &b), Order::Less);
}
