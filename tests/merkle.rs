use flowcheck_merkle::field::{hash_pair, Felt};
use flowcheck_merkle::merkle::{
    compute_merkle_path, compute_merkle_root, compute_merkle_tree, compute_merkle_tree2,
    update_merkle_tree,
};

fn f(v: u64) -> Felt {
    Felt::from_u64(v)
}

fn felts(vs: &[u64]) -> Vec<Felt> {
    vs.iter().map(|v| f(*v)).collect()
}

fn root_of(tree: &Vec<Vec<Felt>>) -> Felt {
    tree[tree.len() - 1][0]
}

#[test]
fn felt_from_u64_encodes_little_endian() {
    let mut expected = [0u8; 32];
    expected[0] = 0x08;
    expected[1] = 0x07;
    expected[7] = 0x01;
    assert_eq!(f(0x0100_0000_0000_0708).to_le_bytes(), expected);
    assert_eq!(f(0).to_le_bytes(), [0u8; 32]);
    let mut max = [0u8; 32];
    for b in max.iter_mut().take(8) {
        *b = 0xff;
    }
    assert_eq!(f(u64::MAX).to_le_bytes(), max);
}

#[test]
fn hash_of_one_and_one_matches_circom_poseidon() {
    let expected_be: [u8; 32] = [
        0, 122, 243, 70, 226, 211, 4, 39, 158, 121, 224, 169, 243, 2, 63, 119, 18, 148, 167, 138,
        203, 112, 231, 63, 144, 175, 226, 124, 173, 64, 30, 129,
    ];
    let mut got = hash_pair(&f(1), &f(1)).to_le_bytes();
    got.reverse();
    assert_eq!(got, expected_be);
}

#[test]
fn hash_is_order_sensitive() {
    assert_ne!(hash_pair(&f(1), &f(2)), hash_pair(&f(2), &f(1)));
    assert_ne!(hash_pair(&f(1), &f(2)), f(1));
}

#[test]
fn three_leaves_duplicate_the_boundary_leaf() {
    let leaves = felts(&[1, 2, 3]);
    let tree = compute_merkle_tree(&leaves);
    let h12 = hash_pair(&f(1), &f(2));
    let h23 = hash_pair(&f(2), &f(3));
    assert_eq!(tree.len(), 3);
    assert_eq!(tree[0], felts(&[1, 2, 2, 3]));
    assert_eq!(tree[1], vec![h12, h23]);
    assert_eq!(tree[2], vec![hash_pair(&h12, &h23)]);
}

#[test]
fn first_layer_is_the_leaves_for_four() {
    let leaves = felts(&[5, 6, 7, 8]);
    let tree = compute_merkle_tree(&leaves);
    assert_eq!(tree[0], leaves);
    assert_eq!(tree.len(), 3);
    let h56 = hash_pair(&f(5), &f(6));
    let h78 = hash_pair(&f(7), &f(8));
    assert_eq!(root_of(&tree), hash_pair(&h56, &h78));
}

#[test]
fn single_leaf_is_its_own_root() {
    let leaves = felts(&[42]);
    let tree = compute_merkle_tree(&leaves);
    assert_eq!(tree, vec![vec![f(42)]]);
    let path = compute_merkle_path(&tree, 0);
    assert!(path.is_empty());
    assert_eq!(compute_merkle_root(f(42), 0, &path), f(42));
}

#[test]
fn path_round_trips_to_the_root() {
    for n in 1..=9u64 {
        let leaves: Vec<Felt> = (1..=n).map(f).collect();
        let tree = compute_merkle_tree(&leaves);
        let root = root_of(&tree);
        for i in 0..tree[0].len() {
            let path = compute_merkle_path(&tree, i);
            assert_eq!(path.len(), tree.len() - 1);
            assert_eq!(compute_merkle_root(tree[0][i], i, &path), root);
        }
    }
}

#[test]
fn wrong_leaf_does_not_reach_the_root() {
    let leaves = felts(&[1, 2, 3, 4]);
    let tree = compute_merkle_tree(&leaves);
    let path = compute_merkle_path(&tree, 1);
    assert_ne!(compute_merkle_root(f(9), 1, &path), root_of(&tree));
    assert_ne!(compute_merkle_root(f(2), 0, &path), root_of(&tree));
}

#[test]
fn root_follows_the_index_parity() {
    let path = felts(&[7, 8]);
    let even = hash_pair(&hash_pair(&f(1), &f(7)), &f(8));
    let odd = hash_pair(&f(8), &hash_pair(&f(7), &f(1)));
    assert_eq!(compute_merkle_root(f(1), 0, &path), even);
    assert_eq!(compute_merkle_root(f(1), 3, &path), odd);
    assert_eq!(compute_merkle_root(f(1), 5, &[]), f(1));
}

#[test]
fn odd_leaf_count_pairs_index_two_with_a_real_sibling() {
    let tree = compute_merkle_tree(&felts(&[1, 2, 3]));
    let path = compute_merkle_path(&tree, 2);
    assert_eq!(path, vec![f(3), hash_pair(&f(1), &f(2))]);
}

#[test]
fn unpaired_tail_element_takes_the_last_element() {
    let tree = vec![felts(&[1, 2, 3]), felts(&[10, 11]), felts(&[20])];
    let path = compute_merkle_path(&tree, 2);
    assert_eq!(path, vec![f(3), f(10)]);
}

#[test]
fn update_matches_a_rebuilt_tree() {
    let mut tree = compute_merkle_tree(&felts(&[1, 2, 3, 4]));
    let root = update_merkle_tree(&mut tree, 2, f(9));
    let rebuilt = compute_merkle_tree(&felts(&[1, 2, 9, 4]));
    assert_eq!(tree, rebuilt);
    assert_eq!(root, root_of(&rebuilt));
    let path = compute_merkle_path(&tree, 2);
    assert_eq!(compute_merkle_root(f(9), 2, &path), root);
}

#[test]
fn update_of_an_odd_tree_keeps_paths_valid() {
    let mut tree = compute_merkle_tree(&felts(&[1, 2, 3, 4, 5]));
    let old_root = root_of(&tree);
    let root = update_merkle_tree(&mut tree, 5, f(50));
    assert_ne!(root, old_root);
    assert_eq!(tree[0][5], f(50));
    for i in 0..tree[0].len() {
        let path = compute_merkle_path(&tree, i);
        assert_eq!(compute_merkle_root(tree[0][i], i, &path), root);
    }
}

#[test]
fn update_single_leaf_tree() {
    let mut tree = compute_merkle_tree(&felts(&[1]));
    assert_eq!(update_merkle_tree(&mut tree, 0, f(2)), f(2));
    assert_eq!(tree, vec![vec![f(2)]]);
}

#[test]
fn root_only_variant() {
    assert_eq!(compute_merkle_tree2(&felts(&[4])), f(4));
    assert_eq!(compute_merkle_tree2(&felts(&[1, 2])), hash_pair(&f(1), &f(2)));
    let h11 = hash_pair(&f(1), &f(1));
    assert_eq!(compute_merkle_tree2(&felts(&[1, 2, 3])), hash_pair(&f(1), &h11));
    let h12 = hash_pair(&f(1), &f(2));
    let h34 = hash_pair(&f(3), &f(4));
    assert_eq!(compute_merkle_tree2(&felts(&[1, 2, 3, 4])), hash_pair(&h12, &h34));
    let tree = compute_merkle_tree(&felts(&[1, 2, 3, 4]));
    assert_eq!(compute_merkle_tree2(&felts(&[1, 2, 3, 4])), root_of(&tree));
}

#[test]
fn from_le_bytes_accepts_exactly_the_canonical_encodings() {
    let modulus_be: [u8; 32] = [
        0x30, 0x64, 0x4e, 0x72, 0xe1, 0x31, 0xa0, 0x29, 0xb8, 0x50, 0x45, 0xb6, 0x81, 0x81, 0x58,
        0x5d, 0x28, 0x33, 0xe8, 0x48, 0x79, 0xb9, 0x70, 0x91, 0x43, 0xe1, 0xf5, 0x93, 0xf0, 0x00,
        0x00, 0x01,
    ];
    let mut modulus = modulus_be;
    modulus.reverse();
    assert_eq!(Felt::from_le_bytes(modulus), None);
    let mut below = modulus;
    below[0] = 0x00;
    let x = Felt::from_le_bytes(below).unwrap();
    assert_eq!(x.to_le_bytes(), below);
    assert_eq!(Felt::from_le_bytes([0xff; 32]), None);
    let mut seven = [0u8; 32];
    seven[0] = 7;
    assert_eq!(Felt::from_le_bytes(seven), Some(f(7)));
}

#[test]
fn update_hashes_an_unpaired_tail_leaf_with_itself() {
    let h12 = hash_pair(&f(1), &f(2));
    let h33 = hash_pair(&f(3), &f(3));
    let mut tree = vec![felts(&[1, 2, 3]), vec![h12, h33], vec![hash_pair(&h12, &h33)]];
    let root = update_merkle_tree(&mut tree, 2, f(5));
    let h55 = hash_pair(&f(5), &f(5));
    let expected_root = hash_pair(&h12, &h55);
    assert_eq!(tree, vec![felts(&[1, 2, 5]), vec![h12, h55], vec![expected_root]]);
    assert_eq!(root, expected_root);
}

#[test]
fn update_of_a_paired_leaf_in_an_odd_layer() {
    let h12 = hash_pair(&f(1), &f(2));
    let h33 = hash_pair(&f(3), &f(3));
    let mut tree = vec![felts(&[1, 2, 3]), vec![h12, h33], vec![hash_pair(&h12, &h33)]];
    let root = update_merkle_tree(&mut tree, 1, f(7));
    let h17 = hash_pair(&f(1), &f(7));
    assert_eq!(tree, vec![felts(&[1, 7, 3]), vec![h17, h33], vec![hash_pair(&h17, &h33)]]);
    assert_eq!(root, hash_pair(&h17, &h33));
}

#[test]
fn update_with_the_current_value_changes_nothing() {
    let h12 = hash_pair(&f(1), &f(2));
    let h33 = hash_pair(&f(3), &f(3));
    let start = vec![felts(&[1, 2, 3]), vec![h12, h33], vec![hash_pair(&h12, &h33)]];
    let mut tree = start.clone();
    let root = update_merkle_tree(&mut tree, 2, f(3));
    assert_eq!(tree, start);
    assert_eq!(root, start[2][0]);
    let mut built = compute_merkle_tree(&felts(&[4, 5, 6, 7, 8]));
    let before = built.clone();
    update_merkle_tree(&mut built, 3, before[0][3]);
    assert_eq!(built, before);
}
