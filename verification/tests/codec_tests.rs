use sparse_bit_set::from_sparse_bit_set;
use sparse_bit_set::to_sparse_bit_set;
use sparse_bit_set::to_sparse_bit_set_with_bf;
use sparse_bit_set::tree_height_for;
use sparse_bit_set::BranchFactor;
use sparse_bit_set::IntSet;

fn set_of(values: &[u32]) -> IntSet {
    let mut s = IntSet::empty();
    for v in values {
        s.insert(*v);
    }
    s
}

#[test]
fn spec_example_2() {
    // Decoding example 2 of the format specification.
    let bytes = [
        0b00001110, 0b00100001, 0b00010001, 0b00000001, 0b00000100, 0b00000010, 0b00001000,
    ];

    let set = from_sparse_bit_set(&bytes).unwrap();
    let expected = set_of(&[2, 33, 323]);
    assert_eq!(set, expected);
}

#[test]
fn spec_example_3() {
    // Decoding example 3 of the format specification.
    let bytes = [0b00000000];

    let set = from_sparse_bit_set(&bytes).unwrap();
    let expected = set_of(&[]);
    assert_eq!(set, expected);
}

#[test]
fn spec_example_4() {
    // Decoding example 4 of the format specification.
    let bytes = [0b00001101, 0b00000011, 0b00110001];

    let set = from_sparse_bit_set(&bytes).unwrap();

    let mut expected = IntSet::empty();
    expected.insert_range(0, 17);

    assert_eq!(set, expected);
}

#[test]
fn invalid() {
    // Spec example 2 with one byte missing.
    let bytes = [
        0b00001110, 0b00100001, 0b00010001, 0b00000001, 0b00000100, 0b00000010,
    ];
    assert!(from_sparse_bit_set(&bytes).is_err());
}

#[test]
fn test_tree_height_for() {
    assert_eq!(tree_height_for(2, 0), 1);
    assert_eq!(tree_height_for(2, 1), 1);
    assert_eq!(tree_height_for(2, 2), 2);
    assert_eq!(tree_height_for(2, 117), 7);

    assert_eq!(tree_height_for(4, 0), 1);
    assert_eq!(tree_height_for(4, 3), 1);
    assert_eq!(tree_height_for(4, 4), 2);
    assert_eq!(tree_height_for(4, 63), 3);
    assert_eq!(tree_height_for(4, 64), 4);

    assert_eq!(tree_height_for(8, 0), 1);
    assert_eq!(tree_height_for(8, 7), 1);
    assert_eq!(tree_height_for(8, 8), 2);
    assert_eq!(tree_height_for(8, 32767), 5);
    assert_eq!(tree_height_for(8, 32768), 6);

    assert_eq!(tree_height_for(32, 0), 1);
    assert_eq!(tree_height_for(32, 31), 1);
    assert_eq!(tree_height_for(32, 32), 2);
    assert_eq!(tree_height_for(32, 1_048_575), 4);
    assert_eq!(tree_height_for(32, 1_048_576), 5);
}

#[test]
fn generate_spec_example_2() {
    // Reproducing the encoding of example 2 of the format specification.
    let actual_bytes = to_sparse_bit_set_with_bf(&set_of(&[2, 33, 323]), BranchFactor::Eight);
    let expected_bytes = [
        0b00001110, 0b00100001, 0b00010001, 0b00000001, 0b00000100, 0b00000010, 0b00001000,
    ];

    assert_eq!(actual_bytes, expected_bytes);
}

#[test]
fn generate_spec_example_3() {
    // Reproducing the encoding of example 3 of the format specification.
    let actual_bytes = to_sparse_bit_set_with_bf(&IntSet::empty(), BranchFactor::Two);
    let expected_bytes = [0b00000000];

    assert_eq!(actual_bytes, expected_bytes);
}

#[test]
fn encode_bf32() {
    let actual_bytes = to_sparse_bit_set_with_bf(&set_of(&[2, 31, 323]), BranchFactor::ThirtyTwo);
    let expected_bytes = [
        0b0_00010_11,
        // node 0
        0b00000001,
        0b00000100,
        0b00000000,
        0b00000000,
        // node 1
        0b00000100,
        0b00000000,
        0b00000000,
        0b10000000,
        // node 2
        0b00001000,
        0b00000000,
        0b00000000,
        0b00000000,
    ];

    assert_eq!(actual_bytes, expected_bytes);
}

fn check_round_trip(s: &IntSet, branch_factor: BranchFactor) {
    let bytes = to_sparse_bit_set_with_bf(s, branch_factor);
    let s_prime = from_sparse_bit_set(&bytes).unwrap();
    assert_eq!(*s, s_prime);
}

#[test]
fn round_trip() {
    let s1 = set_of(&[11, 74, 9358]);
    let mut s2 = s1.clone();
    s2.insert_range(67, 412);

    check_round_trip(&s1, BranchFactor::Two);
    check_round_trip(&s1, BranchFactor::Four);
    check_round_trip(&s1, BranchFactor::Eight);
    check_round_trip(&s1, BranchFactor::ThirtyTwo);

    check_round_trip(&s2, BranchFactor::Two);
    check_round_trip(&s2, BranchFactor::Four);
    check_round_trip(&s2, BranchFactor::Eight);
    check_round_trip(&s2, BranchFactor::ThirtyTwo);
}

#[test]
fn find_smallest_bf() {
    let s = set_of(&[11, 74, 9358]);
    let bytes = to_sparse_bit_set(&s);
    // BF4
    assert_eq!(vec![0b0_00111_01], bytes[0..1]);

    let s = set_of(&[16, 0, 2, 4, 6, 8, 10, 12, 14, 16, 18, 20, 22, 24, 26, 28, 30]);
    let bytes = to_sparse_bit_set(&s);
    // BF32
    assert_eq!(vec![0b0_00001_11], bytes[0..1]);
}

#[test]
fn encode_empty_set_selects_single_zero_byte() {
    let bytes = to_sparse_bit_set(&IntSet::empty());
    assert_eq!(bytes, [0b00000000]);
    let decoded = from_sparse_bit_set(&bytes).unwrap();
    assert_eq!(decoded, IntSet::empty());
}

#[test]
fn selected_encoding_is_never_longer_than_any_branch_factor() {
    let s = set_of(&[0, 5, 63, 64, 511, 512, 4095]);
    let best = to_sparse_bit_set(&s);
    for bf in [
        BranchFactor::Two,
        BranchFactor::Four,
        BranchFactor::Eight,
        BranchFactor::ThirtyTwo,
    ] {
        let candidate = to_sparse_bit_set_with_bf(&s, bf);
        assert!(best.len() <= candidate.len());
    }
}

#[test]
fn every_truncation_of_a_valid_encoding_fails() {
    let bytes = to_sparse_bit_set_with_bf(&set_of(&[2, 33, 323]), BranchFactor::Eight);
    for keep in 0..bytes.len() {
        assert!(from_sparse_bit_set(&bytes[0..keep]).is_err());
    }
}

#[test]
fn all_zero_root_node_fills_its_subtree() {
    // Branch factor 8, height 2, one all-zero node: the root's whole range.
    let bytes = [0b0_00010_10, 0b00000000];
    let set = from_sparse_bit_set(&bytes).unwrap();
    let mut expected = IntSet::empty();
    expected.insert_range(0, 63);
    assert_eq!(set, expected);
}

#[test]
fn all_zero_leaf_node_fills_at_exponent_one() {
    // Branch factor 4, height 2: root has child 1, whose leaf node is all
    // zero, so it fills values 4 through 7.
    let bytes = [0b0_00010_01, 0b0000_0010];
    let set = from_sparse_bit_set(&bytes).unwrap();
    let mut expected = IntSet::empty();
    expected.insert_range(4, 7);
    assert_eq!(set, expected);
}

#[test]
fn decode_with_unrepresentable_values_fails() {
    // Branch factor 32, height 31: the second child of the root would start
    // at 32^30, far outside the `u32` range.
    let bytes = [0b0_11111_11, 0b00000010, 0b00000000, 0b00000000, 0b00000000];
    assert!(from_sparse_bit_set(&bytes).is_err());
}

#[test]
fn decode_empty_input_fails() {
    let bytes: [u8; 0] = [];
    assert!(from_sparse_bit_set(&bytes).is_err());
}

#[test]
fn round_trip_sets_with_zero_and_large_values() {
    let sets = [
        set_of(&[0]),
        set_of(&[0, 1]),
        set_of(&[1000000, 2000000]),
        set_of(&[0, 16, 31, 32, 33]),
    ];
    for s in sets {
        check_round_trip(&s, BranchFactor::Two);
        check_round_trip(&s, BranchFactor::Four);
        check_round_trip(&s, BranchFactor::Eight);
        check_round_trip(&s, BranchFactor::ThirtyTwo);
    }
}
