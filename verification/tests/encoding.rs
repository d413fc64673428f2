use whir_helper::convert::OpenZeppelinMultiProof;
use whir_helper::decode::prefix_decode_path;
use whir_helper::digest::Digest;
use whir_helper::encode::digest_to_hex;
use whir_helper::tree_index::to_tree_index;

#[test]
fn tree_index_formula() {
    assert_eq!(to_tree_index(0, 0), 0);
    assert_eq!(to_tree_index(0, 1), 1);
    assert_eq!(to_tree_index(1, 1), 2);
    assert_eq!(to_tree_index(0, 2), 3);
    assert_eq!(to_tree_index(3, 2), 6);
    assert_eq!(to_tree_index(5, 3), 12);
}

#[test]
fn prefix_decode_zero_prefix_is_suffix() {
    let prev = vec![Digest([1; 32]), Digest([2; 32])];
    let suffix = vec![Digest([9; 32])];
    let path = prefix_decode_path(&prev, 0, &suffix);
    assert_eq!(path.len(), 1);
    assert_eq!(path[0].0, [9; 32]);
}

#[test]
fn prefix_decode_concatenates() {
    let prev = vec![Digest([1; 32]), Digest([2; 32]), Digest([3; 32])];
    let suffix = vec![Digest([9; 32])];
    let path = prefix_decode_path(&prev, 2, &suffix);
    assert_eq!(path.len(), 3);
    assert_eq!(path[0].0, [1; 32]);
    assert_eq!(path[1].0, [2; 32]);
    assert_eq!(path[2].0, [9; 32]);
}

#[test]
fn digest_hex_exact() {
    let mut b = [0u8; 32];
    for i in 0..32 {
        b[i] = i as u8;
    }
    let s = digest_to_hex(&Digest(b));
    assert_eq!(
        s,
        "0x000102030405060708090a0b0c0d0e0f101112131415161718191a1b1c1d1e1f"
    );
    let t = digest_to_hex(&Digest([0xab; 32]));
    assert_eq!(
        t,
        "0xabababababababababababababababababababababababababababababababab"
    );
}

#[test]
fn compact_proof_hex_fields() {
    let out = OpenZeppelinMultiProof {
        leaves: vec![Digest([0x01; 32]), Digest([0xff; 32])],
        proof: vec![Digest([0x10; 32])],
        proof_flags: vec![true, false],
        root: Digest([0xcd; 32]),
    };
    let leaves = out.leaves_hex();
    assert_eq!(leaves.len(), 2);
    assert_eq!(
        leaves[0],
        "0x0101010101010101010101010101010101010101010101010101010101010101"
    );
    assert_eq!(
        leaves[1],
        "0xffffffffffffffffffffffffffffffffffffffffffffffffffffffffffffffff"
    );
    let proof = out.proof_hex();
    assert_eq!(proof.len(), 1);
    assert_eq!(
        proof[0],
        "0x1010101010101010101010101010101010101010101010101010101010101010"
    );
    assert_eq!(
        out.root_hex(),
        "0xcdcdcdcdcdcdcdcdcdcdcdcdcdcdcdcdcdcdcdcdcdcdcdcdcdcdcdcdcdcdcdcd"
    );
}
