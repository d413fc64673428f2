use std::collections::VecDeque;
use whir_helper::convert::{convert_proof, OpenZeppelinMultiProof, RawMultiProof};
use whir_helper::digest::Digest;
use whir_helper::model::ConvertError;

/// A small deterministic digest for test leaves.
fn d(x: u8) -> Digest {
    let mut b = [0u8; 32];
    for i in 0..32 {
        b[i] = x.wrapping_mul(37).wrapping_add(i as u8);
    }
    Digest(b)
}

/// Order-insensitive deterministic pair combiner, mirroring a sorted-pair
/// hasher: the smaller digest (bytewise) goes first, then the bytes are mixed.
fn combine(a: &Digest, b: &Digest) -> Digest {
    let (lo, hi) = if a.0 <= b.0 { (a, b) } else { (b, a) };
    let mut out = [0u8; 32];
    let mut carry: u8 = 7;
    for i in 0..32 {
        out[i] = lo.0[i]
            .wrapping_mul(3)
            .wrapping_add(hi.0[i].rotate_left(1))
            .wrapping_add(carry)
            .wrapping_add(i as u8);
        carry = out[i].rotate_left(3) ^ lo.0[i];
    }
    Digest(out)
}

/// levels[0] is the root level (one node), levels[h] the leaves.
struct Tree {
    levels: Vec<Vec<Digest>>,
}

impl Tree {
    fn height(&self) -> usize {
        self.levels.len() - 1
    }

    fn root(&self) -> Digest {
        self.levels[0][0]
    }
}

fn build_tree(leaves: &[Digest]) -> Tree {
    assert!(leaves.len().is_power_of_two());
    let mut levels = vec![leaves.to_vec()];
    let mut cur = leaves.to_vec();
    while cur.len() > 1 {
        let mut next = Vec::new();
        for i in 0..cur.len() / 2 {
            next.push(combine(&cur[2 * i], &cur[2 * i + 1]));
        }
        levels.push(next.clone());
        cur = next;
    }
    levels.reverse();
    Tree { levels }
}

/// The full sibling path of a leaf, index 0 at level 1 (nearest the root),
/// the last entry at level h - 1 (nearest the leaves).
fn full_path(tree: &Tree, leaf: usize) -> Vec<Digest> {
    let h = tree.height();
    let mut path = Vec::new();
    for level in 1..h {
        let anc = leaf >> (h - level);
        path.push(tree.levels[level][anc ^ 1]);
    }
    path
}

/// The raw, prefix-compressed multi-proof that the external tree library
/// would supply for a sorted set of leaf indices.
fn make_raw(tree: &Tree, indices: &[usize]) -> RawMultiProof {
    let h = tree.height();
    let mut leaf_sibling_digests = Vec::new();
    let mut path_prefix_lengths = Vec::new();
    let mut path_suffixes = Vec::new();
    let mut prev: Option<Vec<Digest>> = None;
    for &leaf in indices {
        leaf_sibling_digests.push(tree.levels[h][leaf ^ 1]);
        let path = full_path(tree, leaf);
        let lcp = match &prev {
            None => 0,
            Some(p) => {
                let mut c = 0;
                while c < p.len() && c < path.len() && p[c].0 == path[c].0 {
                    c += 1;
                }
                c
            }
        };
        path_prefix_lengths.push(lcp);
        path_suffixes.push(path[lcp..].to_vec());
        prev = Some(path);
    }
    RawMultiProof {
        proved_leaf_indices: indices.to_vec(),
        leaf_sibling_digests,
        path_prefix_lengths,
        path_suffixes,
    }
}

fn leaf_digests(tree: &Tree, indices: &[usize]) -> Vec<Digest> {
    let h = tree.height();
    indices.iter().map(|&i| tree.levels[h][i]).collect()
}

/// The batch verifier's replay procedure, the conversion's acceptance oracle.
fn replay(leaves: &[Digest], proof: &[Digest], flags: &[bool]) -> Digest {
    let mut queue: VecDeque<Digest> = leaves.iter().cloned().collect();
    let mut pi = 0;
    for &f in flags {
        let a = queue.pop_front().expect("replay queue underflow");
        let b = if f {
            queue.pop_front().expect("replay queue underflow")
        } else {
            pi += 1;
            proof[pi - 1]
        };
        queue.push_back(combine(&a, &b));
    }
    assert_eq!(pi, proof.len(), "replay must consume the whole proof");
    if flags.is_empty() {
        if !leaves.is_empty() {
            return leaves[0];
        }
        return proof[0];
    }
    let out = queue.pop_front().expect("replay queue empty");
    assert!(queue.is_empty(), "replay queue must end with a single value");
    out
}

fn convert_ok(tree: &Tree, indices: &[usize]) -> OpenZeppelinMultiProof {
    let raw = make_raw(tree, indices);
    convert_proof(&raw, leaf_digests(tree, indices), tree.root()).expect("conversion must succeed")
}

fn check_round_trip(tree: &Tree, indices: &[usize]) {
    let out = convert_ok(tree, indices);
    // length invariant for every nonempty proved set
    assert_eq!(
        out.proof_flags.len() + 1,
        out.leaves.len() + out.proof.len(),
        "length invariant violated for {:?}",
        indices
    );
    let got = replay(&out.leaves, &out.proof, &out.proof_flags);
    assert_eq!(got.0, tree.root().0, "replay mismatch for {:?}", indices);
}

fn tree_of_height(h: usize) -> Tree {
    let leaves: Vec<Digest> = (0..(1usize << h)).map(|i| d(i as u8 + 1)).collect();
    build_tree(&leaves)
}

#[test]
fn round_trip_height_one() {
    let tree = tree_of_height(1);
    check_round_trip(&tree, &[0]);
    check_round_trip(&tree, &[1]);
    check_round_trip(&tree, &[0, 1]);
}

#[test]
fn round_trip_all_subsets_up_to_height_three() {
    for h in 1..=3usize {
        let tree = tree_of_height(h);
        let n = 1usize << h;
        for mask in 1..(1usize << n) {
            let indices: Vec<usize> = (0..n).filter(|i| mask & (1 << i) != 0).collect();
            check_round_trip(&tree, &indices);
        }
    }
}

#[test]
fn round_trip_height_four_samples() {
    let tree = tree_of_height(4);
    for i in 0..16 {
        check_round_trip(&tree, &[i]);
    }
    let mut state: u32 = 0x12345;
    for _ in 0..60 {
        let mut indices = Vec::new();
        for i in 0..16 {
            state = state.wrapping_mul(1103515245).wrapping_add(12345);
            if (state >> 16) & 3 == 0 {
                indices.push(i);
            }
        }
        if indices.is_empty() {
            continue;
        }
        check_round_trip(&tree, &indices);
    }
}

#[test]
fn singleton_proof_is_full_path() {
    // A single proved leaf needs every sibling supplied: the leaf's sibling,
    // then the path digests from the level nearest the leaves up to the root.
    let tree = tree_of_height(3);
    let out = convert_ok(&tree, &[5]);
    assert_eq!(out.proof_flags, vec![false, false, false]);
    let path = full_path(&tree, 5);
    assert_eq!(out.proof.len(), 3);
    assert_eq!(out.proof[0].0, tree.levels[3][4].0);
    assert_eq!(out.proof[1].0, path[1].0); // sibling at level 2
    assert_eq!(out.proof[2].0, path[0].0); // sibling at level 1
    check_round_trip(&tree, &[5]);
}

#[test]
fn sibling_pair_collapse() {
    // S = {2k, 2k+1}: one true flag for the pair, no digest for the shared
    // parent; the remaining levels each supply one digest.
    let tree = tree_of_height(3);
    let out = convert_ok(&tree, &[2, 3]);
    assert_eq!(out.proof_flags, vec![true, false, false]);
    assert_eq!(out.proof.len(), 2);
    // the shared parent levels[2][1] itself never appears in the proof
    for p in &out.proof {
        assert_ne!(p.0, tree.levels[2][1].0);
    }
    assert_eq!(out.proof[0].0, tree.levels[2][0].0);
    assert_eq!(out.proof[1].0, tree.levels[1][1].0);
    check_round_trip(&tree, &[2, 3]);
}

#[test]
fn full_tree_proof_is_empty_and_all_true() {
    for h in 1..=3usize {
        let tree = tree_of_height(h);
        let indices: Vec<usize> = (0..(1usize << h)).collect();
        let out = convert_ok(&tree, &indices);
        assert!(out.proof.is_empty());
        assert_eq!(out.proof_flags.len(), (1usize << h) - 1);
        assert!(out.proof_flags.iter().all(|&f| f));
        check_round_trip(&tree, &indices);
    }
}

#[test]
fn length_invariant_various_sets() {
    let tree = tree_of_height(3);
    for indices in [
        vec![0],
        vec![7],
        vec![0, 1],
        vec![0, 7],
        vec![1, 2, 3],
        vec![0, 3, 5],
        vec![0, 1, 2, 3, 4, 5, 6, 7],
    ] {
        let out = convert_ok(&tree, &indices);
        assert_eq!(out.proof_flags.len() + 1, out.leaves.len() + out.proof.len());
    }
}

#[test]
fn concrete_scenario_height_three() {
    // Height 3, S = {0, 3, 5}: each proved leaf has an unproved sibling, so
    // the first three emissions are those siblings' digests with false flags.
    let tree = tree_of_height(3);
    let out = convert_ok(&tree, &[0, 3, 5]);
    assert_eq!(out.proof[0].0, tree.levels[3][1].0);
    assert_eq!(out.proof[1].0, tree.levels[3][2].0);
    assert_eq!(out.proof[2].0, tree.levels[3][4].0);
    assert_eq!(out.proof_flags[0], false);
    assert_eq!(out.proof_flags[1], false);
    assert_eq!(out.proof_flags[2], false);
    let got = replay(&out.leaves, &out.proof, &out.proof_flags);
    assert_eq!(got.0, tree.root().0);
}

#[test]
fn unsorted_indices_rejected() {
    let tree = tree_of_height(3);
    let mut raw = make_raw(&tree, &[1, 3, 5]);
    raw.proved_leaf_indices = vec![3, 1, 5];
    let r = convert_proof(&raw, leaf_digests(&tree, &[3, 1, 5]), tree.root());
    assert_eq!(r.unwrap_err(), ConvertError::UnsortedOrDuplicateLeaves);
}

#[test]
fn duplicate_indices_rejected() {
    let tree = tree_of_height(3);
    let mut raw = make_raw(&tree, &[1, 3, 5]);
    raw.proved_leaf_indices = vec![1, 3, 3];
    let r = convert_proof(&raw, leaf_digests(&tree, &[1, 3, 3]), tree.root());
    assert_eq!(r.unwrap_err(), ConvertError::UnsortedOrDuplicateLeaves);
}

#[test]
fn length_mismatch_rejected() {
    let tree = tree_of_height(3);
    let mut raw = make_raw(&tree, &[1, 3, 5]);
    raw.leaf_sibling_digests.pop();
    let r = convert_proof(&raw, leaf_digests(&tree, &[1, 3, 5]), tree.root());
    assert_eq!(r.unwrap_err(), ConvertError::LengthMismatch);
}

#[test]
fn nonzero_first_prefix_rejected() {
    let tree = tree_of_height(3);
    let mut raw = make_raw(&tree, &[1, 3, 5]);
    raw.path_prefix_lengths[0] = 1;
    let r = convert_proof(&raw, leaf_digests(&tree, &[1, 3, 5]), tree.root());
    assert_eq!(r.unwrap_err(), ConvertError::MalformedPrefix);
}

#[test]
fn oversized_prefix_rejected() {
    let tree = tree_of_height(3);
    let mut raw = make_raw(&tree, &[1, 3, 5]);
    // the previous decoded path has length 2; a longer prefix is malformed
    raw.path_prefix_lengths[1] = 3;
    let r = convert_proof(&raw, leaf_digests(&tree, &[1, 3, 5]), tree.root());
    assert_eq!(r.unwrap_err(), ConvertError::MalformedPrefix);
}

#[test]
fn inconsistent_path_length_rejected() {
    let tree = tree_of_height(3);
    let mut raw = make_raw(&tree, &[1, 3, 5]);
    // padding a later suffix makes that decoded path longer than H - 1
    let extra = d(99);
    raw.path_suffixes[1].push(extra);
    let r = convert_proof(&raw, leaf_digests(&tree, &[1, 3, 5]), tree.root());
    assert_eq!(r.unwrap_err(), ConvertError::InconsistentPathLength);
}

#[test]
fn leaves_and_root_passed_through() {
    let tree = tree_of_height(2);
    let out = convert_ok(&tree, &[1, 2]);
    let expected = leaf_digests(&tree, &[1, 2]);
    assert_eq!(out.leaves.len(), 2);
    assert_eq!(out.leaves[0].0, expected[0].0);
    assert_eq!(out.leaves[1].0, expected[1].0);
    assert_eq!(out.root.0, tree.root().0);
}
