//! The multi-proof converter: validation of the raw proof, the sequential
//! path decode, the two-pass node classification and the assembly of the
//! compact proof and flag sequences.

use crate::decode::prefix_decode_path;
use crate::digest::Digest;
use crate::model::{
    CompactMultiProofView, ConvertError, RawMultiProofView, anc_keys_down, computed_upto,
    convert_spec, converted_flags, converted_proof, decode_failure, decoded_path, decoded_paths,
    leaf_flags_at, leaf_flags_upto, leaf_proof_at, leaf_proof_upto, parent_at, pass2_flags_at,
    pass2_flags_down, pass2_flags_level, pass2_proof_at, pass2_proof_down, pass2_proof_level,
    path_sib_down, strictly_ascending, supplied_upto,
};
use crate::tree_index::{pow2_exec, sibling_index, to_tree_index};
use std::collections::{HashMap, HashSet};
use vstd::arithmetic::div_mod::{lemma_div_denominator, lemma_multiply_divide_lt};
use vstd::arithmetic::power2::{lemma2_to64, lemma_pow2_adds, lemma_pow2_pos, pow2};
use vstd::prelude::*;

verus! {

broadcast use vstd::std_specs::hash::group_hash_axioms;

/// A per-leaf, prefix-compressed Merkle authentication multi-proof, as the
/// external tree library supplies it, reduced to plain values.
#[derive(Debug)]
pub struct RawMultiProof {
    /// Strictly ascending unique leaf indices in `[0, 2^H)`.
    pub proved_leaf_indices: Vec<usize>,
    /// For each proved leaf, the digest of its sibling leaf; meaningful only
    /// when that sibling is not itself proved.
    pub leaf_sibling_digests: Vec<Digest>,
    /// Prefix-compressed encoding of each leaf's full sibling path: how many
    /// entries to take from the previous leaf's decoded path.
    pub path_prefix_lengths: Vec<usize>,
    /// The remainder of each leaf's path after the shared prefix.
    pub path_suffixes: Vec<Vec<Digest>>,
}

impl View for RawMultiProof {
    type V = RawMultiProofView;

    open spec fn view(&self) -> RawMultiProofView {
        RawMultiProofView {
            proved_leaf_indices: self.proved_leaf_indices@,
            leaf_sibling_digests: self.leaf_sibling_digests@,
            path_prefix_lengths: self.path_prefix_lengths@,
            path_suffixes: Seq::new(self.path_suffixes@.len(), |i: int| self.path_suffixes@[i]@),
        }
    }
}

/// The compact, flag-driven multi-proof in the external batch verifier's
/// shape: replaying the flags over `leaves` and `proof` reproduces `root`.
#[derive(Debug)]
pub struct OpenZeppelinMultiProof {
    /// Digests of the proved leaves, ascending leaf-index order.
    pub leaves: Vec<Digest>,
    /// Every sibling digest replay cannot re-derive, in consumption order.
    pub proof: Vec<Digest>,
    /// `true`: combine two queue values; `false`: combine the next queue
    /// value with the next `proof` entry.
    pub proof_flags: Vec<bool>,
    /// The tree's root digest.
    pub root: Digest,
}

impl View for OpenZeppelinMultiProof {
    type V = CompactMultiProofView;

    open spec fn view(&self) -> CompactMultiProofView {
        CompactMultiProofView {
            leaves: self.leaves@,
            proof: self.proof@,
            proof_flags: self.proof_flags@,
            root: self.root,
        }
    }
}

/// Whether a leaf index occurs among the proved leaf indices.
fn contains_index(v: &Vec<usize>, x: usize) -> (b: bool)
    ensures
        b == v@.contains(x),
{
    let mut j: usize = 0;
    while j < v.len()
        invariant
            j <= v@.len(),
            forall|t: int| 0 <= t < j ==> v@[t] != x,
        decreases v@.len() - j,
    {
        if v[j] == x {
            return true;
        }
        j = j + 1;
    }
    false
}

/// Pairwise ascent follows from ascent of neighbours.
proof fn lemma_asc_step(s: Seq<usize>, i: int, j: int)
    requires
        forall|t: int| 0 <= t < s.len() - 1 ==> #[trigger] s[t] < s[t + 1],
        0 <= i < j < s.len(),
    ensures
        s[i] < s[j],
    decreases j - i,
{
    if i + 1 < j {
        lemma_asc_step(s, i, j - 1);
    }
}

proof fn lemma_adjacent_sorted_is_ascending(s: Seq<usize>)
    requires
        forall|t: int| 0 <= t < s.len() - 1 ==> #[trigger] s[t] < s[t + 1],
    ensures
        strictly_ascending(s),
{
    assert forall|i: int, j: int| 0 <= i < j < s.len() implies s[i] < s[j] by {
        lemma_asc_step(s, i, j);
    }
}

/// Once the decode cascade has failed, processing more leaves keeps the same
/// first failure.
proof fn lemma_decode_failure_mono(
    plens: Seq<usize>,
    sufs: Seq<Seq<Digest>>,
    path_len: int,
    i: int,
    m: int,
)
    requires
        0 <= i <= m,
        decode_failure(plens, sufs, path_len, i) is Some,
    ensures
        decode_failure(plens, sufs, path_len, m) == decode_failure(plens, sufs, path_len, i),
    decreases m - i,
{
    if m > i {
        lemma_decode_failure_mono(plens, sufs, path_len, i, m - 1);
    }
}

/// Converts a raw, prefix-compressed multi-proof into the compact, flag-driven
/// form: validates the input, decodes every leaf's full sibling path in
/// ascending-leaf order, classifies every internal coordinate as re-derivable
/// or supplied, and emits the proof digests and flags in the exact order the
/// batch verifier's replay consumes them. The supplied `leaves` (digests of
/// the proved leaves, ascending) and `root` are passed through unchanged.
#[verifier::loop_isolation(false)]
#[verifier::rlimit(100)]
pub fn convert_proof(raw: &RawMultiProof, leaves: Vec<Digest>, root: Digest) -> (result: Result<
    OpenZeppelinMultiProof,
    ConvertError,
>)
    requires
        raw@.proved_leaf_indices.len() >= 1,
        raw@.lengths_ok() ==> raw@.height() <= usize::BITS,
        raw@.lengths_ok() ==> forall|i: int|
            0 <= i < raw@.proved_leaf_indices.len() ==> (raw@.proved_leaf_indices[i] as int)
                < pow2(raw@.height() as nat),
    ensures
        match result {
            Ok(out) => convert_spec(raw@, leaves@, root) == Ok::<
                CompactMultiProofView,
                ConvertError,
            >(out@),
            Err(e) => convert_spec(raw@, leaves@, root) == Err::<
                CompactMultiProofView,
                ConvertError,
            >(e),
        },
        result is Ok ==> strictly_ascending(raw@.proved_leaf_indices),
        raw@.lengths_ok() && !strictly_ascending(raw@.proved_leaf_indices) ==> result == Err::<
            OpenZeppelinMultiProof,
            ConvertError,
        >(ConvertError::UnsortedOrDuplicateLeaves),
{
    let ghost v = raw@;
    let ghost s = raw@.proved_leaf_indices;
    let ghost sibs = raw@.leaf_sibling_digests;
    let ghost plens = raw@.path_prefix_lengths;
    let ghost sufs = raw@.path_suffixes;

    let n = raw.proved_leaf_indices.len();
    if raw.leaf_sibling_digests.len() != n || raw.path_prefix_lengths.len() != n
        || raw.path_suffixes.len() != n {
        return Err(ConvertError::LengthMismatch);
    }

    let mut k: usize = 0;
    while k + 1 < n
        invariant
            k < n,
            forall|t: int| 0 <= t < k ==> #[trigger] s[t] < s[t + 1],
        decreases n - k,
    {
        if raw.proved_leaf_indices[k] >= raw.proved_leaf_indices[k + 1] {
            proof {
                assert(!strictly_ascending(s));
            }
            return Err(ConvertError::UnsortedOrDuplicateLeaves);
        }
        k = k + 1;
    }
    proof {
        lemma_adjacent_sorted_is_ascending(s);
    }

    if raw.path_prefix_lengths[0] != 0 {
        return Err(ConvertError::MalformedPrefix);
    }

    let path_len = raw.path_suffixes[0].len();
    let tree_height = path_len + 1;
    proof {
        assert(tree_height as int == v.height());
    }

    let mut node_by_tree_index: HashMap<usize, Digest> = HashMap::new();
    let mut calculated_node_tree_indices: HashSet<usize> = HashSet::new();
    let mut converted_proof_out: Vec<Digest> = Vec::new();
    let mut converted_proof_flags: Vec<bool> = Vec::new();
    let mut prev_path: Vec<Digest> = Vec::new();

    let mut i: usize = 0;
    while i < n
        invariant
            i <= n,
            decode_failure(plens, sufs, path_len as int, i as int) is None,
            i >= 1 ==> prev_path@ == decoded_path(plens, sufs, i as int - 1),
            i >= 1 ==> prev_path@.len() == path_len,
            i == 0 ==> prev_path@.len() == 0,
            converted_proof_out@ == leaf_proof_upto(s, sibs, i as int),
            converted_proof_flags@ == leaf_flags_upto(s, i as int),
            calculated_node_tree_indices@ == computed_upto(s, tree_height as int, i as int),
            node_by_tree_index@ == supplied_upto(
                s,
                decoded_paths(plens, sufs),
                tree_height as int,
                i as int,
            ),
        decreases n - i,
    {
        let leaf_idx = raw.proved_leaf_indices[i];
        let sibling_idx = sibling_index(leaf_idx);

        if contains_index(&raw.proved_leaf_indices, sibling_idx) {
            if sibling_idx > leaf_idx {
                converted_proof_flags.push(true);
            }
        } else {
            converted_proof_out.push(raw.leaf_sibling_digests[i]);
            converted_proof_flags.push(false);
        }
        proof {
            assert(converted_proof_flags@ =~= leaf_flags_upto(s, i as int) + leaf_flags_at(
                s,
                i as int,
            ));
            assert(converted_proof_out@ =~= leaf_proof_upto(s, sibs, i as int) + leaf_proof_at(
                s,
                sibs,
                i as int,
            ));
        }

        let plen = raw.path_prefix_lengths[i];
        if plen > prev_path.len() {
            proof {
                assert(decode_failure(plens, sufs, path_len as int, i as int + 1) == Some(
                    ConvertError::MalformedPrefix,
                ));
                lemma_decode_failure_mono(plens, sufs, path_len as int, i as int + 1, n as int);
            }
            return Err(ConvertError::MalformedPrefix);
        }
        let path = prefix_decode_path(&prev_path, plen, &raw.path_suffixes[i]);
        proof {
            assert(sufs[i as int] == raw.path_suffixes@[i as int]@);
            assert(path@ == decoded_path(plens, sufs, i as int));
        }
        if path.len() != path_len {
            proof {
                assert(decode_failure(plens, sufs, path_len as int, i as int + 1) == Some(
                    ConvertError::InconsistentPathLength,
                ));
                lemma_decode_failure_mono(plens, sufs, path_len as int, i as int + 1, n as int);
            }
            return Err(ConvertError::InconsistentPathLength);
        }
        proof {
            assert(decode_failure(plens, sufs, path_len as int, i as int + 1) is None);
        }

        let ghost leaf = leaf_idx as int;
        let mut parent_level_idx = leaf_idx / 2;
        let mut level = path_len;
        proof {
            lemma2_to64();
            assert(anc_keys_down(leaf, tree_height as int, level as int + 1) =~= Set::<
                usize,
            >::empty());
            assert(path_sib_down(leaf, path@, tree_height as int, level as int + 1) =~= Map::<
                usize,
                Digest,
            >::empty());
            assert(calculated_node_tree_indices@ =~= computed_upto(
                s,
                tree_height as int,
                i as int,
            ).union(anc_keys_down(leaf, tree_height as int, level as int + 1)));
            assert(node_by_tree_index@ =~= supplied_upto(
                s,
                decoded_paths(plens, sufs),
                tree_height as int,
                i as int,
            ).union_prefer_right(path_sib_down(leaf, path@, tree_height as int, level as int + 1)));
        }
        while level >= 1
            invariant
                level <= path_len,
                parent_level_idx as int == parent_at(leaf, tree_height as int, level as int),
                calculated_node_tree_indices@ == computed_upto(s, tree_height as int, i as int)
                    .union(anc_keys_down(leaf, tree_height as int, level as int + 1)),
                node_by_tree_index@ == supplied_upto(
                    s,
                    decoded_paths(plens, sufs),
                    tree_height as int,
                    i as int,
                ).union_prefer_right(
                    path_sib_down(leaf, path@, tree_height as int, level as int + 1),
                ),
            decreases level,
        {
            proof {
                lemma_pow2_adds((tree_height - level) as nat, level as nat);
                lemma_pow2_pos((tree_height - level) as nat);
                lemma_multiply_divide_lt(
                    leaf,
                    pow2((tree_height - level) as nat) as int,
                    pow2(level as nat) as int,
                );
                lemma_pow2_adds((level - 1) as nat, 1);
                lemma2_to64();
            }
            let t1 = to_tree_index(parent_level_idx, level);
            calculated_node_tree_indices.insert(t1);
            let parent_sibling_level_idx = sibling_index(parent_level_idx);
            let t2 = to_tree_index(parent_sibling_level_idx, level);
            node_by_tree_index.insert(t2, path[level - 1]);
            proof {
                assert(anc_keys_down(leaf, tree_height as int, level as int)
                    == anc_keys_down(leaf, tree_height as int, level as int + 1).insert(t1));
                assert(calculated_node_tree_indices@ =~= computed_upto(
                    s,
                    tree_height as int,
                    i as int,
                ).union(anc_keys_down(leaf, tree_height as int, level as int)));
                assert(path_sib_down(leaf, path@, tree_height as int, level as int)
                    == path_sib_down(leaf, path@, tree_height as int, level as int + 1).insert(
                    t2,
                    path@[level - 1],
                ));
                assert(node_by_tree_index@ =~= supplied_upto(
                    s,
                    decoded_paths(plens, sufs),
                    tree_height as int,
                    i as int,
                ).union_prefer_right(path_sib_down(leaf, path@, tree_height as int, level as int)));
            }
            proof {
                lemma_div_denominator(
                    leaf,
                    pow2((tree_height - level) as nat) as int,
                    2,
                );
                lemma_pow2_adds((tree_height - level) as nat, 1);
            }
            parent_level_idx = parent_level_idx / 2;
            level = level - 1;
        }
        proof {
            assert(computed_upto(s, tree_height as int, i as int + 1) == computed_upto(
                s,
                tree_height as int,
                i as int,
            ).union(anc_keys_down(s[i as int] as int, tree_height as int, 1)));
            assert(decoded_paths(plens, sufs)[i as int] == path@);
            assert(supplied_upto(s, decoded_paths(plens, sufs), tree_height as int, i as int + 1)
                == supplied_upto(s, decoded_paths(plens, sufs), tree_height as int, i as int)
                .union_prefer_right(
                path_sib_down(s[i as int] as int, path@, tree_height as int, 1),
            ));
        }
        prev_path = path;
        i = i + 1;
    }

    let ghost c = calculated_node_tree_indices@;
    let ghost m = node_by_tree_index@;
    let ghost leaf_proof_full = converted_proof_out@;
    let ghost leaf_flags_full = converted_proof_flags@;

    let mut level = path_len;
    while level >= 1
        invariant
            level <= path_len,
            calculated_node_tree_indices@ == c,
            node_by_tree_index@ == m,
            converted_proof_out@ + pass2_proof_down(c, m, level as int) == leaf_proof_full
                + pass2_proof_down(c, m, path_len as int),
            converted_proof_flags@ + pass2_flags_down(c, m, level as int) == leaf_flags_full
                + pass2_flags_down(c, m, path_len as int),
        decreases level,
    {
        let level_size = pow2_exec(level);
        let ghost p0 = converted_proof_out@;
        let ghost f0 = converted_proof_flags@;
        let mut idx: usize = 0;
        while idx < level_size
            invariant
                idx <= level_size,
                1 <= level <= path_len,
                level_size as int == pow2(level as nat),
                calculated_node_tree_indices@ == c,
                node_by_tree_index@ == m,
                converted_proof_out@ == p0 + pass2_proof_level(c, m, level as int, idx as int),
                converted_proof_flags@ == f0 + pass2_flags_level(c, m, level as int, idx as int),
            decreases level_size - idx,
        {
            proof {
                lemma_pow2_adds((level - 1) as nat, 1);
                lemma2_to64();
            }
            let t1 = to_tree_index(idx, level);
            if calculated_node_tree_indices.contains(&t1) {
                let sibling_idx = sibling_index(idx);
                let t2 = to_tree_index(sibling_idx, level);
                if calculated_node_tree_indices.contains(&t2) {
                    if sibling_idx > idx {
                        converted_proof_flags.push(true);
                    }
                } else {
                    match node_by_tree_index.get(&t2) {
                        Some(d) => {
                            converted_proof_out.push(*d);
                            converted_proof_flags.push(false);
                        },
                        None => {},
                    }
                }
            }
            proof {
                assert(converted_proof_out@ =~= p0 + (pass2_proof_level(c, m, level as int, idx as int)
                    + pass2_proof_at(c, m, level as int, idx as int)));
                assert(converted_proof_flags@ =~= f0 + (pass2_flags_level(c, m, level as int, idx as int)
                    + pass2_flags_at(c, m, level as int, idx as int)));
            }
            idx = idx + 1;
        }
        proof {
            assert(converted_proof_out@ + pass2_proof_down(c, m, level as int - 1) =~= p0
                + pass2_proof_down(c, m, level as int));
            assert(converted_proof_flags@ + pass2_flags_down(c, m, level as int - 1) =~= f0
                + pass2_flags_down(c, m, level as int));
        }
        level = level - 1;
    }

    proof {
        assert(pass2_proof_down(c, m, 0) =~= Seq::<Digest>::empty());
        assert(pass2_flags_down(c, m, 0) =~= Seq::<bool>::empty());
        assert(converted_proof_out@ =~= converted_proof_out@ + pass2_proof_down(c, m, 0));
        assert(converted_proof_flags@ =~= converted_proof_flags@ + pass2_flags_down(c, m, 0));
        assert(converted_proof_out@ == converted_proof(v));
        assert(converted_proof_flags@ == converted_flags(v));
    }

    Ok(
        OpenZeppelinMultiProof {
            leaves,
            proof: converted_proof_out,
            proof_flags: converted_proof_flags,
            root,
        },
    )
}

} // verus!
