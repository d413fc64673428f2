//! Mathematical model of the conversion: the raw multi-proof's decoded paths,
//! the two classification passes and the exact emission order of the compact
//! proof and flag sequences. The executable converter is proved to return
//! precisely this model's value.

use crate::decode::decode_path_spec;
use crate::digest::Digest;
use crate::tree_index::{sib_idx, tidx};
use vstd::arithmetic::power2::pow2;
use vstd::prelude::*;

verus! {

/// The fatal, non-retryable ways a raw multi-proof can be malformed.
#[derive(Clone, Copy, Debug, PartialEq, Eq, Structural)]
pub enum ConvertError {
    /// A decode step's prefix length exceeds the previous leaf's path length,
    /// or the first leaf has a nonzero prefix length.
    MalformedPrefix,
    /// The proved leaf indices are not strictly ascending.
    UnsortedOrDuplicateLeaves,
    /// The sibling-digest, prefix-length and suffix arrays do not all match
    /// the proved-leaf-index array in length.
    LengthMismatch,
    /// A decoded path's length does not equal `H - 1` for the declared tree
    /// height `H`.
    InconsistentPathLength,
}

/// The raw multi-proof as sequences of plain values.
pub ghost struct RawMultiProofView {
    pub proved_leaf_indices: Seq<usize>,
    pub leaf_sibling_digests: Seq<Digest>,
    pub path_prefix_lengths: Seq<usize>,
    pub path_suffixes: Seq<Seq<Digest>>,
}

/// The compact multi-proof as sequences of plain values.
pub ghost struct CompactMultiProofView {
    pub leaves: Seq<Digest>,
    pub proof: Seq<Digest>,
    pub proof_flags: Seq<bool>,
    pub root: Digest,
}

impl RawMultiProofView {
    /// The parallel arrays all match the proved-leaf-index array in length.
    pub open spec fn lengths_ok(self) -> bool {
        &&& self.leaf_sibling_digests.len() == self.proved_leaf_indices.len()
        &&& self.path_prefix_lengths.len() == self.proved_leaf_indices.len()
        &&& self.path_suffixes.len() == self.proved_leaf_indices.len()
    }

    /// The declared tree height: one more than the first path's length.
    pub open spec fn height(self) -> int {
        self.path_suffixes[0].len() as int + 1
    }
}

pub open spec fn strictly_ascending(s: Seq<usize>) -> bool {
    forall|i: int, j: int| 0 <= i < j < s.len() ==> s[i] < s[j]
}

/// The `i`-th decoded path, threading each decoded path into the next decode
/// step (meaningful only while every step up to `i` decodes cleanly).
pub open spec fn decoded_path(plens: Seq<usize>, sufs: Seq<Seq<Digest>>, i: int) -> Seq<Digest>
    decreases i,
{
    if i <= 0 {
        sufs[0]
    } else {
        decode_path_spec(decoded_path(plens, sufs, i - 1), plens[i] as int, sufs[i])
    }
}

/// The first decode failure among leaves `0 .. n`, if any: a prefix length
/// that exceeds the previous path is malformed; a decoded path whose length
/// is not `path_len` is inconsistent with the declared height.
pub open spec fn decode_failure(
    plens: Seq<usize>,
    sufs: Seq<Seq<Digest>>,
    path_len: int,
    n: int,
) -> Option<ConvertError>
    decreases n,
{
    if n <= 0 {
        None
    } else {
        match decode_failure(plens, sufs, path_len, n - 1) {
            Some(e) => Some(e),
            None => {
                let prev = decoded_path(plens, sufs, n - 2);
                if plens[n - 1] > prev.len() {
                    Some(ConvertError::MalformedPrefix)
                } else if decoded_path(plens, sufs, n - 1).len() != path_len {
                    Some(ConvertError::InconsistentPathLength)
                } else {
                    None
                }
            },
        }
    }
}

/// All decoded paths of the proof.
pub open spec fn decoded_paths(plens: Seq<usize>, sufs: Seq<Seq<Digest>>) -> Seq<Seq<Digest>> {
    Seq::new(plens.len(), |i: int| decoded_path(plens, sufs, i))
}

/// The ancestor of leaf `leaf` at level `level` of a tree of height `height`.
pub open spec fn parent_at(leaf: int, height: int, level: int) -> int {
    leaf / (pow2((height - level) as nat) as int)
}

/// Keys of the ancestors of `leaf` at levels `level .. height - 1`: the
/// coordinates that replay re-derives while climbing this leaf's path.
pub open spec fn anc_keys_down(leaf: int, height: int, level: int) -> Set<usize>
    decreases height - level,
{
    if level >= height || level < 1 {
        Set::empty()
    } else {
        anc_keys_down(leaf, height, level + 1).insert(tidx(level, parent_at(leaf, height, level)))
    }
}

/// Cached sibling digests along `leaf`'s path at levels `level .. height - 1`,
/// keyed by coordinate; the entry at level `l` is `path[l - 1]`.
pub open spec fn path_sib_down(
    leaf: int,
    path: Seq<Digest>,
    height: int,
    level: int,
) -> Map<usize, Digest>
    decreases height - level,
{
    if level >= height || level < 1 {
        Map::empty()
    } else {
        path_sib_down(leaf, path, height, level + 1).insert(
            tidx(level, sib_idx(parent_at(leaf, height, level))),
            path[level - 1],
        )
    }
}

/// Coordinates marked re-derivable after processing the first `n` proved
/// leaves.
pub open spec fn computed_upto(s: Seq<usize>, height: int, n: int) -> Set<usize>
    decreases n,
{
    if n <= 0 {
        Set::empty()
    } else {
        computed_upto(s, height, n - 1).union(anc_keys_down(s[n - 1] as int, height, 1))
    }
}

/// Cached sibling digests after processing the first `n` proved leaves; later
/// leaves overwrite earlier ones.
pub open spec fn supplied_upto(
    s: Seq<usize>,
    paths: Seq<Seq<Digest>>,
    height: int,
    n: int,
) -> Map<usize, Digest>
    decreases n,
{
    if n <= 0 {
        Map::empty()
    } else {
        supplied_upto(s, paths, height, n - 1).union_prefer_right(
            path_sib_down(s[n - 1] as int, paths[n - 1], height, 1),
        )
    }
}

/// Pass 1, leaf level: the flag emitted for the `i`-th proved leaf. A proved
/// sibling pair contributes one `true` flag, on its lower-indexed member; an
/// unproved sibling contributes one `false` flag.
pub open spec fn leaf_flags_at(s: Seq<usize>, i: int) -> Seq<bool> {
    let leaf = s[i] as int;
    if s.contains(sib_idx(leaf) as usize) {
        if sib_idx(leaf) > leaf {
            seq![true]
        } else {
            Seq::empty()
        }
    } else {
        seq![false]
    }
}

/// Pass 1, leaf level: the proof entry emitted for the `i`-th proved leaf —
/// its sibling's digest, exactly when that sibling is not itself proved.
pub open spec fn leaf_proof_at(s: Seq<usize>, sibs: Seq<Digest>, i: int) -> Seq<Digest> {
    let leaf = s[i] as int;
    if s.contains(sib_idx(leaf) as usize) {
        Seq::empty()
    } else {
        seq![sibs[i]]
    }
}

pub open spec fn leaf_flags_upto(s: Seq<usize>, n: int) -> Seq<bool>
    decreases n,
{
    if n <= 0 {
        Seq::empty()
    } else {
        leaf_flags_upto(s, n - 1) + leaf_flags_at(s, n - 1)
    }
}

pub open spec fn leaf_proof_upto(s: Seq<usize>, sibs: Seq<Digest>, n: int) -> Seq<Digest>
    decreases n,
{
    if n <= 0 {
        Seq::empty()
    } else {
        leaf_proof_upto(s, sibs, n - 1) + leaf_proof_at(s, sibs, n - 1)
    }
}

/// Pass 2: the flag emitted at coordinate `(level, i)`. Only re-derivable
/// coordinates emit; two re-derivable siblings emit one `true` flag on the
/// even index; a cached sibling emits one `false` flag; otherwise nothing.
pub open spec fn pass2_flags_at(c: Set<usize>, m: Map<usize, Digest>, level: int, i: int) -> Seq<
    bool,
> {
    if c.contains(tidx(level, i)) {
        if c.contains(tidx(level, sib_idx(i))) {
            if sib_idx(i) > i {
                seq![true]
            } else {
                Seq::empty()
            }
        } else if m.contains_key(tidx(level, sib_idx(i))) {
            seq![false]
        } else {
            Seq::empty()
        }
    } else {
        Seq::empty()
    }
}

/// Pass 2: the proof entry emitted at coordinate `(level, i)` — the cached
/// sibling digest, exactly when the sibling is supplied and not re-derived.
pub open spec fn pass2_proof_at(c: Set<usize>, m: Map<usize, Digest>, level: int, i: int) -> Seq<
    Digest,
> {
    if c.contains(tidx(level, i)) && !c.contains(tidx(level, sib_idx(i))) && m.contains_key(
        tidx(level, sib_idx(i)),
    ) {
        seq![m[tidx(level, sib_idx(i))]]
    } else {
        Seq::empty()
    }
}

/// Pass 2 emissions of one level for indices `0 .. n`, ascending.
pub open spec fn pass2_flags_level(c: Set<usize>, m: Map<usize, Digest>, level: int, n: int) -> Seq<
    bool,
>
    decreases n,
{
    if n <= 0 {
        Seq::empty()
    } else {
        pass2_flags_level(c, m, level, n - 1) + pass2_flags_at(c, m, level, n - 1)
    }
}

pub open spec fn pass2_proof_level(c: Set<usize>, m: Map<usize, Digest>, level: int, n: int) -> Seq<
    Digest,
>
    decreases n,
{
    if n <= 0 {
        Seq::empty()
    } else {
        pass2_proof_level(c, m, level, n - 1) + pass2_proof_at(c, m, level, n - 1)
    }
}

/// Pass 2 emissions for levels `level` down to 1, each level walked whole.
pub open spec fn pass2_flags_down(c: Set<usize>, m: Map<usize, Digest>, level: int) -> Seq<bool>
    decreases level,
{
    if level <= 0 {
        Seq::empty()
    } else {
        pass2_flags_level(c, m, level, pow2(level as nat) as int) + pass2_flags_down(
            c,
            m,
            level - 1,
        )
    }
}

pub open spec fn pass2_proof_down(c: Set<usize>, m: Map<usize, Digest>, level: int) -> Seq<Digest>
    decreases level,
{
    if level <= 0 {
        Seq::empty()
    } else {
        pass2_proof_level(c, m, level, pow2(level as nat) as int) + pass2_proof_down(
            c,
            m,
            level - 1,
        )
    }
}

/// The complete flag sequence: the leaf-level pass followed by pass 2 from
/// level `H - 1` down to level 1.
pub open spec fn converted_flags(v: RawMultiProofView) -> Seq<bool> {
    let s = v.proved_leaf_indices;
    let paths = decoded_paths(v.path_prefix_lengths, v.path_suffixes);
    let c = computed_upto(s, v.height(), s.len() as int);
    let m = supplied_upto(s, paths, v.height(), s.len() as int);
    leaf_flags_upto(s, s.len() as int) + pass2_flags_down(c, m, v.height() - 1)
}

/// The complete proof sequence, in the same producer order as the flags.
pub open spec fn converted_proof(v: RawMultiProofView) -> Seq<Digest> {
    let s = v.proved_leaf_indices;
    let paths = decoded_paths(v.path_prefix_lengths, v.path_suffixes);
    let c = computed_upto(s, v.height(), s.len() as int);
    let m = supplied_upto(s, paths, v.height(), s.len() as int);
    leaf_proof_upto(s, v.leaf_sibling_digests, s.len() as int) + pass2_proof_down(
        c,
        m,
        v.height() - 1,
    )
}

/// What the converter returns: the validation cascade, then the assembled
/// compact proof. The supplied leaf digests and root are passed through.
pub open spec fn convert_spec(v: RawMultiProofView, leaves: Seq<Digest>, root: Digest) -> Result<
    CompactMultiProofView,
    ConvertError,
> {
    if !v.lengths_ok() {
        Err(ConvertError::LengthMismatch)
    } else if !strictly_ascending(v.proved_leaf_indices) {
        Err(ConvertError::UnsortedOrDuplicateLeaves)
    } else if v.path_prefix_lengths[0] != 0 {
        Err(ConvertError::MalformedPrefix)
    } else {
        match decode_failure(
            v.path_prefix_lengths,
            v.path_suffixes,
            v.height() - 1,
            v.proved_leaf_indices.len() as int,
        ) {
            Some(e) => Err(e),
            None => Ok(
                CompactMultiProofView {
                    leaves: leaves,
                    proof: converted_proof(v),
                    proof_flags: converted_flags(v),
                    root: root,
                },
            ),
        }
    }
}

} // verus!
