//! Proved laws of the conversion: the shapes of singleton, sibling-pair and
//! full-tree proofs, and the length invariant of the emitted sequences.

use crate::digest::Digest;
use crate::model::{
    RawMultiProofView, anc_keys_down, computed_upto, convert_spec, converted_flags,
    converted_proof, decoded_paths, leaf_flags_at, leaf_flags_upto, leaf_proof_at, leaf_proof_upto,
    parent_at, pass2_flags_at, pass2_flags_down, pass2_flags_level, pass2_proof_at,
    pass2_proof_down, pass2_proof_level, path_sib_down, strictly_ascending, supplied_upto,
};
use crate::tree_index::{lemma_pow2_le, lemma_tidx_injective, sib_idx, tidx};
use vstd::arithmetic::div_mod::{
    lemma_div_denominator, lemma_div_multiples_vanish, lemma_div_pos_is_pos,
    lemma_multiply_divide_lt,
};
use vstd::arithmetic::power2::{lemma2_to64, lemma_pow2_adds, lemma_pow2_pos, pow2};
use vstd::layout::unsigned_int_max_values;
use vstd::prelude::*;

verus! {

/// Every flag of the sequence is `false`.
pub open spec fn all_false(f: Seq<bool>) -> bool {
    forall|j: int| 0 <= j < f.len() ==> !f[j]
}

/// A leaf's ancestor at a valid level is a valid index within that level, and
/// so is the ancestor's sibling.
proof fn lemma_parent_bounds(leaf: int, height: int, l: int)
    requires
        0 <= leaf < pow2(height as nat),
        1 <= l < height,
    ensures
        0 <= parent_at(leaf, height, l) < pow2(l as nat),
        0 <= sib_idx(parent_at(leaf, height, l)) < pow2(l as nat),
        pow2(l as nat) % 2 == 0,
{
    lemma_pow2_adds((height - l) as nat, l as nat);
    lemma_pow2_pos((height - l) as nat);
    lemma_pow2_pos(l as nat);
    lemma_div_pos_is_pos(leaf, pow2((height - l) as nat) as int);
    lemma_multiply_divide_lt(leaf, pow2((height - l) as nat) as int, pow2(l as nat) as int);
    lemma_pow2_adds((l - 1) as nat, 1);
    lemma2_to64();
}

/// The keys of `anc_keys_down` are exactly the ancestor coordinates at levels
/// `lv .. height - 1`.
proof fn lemma_anc_char(leaf: int, height: int, lv: int, k: usize)
    requires
        1 <= lv <= height,
    ensures
        anc_keys_down(leaf, height, lv).contains(k) <==> (exists|l: int|
            lv <= l < height && k == tidx(l, parent_at(leaf, height, l))),
    decreases height - lv,
{
    if lv >= height {
    } else {
        lemma_anc_char(leaf, height, lv + 1, k);
        if k == tidx(lv, parent_at(leaf, height, lv)) {
            assert(anc_keys_down(leaf, height, lv).contains(k));
        }
        if anc_keys_down(leaf, height, lv).contains(k) {
            if k != tidx(lv, parent_at(leaf, height, lv)) {
                assert(anc_keys_down(leaf, height, lv + 1).contains(k));
            }
        }
    }
}

/// Within machine bounds, a valid coordinate's key is marked an ancestor of
/// `leaf` exactly when its index is the ancestor of `leaf` at its level.
proof fn lemma_anc_member(leaf: int, height: int, l: int, i: int)
    requires
        1 <= height <= usize::BITS,
        0 <= leaf < pow2(height as nat),
        1 <= l < height,
        0 <= i < pow2(l as nat),
    ensures
        anc_keys_down(leaf, height, 1).contains(tidx(l, i)) <==> i == parent_at(leaf, height, l),
{
    lemma_anc_char(leaf, height, 1, tidx(l, i));
    if i == parent_at(leaf, height, l) {
        assert(exists|l2: int| 1 <= l2 < height && tidx(l, i) == tidx(l2, parent_at(leaf, height, l2)));
    }
    if anc_keys_down(leaf, height, 1).contains(tidx(l, i)) {
        let l2 = choose|l2: int|
            1 <= l2 < height && tidx(l, i) == tidx(l2, parent_at(leaf, height, l2));
        lemma_parent_bounds(leaf, height, l2);
        if l2 != l || parent_at(leaf, height, l2) != i {
            lemma_tidx_injective(l2, parent_at(leaf, height, l2), l, i);
        }
    }
}

/// The keys of `path_sib_down` are exactly the ancestors' sibling coordinates
/// at levels `lv .. height - 1`.
proof fn lemma_psd_char(leaf: int, pth: Seq<Digest>, height: int, lv: int, k: usize)
    requires
        1 <= lv <= height,
    ensures
        path_sib_down(leaf, pth, height, lv).contains_key(k) <==> (exists|l: int|
            lv <= l < height && k == tidx(l, sib_idx(parent_at(leaf, height, l)))),
    decreases height - lv,
{
    if lv >= height {
    } else {
        lemma_psd_char(leaf, pth, height, lv + 1, k);
        if k == tidx(lv, sib_idx(parent_at(leaf, height, lv))) {
            assert(path_sib_down(leaf, pth, height, lv).contains_key(k));
        }
        if path_sib_down(leaf, pth, height, lv).contains_key(k) {
            if k != tidx(lv, sib_idx(parent_at(leaf, height, lv))) {
                assert(path_sib_down(leaf, pth, height, lv + 1).contains_key(k));
            }
        }
    }
}

/// Within machine bounds, a valid coordinate's key is cached exactly when its
/// index is the sibling of `leaf`'s ancestor at its level.
proof fn lemma_psd_member(leaf: int, pth: Seq<Digest>, height: int, l: int, i: int)
    requires
        1 <= height <= usize::BITS,
        0 <= leaf < pow2(height as nat),
        1 <= l < height,
        0 <= i < pow2(l as nat),
    ensures
        path_sib_down(leaf, pth, height, 1).contains_key(tidx(l, i)) <==> i == sib_idx(
            parent_at(leaf, height, l),
        ),
{
    lemma_psd_char(leaf, pth, height, 1, tidx(l, i));
    if i == sib_idx(parent_at(leaf, height, l)) {
        assert(exists|l2: int|
            1 <= l2 < height && tidx(l, i) == tidx(l2, sib_idx(parent_at(leaf, height, l2))));
    }
    if path_sib_down(leaf, pth, height, 1).contains_key(tidx(l, i)) {
        let l2 = choose|l2: int|
            1 <= l2 < height && tidx(l, i) == tidx(l2, sib_idx(parent_at(leaf, height, l2)));
        lemma_parent_bounds(leaf, height, l2);
        if l2 != l || sib_idx(parent_at(leaf, height, l2)) != i {
            lemma_tidx_injective(l2, sib_idx(parent_at(leaf, height, l2)), l, i);
        }
    }
}

/// The cached digest at the sibling of `leaf`'s ancestor at level `l` is
/// `pth[l - 1]`.
proof fn lemma_psd_value(leaf: int, pth: Seq<Digest>, height: int, lv: int, l: int)
    requires
        1 <= height <= usize::BITS,
        0 <= leaf < pow2(height as nat),
        1 <= lv <= l < height,
    ensures
        path_sib_down(leaf, pth, height, lv)[tidx(l, sib_idx(parent_at(leaf, height, l)))] == pth[
            l - 1
        ],
    decreases height - lv,
{
    if l == lv {
    } else {
        lemma_psd_value(leaf, pth, height, lv + 1, l);
        lemma_parent_bounds(leaf, height, l);
        lemma_parent_bounds(leaf, height, lv);
        lemma_tidx_injective(
            l,
            sib_idx(parent_at(leaf, height, l)),
            lv,
            sib_idx(parent_at(leaf, height, lv)),
        );
    }
}

/// Pass 2 over one level, when exactly one ancestor chain is marked computed
/// and exactly its path siblings are cached: the level emits one `false` flag
/// and the cached digest of that level, as soon as the walk passes the
/// ancestor's index.
proof fn lemma_pass2_level_single(
    c: Set<usize>,
    m: Map<usize, Digest>,
    leaf: int,
    pth: Seq<Digest>,
    height: int,
    l: int,
    nn: int,
)
    requires
        1 <= height <= usize::BITS,
        0 <= leaf < pow2(height as nat),
        forall|l2: int, i: int|
            1 <= l2 < height && 0 <= i < pow2(l2 as nat) ==> (#[trigger] c.contains(tidx(l2, i))
                <==> i == parent_at(leaf, height, l2)),
        forall|l2: int, i: int|
            1 <= l2 < height && 0 <= i < pow2(l2 as nat) ==> (#[trigger] m.contains_key(
                tidx(l2, i),
            ) <==> i == sib_idx(parent_at(leaf, height, l2))),
        forall|l2: int|
            1 <= l2 < height ==> m[tidx(l2, #[trigger] sib_idx(parent_at(leaf, height, l2)))]
                == pth[l2 - 1],
        1 <= l < height,
        0 <= nn <= pow2(l as nat),
    ensures
        pass2_flags_level(c, m, l, nn) == if parent_at(leaf, height, l) < nn {
            seq![false]
        } else {
            Seq::<bool>::empty()
        },
        pass2_proof_level(c, m, l, nn) == if parent_at(leaf, height, l) < nn {
            seq![pth[l - 1]]
        } else {
            Seq::<Digest>::empty()
        },
    decreases nn,
{
    lemma_parent_bounds(leaf, height, l);
    if nn <= 0 {
    } else {
        lemma_pass2_level_single(c, m, leaf, pth, height, l, nn - 1);
        let i = nn - 1;
        let anc = parent_at(leaf, height, l);
        // the visited index and its sibling are valid indices within the level
        assert(0 <= sib_idx(i) < pow2(l as nat));
        if i == anc {
            assert(c.contains(tidx(l, i)));
            assert(sib_idx(i) != i);
            assert(!c.contains(tidx(l, sib_idx(i))));
            assert(m.contains_key(tidx(l, sib_idx(i))));
            assert(m[tidx(l, sib_idx(anc))] == pth[l - 1]);
            assert(pass2_flags_at(c, m, l, i) =~= seq![false]);
            assert(pass2_proof_at(c, m, l, i) =~= seq![pth[l - 1]]);
            assert(pass2_flags_level(c, m, l, nn) =~= seq![false]);
            assert(pass2_proof_level(c, m, l, nn) =~= seq![pth[l - 1]]);
        } else {
            assert(!c.contains(tidx(l, i)));
            assert(pass2_flags_at(c, m, l, i) =~= Seq::<bool>::empty());
            assert(pass2_proof_at(c, m, l, i) =~= Seq::<Digest>::empty());
            assert(pass2_flags_level(c, m, l, nn) =~= pass2_flags_level(c, m, l, nn - 1));
            assert(pass2_proof_level(c, m, l, nn) =~= pass2_proof_level(c, m, l, nn - 1));
        }
    }
}

/// Pass 2 whole, under the single-chain hypotheses: levels `lv` down to 1
/// emit `lv` `false` flags and the path digests from level `lv` down to
/// level 1, in that order.
proof fn lemma_pass2_down_single(
    c: Set<usize>,
    m: Map<usize, Digest>,
    leaf: int,
    pth: Seq<Digest>,
    height: int,
    lv: int,
)
    requires
        1 <= height <= usize::BITS,
        0 <= leaf < pow2(height as nat),
        forall|l2: int, i: int|
            1 <= l2 < height && 0 <= i < pow2(l2 as nat) ==> (#[trigger] c.contains(tidx(l2, i))
                <==> i == parent_at(leaf, height, l2)),
        forall|l2: int, i: int|
            1 <= l2 < height && 0 <= i < pow2(l2 as nat) ==> (#[trigger] m.contains_key(
                tidx(l2, i),
            ) <==> i == sib_idx(parent_at(leaf, height, l2))),
        forall|l2: int|
            1 <= l2 < height ==> m[tidx(l2, #[trigger] sib_idx(parent_at(leaf, height, l2)))]
                == pth[l2 - 1],
        0 <= lv < height,
    ensures
        pass2_flags_down(c, m, lv).len() == lv,
        all_false(pass2_flags_down(c, m, lv)),
        pass2_proof_down(c, m, lv).len() == lv,
        forall|j: int| 0 <= j < lv ==> pass2_proof_down(c, m, lv)[j] == pth[lv - 1 - j],
    decreases lv,
{
    if lv <= 0 {
    } else {
        lemma_pass2_down_single(c, m, leaf, pth, height, lv - 1);
        lemma_parent_bounds(leaf, height, lv);
        lemma_pass2_level_single(c, m, leaf, pth, height, lv, pow2(lv as nat) as int);
        assert(pass2_flags_level(c, m, lv, pow2(lv as nat) as int) == seq![false]);
        assert(pass2_proof_level(c, m, lv, pow2(lv as nat) as int) == seq![pth[lv - 1]]);
    }
}

/// **Singleton proof law.** A proof for exactly one leaf emits one `false`
/// flag per level and supplies every sibling explicitly: the proof holds the
/// leaf's sibling digest followed by the path digests in root-ward order —
/// `H` digests and `H` flags, all `false`, for a tree of height `H`.
pub proof fn lemma_singleton_proof(v: RawMultiProofView, leaves: Seq<Digest>, root: Digest)
    requires
        convert_spec(v, leaves, root) is Ok,
        v.proved_leaf_indices.len() == 1,
        v.height() <= usize::BITS,
        (v.proved_leaf_indices[0] as int) < pow2(v.height() as nat),
    ensures
        ({
            let out = convert_spec(v, leaves, root)->Ok_0;
            &&& out.proof_flags.len() == v.height()
            &&& all_false(out.proof_flags)
            &&& out.proof.len() == v.height()
            &&& out.proof[0] == v.leaf_sibling_digests[0]
            &&& forall|l: int|
                1 <= l < v.height() ==> out.proof[v.height() - l] == v.path_suffixes[0][#[trigger] (l - 1)]
        }),
{
    let s = v.proved_leaf_indices;
    let h = v.height();
    let leaf = s[0] as int;
    let paths = decoded_paths(v.path_prefix_lengths, v.path_suffixes);
    let pth = v.path_suffixes[0];
    assert(paths[0] == pth);
    let c = computed_upto(s, h, 1);
    let m = supplied_upto(s, paths, h, 1);

    // the single leaf's sibling is not itself proved
    lemma_pow2_le(h as nat, usize::BITS as nat);
    unsigned_int_max_values();
    assert((sib_idx(leaf) as usize) as int == sib_idx(leaf));
    assert(!s.contains(sib_idx(leaf) as usize)) by {
        if s.contains(sib_idx(leaf) as usize) {
            let t = choose|t: int| 0 <= t < s.len() && s[t] == sib_idx(leaf) as usize;
            assert(t == 0);
        }
    }
    assert(leaf_flags_upto(s, 0) =~= Seq::<bool>::empty());
    assert(leaf_proof_upto(s, v.leaf_sibling_digests, 0) =~= Seq::<Digest>::empty());
    assert(leaf_flags_at(s, 0) == seq![false]);
    assert(leaf_proof_at(s, v.leaf_sibling_digests, 0) == seq![v.leaf_sibling_digests[0]]);
    assert(leaf_flags_upto(s, 1) =~= seq![false]);
    assert(leaf_proof_upto(s, v.leaf_sibling_digests, 1) =~= seq![v.leaf_sibling_digests[0]]);

    assert(computed_upto(s, h, 0) =~= Set::<usize>::empty());
    assert(supplied_upto(s, paths, h, 0) =~= Map::<usize, Digest>::empty());
    assert(c =~= anc_keys_down(leaf, h, 1));
    assert(m =~= path_sib_down(leaf, pth, h, 1));

    assert forall|l2: int, i: int|
        1 <= l2 < h && 0 <= i < pow2(l2 as nat) implies (#[trigger] c.contains(tidx(l2, i)) <==> i
        == parent_at(leaf, h, l2)) by {
        lemma_anc_member(leaf, h, l2, i);
    }
    assert forall|l2: int, i: int|
        1 <= l2 < h && 0 <= i < pow2(l2 as nat) implies (#[trigger] m.contains_key(tidx(l2, i))
        <==> i == sib_idx(parent_at(leaf, h, l2))) by {
        lemma_psd_member(leaf, pth, h, l2, i);
    }
    assert forall|l2: int| 1 <= l2 < h implies m[tidx(
        l2,
        #[trigger] sib_idx(parent_at(leaf, h, l2)),
    )] == pth[l2 - 1] by {
        lemma_psd_value(leaf, pth, h, 1, l2);
    }

    lemma_pass2_down_single(c, m, leaf, pth, h, h - 1);

    let flags = converted_flags(v);
    let prf = converted_proof(v);
    assert(flags == seq![false] + pass2_flags_down(c, m, h - 1));
    assert(prf == seq![v.leaf_sibling_digests[0]] + pass2_proof_down(c, m, h - 1));
    assert(flags.len() == h);
    assert(all_false(flags));
    assert(prf.len() == h);
    assert forall|l: int| 1 <= l < h implies prf[h - l] == v.path_suffixes[0][#[trigger] (l - 1)] by {
        assert(prf[h - l] == pass2_proof_down(c, m, h - 1)[h - l - 1]);
        assert(pass2_proof_down(c, m, h - 1)[h - l - 1] == pth[(h - 1) - 1 - (h - l - 1)]);
    }
}

/// A leaf and its bitwise sibling share every ancestor strictly above the
/// leaf level.
proof fn lemma_pair_parents_equal(a: int, height: int, l: int)
    requires
        0 <= a,
        1 <= l < height,
    ensures
        parent_at(2 * a, height, l) == parent_at(2 * a + 1, height, l),
        parent_at(2 * a, height, height - 1) == a,
{
    let e = height - l;
    lemma_pow2_adds(1, (e - 1) as nat);
    lemma2_to64();
    lemma_pow2_pos((e - 1) as nat);
    lemma_div_denominator(2 * a, 2, pow2((e - 1) as nat) as int);
    lemma_div_denominator(2 * a + 1, 2, pow2((e - 1) as nat) as int);
    assert((2 * a) / 2 == a);
    assert((2 * a + 1) / 2 == a);
    assert(parent_at(2 * a, height, l) == a / pow2((e - 1) as nat) as int);
    assert(parent_at(2 * a + 1, height, l) == a / pow2((e - 1) as nat) as int);
    lemma_pow2_adds(1, 0);
    assert(pow2(1) == 2);
    assert(parent_at(2 * a, height, height - 1) == (2 * a) / 2);
}

/// **Sibling pair collapse law.** For a proved set of exactly one bitwise
/// sibling pair `{2a, 2a+1}`, the leaf pass emits one `true` flag and no
/// digest; the pair's shared parent is marked re-derivable, never supplied;
/// and every level above supplies exactly one sibling digest with a `false`
/// flag — the digest recorded on the second leaf's decoded path.
pub proof fn lemma_sibling_pair_collapse(
    v: RawMultiProofView,
    leaves: Seq<Digest>,
    root: Digest,
    a: int,
)
    requires
        convert_spec(v, leaves, root) is Ok,
        v.proved_leaf_indices.len() == 2,
        0 <= a,
        (v.proved_leaf_indices[0] as int) == 2 * a,
        (v.proved_leaf_indices[1] as int) == 2 * a + 1,
        v.height() <= usize::BITS,
        2 * a + 1 < pow2(v.height() as nat),
    ensures
        ({
            let out = convert_spec(v, leaves, root)->Ok_0;
            let paths = decoded_paths(v.path_prefix_lengths, v.path_suffixes);
            &&& out.proof_flags.len() == v.height()
            &&& out.proof_flags[0] == true
            &&& forall|j: int| 1 <= j < v.height() ==> !out.proof_flags[j]
            &&& out.proof.len() == v.height() - 1
            &&& forall|l: int|
                1 <= l < v.height() ==> out.proof[v.height() - 1 - l] == paths[1][#[trigger] (l
                    - 1)]
            &&& v.height() >= 2 ==> computed_upto(
                v.proved_leaf_indices,
                v.height(),
                2,
            ).contains(tidx(v.height() - 1, a))
        }),
{
    let s = v.proved_leaf_indices;
    let h = v.height();
    let leaf0 = s[0] as int;
    let leaf1 = s[1] as int;
    let paths = decoded_paths(v.path_prefix_lengths, v.path_suffixes);
    let pth = paths[1];
    let c = computed_upto(s, h, 2);
    let m = supplied_upto(s, paths, h, 2);

    lemma_pow2_le(h as nat, usize::BITS as nat);
    unsigned_int_max_values();

    // leaf pass: the lower-indexed member of the pair emits the one true flag
    assert((sib_idx(leaf0) as usize) == s[1]);
    assert((sib_idx(leaf1) as usize) == s[0]);
    assert(s.contains(s[1]));
    assert(s.contains(s[0]));
    assert(leaf_flags_upto(s, 0) =~= Seq::<bool>::empty());
    assert(leaf_proof_upto(s, v.leaf_sibling_digests, 0) =~= Seq::<Digest>::empty());
    assert(leaf_flags_at(s, 0) == seq![true]);
    assert(leaf_proof_at(s, v.leaf_sibling_digests, 0) =~= Seq::<Digest>::empty());
    assert(leaf_flags_at(s, 1) =~= Seq::<bool>::empty());
    assert(leaf_proof_at(s, v.leaf_sibling_digests, 1) =~= Seq::<Digest>::empty());
    assert(leaf_flags_upto(s, 1) =~= seq![true]);
    assert(leaf_proof_upto(s, v.leaf_sibling_digests, 1) =~= Seq::<Digest>::empty());
    assert(leaf_flags_upto(s, 2) =~= seq![true]);
    assert(leaf_proof_upto(s, v.leaf_sibling_digests, 2) =~= Seq::<Digest>::empty());

    // both leaves mark the same ancestor chain and cache the same coordinates
    assert(computed_upto(s, h, 0) =~= Set::<usize>::empty());
    assert(supplied_upto(s, paths, h, 0) =~= Map::<usize, Digest>::empty());
    assert(computed_upto(s, h, 1) =~= anc_keys_down(leaf0, h, 1));
    assert(supplied_upto(s, paths, h, 1) =~= path_sib_down(leaf0, paths[0], h, 1));
    assert(c =~= anc_keys_down(leaf0, h, 1).union(anc_keys_down(leaf1, h, 1)));
    assert(m =~= path_sib_down(leaf0, paths[0], h, 1).union_prefer_right(
        path_sib_down(leaf1, pth, h, 1),
    ));

    assert forall|l2: int, i: int|
        1 <= l2 < h && 0 <= i < pow2(l2 as nat) implies (#[trigger] c.contains(tidx(l2, i)) <==> i
        == parent_at(leaf1, h, l2)) by {
        lemma_pair_parents_equal(a, h, l2);
        lemma_anc_member(leaf0, h, l2, i);
        lemma_anc_member(leaf1, h, l2, i);
    }
    assert forall|l2: int, i: int|
        1 <= l2 < h && 0 <= i < pow2(l2 as nat) implies (#[trigger] m.contains_key(tidx(l2, i))
        <==> i == sib_idx(parent_at(leaf1, h, l2))) by {
        lemma_pair_parents_equal(a, h, l2);
        lemma_psd_member(leaf0, paths[0], h, l2, i);
        lemma_psd_member(leaf1, pth, h, l2, i);
    }
    assert forall|l2: int| 1 <= l2 < h implies m[tidx(
        l2,
        #[trigger] sib_idx(parent_at(leaf1, h, l2)),
    )] == pth[l2 - 1] by {
        lemma_parent_bounds(leaf1, h, l2);
        lemma_psd_member(leaf1, pth, h, l2, sib_idx(parent_at(leaf1, h, l2)));
        lemma_psd_value(leaf1, pth, h, 1, l2);
    }

    lemma_pass2_down_single(c, m, leaf1, pth, h, h - 1);

    let flags = converted_flags(v);
    let prf = converted_proof(v);
    assert(flags == seq![true] + pass2_flags_down(c, m, h - 1));
    assert(prf =~= pass2_proof_down(c, m, h - 1));
    assert(flags.len() == h);
    assert(flags[0] == true);
    assert(forall|j: int| 1 <= j < h ==> !flags[j]);
    assert(prf.len() == h - 1);
    assert forall|l: int| 1 <= l < h implies prf[h - 1 - l] == pth[#[trigger] (l - 1)] by {
        assert(pass2_proof_down(c, m, h - 1)[h - 1 - l] == pth[(h - 1) - 1 - (h - 1 - l)]);
    }
    if h >= 2 {
        lemma_pair_parents_equal(a, h, h - 1);
        lemma_parent_bounds(leaf0, h, h - 1);
        lemma_anc_member(leaf0, h, h - 1, a);
        assert(c.contains(tidx(h - 1, a)));
    }
}

/// A processed leaf's ancestor marks stay in every later classifier state.
proof fn lemma_computed_superset(s: Seq<usize>, height: int, n: int, t: int)
    requires
        0 <= t < n,
    ensures
        anc_keys_down(s[t] as int, height, 1).subset_of(computed_upto(s, height, n)),
    decreases n,
{
    if t < n - 1 {
        lemma_computed_superset(s, height, n - 1, t);
    }
}

/// With every leaf of the tree proved, every internal coordinate is marked
/// re-derivable.
proof fn lemma_computed_full(s: Seq<usize>, height: int, l: int, i: int)
    requires
        s.len() == pow2(height as nat),
        forall|t: int| 0 <= t < s.len() ==> (s[t] as int) == t,
        1 <= l < height,
        0 <= i < pow2(l as nat),
    ensures
        computed_upto(s, height, s.len() as int).contains(tidx(l, i)),
{
    let e = height - l;
    let p = pow2(e as nat) as int;
    let t = i * p;
    lemma_pow2_adds(l as nat, e as nat);
    lemma_pow2_pos(e as nat);
    lemma_pow2_pos(l as nat);
    assert(0 <= t && t < pow2(height as nat)) by (nonlinear_arith)
        requires
            t == i * p,
            0 <= i,
            i <= pow2(l as nat) - 1,
            p >= 1,
            pow2(l as nat) * pow2(e as nat) == pow2(height as nat),
            p == pow2(e as nat),
    ;
    assert(t == p * i) by (nonlinear_arith)
        requires
            t == i * p,
    ;
    lemma_div_multiples_vanish(i, p);
    assert(parent_at(t, height, l) == i);
    lemma_anc_char(t, height, 1, tidx(l, i));
    assert(anc_keys_down(t, height, 1).contains(tidx(l, i)));
    lemma_computed_superset(s, height, s.len() as int, t);
    assert((s[t] as int) == t);
}

/// Pass 2 over one level whose every coordinate is marked: one `true` flag per
/// sibling pair, emitted on the even index, and nothing supplied.
proof fn lemma_pass2_level_full(c: Set<usize>, m: Map<usize, Digest>, l: int, nn: int)
    requires
        1 <= l,
        pow2(l as nat) % 2 == 0,
        0 <= nn <= pow2(l as nat),
        forall|i: int| 0 <= i < pow2(l as nat) ==> #[trigger] c.contains(tidx(l, i)),
    ensures
        pass2_flags_level(c, m, l, nn).len() == (nn + 1) / 2,
        forall|j: int| 0 <= j < pass2_flags_level(c, m, l, nn).len() ==> pass2_flags_level(
            c,
            m,
            l,
            nn,
        )[j] == true,
        pass2_proof_level(c, m, l, nn) =~= Seq::<Digest>::empty(),
    decreases nn,
{
    if nn <= 0 {
    } else {
        lemma_pass2_level_full(c, m, l, nn - 1);
        let i = nn - 1;
        assert(0 <= sib_idx(i) < pow2(l as nat));
        assert(c.contains(tidx(l, i)));
        assert(c.contains(tidx(l, sib_idx(i))));
        if i % 2 == 0 {
            assert(pass2_flags_at(c, m, l, i) =~= seq![true]);
        } else {
            assert(pass2_flags_at(c, m, l, i) =~= Seq::<bool>::empty());
        }
        assert(pass2_proof_at(c, m, l, i) =~= Seq::<Digest>::empty());
        assert(pass2_proof_level(c, m, l, nn) =~= pass2_proof_level(c, m, l, nn - 1));
    }
}

/// Pass 2 whole, with every coordinate of every level marked: levels `lv`
/// down to 1 emit `2^lv - 1` flags, all `true`, and supply nothing.
proof fn lemma_pass2_down_full(c: Set<usize>, m: Map<usize, Digest>, lv: int)
    requires
        0 <= lv,
        forall|l2: int, i: int|
            1 <= l2 <= lv && 0 <= i < pow2(l2 as nat) ==> #[trigger] c.contains(tidx(l2, i)),
    ensures
        pass2_flags_down(c, m, lv).len() == pow2(lv as nat) - 1,
        forall|j: int| 0 <= j < pass2_flags_down(c, m, lv).len() ==> pass2_flags_down(c, m, lv)[j]
            == true,
        pass2_proof_down(c, m, lv) =~= Seq::<Digest>::empty(),
    decreases lv,
{
    lemma2_to64();
    if lv <= 0 {
    } else {
        lemma_pass2_down_full(c, m, lv - 1);
        lemma_pow2_adds((lv - 1) as nat, 1);
        lemma_pow2_pos((lv - 1) as nat);
        assert forall|i: int| 0 <= i < pow2(lv as nat) implies #[trigger] c.contains(
            tidx(lv, i),
        ) by {
            assert(1 <= lv <= lv);
        }
        lemma_pass2_level_full(c, m, lv, pow2(lv as nat) as int);
        assert((pow2(lv as nat) as int + 1) / 2 == pow2((lv - 1) as nat) as int);
        assert(pass2_proof_down(c, m, lv) =~= Seq::<Digest>::empty());
    }
}

/// The leaf pass with every leaf of an even-sized range proved: one `true`
/// flag per leaf pair, emitted on the even leaf, and no digests.
proof fn lemma_leaf_pass_full(s: Seq<usize>, sibs: Seq<Digest>, nn: int)
    requires
        forall|t: int| 0 <= t < s.len() ==> (s[t] as int) == t,
        s.len() % 2 == 0,
        0 <= nn <= s.len(),
    ensures
        leaf_flags_upto(s, nn).len() == (nn + 1) / 2,
        forall|j: int| 0 <= j < leaf_flags_upto(s, nn).len() ==> leaf_flags_upto(s, nn)[j] == true,
        leaf_proof_upto(s, sibs, nn) =~= Seq::<Digest>::empty(),
    decreases nn,
{
    if nn <= 0 {
    } else {
        lemma_leaf_pass_full(s, sibs, nn - 1);
        let t = nn - 1;
        let leaf = s[t] as int;
        assert(leaf == t);
        assert(0 <= sib_idx(t) < s.len());
        let sib = sib_idx(t);
        assert((s[sib] as int) == sib);
        assert((sib_idx(leaf) as usize) == s[sib]);
        assert(s.contains(s[sib]));
        if t % 2 == 0 {
            assert(leaf_flags_at(s, t) =~= seq![true]);
        } else {
            assert(leaf_flags_at(s, t) =~= Seq::<bool>::empty());
        }
        assert(leaf_proof_at(s, sibs, t) =~= Seq::<Digest>::empty());
        assert(leaf_proof_upto(s, sibs, nn) =~= leaf_proof_upto(s, sibs, nn - 1));
    }
}

/// **Full-tree proof law.** When every leaf of the tree is proved, nothing
/// need be supplied: the proof is empty and the flags are `2^H - 1` `true`
/// entries — every combination joins two already-known values.
pub proof fn lemma_full_tree_proof(v: RawMultiProofView, leaves: Seq<Digest>, root: Digest)
    requires
        convert_spec(v, leaves, root) is Ok,
        v.proved_leaf_indices.len() == pow2(v.height() as nat),
        forall|t: int|
            0 <= t < v.proved_leaf_indices.len() ==> (v.proved_leaf_indices[t] as int) == t,
    ensures
        ({
            let out = convert_spec(v, leaves, root)->Ok_0;
            &&& out.proof.len() == 0
            &&& out.proof_flags.len() == pow2(v.height() as nat) - 1
            &&& forall|j: int| 0 <= j < out.proof_flags.len() ==> out.proof_flags[j] == true
        }),
{
    let s = v.proved_leaf_indices;
    let h = v.height();
    let n = s.len() as int;
    let paths = decoded_paths(v.path_prefix_lengths, v.path_suffixes);
    let c = computed_upto(s, h, n);
    let m = supplied_upto(s, paths, h, n);

    lemma_pow2_adds((h - 1) as nat, 1);
    lemma_pow2_pos((h - 1) as nat);
    lemma2_to64();
    assert(s.len() % 2 == 0);

    lemma_leaf_pass_full(s, v.leaf_sibling_digests, n);
    assert((n + 1) / 2 == pow2((h - 1) as nat) as int);

    assert forall|l2: int, i: int|
        1 <= l2 <= h - 1 && 0 <= i < pow2(l2 as nat) implies #[trigger] c.contains(
        tidx(l2, i),
    ) by {
        lemma_computed_full(s, h, l2, i);
    }
    lemma_pass2_down_full(c, m, h - 1);

    let flags = converted_flags(v);
    let prf = converted_proof(v);
    assert(prf =~= Seq::<Digest>::empty());
    assert(flags.len() == pow2((h - 1) as nat) + pow2((h - 1) as nat) - 1);
    assert(flags.len() == pow2(h as nat) - 1);
    assert forall|j: int| 0 <= j < flags.len() implies flags[j] == true by {
        if j < leaf_flags_upto(s, n).len() {
            assert(flags[j] == leaf_flags_upto(s, n)[j]);
        } else {
            assert(flags[j] == pass2_flags_down(c, m, h - 1)[j - leaf_flags_upto(s, n).len()]);
        }
    }
}

/// How many `true` flags a flag sequence holds.
spec fn count_trues(f: Seq<bool>) -> int
    decreases f.len(),
{
    if f.len() == 0 {
        0
    } else {
        count_trues(f.drop_last()) + if f.last() {
            1int
        } else {
            0int
        }
    }
}

proof fn lemma_count_trues_concat(a: Seq<bool>, b: Seq<bool>)
    ensures
        count_trues(a + b) == count_trues(a) + count_trues(b),
    decreases b.len(),
{
    if b.len() == 0 {
        assert(a + b =~= a);
    } else {
        lemma_count_trues_concat(a, b.drop_last());
        assert((a + b).drop_last() =~= a + b.drop_last());
        assert((a + b).last() == b.last());
    }
}

/// How many indices of `[0, nn)` satisfy the predicate.
spec fn cnt(p: spec_fn(int) -> bool, nn: int) -> int
    decreases nn,
{
    if nn <= 0 {
        0
    } else {
        cnt(p, nn - 1) + if p(nn - 1) {
            1int
        } else {
            0int
        }
    }
}

/// How many even indices of `[0, nn)` begin a sibling pair that the predicate
/// wholly accepts.
spec fn cntp(p: spec_fn(int) -> bool, nn: int) -> int
    decreases nn,
{
    if nn <= 0 {
        0
    } else {
        cntp(p, nn - 1) + if (nn - 1) % 2 == 0 && p(nn - 1) && p(nn) {
            1int
        } else {
            0int
        }
    }
}

/// How many positions of `[0, tt)` hold a leaf value the predicate accepts.
spec fn cntq(s: Seq<usize>, q: spec_fn(int) -> bool, tt: int) -> int
    decreases tt,
{
    if tt <= 0 {
        0
    } else {
        cntq(s, q, tt - 1) + if q(s[tt - 1] as int) {
            1int
        } else {
            0int
        }
    }
}

proof fn lemma_cnt_pointwise(p1: spec_fn(int) -> bool, p2: spec_fn(int) -> bool, nn: int)
    requires
        forall|x: int| 0 <= x < nn ==> (#[trigger] p1(x) <==> p2(x)),
    ensures
        cnt(p1, nn) == cnt(p2, nn),
    decreases nn,
{
    if nn > 0 {
        lemma_cnt_pointwise(p1, p2, nn - 1);
    }
}

proof fn lemma_cnt_none(p: spec_fn(int) -> bool, nn: int)
    requires
        forall|x: int| 0 <= x < nn ==> !(#[trigger] p(x)),
    ensures
        cnt(p, nn) == 0,
    decreases nn,
{
    if nn > 0 {
        lemma_cnt_none(p, nn - 1);
    }
}

/// Removing one accepted value from a membership predicate lowers the count
/// by exactly one.
proof fn lemma_cnt_except_one(
    p1: spec_fn(int) -> bool,
    p2: spec_fn(int) -> bool,
    v: int,
    nn: int,
)
    requires
        0 <= v < nn,
        p1(v),
        !p2(v),
        forall|x: int| 0 <= x < nn && x != v ==> (#[trigger] p1(x) <==> p2(x)),
    ensures
        cnt(p1, nn) == cnt(p2, nn) + 1,
    decreases nn,
{
    if v == nn - 1 {
        lemma_cnt_pointwise(p1, p2, nn - 1);
    } else {
        lemma_cnt_except_one(p1, p2, v, nn - 1);
    }
}

/// Counting pairs over a range is counting the even indices whose pair is
/// wholly accepted.
proof fn lemma_cntp_as_cnt(p: spec_fn(int) -> bool, q: spec_fn(int) -> bool, nn: int)
    requires
        forall|x: int| 0 <= x < nn ==> (#[trigger] q(x) <==> (x % 2 == 0 && p(x) && p(x + 1))),
    ensures
        cntp(p, nn) == cnt(q, nn),
    decreases nn,
{
    if nn > 0 {
        lemma_cntp_as_cnt(p, q, nn - 1);
    }
}

/// Joining each even/odd child pair into its parent: the parents a predicate
/// accepts number the accepted children minus the wholly accepted pairs.
proof fn lemma_halving(pa: spec_fn(int) -> bool, pb: spec_fn(int) -> bool, nn: int)
    requires
        0 <= nn,
        forall|j: int| 0 <= j < nn ==> (#[trigger] pa(j) <==> (pb(2 * j) || pb(2 * j + 1))),
    ensures
        cnt(pa, nn) + cntp(pb, 2 * nn) == cnt(pb, 2 * nn),
    decreases nn,
{
    if nn > 0 {
        lemma_halving(pa, pb, nn - 1);
        let j = nn - 1;
        assert(cnt(pb, 2 * nn) == cnt(pb, 2 * nn - 1) + (if pb(2 * nn - 1) {
            1int
        } else {
            0int
        }));
        assert(cnt(pb, 2 * nn - 1) == cnt(pb, 2 * nn - 2) + (if pb(2 * nn - 2) {
            1int
        } else {
            0int
        }));
        assert(cntp(pb, 2 * nn) == cntp(pb, 2 * nn - 1) + (if (2 * nn - 1) % 2 == 0 && pb(
            2 * nn - 1,
        ) && pb(2 * nn) {
            1int
        } else {
            0int
        }));
        assert(cntp(pb, 2 * nn - 1) == cntp(pb, 2 * nn - 2) + (if (2 * nn - 2) % 2 == 0 && pb(
            2 * nn - 2,
        ) && pb(2 * nn - 1) {
            1int
        } else {
            0int
        }));
        assert((2 * nn - 1) % 2 == 1);
        assert((2 * nn - 2) % 2 == 0);
        assert(2 * (nn - 1) == 2 * nn - 2);
        assert(pa(j) <==> (pb(2 * j) || pb(2 * j + 1)));
    }
}

/// A coordinate is marked re-derivable exactly when it is some processed
/// leaf's ancestor at its level.
proof fn lemma_computed_member(s: Seq<usize>, height: int, n: int, l: int, i: int)
    requires
        1 <= height <= usize::BITS,
        0 <= n <= s.len(),
        forall|t: int| 0 <= t < s.len() ==> (s[t] as int) < pow2(height as nat),
        1 <= l < height,
        0 <= i < pow2(l as nat),
    ensures
        computed_upto(s, height, n).contains(tidx(l, i)) <==> (exists|t: int|
            0 <= t < n && i == parent_at(s[t] as int, height, l)),
    decreases n,
{
    if n <= 0 {
        assert(computed_upto(s, height, n) =~= Set::<usize>::empty());
    } else {
        lemma_computed_member(s, height, n - 1, l, i);
        lemma_anc_member(s[n - 1] as int, height, l, i);
        if computed_upto(s, height, n).contains(tidx(l, i)) {
            if computed_upto(s, height, n - 1).contains(tidx(l, i)) {
                let t = choose|t: int| 0 <= t < n - 1 && i == parent_at(s[t] as int, height, l);
                assert(0 <= t < n && i == parent_at(s[t] as int, height, l));
            } else {
                assert(anc_keys_down(s[n - 1] as int, height, 1).contains(tidx(l, i)));
                assert(i == parent_at(s[n - 1] as int, height, l));
            }
        }
        if exists|t: int| 0 <= t < n && i == parent_at(s[t] as int, height, l) {
            let t = choose|t: int| 0 <= t < n && i == parent_at(s[t] as int, height, l);
            if t < n - 1 {
                assert(computed_upto(s, height, n - 1).contains(tidx(l, i)));
            } else {
                assert(anc_keys_down(s[n - 1] as int, height, 1).contains(tidx(l, i)));
            }
            assert(computed_upto(s, height, n).contains(tidx(l, i)));
        }
    }
}

/// A coordinate one level above the leaves' side is marked exactly when one
/// of its two children is.
proof fn lemma_computed_parent_member(s: Seq<usize>, height: int, n: int, l: int, j: int)
    requires
        1 <= height <= usize::BITS,
        0 <= n <= s.len(),
        forall|t: int| 0 <= t < s.len() ==> (s[t] as int) < pow2(height as nat),
        2 <= l < height,
        0 <= j < pow2((l - 1) as nat),
    ensures
        computed_upto(s, height, n).contains(tidx(l - 1, j)) <==> (computed_upto(
            s,
            height,
            n,
        ).contains(tidx(l, 2 * j)) || computed_upto(s, height, n).contains(tidx(l, 2 * j + 1))),
    decreases n,
{
    lemma_pow2_adds((l - 1) as nat, 1);
    lemma2_to64();
    lemma_computed_member(s, height, n, l - 1, j);
    lemma_computed_member(s, height, n, l, 2 * j);
    lemma_computed_member(s, height, n, l, 2 * j + 1);
    assert forall|t: int| 0 <= t < n implies (j == parent_at(s[t] as int, height, l - 1) <==> (2
        * j == parent_at(s[t] as int, height, l) || 2 * j + 1 == parent_at(
        s[t] as int,
        height,
        l,
    ))) by {
        let leaf = s[t] as int;
        lemma_pow2_pos((height - l) as nat);
        lemma_div_pos_is_pos(leaf, pow2((height - l) as nat) as int);
        lemma_div_denominator(leaf, pow2((height - l) as nat) as int, 2);
        lemma_pow2_adds((height - l) as nat, 1);
        assert(parent_at(leaf, height, l - 1) == parent_at(leaf, height, l) / 2);
    }
    if computed_upto(s, height, n).contains(tidx(l - 1, j)) {
        let t = choose|t: int| 0 <= t < n && j == parent_at(s[t] as int, height, l - 1);
        if 2 * j == parent_at(s[t] as int, height, l) {
            assert(exists|t2: int| 0 <= t2 < n && 2 * j == parent_at(s[t2] as int, height, l));
        } else {
            assert(exists|t2: int| 0 <= t2 < n && 2 * j + 1 == parent_at(s[t2] as int, height, l));
        }
    }
    if computed_upto(s, height, n).contains(tidx(l, 2 * j)) {
        let t = choose|t: int| 0 <= t < n && 2 * j == parent_at(s[t] as int, height, l);
        assert(exists|t2: int| 0 <= t2 < n && j == parent_at(s[t2] as int, height, l - 1));
    }
    if computed_upto(s, height, n).contains(tidx(l, 2 * j + 1)) {
        let t = choose|t: int| 0 <= t < n && 2 * j + 1 == parent_at(s[t] as int, height, l);
        assert(exists|t2: int| 0 <= t2 < n && j == parent_at(s[t2] as int, height, l - 1));
    }
}

/// Whether the classifier marked the coordinate `(l, i)` re-derivable.
spec fn marked_pred(c: Set<usize>, l: int) -> spec_fn(int) -> bool {
    |i: int| c.contains(tidx(l, i))
}

/// Whether a leaf index is among the proved ones.
spec fn proved_pred(s: Seq<usize>) -> spec_fn(int) -> bool {
    |x: int| 0 <= x && s.contains(x as usize)
}

/// Whether a proved leaf is the lower member of a wholly proved sibling pair.
spec fn leaf_pair_pred(s: Seq<usize>) -> spec_fn(int) -> bool {
    |x: int| sib_idx(x) > x && s.contains(sib_idx(x) as usize)
}

/// Membership restricted by a further predicate on the value.
spec fn member_and(s: Seq<usize>, q: spec_fn(int) -> bool) -> spec_fn(int) -> bool {
    |x: int| 0 <= x && s.contains(x as usize) && q(x)
}

spec fn always_true() -> spec_fn(int) -> bool {
    |x: int| true
}

proof fn lemma_count_single(b: bool)
    ensures
        count_trues(seq![b]) == if b {
            1int
        } else {
            0int
        },
{
    assert(count_trues(Seq::<bool>::empty()) == 0);
    assert(seq![b].drop_last() =~= Seq::<bool>::empty());
    assert(seq![b].last() == b);
}

/// The `true` flags of one pass-2 level are exactly its wholly marked pairs.
proof fn lemma_pass2_level_trues(c: Set<usize>, m: Map<usize, Digest>, l: int, nn: int)
    requires
        0 <= nn,
    ensures
        count_trues(pass2_flags_level(c, m, l, nn)) == cntp(marked_pred(c, l), nn),
    decreases nn,
{
    if nn > 0 {
        lemma_pass2_level_trues(c, m, l, nn - 1);
        lemma_count_trues_concat(pass2_flags_level(c, m, l, nn - 1), pass2_flags_at(c, m, l, nn - 1));
        let i = nn - 1;
        let p = marked_pred(c, l);
        assert(p(i) == c.contains(tidx(l, i)));
        assert(p(i + 1) == c.contains(tidx(l, i + 1)));
        if i % 2 == 0 {
            assert(sib_idx(i) == i + 1);
        } else {
            assert(sib_idx(i) == i - 1);
        }
        lemma_count_single(true);
        lemma_count_single(false);
        assert(count_trues(Seq::<bool>::empty()) == 0);
    }
}

/// The `true` flags of the leaf pass are exactly the proved leaves that start
/// a wholly proved sibling pair.
proof fn lemma_leaf_trues(s: Seq<usize>, tt: int)
    requires
        0 <= tt <= s.len(),
    ensures
        count_trues(leaf_flags_upto(s, tt)) == cntq(s, leaf_pair_pred(s), tt),
    decreases tt,
{
    if tt > 0 {
        lemma_leaf_trues(s, tt - 1);
        lemma_count_trues_concat(leaf_flags_upto(s, tt - 1), leaf_flags_at(s, tt - 1));
        let q = leaf_pair_pred(s);
        let leaf = s[tt - 1] as int;
        assert(q(leaf) == (sib_idx(leaf) > leaf && s.contains(sib_idx(leaf) as usize)));
        lemma_count_single(true);
        lemma_count_single(false);
        assert(count_trues(Seq::<bool>::empty()) == 0);
    }
}

/// Each leaf-pass emission pushes a digest exactly when it pushes a `false`
/// flag.
proof fn lemma_leaf_balance(s: Seq<usize>, sibs: Seq<Digest>, tt: int)
    requires
        0 <= tt,
    ensures
        leaf_flags_upto(s, tt).len() == count_trues(leaf_flags_upto(s, tt)) + leaf_proof_upto(
            s,
            sibs,
            tt,
        ).len(),
    decreases tt,
{
    if tt > 0 {
        lemma_leaf_balance(s, sibs, tt - 1);
        lemma_count_trues_concat(leaf_flags_upto(s, tt - 1), leaf_flags_at(s, tt - 1));
        lemma_count_single(true);
        lemma_count_single(false);
        assert(count_trues(Seq::<bool>::empty()) == 0);
    }
}

/// Each pass-2 emission pushes a digest exactly when it pushes a `false`
/// flag: within one level, and over all levels.
proof fn lemma_pass2_level_balance(c: Set<usize>, m: Map<usize, Digest>, l: int, nn: int)
    requires
        0 <= nn,
    ensures
        pass2_flags_level(c, m, l, nn).len() == count_trues(pass2_flags_level(c, m, l, nn))
            + pass2_proof_level(c, m, l, nn).len(),
    decreases nn,
{
    if nn > 0 {
        lemma_pass2_level_balance(c, m, l, nn - 1);
        lemma_count_trues_concat(pass2_flags_level(c, m, l, nn - 1), pass2_flags_at(c, m, l, nn - 1));
        lemma_count_single(true);
        lemma_count_single(false);
        assert(count_trues(Seq::<bool>::empty()) == 0);
    }
}

proof fn lemma_pass2_down_balance(c: Set<usize>, m: Map<usize, Digest>, lv: int)
    requires
        0 <= lv,
    ensures
        pass2_flags_down(c, m, lv).len() == count_trues(pass2_flags_down(c, m, lv))
            + pass2_proof_down(c, m, lv).len(),
    decreases lv,
{
    if lv > 0 {
        lemma_pass2_down_balance(c, m, lv - 1);
        lemma_pass2_level_balance(c, m, lv, pow2(lv as nat) as int);
        lemma_pow2_pos(lv as nat);
        lemma_count_trues_concat(
            pass2_flags_level(c, m, lv, pow2(lv as nat) as int),
            pass2_flags_down(c, m, lv - 1),
        );
    } else {
        assert(count_trues(Seq::<bool>::empty()) == 0);
    }
}

/// Position counts agree on a common prefix.
proof fn lemma_cntq_prefix(s: Seq<usize>, s2: Seq<usize>, q: spec_fn(int) -> bool, tt: int)
    requires
        0 <= tt <= s2.len(),
        s2.len() <= s.len(),
        forall|t: int| 0 <= t < s2.len() ==> s[t] == s2[t],
    ensures
        cntq(s, q, tt) == cntq(s2, q, tt),
    decreases tt,
{
    if tt > 0 {
        lemma_cntq_prefix(s, s2, q, tt - 1);
    }
}

/// Every position of a sequence counts when the predicate always accepts.
proof fn lemma_cntq_all(s: Seq<usize>, q: spec_fn(int) -> bool, tt: int)
    requires
        0 <= tt,
        forall|x: int| #[trigger] q(x),
    ensures
        cntq(s, q, tt) == tt,
    decreases tt,
{
    if tt > 0 {
        lemma_cntq_all(s, q, tt - 1);
    }
}

/// Counting positions of a strictly ascending sequence equals counting the
/// range values that are members, the bijection the ascent provides.
proof fn lemma_seq_range_count(s: Seq<usize>, q: spec_fn(int) -> bool, bound: int)
    requires
        strictly_ascending(s),
        0 <= bound,
        bound <= usize::MAX + 1,
        forall|t: int| 0 <= t < s.len() ==> (s[t] as int) < bound,
    ensures
        cntq(s, q, s.len() as int) == cnt(member_and(s, q), bound),
    decreases s.len(),
{
    let ps = member_and(s, q);
    if s.len() == 0 {
        assert forall|x: int| 0 <= x < bound implies !(#[trigger] ps(x)) by {
            assert(!s.contains(x as usize));
        }
        lemma_cnt_none(ps, bound);
    } else {
        let s2 = s.drop_last();
        let v = s.last() as int;
        let ps2 = member_and(s2, q);
        assert(strictly_ascending(s2)) by {
            assert(forall|i: int, j: int|
                0 <= i < j < s2.len() ==> s2[i] == s[i] && s2[j] == s[j]);
        }
        lemma_seq_range_count(s2, q, bound);
        lemma_cntq_prefix(s, s2, q, s2.len() as int);
        // membership in `s` and in its front differ exactly at the last value
        assert forall|x: int| 0 <= x < bound && x != v implies (#[trigger] ps(x) <==> ps2(x)) by {
            assert((x as usize) as int == x);
            if s.contains(x as usize) {
                let t = choose|t: int| 0 <= t < s.len() && s[t] == x as usize;
                assert(t < s.len() - 1);
                assert(s2[t] == x as usize);
                assert(s2.contains(x as usize));
            }
            if s2.contains(x as usize) {
                let t = choose|t: int| 0 <= t < s2.len() && s2[t] == x as usize;
                assert(s[t] == x as usize);
                assert(s.contains(x as usize));
            }
        }
        assert(s[s.len() - 1] == v as usize);
        assert(s.contains(v as usize));
        assert(!s2.contains(v as usize)) by {
            if s2.contains(v as usize) {
                let t = choose|t: int| 0 <= t < s2.len() && s2[t] == v as usize;
                assert(s[t] == s2[t]);
                assert(s[t] < s[s.len() - 1]);
            }
        }
        assert(ps(v) == q(v));
        assert(!ps2(v));
        if q(v) {
            lemma_cnt_except_one(ps, ps2, v, bound);
        } else {
            lemma_cnt_pointwise(ps, ps2, bound);
        }
    }
}

/// The `true` flags of pass 2 down to level 1 number one less than the marked
/// coordinates of the topmost processed level: each level's pairs merge its
/// marked nodes into the level above, and a single chain survives at level 1.
proof fn lemma_down_trues(
    c: Set<usize>,
    m: Map<usize, Digest>,
    s: Seq<usize>,
    height: int,
    n: int,
    lv: int,
)
    requires
        1 <= height <= usize::BITS,
        1 <= n <= s.len(),
        forall|t: int| 0 <= t < s.len() ==> (s[t] as int) < pow2(height as nat),
        1 <= lv < height,
        c == computed_upto(s, height, n),
    ensures
        count_trues(pass2_flags_down(c, m, lv)) == cnt(marked_pred(c, lv), pow2(lv as nat) as int)
            - 1,
    decreases lv,
{
    lemma2_to64();
    let p = marked_pred(c, lv);
    lemma_pass2_level_trues(c, m, lv, pow2(lv as nat) as int);
    lemma_count_trues_concat(
        pass2_flags_level(c, m, lv, pow2(lv as nat) as int),
        pass2_flags_down(c, m, lv - 1),
    );
    if lv == 1 {
        assert(pass2_flags_down(c, m, 0) =~= Seq::<bool>::empty());
        assert(count_trues(Seq::<bool>::empty()) == 0);
        assert(cnt(p, 2) == cnt(p, 1) + (if p(1) {
            1int
        } else {
            0int
        }));
        assert(cnt(p, 1) == cnt(p, 0) + (if p(0) {
            1int
        } else {
            0int
        }));
        assert(cntp(p, 2) == cntp(p, 1) + (if 1int % 2 == 0 && p(1) && p(2) {
            1int
        } else {
            0int
        }));
        assert(cntp(p, 1) == cntp(p, 0) + (if 0int % 2 == 0 && p(0) && p(1) {
            1int
        } else {
            0int
        }));
        // level 1 is never unmarked: the first leaf's ancestor sits there
        let anc = parent_at(s[0] as int, height, 1);
        lemma_parent_bounds(s[0] as int, height, 1);
        lemma_computed_member(s, height, n, 1, anc);
        assert(0 <= 0 < n && anc == parent_at(s[0] as int, height, 1));
        assert(c.contains(tidx(1, anc)));
        assert(p(anc) == c.contains(tidx(1, anc)));
        assert(p(0) || p(1));
    } else {
        lemma_down_trues(c, m, s, height, n, lv - 1);
        let pa = marked_pred(c, lv - 1);
        assert forall|j: int| 0 <= j < pow2((lv - 1) as nat) as int implies (#[trigger] pa(j) <==> (
        p(2 * j) || p(2 * j + 1))) by {
            lemma_computed_parent_member(s, height, n, lv, j);
            assert(pa(j) == c.contains(tidx(lv - 1, j)));
            assert(p(2 * j) == c.contains(tidx(lv, 2 * j)));
            assert(p(2 * j + 1) == c.contains(tidx(lv, 2 * j + 1)));
        }
        lemma_halving(pa, p, pow2((lv - 1) as nat) as int);
        lemma_pow2_adds((lv - 1) as nat, 1);
        assert(2 * pow2((lv - 1) as nat) == pow2(lv as nat));
    }
}

/// **Length invariant law.** For every successfully converted multi-proof,
/// `len(proofFlags) + 1 == len(provedLeafIndices) + len(proof)`: replay pops
/// one queue value per flag, pushes one, and ends on the single root, so the
/// emitted flags balance the proved leaves and supplied digests exactly.
pub proof fn lemma_length_invariant(v: RawMultiProofView, leaves: Seq<Digest>, root: Digest)
    requires
        convert_spec(v, leaves, root) is Ok,
        v.proved_leaf_indices.len() >= 1,
        v.height() <= usize::BITS,
        forall|t: int|
            0 <= t < v.proved_leaf_indices.len() ==> (v.proved_leaf_indices[t] as int) < pow2(
                v.height() as nat,
            ),
    ensures
        ({
            let out = convert_spec(v, leaves, root)->Ok_0;
            out.proof_flags.len() + 1 == v.proved_leaf_indices.len() + out.proof.len()
        }),
{
    let s = v.proved_leaf_indices;
    let h = v.height();
    let n = s.len() as int;
    let paths = decoded_paths(v.path_prefix_lengths, v.path_suffixes);
    let c = computed_upto(s, h, n);
    let m = supplied_upto(s, paths, h, n);
    let lf = leaf_flags_upto(s, n);
    let lp = leaf_proof_upto(s, v.leaf_sibling_digests, n);
    let df = pass2_flags_down(c, m, h - 1);
    let dp = pass2_proof_down(c, m, h - 1);
    let flags = converted_flags(v);
    let prf = converted_proof(v);
    assert(flags == lf + df);
    assert(prf == lp + dp);

    lemma2_to64();
    lemma_pow2_le(h as nat, usize::BITS as nat);
    unsigned_int_max_values();
    assert(pow2(h as nat) <= usize::MAX + 1);

    // every emission pushes a digest exactly when it pushes a false flag
    lemma_count_trues_concat(lf, df);
    lemma_leaf_balance(s, v.leaf_sibling_digests, n);
    lemma_pass2_down_balance(c, m, h - 1);
    assert(flags.len() == count_trues(flags) + prf.len());

    // the true flags of the leaf pass are the wholly proved sibling pairs
    let pb = proved_pred(s);
    let qpair = leaf_pair_pred(s);
    lemma_leaf_trues(s, n);
    lemma_seq_range_count(s, qpair, pow2(h as nat) as int);
    assert forall|x: int| 0 <= x < pow2(h as nat) as int implies (#[trigger] member_and(s, qpair)(
        x,
    ) <==> (x % 2 == 0 && pb(x) && pb(x + 1))) by {
        assert(member_and(s, qpair)(x) == (0 <= x && s.contains(x as usize) && qpair(x)));
        assert(qpair(x) == (sib_idx(x) > x && s.contains(sib_idx(x) as usize)));
        assert(pb(x) == (0 <= x && s.contains(x as usize)));
        assert(pb(x + 1) == (0 <= x + 1 && s.contains((x + 1) as usize)));
        if x % 2 == 0 {
            assert(sib_idx(x) == x + 1);
        } else {
            assert(sib_idx(x) < x);
        }
    }
    lemma_cntp_as_cnt(pb, member_and(s, qpair), pow2(h as nat) as int);
    assert(count_trues(lf) == cntp(pb, pow2(h as nat) as int));

    // the proved leaves number the members of the proved set
    lemma_cntq_all(s, always_true(), n);
    lemma_seq_range_count(s, always_true(), pow2(h as nat) as int);
    assert forall|x: int| 0 <= x < pow2(h as nat) as int implies (#[trigger] member_and(
        s,
        always_true(),
    )(x) <==> pb(x)) by {
        assert(member_and(s, always_true())(x) == (0 <= x && s.contains(x as usize)
            && always_true()(x)));
        assert(always_true()(x));
        assert(pb(x) == (0 <= x && s.contains(x as usize)));
    }
    lemma_cnt_pointwise(member_and(s, always_true()), pb, pow2(h as nat) as int);
    assert(cnt(pb, pow2(h as nat) as int) == n);

    if h == 1 {
        assert(df =~= Seq::<bool>::empty());
        assert(count_trues(Seq::<bool>::empty()) == 0);
        assert(cnt(pb, 2) == cnt(pb, 1) + (if pb(1) {
            1int
        } else {
            0int
        }));
        assert(cnt(pb, 1) == cnt(pb, 0) + (if pb(0) {
            1int
        } else {
            0int
        }));
        assert(cntp(pb, 2) == cntp(pb, 1) + (if 1int % 2 == 0 && pb(1) && pb(2) {
            1int
        } else {
            0int
        }));
        assert(cntp(pb, 1) == cntp(pb, 0) + (if 0int % 2 == 0 && pb(0) && pb(1) {
            1int
        } else {
            0int
        }));
        assert(pow2(1) == 2);
        assert(s.contains(s[0]));
        assert(pb(s[0] as int));
        assert((s[0] as int) < 2);
        assert(count_trues(flags) == n - 1);
    } else {
        // pass 2 merges the marked chains down to the single root chain
        lemma_down_trues(c, m, s, h, n, h - 1);
        let ph = marked_pred(c, h - 1);
        assert forall|j: int| 0 <= j < pow2((h - 1) as nat) as int implies (#[trigger] ph(j) <==> (
        pb(2 * j) || pb(2 * j + 1))) by {
            lemma_computed_member(s, h, n, h - 1, j);
            assert(ph(j) == c.contains(tidx(h - 1, j)));
            lemma_pow2_adds((h - 1) as nat, 1);
            assert forall|t: int| 0 <= t < n implies (j == parent_at(s[t] as int, h, h - 1) <==> (
            s[t] as int == 2 * j || s[t] as int == 2 * j + 1)) by {
                assert(pow2((h - (h - 1)) as nat) == 2);
                assert(parent_at(s[t] as int, h, h - 1) == (s[t] as int) / 2);
            }
            assert(pb(2 * j) == (0 <= 2 * j && s.contains((2 * j) as usize)));
            assert(pb(2 * j + 1) == (0 <= 2 * j + 1 && s.contains((2 * j + 1) as usize)));
            if ph(j) {
                let t = choose|t: int| 0 <= t < n && j == parent_at(s[t] as int, h, h - 1);
                assert(s[t] == ((s[t] as int) as usize));
                assert(s.contains(s[t]));
            }
            if s.contains((2 * j) as usize) {
                let t = choose|t: int| 0 <= t < s.len() && s[t] == (2 * j) as usize;
                assert((s[t] as int) == 2 * j);
                assert(exists|t2: int| 0 <= t2 < n && j == parent_at(s[t2] as int, h, h - 1));
            }
            if s.contains((2 * j + 1) as usize) {
                let t = choose|t: int| 0 <= t < s.len() && s[t] == (2 * j + 1) as usize;
                assert((s[t] as int) == 2 * j + 1);
                assert(exists|t2: int| 0 <= t2 < n && j == parent_at(s[t2] as int, h, h - 1));
            }
        }
        lemma_halving(ph, pb, pow2((h - 1) as nat) as int);
        lemma_pow2_adds((h - 1) as nat, 1);
        assert(2 * pow2((h - 1) as nat) == pow2(h as nat));
        assert(cnt(ph, pow2((h - 1) as nat) as int) == n - count_trues(lf));
        assert(count_trues(df) == n - count_trues(lf) - 1);
        assert(count_trues(flags) == n - 1);
    }
    assert(flags.len() + 1 == n + prf.len());
}

} // verus!
