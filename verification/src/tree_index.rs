use vstd::arithmetic::power2::{
    lemma2_to64, lemma_pow2_adds, lemma_pow2_pos, lemma_pow2_strictly_increases, pow2,
};
use vstd::layout::unsigned_int_max_values;
use vstd::prelude::*;

verus! {

/// Global key of the tree coordinate `(level, idx)` — level 0 is the root,
/// level H the leaves: `2^level + idx - 1`. Injective over all valid
/// coordinates, used only as the classifier's lookup key.
pub open spec fn tree_index_spec(level: int, idx: int) -> int {
    pow2(level as nat) as int + idx - 1
}

/// The same key as the machine word that the classifier's containers store.
pub open spec fn tidx(level: int, idx: int) -> usize {
    tree_index_spec(level, idx) as usize
}

/// The index of the other child of the same parent: `idx xor 1`.
pub open spec fn sib_idx(i: int) -> int {
    if i % 2 == 0 {
        i + 1
    } else {
        i - 1
    }
}

pub proof fn lemma_pow2_le(e1: nat, e2: nat)
    requires
        e1 <= e2,
    ensures
        pow2(e1) <= pow2(e2),
{
    if e1 < e2 {
        lemma_pow2_strictly_increases(e1, e2);
    }
}

/// `2^level <= (usize::MAX + 1) / 2` for any level below the word size.
pub proof fn lemma_level_word_bound(level: int)
    requires
        0 <= level < usize::BITS,
    ensures
        2 * pow2(level as nat) - 1 <= usize::MAX,
{
    lemma_pow2_le(level as nat, (usize::BITS - 1) as nat);
    lemma_pow2_adds((usize::BITS - 1) as nat, 1);
    lemma2_to64();
    unsigned_int_max_values();
}

/// Within machine bounds the word-sized key equals the mathematical one.
pub proof fn lemma_tidx_in_range(level: int, idx: int)
    requires
        0 <= level < usize::BITS,
        0 <= idx < pow2(level as nat),
    ensures
        tidx(level, idx) as int == tree_index_spec(level, idx),
        0 <= tree_index_spec(level, idx) <= usize::MAX - 1,
{
    lemma_pow2_pos(level as nat);
    lemma_level_word_bound(level);
}

/// Distinct valid coordinates have distinct keys: per level the keys fill the
/// disjoint range `[2^level - 1, 2^(level+1) - 1)`.
pub proof fn lemma_tidx_injective(l1: int, i1: int, l2: int, i2: int)
    requires
        0 <= l1 < usize::BITS,
        0 <= i1 < pow2(l1 as nat),
        0 <= l2 < usize::BITS,
        0 <= i2 < pow2(l2 as nat),
        !(l1 == l2 && i1 == i2),
    ensures
        tidx(l1, i1) != tidx(l2, i2),
{
    lemma_tidx_in_range(l1, i1);
    lemma_tidx_in_range(l2, i2);
    if l1 != l2 {
        if l1 < l2 {
            lemma_pow2_adds(l1 as nat, 1);
            lemma2_to64();
            lemma_pow2_le((l1 + 1) as nat, l2 as nat);
        } else {
            lemma_pow2_adds(l2 as nat, 1);
            lemma2_to64();
            lemma_pow2_le((l2 + 1) as nat, l1 as nat);
        }
    }
}

/// `2^e` as a machine word.
pub fn pow2_exec(e: usize) -> (r: usize)
    requires
        e < usize::BITS,
    ensures
        r as int == pow2(e as nat),
{
    let mut r: usize = 1;
    let mut j: usize = 0;
    proof {
        lemma2_to64();
    }
    while j < e
        invariant
            j <= e < usize::BITS,
            r as int == pow2(j as nat),
        decreases e - j,
    {
        proof {
            lemma_pow2_adds(j as nat, 1);
            lemma2_to64();
            lemma_level_word_bound(j + 1);
        }
        r = r * 2;
        j = j + 1;
    }
    r
}

/// `treeIndex(level, idx) = 2^level + idx - 1`, the synthetic key space the
/// node classifier uses for its internal containers.
pub fn to_tree_index(level_index: usize, level: usize) -> (r: usize)
    requires
        level < usize::BITS,
        (level_index as int) < pow2(level as nat),
    ensures
        r == tidx(level as int, level_index as int),
        r as int == tree_index_spec(level as int, level_index as int),
{
    proof {
        lemma_tidx_in_range(level as int, level_index as int);
    }
    pow2_exec(level) + level_index - 1
}

/// The bitwise sibling `i xor 1` of an index within a level.
pub fn sibling_index(i: usize) -> (r: usize)
    ensures
        r as int == sib_idx(i as int),
{
    if i % 2 == 0 {
        i + 1
    } else {
        i - 1
    }
}

} // verus!
