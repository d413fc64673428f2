use crate::digest::Digest;
use vstd::prelude::*;

verus! {

/// A full sibling path rebuilt from its prefix-compressed encoding: the first
/// `prefix_len` entries of the previously decoded path followed by the suffix;
/// with `prefix_len == 0` the suffix verbatim.
pub open spec fn decode_path_spec(prev: Seq<Digest>, prefix_len: int, suffix: Seq<Digest>) -> Seq<
    Digest,
> {
    if prefix_len == 0 {
        suffix
    } else {
        prev.take(prefix_len) + suffix
    }
}

/// Rebuilds one leaf's full root-ward sibling path from the delta encoding.
/// Decoding is inherently sequential: `prev_path` must be the fully decoded
/// path of the previous proved leaf.
pub fn prefix_decode_path(prev_path: &Vec<Digest>, prefix_len: usize, suffix: &Vec<Digest>) -> (path:
    Vec<Digest>)
    requires
        prefix_len <= prev_path@.len(),
    ensures
        path@ == decode_path_spec(prev_path@, prefix_len as int, suffix@),
{
    let mut path: Vec<Digest> = Vec::new();
    let mut i: usize = 0;
    while i < prefix_len
        invariant
            i <= prefix_len <= prev_path@.len(),
            path@ == prev_path@.take(i as int),
        decreases prefix_len - i,
    {
        path.push(prev_path[i]);
        proof {
            assert(path@ =~= prev_path@.take(i + 1));
        }
        i = i + 1;
    }
    proof {
        assert(path@ =~= prev_path@.take(prefix_len as int) + suffix@.take(0));
    }
    let mut j: usize = 0;
    while j < suffix.len()
        invariant
            j <= suffix@.len(),
            path@ == prev_path@.take(prefix_len as int) + suffix@.take(j as int),
        decreases suffix@.len() - j,
    {
        path.push(suffix[j]);
        proof {
            assert(path@ =~= prev_path@.take(prefix_len as int) + suffix@.take(j + 1));
        }
        j = j + 1;
    }
    proof {
        assert(suffix@.take(suffix@.len() as int) =~= suffix@);
        if prefix_len == 0 {
            assert(path@ =~= suffix@);
        }
    }
    path
}

} // verus!
