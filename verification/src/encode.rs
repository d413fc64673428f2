//! Rendering of digests in the fixed output encoding of the external batch
//! verifier: lowercase hexadecimal, `0x`-prefixed, exactly 32 bytes.

use crate::convert::OpenZeppelinMultiProof;
use crate::digest::Digest;
use vstd::prelude::*;
use vstd::string::StringExecFns;

verus! {

/// The lowercase hexadecimal digit for a nibble value in `0 .. 16`.
pub open spec fn hex_digit(n: int) -> char {
    if n == 0 {
        '0'
    } else if n == 1 {
        '1'
    } else if n == 2 {
        '2'
    } else if n == 3 {
        '3'
    } else if n == 4 {
        '4'
    } else if n == 5 {
        '5'
    } else if n == 6 {
        '6'
    } else if n == 7 {
        '7'
    } else if n == 8 {
        '8'
    } else if n == 9 {
        '9'
    } else if n == 10 {
        'a'
    } else if n == 11 {
        'b'
    } else if n == 12 {
        'c'
    } else if n == 13 {
        'd'
    } else if n == 14 {
        'e'
    } else {
        'f'
    }
}

/// The lowercase hexadecimal encoding of a byte string: two digits per byte,
/// high nibble first.
pub open spec fn hex_seq_of(bytes: Seq<u8>) -> Seq<char> {
    Seq::new(
        bytes.len() * 2,
        |i: int|
            if i % 2 == 0 {
                hex_digit(bytes[i / 2] as int / 16)
            } else {
                hex_digit(bytes[i / 2] as int % 16)
            },
    )
}

/// A digest in the batch verifier's expected encoding: `0x`, then lowercase
/// hex.
pub open spec fn hex_str_0x(bytes: Seq<u8>) -> Seq<char> {
    seq!['0', 'x'] + hex_seq_of(bytes)
}

/// Relies on `hex::encode`: encodes the bytes as lowercase hexadecimal, two
/// digits per byte, high nibble first.
#[verifier::external_body]
fn hex_encode_bytes(b: &[u8; 32]) -> (r: String)
    ensures
        r@ == hex_seq_of(b@),
{
    hex::encode(b)
}

/// One digest as the `0x`-prefixed lowercase hex string; the prefix is what
/// marks the value as a 32-byte word for the verifier's tooling.
pub fn digest_to_hex(d: &Digest) -> (r: String)
    ensures
        r@ == hex_str_0x(d@),
{
    let mut out = "0x".to_owned();
    let h = hex_encode_bytes(&d.0);
    out.append(h.as_str());
    proof {
        reveal_strlit("0x");
        assert(out@ =~= hex_str_0x(d@));
    }
    out
}

/// Every digest of a sequence in the output encoding, order kept.
pub fn digests_to_hex(ds: &Vec<Digest>) -> (r: Vec<String>)
    ensures
        r@.len() == ds@.len(),
        forall|i: int| 0 <= i < ds@.len() ==> r@[i]@ == hex_str_0x(ds@[i]@),
{
    let mut r: Vec<String> = Vec::new();
    let mut k: usize = 0;
    while k < ds.len()
        invariant
            k <= ds@.len(),
            r@.len() == k,
            forall|i: int| 0 <= i < k ==> r@[i]@ == hex_str_0x(ds@[i]@),
        decreases ds@.len() - k,
    {
        let s = digest_to_hex(&ds[k]);
        r.push(s);
        k = k + 1;
    }
    r
}

impl OpenZeppelinMultiProof {
    /// The proved leaves' digests in the output encoding, ascending leaf
    /// index order kept.
    pub fn leaves_hex(&self) -> (r: Vec<String>)
        ensures
            r@.len() == self.leaves@.len(),
            forall|i: int| 0 <= i < r@.len() ==> r@[i]@ == hex_str_0x(self.leaves@[i]@),
    {
        digests_to_hex(&self.leaves)
    }

    /// The explicit proof digests in the output encoding, producer order kept.
    pub fn proof_hex(&self) -> (r: Vec<String>)
        ensures
            r@.len() == self.proof@.len(),
            forall|i: int| 0 <= i < r@.len() ==> r@[i]@ == hex_str_0x(self.proof@[i]@),
    {
        digests_to_hex(&self.proof)
    }

    /// The root digest in the output encoding.
    pub fn root_hex(&self) -> (r: String)
        ensures
            r@ == hex_str_0x(self.root@),
    {
        digest_to_hex(&self.root)
    }
}

} // verus!
