use vstd::prelude::*;

verus! {

/// A fixed-size 32-byte hash value. The converter treats digests as opaque
/// data: they are stored, deduplicated by tree coordinate and re-emitted,
/// never inspected or combined arithmetically.
#[derive(Clone, Copy, PartialEq, Eq, Debug)]
pub struct Digest(pub [u8; 32]);

impl View for Digest {
    type V = Seq<u8>;

    open spec fn view(&self) -> Seq<u8> {
        self.0@
    }
}

} // verus!
