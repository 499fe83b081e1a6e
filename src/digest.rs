use vstd::prelude::*;

verus! {

/// Number of bytes in a digest.
pub const DIGEST_LEN: usize = 32;

/// A fixed-width content digest; the sole identity of a blob.
///
/// Two hashes are the same exactly when their bytes are.
#[allow(clippy::derived_hash_with_manual_eq)]
#[derive(Clone, Copy, Debug, Eq, Hash, PartialOrd, Ord)]
pub struct Digest(pub [u8; 32]);

impl View for Digest {
    type V = Seq<u8>;

    open spec fn view(&self) -> Seq<u8> {
        self.0@
    }
}

impl PartialEq for Digest {
    fn eq(&self, other: &Digest) -> (r: bool) {
        let mut i: usize = 0;
        while i < DIGEST_LEN
            invariant
                0 <= i <= DIGEST_LEN,
                self@.len() == DIGEST_LEN,
                other@.len() == DIGEST_LEN,
                self@.subrange(0, i as int) == other@.subrange(0, i as int),
            decreases DIGEST_LEN - i,
        {
            if self.0[i] != other.0[i] {
                assert(self@[i as int] != other@[i as int]);
                return false;
            }
            assert(self@.subrange(0, i + 1) =~= self@.subrange(0, i as int).push(self@[i as int]));
            assert(other@.subrange(0, i + 1) =~= other@.subrange(0, i as int).push(other@[i as int]));
            i = i + 1;
        }
        assert(self@ =~= self@.subrange(0, DIGEST_LEN as int));
        assert(other@ =~= other@.subrange(0, DIGEST_LEN as int));
        true
    }
}

impl vstd::std_specs::cmp::PartialEqSpecImpl for Digest {
    open spec fn obeys_eq_spec() -> bool {
        true
    }

    open spec fn eq_spec(&self, other: &Digest) -> bool {
        self@ == other@
    }
}

} // verus!
