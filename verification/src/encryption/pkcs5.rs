//! PKCS#5 padding: the last bytes of a block each say how many of them there are.

use vstd::prelude::*;

verus! {

/// Whether a block ends in padding of `count` bytes.
pub open spec fn padded_by(block: Seq<u8>, count: u8) -> bool {
    &&& 1 <= count <= block.len()
    &&& forall|i: int| block.len() - count <= i < block.len() ==> #[trigger] block[i] == count
}

/// A block without its padding, if it ends in padding.
pub open spec fn unpadded(block: Seq<u8>) -> Option<Seq<u8>> {
    if block.len() > 0 && padded_by(block, block.last()) {
        Some(block.take(block.len() - block.last()))
    } else {
        None
    }
}

/// How many bytes of `block` come before its padding, if it ends in padding.
pub fn unpadded_len(block: &[u8]) -> (r: Option<usize>)
    ensures
        match r {
            Some(len) => len <= block@.len() && unpadded(block@) == Some(block@.take(len as int)),
            None => unpadded(block@) is None,
        },
{
    if block.len() == 0 {
        return None;
    }
    let count = block[block.len() - 1];
    if count == 0 || count as usize > block.len() {
        return None;
    }
    let len = block.len() - count as usize;
    let mut i: usize = len;
    while i < block.len()
        invariant
            len <= i <= block@.len(),
            len == block@.len() - count,
            block@.len() > 0,
            count == block@.last(),
            forall|j: int| len <= j < i ==> #[trigger] block@[j] == count,
        decreases block@.len() - i,
    {
        if block[i] != count {
            assert(block@[i as int] != count);
            return None;
        }
        i += 1;
    }
    Some(len)
}

} // verus!
