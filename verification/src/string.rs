//! Byte-level memory helpers.

use vstd::prelude::*;

verus! {

/// Fill the first `num` bytes of the buffer with `value`, leaving the
/// rest untouched.
pub fn memset(buf: &mut Vec<u8>, value: u8, num: usize)
    requires
        num <= old(buf).len(),
    ensures
        final(buf)@.len() == old(buf)@.len(),
        forall|i: int| 0 <= i < num ==> final(buf)@[i] == value,
        forall|i: int| num <= i < old(buf)@.len() ==> final(buf)@[i] == old(buf)@[i],
{
    let mut i: usize = 0;
    while i < num
        invariant
            i <= num,
            num <= buf@.len(),
            buf@.len() == old(buf)@.len(),
            forall|j: int| 0 <= j < i ==> buf@[j] == value,
            forall|j: int| i <= j < buf@.len() ==> buf@[j] == old(buf)@[j],
        decreases num - i,
    {
        buf[i] = value;
        i = i + 1;
    }
}

} // verus!
