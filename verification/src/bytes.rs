use vstd::prelude::*;

verus! {

/// Whether two byte strings are the same.
pub(crate) fn same_bytes(left: &Vec<u8>, right: &Vec<u8>) -> (same: bool)
    ensures
        same == (left@ == right@),
{
    if left.len() != right.len() {
        return false;
    }
    let mut i: usize = 0;
    while i < left.len()
        invariant
            i <= left@.len(),
            left@.len() == right@.len(),
            forall|k: int| 0 <= k < i ==> left@[k] == right@[k],
        decreases left@.len() - i,
    {
        if left[i] != right[i] {
            return false;
        }
        i += 1;
    }
    assert(left@ =~= right@);
    true
}

/// The bytes of `source` from `start` on.
pub(crate) fn copy_from(source: &Vec<u8>, start: usize) -> (tail: Vec<u8>)
    requires
        start <= source@.len(),
    ensures
        tail@ == source@.subrange(start as int, source@.len() as int),
{
    let mut tail: Vec<u8> = Vec::new();
    let mut i: usize = start;
    while i < source.len()
        invariant
            start <= i <= source@.len(),
            tail@ == source@.subrange(start as int, i as int),
        decreases source@.len() - i,
    {
        tail.push(source[i]);
        assert(tail@ =~= source@.subrange(start as int, i + 1));
        i += 1;
    }
    tail
}

/// A copy of the bytes.
pub(crate) fn copy_bytes(source: &Vec<u8>) -> (copy: Vec<u8>)
    ensures
        copy@ == source@,
{
    let mut copy: Vec<u8> = Vec::new();
    let mut i: usize = 0;
    while i < source.len()
        invariant
            i <= source@.len(),
            copy@ == source@.subrange(0, i as int),
        decreases source@.len() - i,
    {
        copy.push(source[i]);
        assert(copy@ =~= source@.subrange(0, i + 1));
        i += 1;
    }
    assert(source@.subrange(0, source@.len() as int) =~= source@);
    copy
}

} // verus!
