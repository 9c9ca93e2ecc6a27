//! Small byte-slice helpers: copying, comparison and writing at an offset.
use vstd::prelude::*;

verus! {

/// Copies a slice into a fresh vector.
pub fn to_vec(s: &[u8]) -> (v: Vec<u8>)
    ensures
        v@ == s@,
{
    let mut v: Vec<u8> = Vec::new();
    for i in 0..s.len()
        invariant
            v@ == s@.take(i as int),
    {
        v.push(s[i]);
        assert(v@ =~= s@.take(i + 1));
    }
    assert(v@ =~= s@);
    v
}

/// Byte-wise equality of two slices.
pub fn bytes_eq(a: &[u8], b: &[u8]) -> (r: bool)
    ensures
        r == (a@ == b@),
{
    if a.len() != b.len() {
        return false;
    }
    for i in 0..a.len()
        invariant
            a.len() == b.len(),
            forall|t: int| 0 <= t < i ==> a@[t] == b@[t],
    {
        if a[i] != b[i] {
            return false;
        }
    }
    assert(a@ =~= b@);
    true
}

/// Overwrites `dst[offset..offset + src.len()]` with `src`.
pub fn copy_into(dst: &mut [u8], offset: usize, src: &[u8])
    requires
        offset + src.len() <= old(dst).len(),
    ensures
        final(dst)@ == old(dst)@.take(offset as int) + src@ + old(dst)@.skip(offset + src.len()),
{
    for i in 0..src.len()
        invariant
            offset + src.len() <= dst.len(),
            dst.len() == old(dst).len(),
            forall|t: int| 0 <= t < offset ==> #[trigger] dst@[t] == old(dst)@[t],
            forall|t: int| 0 <= t < i ==> #[trigger] dst@[offset + t] == src@[t],
            forall|t: int| offset + i <= t < dst.len() ==> #[trigger] dst@[t] == old(dst)@[t],
    {
        dst[offset + i] = src[i];
    }
    let ghost expected = old(dst)@.take(offset as int) + src@ + old(dst)@.skip(offset + src.len());
    assert forall|t: int| 0 <= t < dst.len() implies #[trigger] dst@[t] == expected[t] by {
        if offset <= t < offset + src.len() {
            assert(dst@[offset + (t - offset)] == src@[t - offset]);
        }
    }
    assert(dst@ =~= expected);
}

} // verus!
