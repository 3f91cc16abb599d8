//! The backing store: a fixed-length, random-access region of bytes.

use vstd::prelude::*;

verus! {

/// `image` with the bytes from `offset` on replaced by `data`.
pub open spec fn overwrite(image: Seq<u8>, offset: int, data: Seq<u8>) -> Seq<u8> {
    Seq::new(
        image.len(),
        |i: int|
            if offset <= i < offset + data.len() {
                data[i - offset]
            } else {
                image[i]
            },
    )
}

/// Reads exactly `N` bytes starting at `offset`.
pub fn read_at<const N: usize>(disk: &Vec<u8>, offset: usize) -> (buf: [u8; N])
    requires
        offset + N <= disk.len(),
    ensures
        buf@ == disk@.subrange(offset as int, offset + N),
{
    let mut buf: [u8; N] = [0u8; N];
    let mut i: usize = 0;
    while i < N
        invariant
            i <= N,
            offset + N <= disk.len(),
            forall|k: int| 0 <= k < i ==> buf@[k] == disk@[offset + k],
        decreases N - i,
    {
        buf[i] = disk[offset + i];
        i += 1;
    }
    assert(buf@ =~= disk@.subrange(offset as int, offset + N));
    buf
}

/// Writes all of `data` starting at `offset`, leaving every other byte as it was.
pub fn write_at<const N: usize>(disk: &mut Vec<u8>, offset: usize, data: &[u8; N])
    requires
        offset + N <= old(disk).len(),
    ensures
        final(disk)@ == overwrite(old(disk)@, offset as int, data@),
    no_unwind
{
    let mut i: usize = 0;
    while i < N
        invariant
            i <= N,
            disk.len() == old(disk).len(),
            offset + N <= disk.len(),
            forall|k: int| 0 <= k < disk.len() ==> disk@[k] == (if offset <= k < offset + i {
                data@[k - offset]
            } else {
                old(disk)@[k]
            }),
        decreases N - i,
    {
        disk[offset + i] = data[i];
        i += 1;
    }
    assert(disk@ =~= overwrite(old(disk)@, offset as int, data@));
}

} // verus!
