//! Formatting: the bytes of an empty filesystem.

use vstd::prelude::*;
use crate::inode::InodeView;
use crate::layout::{FREE_BLOCK_SIZE, IMAGE_SIZE};
use crate::state::{blank_image, free_indices, is_image, parse_image};

verus! {

/// Among the first `n` flags of a blank image all but the first are free.
proof fn lemma_blank_free_indices(n: int)
    requires
        1 <= n <= FREE_BLOCK_SIZE,
    ensures
        free_indices(parse_image(blank_image()).free.take(n)).len() == n - 1,
    decreases n,
{
    let free = parse_image(blank_image()).free;
    if n == 1 {
        assert(free.take(1).drop_last() =~= Seq::<u8>::empty());
        assert(free_indices(free.take(1).drop_last()).len() == 0);
    } else {
        lemma_blank_free_indices(n - 1);
        assert(free.take(n).drop_last() =~= free.take(n - 1));
    }
}

/// A blank image is a filesystem image without files, with every block free
/// but the reserved block 0.
pub proof fn lemma_blank_image()
    ensures
        is_image(blank_image()),
        parse_image(blank_image()).list() == Seq::<Seq<u8>>::empty(),
        parse_image(blank_image()).free_count() == FREE_BLOCK_SIZE - 1,
{
    let state = parse_image(blank_image());
    assert forall|slot: int, k: int| !#[trigger] state.holds(slot, k) by {
        if 0 <= slot < 16 {
            assert(state.inodes[slot].used == 0);
        }
    }
    assert forall|b: int| 1 <= b < FREE_BLOCK_SIZE implies #[trigger] state.free[b] == 0 by {}
    assert(state.wf());
    lemma_blank_free_indices(FREE_BLOCK_SIZE as int);
    assert(state.free.take(FREE_BLOCK_SIZE as int) =~= state.free);
    let in_use = |n: InodeView| n.in_use();
    let kept = state.inodes.filter(in_use);
    if kept.len() > 0 {
        state.inodes.lemma_filter_pred(in_use, 0);
        state.inodes.lemma_filter_contains_rev(in_use, kept[0]);
        let j = choose|j: int| 0 <= j < state.inodes.len() && state.inodes[j] == kept[0];
        assert(state.inodes[j].used == 0);
    }
    assert(state.list() =~= Seq::<Seq<u8>>::empty());
}

/// Makes the bytes of a blank image: all zero, but for the flag of the
/// reserved block 0, which is 1.
pub fn format_disk() -> (disk: Vec<u8>)
    ensures
        disk@ == blank_image(),
        is_image(disk@),
{
    let mut disk: Vec<u8> = Vec::new();
    disk.push(1u8);
    let mut i: usize = 1;
    while i < IMAGE_SIZE
        invariant
            1 <= i <= IMAGE_SIZE,
            disk@.len() == i,
            disk@[0] == 1,
            forall|j: int| 1 <= j < i ==> disk@[j] == 0,
        decreases IMAGE_SIZE - i,
    {
        disk.push(0u8);
        i += 1;
    }
    proof {
        assert(disk@ =~= blank_image());
        lemma_blank_image();
    }
    disk
}

} // verus!
