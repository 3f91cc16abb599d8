//! Deciding whether a region of bytes is a consistent filesystem image.

use vstd::prelude::*;
use crate::disk::read_at;
use crate::inode::IDXNode;
use crate::layout::{
    FREE_BLOCK_SIZE, IDXNODE_SIZE, IMAGE_SIZE, INODE_TABLE_OFFSET, MAX_FILE_BLOCKS, MAX_INODES,
};
use crate::state::{is_image, parse_image, FsState};

verus! {

/// Entry `k1` of slot `s1` is meaningful and comes before entry `k` of `slot`
/// in the order in which the table is walked.
spec fn walked(state: FsState, slot: int, k: int, s1: int, k1: int) -> bool {
    state.holds(s1, k1) && (s1 < slot || (s1 == slot && k1 < k))
}

/// What is known of the entries walked so far: each points at an allocated
/// block other than block 0, no two point at the same block, and `held` marks
/// exactly the blocks they point at.
spec fn walk_ok(state: FsState, held: Seq<u8>, slot: int, k: int) -> bool {
    &&& held.len() == FREE_BLOCK_SIZE
    &&& forall|s1: int, k1: int| #[trigger]
        walked(state, slot, k, s1, k1) ==> 1 <= state.pointer(s1, k1) < FREE_BLOCK_SIZE
            && state.free[state.pointer(s1, k1)] == 1
    &&& forall|b: int|
        0 <= b < FREE_BLOCK_SIZE ==> (#[trigger] held[b]) <= 1 && (held[b] == 1 <==> exists|
            s1: int,
            k1: int,
        | #[trigger] walked(state, slot, k, s1, k1) && state.pointer(s1, k1) == b)
    &&& forall|s1: int, k1: int, s2: int, k2: int|
        #[trigger] walked(state, slot, k, s1, k1) && #[trigger] walked(state, slot, k, s2, k2)
            && state.pointer(s1, k1) == state.pointer(s2, k2) ==> s1 == s2 && k1 == k2
}

/// Whether `disk` holds a consistent filesystem image.
pub fn is_valid_image(disk: &Vec<u8>) -> (valid: bool)
    ensures
        valid == is_image(disk@),
{
    if disk.len() != IMAGE_SIZE {
        return false;
    }
    let ghost state = parse_image(disk@);
    let free_block_list: [u8; FREE_BLOCK_SIZE] = read_at(disk, 0);
    if free_block_list[0] != 1 {
        return false;
    }
    let mut b: usize = 0;
    while b < FREE_BLOCK_SIZE
        invariant
            b <= FREE_BLOCK_SIZE,
            state == parse_image(disk@),
            free_block_list@ == state.free,
            forall|j: int| 0 <= j < b ==> #[trigger] state.free[j] <= 1,
        decreases FREE_BLOCK_SIZE - b,
    {
        if free_block_list[b] > 1 {
            return false;
        }
        b += 1;
    }
    let mut held: [u8; FREE_BLOCK_SIZE] = [0u8; FREE_BLOCK_SIZE];
    let mut slot: usize = 0;
    while slot < MAX_INODES
        invariant
            slot <= MAX_INODES,
            disk@.len() == IMAGE_SIZE,
            state == parse_image(disk@),
            free_block_list@ == state.free,
            forall|s: int|
                0 <= s < slot ==> (#[trigger] state.inodes[s]).used <= 1 && (
                state.inodes[s].in_use() ==> state.inodes[s].size <= MAX_FILE_BLOCKS),
            walk_ok(state, held@, slot as int, 0),
        decreases MAX_INODES - slot,
    {
        let buffer: [u8; IDXNODE_SIZE] = read_at(disk, INODE_TABLE_OFFSET + IDXNODE_SIZE * slot);
        let inode = IDXNode::decode(&buffer);
        assert(inode@ == state.inodes[slot as int]);
        if inode.used > 1 {
            return false;
        }
        if inode.used == 1 {
            if inode.size as usize > MAX_FILE_BLOCKS {
                return false;
            }
            let mut k: usize = 0;
            while k < inode.size as usize
                invariant
                    k <= inode.size,
                    inode.size <= MAX_FILE_BLOCKS,
                    slot < MAX_INODES,
                    inode@ == state.inodes[slot as int],
                    inode.used == 1,
                    state == parse_image(disk@),
                    free_block_list@ == state.free,
                    state.shaped(),
                    walk_ok(state, held@, slot as int, k as int),
                decreases inode.size - k,
            {
                let block = inode.block_pointers[k] as usize;
                assert(state.holds(slot as int, k as int));
                assert(state.pointer(slot as int, k as int) == block);
                if block == 0 || block >= FREE_BLOCK_SIZE {
                    return false;
                }
                if free_block_list[block] != 1 {
                    return false;
                }
                if held[block] != 0 {
                    proof {
                        let (s1, k1) = choose|s1: int, k1: int| #[trigger]
                            walked(state, slot as int, k as int, s1, k1) && state.pointer(s1, k1)
                                == block;
                        assert(state.holds(s1, k1) && state.holds(slot as int, k as int));
                    }
                    return false;
                }
                let ghost before = held@;
                held[block] = 1;
                proof {
                    let s = slot as int;
                    assert forall|s1: int, k1: int| #[trigger]
                        walked(state, s, k + 1, s1, k1) implies walked(state, s, k as int, s1, k1)
                        || (s1 == s && k1 == k) by {}
                    assert(walked(state, s, k + 1, s, k as int));
                    assert forall|j: int| 0 <= j < FREE_BLOCK_SIZE implies (#[trigger] held@[j])
                        <= 1 && (held@[j] == 1 <==> exists|s1: int, k1: int| #[trigger]
                        walked(state, s, k + 1, s1, k1) && state.pointer(s1, k1) == j) by {
                        if j != block && before[j] == 1 {
                            let (s1, k1) = choose|s1: int, k1: int| #[trigger]
                                walked(state, s, k as int, s1, k1) && state.pointer(s1, k1) == j;
                            assert(walked(state, s, k + 1, s1, k1));
                        }
                    }
                }
                k += 1;
            }
        }
        proof {
            let s = slot as int;
            let k = if inode.used == 1 {
                inode.size as int
            } else {
                0
            };
            assert(walk_ok(state, held@, s, k));
            assert forall|s1: int, k1: int| #[trigger]
                walked(state, s + 1, 0, s1, k1) implies walked(state, s, k, s1, k1) by {}
            assert forall|j: int| 0 <= j < FREE_BLOCK_SIZE implies (#[trigger] held@[j]) <= 1 && (
            held@[j] == 1 <==> exists|s1: int, k1: int| #[trigger]
                walked(state, s + 1, 0, s1, k1) && state.pointer(s1, k1) == j) by {
                if held@[j] == 1 {
                    let (s1, k1) = choose|s1: int, k1: int| #[trigger]
                        walked(state, s, k, s1, k1) && state.pointer(s1, k1) == j;
                    assert(walked(state, s + 1, 0, s1, k1));
                }
            }
        }
        slot += 1;
    }
    let mut b: usize = 1;
    while b < FREE_BLOCK_SIZE
        invariant
            1 <= b <= FREE_BLOCK_SIZE,
            state == parse_image(disk@),
            free_block_list@ == state.free,
            walk_ok(state, held@, MAX_INODES as int, 0),
            forall|j: int|
                1 <= j < b && #[trigger] state.free[j] == 1 ==> exists|s: int| #[trigger]
                    state.owns(s, j),
        decreases FREE_BLOCK_SIZE - b,
    {
        if free_block_list[b] == 1 && held[b] == 0 {
            proof {
                if exists|s: int| #[trigger] state.owns(s, b as int) {
                    let s = choose|s: int| #[trigger] state.owns(s, b as int);
                    let k = choose|k: int| #[trigger]
                        state.holds(s, k) && state.pointer(s, k) == b;
                    assert(walked(state, MAX_INODES as int, 0, s, k));
                }
            }
            return false;
        }
        proof {
            if state.free[b as int] == 1 {
                let (s1, k1) = choose|s1: int, k1: int| #[trigger]
                    walked(state, MAX_INODES as int, 0, s1, k1) && state.pointer(s1, k1) == b;
                assert(state.holds(s1, k1));
                assert(state.owns(s1, b as int));
            }
        }
        b += 1;
    }
    proof {
        assert forall|s: int, k: int| #[trigger] state.holds(s, k) implies walked(
            state,
            MAX_INODES as int,
            0,
            s,
            k,
        ) by {}
    }
    true
}

} // verus!
