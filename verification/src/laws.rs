//! What holds of the operations, proved over the model.

use vstd::prelude::*;
use crate::inode::{lemma_encode_decode, InodeView};
use crate::layout::{
    block_offset, inode_offset, BLOCK_SIZE, DATA_OFFSET, FREE_BLOCK_SIZE, IDXNODE_SIZE,
    IMAGE_SIZE, INODE_TABLE_OFFSET, MAX_FILE_BLOCKS, MAX_INODES, NAME_LEN,
};
use crate::lemmas::{
    lemma_first_match, lemma_first_match_some, lemma_free_indices,
    lemma_free_indices_update, lemma_names_contains,
    lemma_names_split, lemma_names_update, lemma_occurrences_add, lemma_occurrences_contains,
    lemma_occurrences_single,
};
use crate::state::{free_indices, names_in_use, occurrences, parse_image, FsError, FsState};

verus! {

/// The state says all there is in an image: two images that stand for the
/// same state hold the same bytes.
pub proof fn lemma_state_fixes_image(a: Seq<u8>, b: Seq<u8>)
    requires
        a.len() == IMAGE_SIZE,
        b.len() == IMAGE_SIZE,
        parse_image(a) == parse_image(b),
    ensures
        a == b,
{
    assert forall|i: int| 0 <= i < IMAGE_SIZE implies a[i] == b[i] by {
        if i < INODE_TABLE_OFFSET {
            assert(a[i] == parse_image(a).free[i]);
            assert(b[i] == parse_image(b).free[i]);
        } else if i < DATA_OFFSET {
            let slot = (i - INODE_TABLE_OFFSET) / (IDXNODE_SIZE as int);
            let at = (i - INODE_TABLE_OFFSET) % (IDXNODE_SIZE as int);
            let in_a = a.subrange(inode_offset(slot), inode_offset(slot) + IDXNODE_SIZE);
            let in_b = b.subrange(inode_offset(slot), inode_offset(slot) + IDXNODE_SIZE);
            assert(parse_image(a).inodes[slot] == InodeView::decode(in_a));
            assert(parse_image(b).inodes[slot] == InodeView::decode(in_b));
            lemma_encode_decode(in_a);
            lemma_encode_decode(in_b);
            assert(a[i] == in_a[at]);
            assert(b[i] == in_b[at]);
        } else {
            let block = (i - DATA_OFFSET) / (BLOCK_SIZE as int);
            let at = (i - DATA_OFFSET) % (BLOCK_SIZE as int);
            let in_a = a.subrange(block_offset(block), block_offset(block) + BLOCK_SIZE);
            let in_b = b.subrange(block_offset(block), block_offset(block) + BLOCK_SIZE);
            assert(parse_image(a).blocks[block] == in_a);
            assert(parse_image(b).blocks[block] == in_b);
            assert(a[i] == in_a[at]);
            assert(b[i] == in_b[at]);
        }
    }
    assert(a =~= b);
}

/// Writing a block keeps the state consistent.
pub proof fn lemma_write_keeps_wf(state: FsState, name: Seq<u8>, block_num: u8, data: Seq<u8>)
    requires
        state.wf(),
        data.len() == BLOCK_SIZE,
        state.write(name, block_num, data) is Ok,
    ensures
        state.write(name, block_num, data)->Ok_0.wf(),
{
    let after = state.write(name, block_num, data)->Ok_0;
    let file = state.lookup(name)->0;
    lemma_first_match(state.inodes, |n: InodeView| n.is_file(name));
    assert(state.holds(file, block_num as int));
    assert forall|slot: int, k: int| #[trigger] after.holds(slot, k) implies 1 <= after.pointer(
        slot,
        k,
    ) < FREE_BLOCK_SIZE && after.free[after.pointer(slot, k)] == 1 by {
        assert(state.holds(slot, k));
    }
    assert forall|b: int| 1 <= b < FREE_BLOCK_SIZE && #[trigger] after.free[b] == 1 implies exists|
        slot: int,
    | #[trigger] after.owns(slot, b) by {
        let slot = choose|slot: int| #[trigger] state.owns(slot, b);
        let k = choose|k: int| #[trigger] state.holds(slot, k) && state.pointer(slot, k) == b;
        assert(after.holds(slot, k));
        assert(after.owns(slot, b));
    }
    assert forall|s1: int, k1: int, s2: int, k2: int|
        #[trigger] after.holds(s1, k1) && #[trigger] after.holds(s2, k2) && after.pointer(s1, k1)
            == after.pointer(s2, k2) implies s1 == s2 && k1 == k2 by {
        assert(state.holds(s1, k1) && state.holds(s2, k2));
    }
}

/// Creating a file keeps the state consistent.
pub proof fn lemma_create_keeps_wf(state: FsState, name: Seq<u8>, size: u8)
    requires
        state.wf(),
        name.len() == NAME_LEN,
        state.create(name, size) is Ok,
    ensures
        state.create(name, size)->Ok_0.wf(),
{
    let after = state.create(name, size)->Ok_0;
    let slot = state.first_unused()->0;
    let picked = free_indices(state.free).take(size as int);
    lemma_first_match(state.inodes, |n: InodeView| n.used == 0);
    lemma_free_indices(state.free);
    assert(!state.inodes[slot].in_use());
    assert forall|k: int| 0 <= k < size implies 1 <= #[trigger] picked[k] < FREE_BLOCK_SIZE
        && state.free[picked[k]] == 0 && after.pointer(slot, k) == picked[k] by {
        assert(picked[k] == free_indices(state.free)[k]);
    }
    assert forall|s: int, k: int| #[trigger] after.holds(s, k) implies 1 <= after.pointer(s, k)
        < FREE_BLOCK_SIZE && after.free[after.pointer(s, k)] == 1 by {
        if s == slot {
            assert(picked.contains(picked[k]));
        } else {
            assert(state.holds(s, k));
        }
    }
    assert forall|b: int| 1 <= b < FREE_BLOCK_SIZE && #[trigger] after.free[b] == 1 implies exists|
        s: int,
    | #[trigger] after.owns(s, b) by {
        if picked.contains(b) {
            let k = choose|k: int| 0 <= k < picked.len() && picked[k] == b;
            assert(after.holds(slot, k));
            assert(after.owns(slot, b));
        } else {
            let s = choose|s: int| #[trigger] state.owns(s, b);
            let k = choose|k: int| #[trigger] state.holds(s, k) && state.pointer(s, k) == b;
            assert(after.holds(s, k));
            assert(after.owns(s, b));
        }
    }
    assert forall|s1: int, k1: int, s2: int, k2: int|
        #[trigger] after.holds(s1, k1) && #[trigger] after.holds(s2, k2) && after.pointer(s1, k1)
            == after.pointer(s2, k2) implies s1 == s2 && k1 == k2 by {
        if s1 == slot && s2 == slot {
            assert(picked[k1] == free_indices(state.free)[k1]);
            assert(picked[k2] == free_indices(state.free)[k2]);
        } else if s1 == slot {
            assert(state.holds(s2, k2));
        } else if s2 == slot {
            assert(state.holds(s1, k1));
        } else {
            assert(state.holds(s1, k1) && state.holds(s2, k2));
        }
    }
}

/// Deleting a file keeps the state consistent.
pub proof fn lemma_delete_keeps_wf(state: FsState, name: Seq<u8>)
    requires
        state.wf(),
        state.delete(name) is Ok,
    ensures
        state.delete(name)->Ok_0.wf(),
{
    let after = state.delete(name)->Ok_0;
    let slot = state.lookup(name)->0;
    lemma_first_match(state.inodes, |n: InodeView| n.is_file(name));
    assert(!state.owns(slot, 0)) by {
        if state.owns(slot, 0) {
            let k = choose|k: int| #[trigger] state.holds(slot, k) && state.pointer(slot, k) == 0;
            assert(state.holds(slot, k));
        }
    }
    assert forall|s: int, k: int| #[trigger] after.holds(s, k) implies 1 <= after.pointer(s, k)
        < FREE_BLOCK_SIZE && after.free[after.pointer(s, k)] == 1 by {
        assert(state.holds(s, k));
        if state.owns(slot, state.pointer(s, k)) {
            let j = choose|j: int| #[trigger]
                state.holds(slot, j) && state.pointer(slot, j) == state.pointer(s, k);
            assert(state.holds(slot, j));
        }
    }
    assert forall|b: int| 1 <= b < FREE_BLOCK_SIZE && #[trigger] after.free[b] == 1 implies exists|
        s: int,
    | #[trigger] after.owns(s, b) by {
        let s = choose|s: int| #[trigger] state.owns(s, b);
        let k = choose|k: int| #[trigger] state.holds(s, k) && state.pointer(s, k) == b;
        assert(after.holds(s, k));
        assert(after.owns(s, b));
    }
    assert forall|s1: int, k1: int, s2: int, k2: int|
        #[trigger] after.holds(s1, k1) && #[trigger] after.holds(s2, k2) && after.pointer(s1, k1)
            == after.pointer(s2, k2) implies s1 == s2 && k1 == k2 by {
        assert(state.holds(s1, k1) && state.holds(s2, k2));
    }
}

/// The flags after the first `k` of the blocks picked for a new file were
/// marked.
spec fn marked(free: Seq<u8>, picked: Seq<int>, k: int) -> Seq<u8> {
    Seq::new(
        free.len(),
        |b: int|
            if picked.take(k).contains(b) {
                1u8
            } else {
                free[b]
            },
    )
}

/// Marking `k` free blocks leaves `k` fewer free.
proof fn lemma_marked_count(free: Seq<u8>, picked: Seq<int>, k: int)
    requires
        0 <= k <= picked.len(),
        forall|j: int| 0 <= j < picked.len() ==> 0 <= #[trigger] picked[j] < free.len(),
        forall|j: int| 0 <= j < picked.len() ==> free[#[trigger] picked[j]] == 0,
        forall|i: int, j: int| 0 <= i < j < picked.len() ==> picked[i] < picked[j],
    ensures
        free_indices(marked(free, picked, k)).len() + k == free_indices(free).len(),
    decreases k,
{
    if k == 0 {
        assert(marked(free, picked, 0) =~= free);
    } else {
        lemma_marked_count(free, picked, k - 1);
        let before = marked(free, picked, k - 1);
        let block = picked[k - 1];
        let shorter = picked.take(k - 1);
        let longer = picked.take(k);
        assert(!shorter.contains(block)) by {
            if shorter.contains(block) {
                let j = choose|j: int| 0 <= j < shorter.len() && shorter[j] == block;
                assert(picked[j] < picked[k - 1]);
            }
        }
        assert(before[block] == 0);
        assert forall|b: int| 0 <= b < free.len() implies marked(free, picked, k)[b]
            == before.update(block, 1u8)[b] by {
            if longer.contains(b) {
                let j = choose|j: int| 0 <= j < longer.len() && longer[j] == b;
                if j < k - 1 {
                    assert(shorter[j] == b);
                }
            } else if shorter.contains(b) {
                let j = choose|j: int| 0 <= j < shorter.len() && shorter[j] == b;
                assert(longer[j] == b);
            } else if b == block {
                assert(longer[k - 1] == b);
            }
        }
        assert(marked(free, picked, k) =~= before.update(block, 1u8));
        lemma_free_indices_update(before, block, 1u8);
    }
}

/// A new file takes as many blocks from the free ones as its size says.
pub proof fn lemma_create_takes_blocks(state: FsState, name: Seq<u8>, size: u8)
    requires
        state.wf(),
        state.create(name, size) is Ok,
    ensures
        state.create(name, size)->Ok_0.free_count() + size == state.free_count(),
{
    let after = state.create(name, size)->Ok_0;
    let picked = free_indices(state.free).take(size as int);
    lemma_free_indices(state.free);
    lemma_marked_count(state.free, picked, size as int);
    assert(picked.take(size as int) =~= picked);
    assert(after.free =~= marked(state.free, picked, size as int));
}

/// The flags after the first `k` blocks of the file in `slot` were given up.
spec fn cleared(state: FsState, slot: int, k: int) -> Seq<u8> {
    Seq::new(
        state.free.len(),
        |b: int|
            if exists|j: int| 0 <= j < k && #[trigger] state.pointer(slot, j) == b {
                0u8
            } else {
                state.free[b]
            },
    )
}

/// Giving up `k` blocks of a file leaves `k` more free.
proof fn lemma_cleared_count(state: FsState, slot: int, k: int)
    requires
        state.wf(),
        0 <= slot < MAX_INODES,
        state.inodes[slot].in_use(),
        0 <= k <= state.inodes[slot].size,
    ensures
        free_indices(cleared(state, slot, k)).len() == free_indices(state.free).len() + k,
    decreases k,
{
    if k == 0 {
        assert(cleared(state, slot, 0) =~= state.free);
    } else {
        lemma_cleared_count(state, slot, k - 1);
        let before = cleared(state, slot, k - 1);
        let block = state.pointer(slot, k - 1);
        assert(state.holds(slot, k - 1));
        assert(before[block] == 1) by {
            if exists|j: int| 0 <= j < k - 1 && #[trigger] state.pointer(slot, j) == block {
                let j = choose|j: int| 0 <= j < k - 1 && #[trigger] state.pointer(slot, j) == block;
                assert(state.holds(slot, j));
            }
        }
        assert(cleared(state, slot, k) =~= before.update(block, 0u8)) by {
            assert forall|b: int| 0 <= b < state.free.len() implies cleared(state, slot, k)[b]
                == before.update(block, 0u8)[b] by {
                if exists|j: int| 0 <= j < k - 1 && #[trigger] state.pointer(slot, j) == b {
                    let j = choose|j: int| 0 <= j < k - 1 && #[trigger] state.pointer(slot, j) == b;
                    assert(0 <= j < k && state.pointer(slot, j) == b);
                }
                if exists|j: int| 0 <= j < k && #[trigger] state.pointer(slot, j) == b {
                    let j = choose|j: int| 0 <= j < k && #[trigger] state.pointer(slot, j) == b;
                    if j < k - 1 {
                        assert(0 <= j < k - 1 && state.pointer(slot, j) == b);
                    }
                }
            }
        }
        lemma_free_indices_update(before, block, 0u8);
    }
}

/// A deleted file gives back as many blocks as its size says.
pub proof fn lemma_delete_returns_blocks(state: FsState, name: Seq<u8>)
    requires
        state.wf(),
        state.delete(name) is Ok,
    ensures
        state.delete(name)->Ok_0.free_count() == state.free_count() + state.inodes[state.lookup(
            name,
        )->0].size,
{
    let after = state.delete(name)->Ok_0;
    let slot = state.lookup(name)->0;
    let size = state.inodes[slot].size as int;
    lemma_first_match(state.inodes, |n: InodeView| n.is_file(name));
    lemma_cleared_count(state, slot, size);
    assert forall|b: int| 0 <= b < FREE_BLOCK_SIZE implies after.free[b] == cleared(
        state,
        slot,
        size,
    )[b] by {
        if state.owns(slot, b) {
            let j = choose|j: int| #[trigger] state.holds(slot, j) && state.pointer(slot, j) == b;
            assert(0 <= j < size && state.pointer(slot, j) == b);
        }
        if exists|j: int| 0 <= j < size && #[trigger] state.pointer(slot, j) == b {
            let j = choose|j: int| 0 <= j < size && #[trigger] state.pointer(slot, j) == b;
            assert(state.holds(slot, j));
        }
    }
    assert(after.free =~= cleared(state, slot, size));
}

/// After a file was created, its name is listed once more than before, and
/// every other name as often as before.
pub proof fn lemma_create_adds_name(state: FsState, name: Seq<u8>, size: u8, other: Seq<u8>)
    requires
        state.wf(),
        state.create(name, size) is Ok,
    ensures
        occurrences(state.create(name, size)->Ok_0.list(), other) == occurrences(
            state.list(),
            other,
        ) + if other == name {
            1nat
        } else {
            0nat
        },
{
    let after = state.create(name, size)->Ok_0;
    let slot = state.first_unused()->0;
    lemma_first_match(state.inodes, |n: InodeView| n.used == 0);
    let front = names_in_use(state.inodes.take(slot));
    let back = names_in_use(state.inodes.skip(slot + 1));
    let nothing = Seq::<Seq<u8>>::empty();
    lemma_names_split(state.inodes, slot);
    lemma_names_update(state.inodes, slot, after.inodes[slot]);
    lemma_occurrences_single(name, other);
    lemma_occurrences_add(front, nothing, other);
    lemma_occurrences_add(front + nothing, back, other);
    lemma_occurrences_add(front, seq![name], other);
    lemma_occurrences_add(front + seq![name], back, other);
}

/// A file created under a name that no file had is listed exactly once, and
/// its stored size is the size asked for: it can be found, and its blocks
/// below that size, and no others, can be read.
///
/// The size must be 8 at most, enough blocks must be free and a slot unused.
pub proof fn lemma_create_then_list(state: FsState, name: Seq<u8>, size: u8)
    requires
        state.wf(),
        size <= MAX_FILE_BLOCKS,
        state.free_count() >= size,
        state.first_unused() is Some,
        !state.list().contains(name),
    ensures
        state.create(name, size) is Ok,
        occurrences(state.create(name, size)->Ok_0.list(), name) == 1,
        state.create(name, size)->Ok_0.lookup(name) is Some,
        state.create(name, size)->Ok_0.inodes[state.create(name, size)->Ok_0.lookup(
            name,
        )->0].size == size,
        forall|block_num: u8|
            state.create(name, size)->Ok_0.read(name, block_num) is Ok <==> block_num < size,
{
    let after = state.create(name, size)->Ok_0;
    let slot = state.first_unused()->0;
    lemma_first_match(state.inodes, |n: InodeView| n.used == 0);
    lemma_create_adds_name(state, name, size, name);
    lemma_occurrences_contains(state.list(), name);
    lemma_names_contains(state.inodes, name);
    let named = |n: InodeView| n.is_file(name);
    assert forall|j: int| 0 <= j < slot implies !named(#[trigger] after.inodes[j]) by {
        assert(after.inodes[j] == state.inodes[j]);
        assert(!state.inodes[j].is_file(name));
    }
    lemma_first_match_some(after.inodes, named, slot);
}

/// Asking for more than 8 blocks fails with `InvalidSize`, whatever the state.
pub proof fn lemma_create_invalid_size(state: FsState, name: Seq<u8>, size: u8)
    requires
        size > MAX_FILE_BLOCKS,
    ensures
        state.create(name, size) == Err::<FsState, FsError>(FsError::InvalidSize),
{
}

/// Asking for more blocks than are free, and for 8 at most, fails with
/// `InsufficientSpace`.
pub proof fn lemma_create_insufficient_space(state: FsState, name: Seq<u8>, size: u8)
    requires
        size <= MAX_FILE_BLOCKS,
        state.free_count() < size,
    ensures
        state.create(name, size) == Err::<FsState, FsError>(FsError::InsufficientSpace),
{
}

/// After a file was deleted, its name is listed once less than before, and
/// every other name as often as before.
pub proof fn lemma_delete_removes_name(state: FsState, name: Seq<u8>, other: Seq<u8>)
    requires
        state.wf(),
        state.delete(name) is Ok,
    ensures
        occurrences(state.delete(name)->Ok_0.list(), other) + (if other == name {
            1nat
        } else {
            0nat
        }) == occurrences(state.list(), other),
{
    let after = state.delete(name)->Ok_0;
    let slot = state.lookup(name)->0;
    lemma_first_match(state.inodes, |n: InodeView| n.is_file(name));
    let front = names_in_use(state.inodes.take(slot));
    let back = names_in_use(state.inodes.skip(slot + 1));
    let nothing = Seq::<Seq<u8>>::empty();
    lemma_names_split(state.inodes, slot);
    lemma_names_update(state.inodes, slot, after.inodes[slot]);
    lemma_occurrences_single(name, other);
    lemma_occurrences_add(front, nothing, other);
    lemma_occurrences_add(front + nothing, back, other);
    lemma_occurrences_add(front, seq![name], other);
    lemma_occurrences_add(front + seq![name], back, other);
}

/// After the only file of a name was deleted, the name is not listed any
/// more, and every block that the file held is free.
pub proof fn lemma_delete_then_list(state: FsState, name: Seq<u8>)
    requires
        state.wf(),
        occurrences(state.list(), name) == 1,
    ensures
        state.delete(name) is Ok,
        !state.delete(name)->Ok_0.list().contains(name),
        forall|b: int|
            0 <= b < FREE_BLOCK_SIZE && state.owns(state.lookup(name)->0, b) ==> state.delete(
                name,
            )->Ok_0.free[b] == 0,
{
    lemma_occurrences_contains(state.list(), name);
    lemma_names_contains(state.inodes, name);
    lemma_first_match(state.inodes, |n: InodeView| n.is_file(name));
    lemma_delete_removes_name(state, name, name);
    lemma_occurrences_contains(state.delete(name)->Ok_0.list(), name);
}

/// After any delete that succeeds, every block that the file held is free and
/// the flag of every other block is as it was.
pub proof fn lemma_delete_frees_blocks(state: FsState, name: Seq<u8>, b: int)
    requires
        state.wf(),
        state.delete(name) is Ok,
        0 <= b < FREE_BLOCK_SIZE,
    ensures
        state.delete(name)->Ok_0.free[b] == if state.owns(state.lookup(name)->0, b) {
            0u8
        } else {
            state.free[b]
        },
{
}

/// What was written to a block of a file is what reading that block returns.
pub proof fn lemma_write_then_read(state: FsState, name: Seq<u8>, block_num: u8, data: Seq<u8>)
    requires
        state.wf(),
        state.lookup(name) is Some,
        block_num < state.inodes[state.lookup(name)->0].size,
    ensures
        state.write(name, block_num, data) is Ok,
        state.write(name, block_num, data)->Ok_0.read(name, block_num) == Ok::<Seq<u8>, FsError>(
            data,
        ),
{
    let slot = state.lookup(name)->0;
    lemma_first_match(state.inodes, |n: InodeView| n.is_file(name));
    assert(state.holds(slot, block_num as int));
}

/// A write changes what one block of one file reads as, and nothing else: any
/// other block of that file, and any block of a file in another slot, reads
/// as before.
pub proof fn lemma_write_leaves_others(
    state: FsState,
    name: Seq<u8>,
    block_num: u8,
    data: Seq<u8>,
    other: Seq<u8>,
    other_block: u8,
)
    requires
        state.wf(),
        state.write(name, block_num, data) is Ok,
        state.lookup(other) != state.lookup(name) || other_block != block_num,
    ensures
        state.write(name, block_num, data)->Ok_0.read(other, other_block) == state.read(
            other,
            other_block,
        ),
{
    lemma_first_match(state.inodes, |n: InodeView| n.is_file(name));
    lemma_first_match(state.inodes, |n: InodeView| n.is_file(other));
    let slot = state.lookup(name)->0;
    assert(state.holds(slot, block_num as int));
    if state.read(other, other_block) is Ok {
        let other_slot = state.lookup(other)->0;
        assert(state.holds(other_slot, other_block as int));
    }
}

/// Reading at or past the size of a file fails with `OutOfRange`.
pub proof fn lemma_read_out_of_range(state: FsState, name: Seq<u8>, block_num: u8)
    requires
        state.lookup(name) is Some,
        block_num >= state.inodes[state.lookup(name)->0].size,
    ensures
        state.read(name, block_num) == Err::<Seq<u8>, FsError>(FsError::OutOfRange),
{
}

/// In a consistent state no block is held by the files of two slots.
pub proof fn lemma_files_share_no_block(state: FsState, slot: int, other: int, b: int)
    requires
        state.wf(),
        slot != other,
    ensures
        !(state.owns(slot, b) && state.owns(other, b)),
{
    if state.owns(slot, b) && state.owns(other, b) {
        let k1 = choose|k: int| #[trigger] state.holds(slot, k) && state.pointer(slot, k) == b;
        let k2 = choose|k: int| #[trigger] state.holds(other, k) && state.pointer(other, k) == b;
        assert(state.holds(slot, k1) && state.holds(other, k2));
    }
}

/// Two files created one after the other are given no block in common, and
/// the first keeps the blocks that it was given.
pub proof fn lemma_created_files_share_no_block(
    state: FsState,
    first: Seq<u8>,
    first_size: u8,
    second: Seq<u8>,
    second_size: u8,
    b: int,
)
    requires
        state.wf(),
        first.len() == NAME_LEN,
        state.create(first, first_size) is Ok,
        state.create(first, first_size)->Ok_0.create(second, second_size) is Ok,
    ensures
        ({
            let middle = state.create(first, first_size)->Ok_0;
            let after = middle.create(second, second_size)->Ok_0;
            let first_slot = state.first_unused()->0;
            let second_slot = middle.first_unused()->0;
            &&& first_slot != second_slot
            &&& after.owns(first_slot, b) == middle.owns(first_slot, b)
            &&& !(after.owns(first_slot, b) && after.owns(second_slot, b))
        }),
{
    let middle = state.create(first, first_size)->Ok_0;
    let after = middle.create(second, second_size)->Ok_0;
    let first_slot = state.first_unused()->0;
    let second_slot = middle.first_unused()->0;
    lemma_create_keeps_wf(state, first, first_size);
    lemma_first_match(state.inodes, |n: InodeView| n.used == 0);
    lemma_first_match(middle.inodes, |n: InodeView| n.used == 0);
    lemma_free_indices(middle.free);
    let picked = free_indices(middle.free).take(second_size as int);
    if middle.owns(first_slot, b) {
        let k = choose|k: int| #[trigger]
            middle.holds(first_slot, k) && middle.pointer(first_slot, k) == b;
        assert(after.holds(first_slot, k));
    }
    if after.owns(first_slot, b) {
        let k = choose|k: int| #[trigger]
            after.holds(first_slot, k) && after.pointer(first_slot, k) == b;
        assert(middle.holds(first_slot, k));
        if after.owns(second_slot, b) {
            let j = choose|j: int| #[trigger]
                after.holds(second_slot, j) && after.pointer(second_slot, j) == b;
            assert(picked[j] == free_indices(middle.free)[j]);
        }
    }
}

} // verus!
