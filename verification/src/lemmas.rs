//! Facts about the model that the proofs of the operations rest on.

use vstd::prelude::*;
use crate::disk::overwrite;
use crate::inode::InodeView;
use crate::layout::{
    block_offset, inode_offset, BLOCK_SIZE, FREE_BLOCK_SIZE, IDXNODE_SIZE, IMAGE_SIZE, MAX_INODES,
};
use crate::state::{
    first_match, free_indices, is_first, is_name, names_in_use, occurrences, parse_image,
    FsState,
};

verus! {

/// The free indices are in range, point at flags that are 0, ascend strictly,
/// and leave out no flag that is 0.
pub proof fn lemma_free_indices(free: Seq<u8>)
    ensures
        free_indices(free).len() <= free.len(),
        forall|k: int|
            0 <= k < free_indices(free).len() ==> 0 <= (#[trigger] free_indices(free)[k])
                < free.len() && free[free_indices(free)[k]] == 0,
        forall|j: int, k: int|
            0 <= j < k < free_indices(free).len() ==> free_indices(free)[j] < free_indices(
                free,
            )[k],
        forall|i: int|
            0 <= i < free.len() && free[i] == 0 ==> #[trigger] free_indices(free).contains(i),
    decreases free.len(),
{
    if free.len() > 0 {
        let shorter = free.drop_last();
        lemma_free_indices(shorter);
        let before = free_indices(shorter);
        let all = free_indices(free);
        assert forall|i: int| 0 <= i < free.len() && free[i] == 0 implies all.contains(i) by {
            if i < free.len() - 1 {
                assert(shorter[i] == 0);
                assert(before.contains(i));
                let k = choose|k: int| 0 <= k < before.len() && before[k] == i;
                assert(all[k] == i);
            } else {
                assert(all[all.len() - 1] == i);
            }
        }
    }
}

/// The free indices of a prefix of the flags are a prefix of the free indices.
pub proof fn lemma_free_indices_take(free: Seq<u8>, n: int)
    requires
        0 <= n <= free.len(),
    ensures
        free_indices(free.take(n)).len() <= free_indices(free).len(),
        free_indices(free.take(n)) == free_indices(free).take(
            free_indices(free.take(n)).len() as int,
        ),
    decreases free.len(),
{
    if n == free.len() {
        assert(free.take(n) =~= free);
        assert(free_indices(free).take(free_indices(free).len() as int) =~= free_indices(free));
    } else {
        let shorter = free.drop_last();
        assert(shorter.take(n) =~= free.take(n));
        lemma_free_indices_take(shorter, n);
        let part = free_indices(free.take(n));
        assert(part =~= free_indices(free).take(part.len() as int));
    }
}

/// Taking one more flag adds its index when the flag is 0, and nothing else.
pub proof fn lemma_free_indices_step(free: Seq<u8>, n: int)
    requires
        0 <= n < free.len(),
    ensures
        free_indices(free.take(n + 1)) == if free[n] == 0 {
            free_indices(free.take(n)).push(n)
        } else {
            free_indices(free.take(n))
        },
{
    assert(free.take(n + 1).drop_last() =~= free.take(n));
}

/// Changing one flag changes the number of free indices by one at most: it
/// goes down where a flag that was 0 is set, up where a flag is cleared that
/// was not 0, and stays where the flag keeps its kind.
pub proof fn lemma_free_indices_update(free: Seq<u8>, i: int, flag: u8)
    requires
        0 <= i < free.len(),
    ensures
        free_indices(free.update(i, flag)).len() == free_indices(free).len() + (if flag == 0 {
            1int
        } else {
            0int
        }) - (if free[i] == 0 {
            1int
        } else {
            0int
        }),
    decreases free.len(),
{
    let changed = free.update(i, flag);
    if i == free.len() - 1 {
        assert(changed.drop_last() =~= free.drop_last());
    } else {
        lemma_free_indices_update(free.drop_last(), i, flag);
        assert(changed.drop_last() =~= free.drop_last().update(i, flag));
    }
}

/// A slot that is the first match is the one that `first_match` gives.
pub proof fn lemma_first_match_some(
    inodes: Seq<InodeView>,
    pred: spec_fn(InodeView) -> bool,
    slot: int,
)
    requires
        is_first(inodes, pred, slot),
    ensures
        first_match(inodes, pred) == Some(slot),
{
    let chosen = choose|s: int| is_first(inodes, pred, s);
    assert(is_first(inodes, pred, chosen));
    if chosen < slot {
        assert(!pred(inodes[chosen]));
    } else if slot < chosen {
        assert(!pred(inodes[slot]));
    }
}

/// Where a record below `bound` matches, some slot is the first match.
proof fn lemma_least_match(inodes: Seq<InodeView>, pred: spec_fn(InodeView) -> bool, bound: int)
    requires
        0 <= bound <= inodes.len(),
        exists|j: int| 0 <= j < bound && pred(#[trigger] inodes[j]),
    ensures
        exists|slot: int| is_first(inodes, pred, slot),
    decreases bound,
{
    if exists|j: int| 0 <= j < bound - 1 && pred(#[trigger] inodes[j]) {
        lemma_least_match(inodes, pred, bound - 1);
    } else {
        assert(pred(inodes[bound - 1]));
        assert(is_first(inodes, pred, bound - 1));
    }
}

/// `first_match` gives nothing exactly when no record matches, and what it
/// gives is the first match.
pub proof fn lemma_first_match(inodes: Seq<InodeView>, pred: spec_fn(InodeView) -> bool)
    ensures
        first_match(inodes, pred) is None <==> forall|j: int|
            0 <= j < inodes.len() ==> !pred(#[trigger] inodes[j]),
        first_match(inodes, pred) matches Some(slot) ==> is_first(inodes, pred, slot),
{
    if exists|j: int| 0 <= j < inodes.len() && pred(#[trigger] inodes[j]) {
        lemma_least_match(inodes, pred, inodes.len() as int);
    }
}

/// The names of a record sequence with one more record at its end.
pub proof fn lemma_names_push(inodes: Seq<InodeView>, last: InodeView)
    ensures
        names_in_use(inodes.push(last)) == if last.in_use() {
            names_in_use(inodes).push(last.name)
        } else {
            names_in_use(inodes)
        },
{
    let in_use = |n: InodeView| n.in_use();
    let name_of = |n: InodeView| n.name;
    inodes.lemma_filter_push(last, in_use);
    if last.in_use() {
        assert(inodes.filter(in_use).push(last).map_values(name_of) =~= inodes.filter(
            in_use,
        ).map_values(name_of).push(last.name));
    }
}

/// No record, no name.
pub proof fn lemma_names_empty()
    ensures
        names_in_use(Seq::<InodeView>::empty()) == Seq::<Seq<u8>>::empty(),
{
    reveal(Seq::filter);
    assert(names_in_use(Seq::<InodeView>::empty()) =~= Seq::<Seq<u8>>::empty());
}

/// The names of two record sequences, one after the other.
pub proof fn lemma_names_add(front: Seq<InodeView>, back: Seq<InodeView>)
    ensures
        names_in_use(front + back) == names_in_use(front) + names_in_use(back),
{
    let in_use = |n: InodeView| n.in_use();
    let name_of = |n: InodeView| n.name;
    Seq::filter_distributes_over_add(front, back, in_use);
    assert((front.filter(in_use) + back.filter(in_use)).map_values(name_of) =~= front.filter(
        in_use,
    ).map_values(name_of) + back.filter(in_use).map_values(name_of));
}

/// The names of a record sequence, parted at `slot`: those before it, its
/// own if it is in use, those after it.
pub proof fn lemma_names_split(inodes: Seq<InodeView>, slot: int)
    requires
        0 <= slot < inodes.len(),
    ensures
        names_in_use(inodes) == names_in_use(inodes.take(slot)) + (if inodes[slot].in_use() {
            seq![inodes[slot].name]
        } else {
            Seq::<Seq<u8>>::empty()
        }) + names_in_use(inodes.skip(slot + 1)),
{
    let front = inodes.take(slot);
    let back = inodes.skip(slot + 1);
    assert(inodes =~= front.push(inodes[slot]) + back);
    lemma_names_add(front.push(inodes[slot]), back);
    lemma_names_push(front, inodes[slot]);
    if inodes[slot].in_use() {
        assert(names_in_use(front).push(inodes[slot].name) =~= names_in_use(front)
            + seq![inodes[slot].name]);
    } else {
        assert(names_in_use(front) =~= names_in_use(front) + Seq::<Seq<u8>>::empty());
    }
}

/// The names after the record in `slot` was replaced: those before it, the
/// new record's own if it is in use, those after it.
pub proof fn lemma_names_update(inodes: Seq<InodeView>, slot: int, record: InodeView)
    requires
        0 <= slot < inodes.len(),
    ensures
        names_in_use(inodes.update(slot, record)) == names_in_use(inodes.take(slot)) + (
        if record.in_use() {
            seq![record.name]
        } else {
            Seq::<Seq<u8>>::empty()
        }) + names_in_use(inodes.skip(slot + 1)),
{
    let after = inodes.update(slot, record);
    lemma_names_split(after, slot);
    assert(after.take(slot) =~= inodes.take(slot));
    assert(after.skip(slot + 1) =~= inodes.skip(slot + 1));
}

/// A name is listed exactly when a record in use has it.
pub proof fn lemma_names_contains(inodes: Seq<InodeView>, name: Seq<u8>)
    ensures
        names_in_use(inodes).contains(name) <==> exists|j: int|
            0 <= j < inodes.len() && (#[trigger] inodes[j]).is_file(name),
{
    let in_use = |n: InodeView| n.in_use();
    let kept = inodes.filter(in_use);
    let names = names_in_use(inodes);
    if names.contains(name) {
        let i = choose|i: int| 0 <= i < names.len() && names[i] == name;
        inodes.lemma_filter_pred(in_use, i);
        assert(kept.contains(kept[i]));
        inodes.lemma_filter_contains_rev(in_use, kept[i]);
        let j = choose|j: int| 0 <= j < inodes.len() && inodes[j] == kept[i];
        assert(inodes[j].is_file(name));
    }
    if exists|j: int| 0 <= j < inodes.len() && (#[trigger] inodes[j]).is_file(name) {
        let j = choose|j: int| 0 <= j < inodes.len() && (#[trigger] inodes[j]).is_file(name);
        inodes.lemma_filter_contains(in_use, j);
        let i = choose|i: int| 0 <= i < kept.len() && kept[i] == inodes[j];
        assert(names[i] == name);
    }
}

/// Occurrences add up over the parts of a sequence of names.
pub proof fn lemma_occurrences_add(front: Seq<Seq<u8>>, back: Seq<Seq<u8>>, name: Seq<u8>)
    ensures
        occurrences(front + back, name) == occurrences(front, name) + occurrences(back, name),
{
    Seq::filter_distributes_over_add(front, back, is_name(name));
}

/// In a sequence of one name, that name occurs once and no other does.
pub proof fn lemma_occurrences_single(only: Seq<u8>, name: Seq<u8>)
    ensures
        occurrences(seq![only], name) == if only == name {
            1nat
        } else {
            0nat
        },
        occurrences(Seq::<Seq<u8>>::empty(), name) == 0,
{
    reveal(Seq::filter);
    let same = is_name(name);
    let nothing = Seq::<Seq<u8>>::empty();
    assert(nothing.filter(same) =~= nothing);
    nothing.lemma_filter_push(only, same);
    assert(seq![only] =~= nothing.push(only));
}

/// A name occurs in a sequence of names exactly when its occurrences are not 0.
pub proof fn lemma_occurrences_contains(names: Seq<Seq<u8>>, name: Seq<u8>)
    ensures
        names.contains(name) <==> occurrences(names, name) > 0,
{
    let same = is_name(name);
    let kept = names.filter(same);
    if names.contains(name) {
        let j = choose|j: int| 0 <= j < names.len() && names[j] == name;
        names.lemma_filter_contains(same, j);
    }
    if kept.len() > 0 {
        names.lemma_filter_pred(same, 0);
        names.lemma_filter_contains_rev(same, kept[0]);
    }
}

/// Overwriting the free block list changes that region and no other.
pub proof fn lemma_overwrite_free(image: Seq<u8>, flags: Seq<u8>)
    requires
        image.len() == IMAGE_SIZE,
        flags.len() == FREE_BLOCK_SIZE,
    ensures
        parse_image(overwrite(image, 0, flags)) == (FsState {
            free: flags,
            inodes: parse_image(image).inodes,
            blocks: parse_image(image).blocks,
        }),
{
    let after = overwrite(image, 0, flags);
    assert(parse_image(after).free =~= flags);
    assert forall|slot: int| 0 <= slot < MAX_INODES implies parse_image(after).inodes[slot]
        == parse_image(image).inodes[slot] by {
        assert(after.subrange(inode_offset(slot), inode_offset(slot) + IDXNODE_SIZE)
            =~= image.subrange(inode_offset(slot), inode_offset(slot) + IDXNODE_SIZE));
    }
    assert(parse_image(after).inodes =~= parse_image(image).inodes);
    assert forall|b: int| 0 <= b < FREE_BLOCK_SIZE implies parse_image(after).blocks[b]
        == parse_image(image).blocks[b] by {
        assert(after.subrange(block_offset(b), block_offset(b) + BLOCK_SIZE) =~= image.subrange(
            block_offset(b),
            block_offset(b) + BLOCK_SIZE,
        ));
    }
    assert(parse_image(after).blocks =~= parse_image(image).blocks);
}

/// Overwriting one inode record changes that record and nothing else.
pub proof fn lemma_overwrite_inode(image: Seq<u8>, slot: int, record: Seq<u8>)
    requires
        image.len() == IMAGE_SIZE,
        0 <= slot < MAX_INODES,
        record.len() == IDXNODE_SIZE,
    ensures
        parse_image(overwrite(image, inode_offset(slot), record)) == (FsState {
            free: parse_image(image).free,
            inodes: parse_image(image).inodes.update(slot, InodeView::decode(record)),
            blocks: parse_image(image).blocks,
        }),
{
    let after = overwrite(image, inode_offset(slot), record);
    assert(parse_image(after).free =~= parse_image(image).free);
    assert forall|s: int| 0 <= s < MAX_INODES implies parse_image(after).inodes[s] == parse_image(
        image,
    ).inodes.update(slot, InodeView::decode(record))[s] by {
        if s == slot {
            assert(after.subrange(inode_offset(s), inode_offset(s) + IDXNODE_SIZE) =~= record);
        } else {
            assert(after.subrange(inode_offset(s), inode_offset(s) + IDXNODE_SIZE)
                =~= image.subrange(inode_offset(s), inode_offset(s) + IDXNODE_SIZE));
        }
    }
    assert(parse_image(after).inodes =~= parse_image(image).inodes.update(
        slot,
        InodeView::decode(record),
    ));
    assert forall|b: int| 0 <= b < FREE_BLOCK_SIZE implies parse_image(after).blocks[b]
        == parse_image(image).blocks[b] by {
        assert(after.subrange(block_offset(b), block_offset(b) + BLOCK_SIZE) =~= image.subrange(
            block_offset(b),
            block_offset(b) + BLOCK_SIZE,
        ));
    }
    assert(parse_image(after).blocks =~= parse_image(image).blocks);
}

/// Overwriting one data block changes that block and nothing else.
pub proof fn lemma_overwrite_block(image: Seq<u8>, block: int, data: Seq<u8>)
    requires
        image.len() == IMAGE_SIZE,
        0 <= block < FREE_BLOCK_SIZE,
        data.len() == BLOCK_SIZE,
    ensures
        parse_image(overwrite(image, block_offset(block), data)) == (FsState {
            free: parse_image(image).free,
            inodes: parse_image(image).inodes,
            blocks: parse_image(image).blocks.update(block, data),
        }),
{
    let after = overwrite(image, block_offset(block), data);
    assert(parse_image(after).free =~= parse_image(image).free);
    assert forall|s: int| 0 <= s < MAX_INODES implies parse_image(after).inodes[s] == parse_image(
        image,
    ).inodes[s] by {
        assert(after.subrange(inode_offset(s), inode_offset(s) + IDXNODE_SIZE) =~= image.subrange(
            inode_offset(s),
            inode_offset(s) + IDXNODE_SIZE,
        ));
    }
    assert(parse_image(after).inodes =~= parse_image(image).inodes);
    assert forall|b: int| 0 <= b < FREE_BLOCK_SIZE implies parse_image(after).blocks[b]
        == parse_image(image).blocks.update(block, data)[b] by {
        if b == block {
            assert(after.subrange(block_offset(b), block_offset(b) + BLOCK_SIZE) =~= data);
        } else {
            assert(after.subrange(block_offset(b), block_offset(b) + BLOCK_SIZE)
                =~= image.subrange(block_offset(b), block_offset(b) + BLOCK_SIZE));
        }
    }
    assert(parse_image(after).blocks =~= parse_image(image).blocks.update(block, data));
}

} // verus!
