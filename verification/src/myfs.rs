//! The filesystem engine.
//!
//! A [`MyFileSystem`] owns the bytes of one disk image. Every operation reads
//! what it needs from the image, decides, and writes the changed regions back
//! in full; nothing is cached between calls. A call that fails leaves the
//! image untouched.

use vstd::prelude::*;
pub use crate::layout::BLOCK_SIZE;
pub use crate::state::FsError;
use crate::disk::{read_at, write_at};
use crate::inode::{lemma_decode_encode, IDXNode, InodeView};
use crate::layout::{
    DATA_OFFSET, FREE_BLOCK_SIZE, IDXNODE_SIZE, IMAGE_SIZE, INODE_TABLE_OFFSET,
    MAX_FILE_BLOCKS, MAX_INODES, NAME_LEN,
};
use crate::laws::{lemma_create_keeps_wf, lemma_delete_keeps_wf, lemma_write_keeps_wf};
use crate::lemmas::{
    lemma_first_match, lemma_first_match_some, lemma_free_indices, lemma_free_indices_step,
    lemma_free_indices_take, lemma_names_empty, lemma_names_push, lemma_overwrite_block,
    lemma_overwrite_free, lemma_overwrite_inode,
};
use crate::state::{free_indices, is_first, is_image, names_in_use, parse_image, FsState};
use crate::validate::is_valid_image;

verus! {

/// A filesystem over the bytes of one disk image.
pub struct MyFileSystem {
    disk: Vec<u8>,
}

impl View for MyFileSystem {
    type V = FsState;

    /// The state that the image stands for.
    open spec fn view(&self) -> FsState {
        parse_image(self.image())
    }
}

/// Whether two name fields hold the same bytes.
pub fn same_name(a: &[u8; NAME_LEN], b: &[u8; NAME_LEN]) -> (same: bool)
    ensures
        same == (a@ == b@),
{
    let mut i: usize = 0;
    while i < NAME_LEN
        invariant
            i <= NAME_LEN,
            forall|k: int| 0 <= k < i ==> a@[k] == b@[k],
        decreases NAME_LEN - i,
    {
        if a[i] != b[i] {
            return false;
        }
        i += 1;
    }
    assert(a@ =~= b@);
    true
}

/// Counts the flags that are 0.
pub fn count_free(free_block_list: &[u8; FREE_BLOCK_SIZE]) -> (available_blocks: usize)
    ensures
        available_blocks == free_indices(free_block_list@).len(),
{
    let mut available_blocks: usize = 0;
    let mut i: usize = 0;
    assert(free_block_list@.take(0) =~= Seq::<u8>::empty());
    while i < FREE_BLOCK_SIZE
        invariant
            i <= FREE_BLOCK_SIZE,
            available_blocks <= i,
            available_blocks == free_indices(free_block_list@.take(i as int)).len(),
        decreases FREE_BLOCK_SIZE - i,
    {
        proof {
            lemma_free_indices_step(free_block_list@, i as int);
        }
        if free_block_list[i] == 0 {
            available_blocks += 1;
        }
        i += 1;
    }
    assert(free_block_list@.take(FREE_BLOCK_SIZE as int) =~= free_block_list@);
    available_blocks
}

impl MyFileSystem {
    /// The bytes of the image.
    pub closed spec fn image(&self) -> Seq<u8> {
        self.disk@
    }

    /// The image has its full length and its state is consistent. This holds
    /// of every filesystem at all times: `new` refuses other bytes and every
    /// operation keeps it.
    #[verifier::type_invariant]
    pub open spec fn wf(&self) -> bool {
        is_image(self.image())
    }

    /// Opens a filesystem on the bytes of a disk image. Bytes that are not a
    /// consistent image are refused.
    pub fn new(disk: Vec<u8>) -> (res: Result<MyFileSystem, FsError>)
        ensures
            match res {
                Ok(fs) => is_image(disk@) && fs.image() == disk@,
                Err(e) => e == FsError::OpenError && !is_image(disk@),
            },
    {
        if is_valid_image(&disk) {
            Ok(MyFileSystem { disk })
        } else {
            Err(FsError::OpenError)
        }
    }

    /// Gives the filesystem up and hands back the bytes of its image.
    pub fn close_disk(self) -> (disk: Vec<u8>)
        ensures
            disk@ == self.image(),
            is_image(disk@),
    {
        proof {
            use_type_invariant(&self);
        }
        self.disk
    }

    /// The bytes of the image as they are now.
    pub fn as_bytes(&self) -> (bytes: &Vec<u8>)
        ensures
            bytes@ == self.image(),
            is_image(bytes@),
    {
        proof {
            use_type_invariant(self);
        }
        &self.disk
    }

    /// Reads the inode record in slot `inode_index`.
    fn get_inode(&self, inode_index: usize) -> (inode: IDXNode)
        requires
            inode_index < MAX_INODES,
        ensures
            inode@ == self@.inodes[inode_index as int],
    {
        proof {
            use_type_invariant(self);
        }
        let inode_buffer: [u8; IDXNODE_SIZE] = read_at(
            &self.disk,
            INODE_TABLE_OFFSET + IDXNODE_SIZE * inode_index,
        );
        IDXNode::decode(&inode_buffer)
    }

    /// Finds the lowest slot whose record satisfies `f`, and reads it.
    fn get_first_inode_conditional_on<F: Fn(&IDXNode) -> bool>(
        &self,
        f: F,
        Ghost(pred): Ghost<spec_fn(InodeView) -> bool>,
    ) -> (found: Option<(usize, IDXNode)>)
        requires
            forall|inode: &IDXNode| f.requires((inode,)),
            forall|inode: &IDXNode, answer: bool|
                f.ensures((inode,), answer) ==> answer == pred(inode@),
        ensures
            match found {
                Some((slot, inode)) => is_first(self@.inodes, pred, slot as int) && inode@
                    == self@.inodes[slot as int],
                None => forall|j: int| 0 <= j < MAX_INODES ==> !pred(#[trigger] self@.inodes[j]),
            },
    {
        let mut i: usize = 0;
        while i < MAX_INODES
            invariant
                i <= MAX_INODES,
                forall|inode: &IDXNode| f.requires((inode,)),
                forall|inode: &IDXNode, answer: bool|
                    f.ensures((inode,), answer) ==> answer == pred(inode@),
                forall|j: int| 0 <= j < i ==> !pred(#[trigger] self@.inodes[j]),
            decreases MAX_INODES - i,
        {
            let inode = self.get_inode(i);
            if f(&inode) {
                return Some((i, inode));
            }
            i += 1;
        }
        None
    }

    /// Finds the first file called `filename`. A slot that is not in use is
    /// passed over, whatever name its record still holds.
    fn find_file(&self, filename: &[u8; NAME_LEN]) -> (found: Option<(usize, IDXNode)>)
        ensures
            match found {
                Some((slot, inode)) => self@.lookup(filename@) == Some(slot as int) && slot
                    < MAX_INODES && inode@ == self@.inodes[slot as int],
                None => self@.lookup(filename@) is None,
            },
    {
        let ghost pred = |n: InodeView| n.is_file(filename@);
        let named = |x: &IDXNode| -> (hit: bool)
            ensures
                hit == pred(x@),
            { x.used == 1 && same_name(&x.name, filename) };
        let found = self.get_first_inode_conditional_on(named, Ghost(pred));
        proof {
            lemma_first_match(self@.inodes, pred);
            if let Some((slot, inode)) = found {
                lemma_first_match_some(self@.inodes, pred, slot as int);
            }
        }
        found
    }

    /// Reads the free block list.
    fn get_free_block_list(&self) -> (free_block_list: [u8; FREE_BLOCK_SIZE])
        ensures
            free_block_list@ == self@.free,
    {
        proof {
            use_type_invariant(self);
        }
        read_at(&self.disk, 0)
    }

    /// Writes an encoded inode record to slot `inode_index` of `disk`.
    fn write_inode(disk: &mut Vec<u8>, inode_buffer: &[u8; IDXNODE_SIZE], inode_index: usize)
        requires
            old(disk)@.len() == IMAGE_SIZE,
            inode_index < MAX_INODES,
        ensures
            final(disk)@.len() == IMAGE_SIZE,
            parse_image(final(disk)@) == (FsState {
                free: parse_image(old(disk)@).free,
                inodes: parse_image(old(disk)@).inodes.update(
                    inode_index as int,
                    InodeView::decode(inode_buffer@),
                ),
                blocks: parse_image(old(disk)@).blocks,
            }),
        no_unwind
    {
        proof {
            lemma_overwrite_inode(disk@, inode_index as int, inode_buffer@);
        }
        write_at(disk, INODE_TABLE_OFFSET + IDXNODE_SIZE * inode_index, inode_buffer);
    }

    /// Writes the free block list back to `disk`, all of it.
    fn write_free_block_list(disk: &mut Vec<u8>, free_block_list: &[u8; FREE_BLOCK_SIZE])
        requires
            old(disk)@.len() == IMAGE_SIZE,
        ensures
            final(disk)@.len() == IMAGE_SIZE,
            parse_image(final(disk)@) == (FsState {
                free: free_block_list@,
                inodes: parse_image(old(disk)@).inodes,
                blocks: parse_image(old(disk)@).blocks,
            }),
        no_unwind
    {
        proof {
            lemma_overwrite_free(disk@, free_block_list@);
        }
        write_at(disk, 0, free_block_list);
    }

    /// Writes an inode record and the free block list to `disk`, one after the
    /// other. The image is consistent again when both are written.
    fn persist(
        disk: &mut Vec<u8>,
        inode: &IDXNode,
        inode_index: usize,
        free_block_list: &[u8; FREE_BLOCK_SIZE],
        inode_buffer: &[u8; IDXNODE_SIZE],
    )
        requires
            old(disk)@.len() == IMAGE_SIZE,
            inode_index < MAX_INODES,
            inode_buffer@ == inode@.encode(),
        ensures
            final(disk)@.len() == IMAGE_SIZE,
            parse_image(final(disk)@) == (FsState {
                free: free_block_list@,
                inodes: parse_image(old(disk)@).inodes.update(inode_index as int, inode@),
                blocks: parse_image(old(disk)@).blocks,
            }),
        no_unwind
    {
        proof {
            lemma_decode_encode(inode@);
        }
        Self::write_inode(disk, inode_buffer, inode_index);
        Self::write_free_block_list(disk, free_block_list);
    }

    /// Creates a file called `filename` of `size` blocks.
    ///
    /// The size is checked first, then the free space, then the inode table.
    /// The file gets the lowest unused slot and the lowest free blocks.
    pub fn create_file(&mut self, filename: [u8; NAME_LEN], size: u8) -> (res: Result<(), FsError>)
        ensures
            final(self).wf(),
            match old(self)@.create(filename@, size) {
                Ok(state) => res is Ok && final(self)@ == state,
                Err(e) => res == Err::<(), FsError>(e) && *final(self) == *old(self),
            },
    {
        proof {
            use_type_invariant(&*self);
        }
        if size as usize > MAX_FILE_BLOCKS {
            return Err(FsError::InvalidSize);
        }
        let mut free_block_list = self.get_free_block_list();
        let available_blocks = count_free(&free_block_list);
        if available_blocks < size as usize {
            return Err(FsError::InsufficientSpace);
        }
        // Find an unused inode if one exists.
        let ghost unused = |n: InodeView| n.used == 0;
        let vacant = |i: &IDXNode| -> (hit: bool)
            ensures
                hit == unused(i@),
            { i.used == 0 };
        let found = self.get_first_inode_conditional_on(vacant, Ghost(unused));
        proof {
            lemma_first_match(self@.inodes, unused);
        }
        let (slot, mut inode) = match found {
            None => {
                return Err(FsError::NoFreeInode);
            },
            Some(pair) => pair,
        };
        proof {
            lemma_first_match_some(self@.inodes, unused, slot as int);
        }
        let ghost old_free = self@.free;
        let ghost old_pointers = inode.block_pointers@;
        inode.used = 1;
        inode.name = filename;
        inode.size = size;

        // Allocate the lowest free blocks into the inode's block pointers.
        let mut blocks_allocated: usize = 0;
        let mut i: usize = 0;
        assert(old_free.take(0) =~= Seq::<u8>::empty());
        while i < FREE_BLOCK_SIZE && blocks_allocated < size as usize
            invariant
                i <= FREE_BLOCK_SIZE,
                blocks_allocated <= size,
                size <= MAX_FILE_BLOCKS,
                inode.used == 1,
                inode.name == filename,
                inode.size == size,
                old_free.len() == FREE_BLOCK_SIZE,
                old_pointers.len() == MAX_FILE_BLOCKS,
                blocks_allocated == free_indices(old_free.take(i as int)).len(),
                forall|k: int|
                    0 <= k < blocks_allocated ==> inode.block_pointers@[k] == free_indices(
                        old_free.take(i as int),
                    )[k],
                forall|k: int|
                    blocks_allocated <= k < MAX_FILE_BLOCKS ==> inode.block_pointers@[k]
                        == old_pointers[k],
                forall|b: int|
                    0 <= b < FREE_BLOCK_SIZE ==> free_block_list@[b] == (if b < i && old_free[b]
                        == 0 {
                        1u8
                    } else {
                        old_free[b]
                    }),
            decreases FREE_BLOCK_SIZE - i,
        {
            proof {
                lemma_free_indices_step(old_free, i as int);
            }
            if free_block_list[i] == 0 {
                free_block_list[i] = 1;
                inode.block_pointers[blocks_allocated] = i as u8;
                blocks_allocated += 1;
            }
            i += 1;
        }
        proof {
            let taken = free_indices(old_free.take(i as int));
            let picked = free_indices(old_free).take(size as int);
            lemma_free_indices_take(old_free, i as int);
            lemma_free_indices(old_free.take(i as int));
            if i == FREE_BLOCK_SIZE {
                assert(old_free.take(i as int) =~= old_free);
            }
            assert(blocks_allocated == size);
            assert(taken == picked);
            assert forall|b: int| 0 <= b < FREE_BLOCK_SIZE implies (picked.contains(b) <==> b < i
                && old_free[b] == 0) by {
                if b < i && old_free[b] == 0 {
                    assert(old_free.take(i as int)[b] == 0);
                    assert(taken.contains(b));
                }
                if picked.contains(b) {
                    let k = choose|k: int| 0 <= k < picked.len() && picked[k] == b;
                    assert(taken[k] == b);
                }
            }
            let state = old(self)@.create(filename@, size)->Ok_0;
            assert(inode@.block_pointers =~= state.inodes[slot as int].block_pointers);
            assert(free_block_list@ =~= state.free);
            lemma_create_keeps_wf(old(self)@, filename@, size);
        }
        let inode_buffer = inode.encode();
        Self::persist(&mut self.disk, &inode, slot, &free_block_list, &inode_buffer);
        Ok(())
    }

    /// Deletes the first file called `filename`: its blocks become free
    /// and its slot unused.
    pub fn delete_file(&mut self, filename: [u8; NAME_LEN]) -> (res: Result<(), FsError>)
        ensures
            final(self).wf(),
            match old(self)@.delete(filename@) {
                Ok(state) => res is Ok && final(self)@ == state,
                Err(e) => res == Err::<(), FsError>(e) && *final(self) == *old(self),
            },
    {
        proof {
            use_type_invariant(&*self);
        }
        let mut free_block_list = self.get_free_block_list();
        let (slot, mut inode) = match self.find_file(&filename) {
            None => {
                return Err(FsError::NotFound);
            },
            Some(pair) => pair,
        };
        proof {
            lemma_first_match(self@.inodes, |n: InodeView| n.is_file(filename@));
        }
        let ghost old_free = self@.free;
        let ghost state = self@;
        let mut i: u8 = 0;
        while i < inode.size
            invariant
                i <= inode.size,
                state.wf(),
                0 <= slot < MAX_INODES,
                inode@ == state.inodes[slot as int],
                inode@.in_use(),
                old_free == state.free,
                forall|b: int|
                    0 <= b < FREE_BLOCK_SIZE ==> free_block_list@[b] == (if exists|k: int|
                        0 <= k < i && #[trigger] state.pointer(slot as int, k) == b {
                        0u8
                    } else {
                        old_free[b]
                    }),
            decreases inode.size - i,
        {
            assert(state.holds(slot as int, i as int));
            let block = inode.block_pointers[i as usize];
            free_block_list[block as usize] = 0;
            i += 1;
        }
        inode.used = 0;
        proof {
            let after = old(self)@.delete(filename@)->Ok_0;
            assert forall|b: int| 0 <= b < FREE_BLOCK_SIZE implies free_block_list@[b]
                == after.free[b] by {
                if state.owns(slot as int, b) {
                    let k = choose|k: int| #[trigger]
                        state.holds(slot as int, k) && state.pointer(slot as int, k) == b;
                    assert(state.pointer(slot as int, k) == b);
                }
                if exists|k: int| 0 <= k < i && #[trigger] state.pointer(slot as int, k) == b {
                    let k = choose|k: int|
                        0 <= k < i && #[trigger] state.pointer(slot as int, k) == b;
                    assert(state.holds(slot as int, k));
                }
            }
            assert(free_block_list@ =~= after.free);
            lemma_delete_keeps_wf(old(self)@, filename@);
        }
        let inode_buffer = inode.encode();
        Self::persist(&mut self.disk, &inode, slot, &free_block_list, &inode_buffer);
        Ok(())
    }

    /// The names of the files, in slot order.
    pub fn ls(&self) -> (names: Vec<[u8; NAME_LEN]>)
        ensures
            names@.map_values(|name: [u8; NAME_LEN]| name@) == self@.list(),
    {
        let mut names: Vec<[u8; NAME_LEN]> = Vec::new();
        let ghost view_of = |name: [u8; NAME_LEN]| name@;
        let mut i: usize = 0;
        proof {
            use_type_invariant(self);
            lemma_names_empty();
            assert(self@.inodes.take(0) =~= Seq::<InodeView>::empty());
            assert(names@.map_values(view_of) =~= Seq::<Seq<u8>>::empty());
        }
        while i < MAX_INODES
            invariant
                i <= MAX_INODES,
                self.wf(),
                view_of == |name: [u8; NAME_LEN]| name@,
                names@.map_values(view_of) == names_in_use(self@.inodes.take(i as int)),
            decreases MAX_INODES - i,
        {
            let inode = self.get_inode(i);
            proof {
                let before = self@.inodes.take(i as int);
                assert(self@.inodes.take(i + 1) =~= before.push(self@.inodes[i as int]));
                lemma_names_push(before, self@.inodes[i as int]);
            }
            if inode.used == 1 {
                let ghost shorter = names@;
                names.push(inode.name);
                assert(names@.map_values(view_of) =~= shorter.map_values(view_of).push(
                    inode.name@,
                ));
            }
            i += 1;
        }
        proof {
            assert(self@.inodes.take(MAX_INODES as int) =~= self@.inodes);
        }
        names
    }

    /// Reads block `block_num` of the first file called `filename`.
    pub fn read(&self, filename: [u8; NAME_LEN], block_num: u8) -> (res: Result<
        [u8; BLOCK_SIZE],
        FsError,
    >)
        ensures
            match self@.read(filename@, block_num) {
                Ok(data) => res is Ok && res->Ok_0@ == data,
                Err(e) => res == Err::<[u8; BLOCK_SIZE], FsError>(e),
            },
    {
        proof {
            use_type_invariant(self);
        }
        match self.find_file(&filename) {
            None => Err(FsError::NotFound),
            Some((slot, inode)) => {
                if inode.size <= block_num {
                    return Err(FsError::OutOfRange);
                }
                assert(self@.holds(slot as int, block_num as int));
                let block = inode.block_pointers[block_num as usize];
                let buf: [u8; BLOCK_SIZE] = read_at(
                    &self.disk,
                    DATA_OFFSET + BLOCK_SIZE * (block as usize),
                );
                Ok(buf)
            },
        }
    }

    /// Writes `write_buf` to block `block_num` of the first file called
    /// `filename`. The block number must be below the file's size, as for
    /// `read`.
    pub fn write(
        &mut self,
        filename: [u8; NAME_LEN],
        block_num: u8,
        write_buf: &[u8; BLOCK_SIZE],
    ) -> (res: Result<(), FsError>)
        ensures
            final(self).wf(),
            match old(self)@.write(filename@, block_num, write_buf@) {
                Ok(state) => res is Ok && final(self)@ == state,
                Err(e) => res == Err::<(), FsError>(e) && *final(self) == *old(self),
            },
    {
        proof {
            use_type_invariant(&*self);
        }
        match self.find_file(&filename) {
            None => Err(FsError::NotFound),
            Some((slot, inode)) => {
                if inode.size <= block_num {
                    return Err(FsError::OutOfRange);
                }
                assert(self@.holds(slot as int, block_num as int));
                let block = inode.block_pointers[block_num as usize];
                proof {
                    lemma_overwrite_block(self.disk@, block as int, write_buf@);
                    lemma_write_keeps_wf(self@, filename@, block_num, write_buf@);
                }
                write_at(&mut self.disk, DATA_OFFSET + BLOCK_SIZE * (block as usize), write_buf);
                Ok(())
            },
        }
    }
}

} // verus!
