//! The mathematical model of a filesystem image.
//!
//! An image is 131488 bytes: the free block list, the inode table and the
//! data blocks, one after another. [`FsState`] is the same content, parted
//! into its three regions. The operations of the filesystem are stated here as
//! functions from one state to the next.

use vstd::prelude::*;
use crate::inode::InodeView;
use crate::layout::{
    block_offset, inode_offset, BLOCK_SIZE, FREE_BLOCK_SIZE, IDXNODE_SIZE, IMAGE_SIZE,
    MAX_FILE_BLOCKS, MAX_INODES,
};

verus! {

/// Why an operation was refused.
#[derive(Clone, Copy, Debug, PartialEq, Eq, Structural)]
pub enum FsError {
    /// A file of more than 8 blocks was asked for.
    InvalidSize,
    /// Fewer blocks are free than were asked for.
    InsufficientSpace,
    /// Every slot of the inode table is in use.
    NoFreeInode,
    /// No file has the name.
    NotFound,
    /// The block number is not below the file's size.
    OutOfRange,
    /// The bytes handed over are not a filesystem image.
    OpenError,
}

/// The content of an image: flags, inode records and data blocks.
pub struct FsState {
    /// One flag per data block: 0 is free, 1 is allocated.
    pub free: Seq<u8>,
    /// The 16 slots of the inode table.
    pub inodes: Seq<InodeView>,
    /// The 128 data blocks, 1024 bytes each.
    pub blocks: Seq<Seq<u8>>,
}

/// The state that the bytes of an image stand for.
pub open spec fn parse_image(image: Seq<u8>) -> FsState {
    FsState {
        free: image.subrange(0, FREE_BLOCK_SIZE as int),
        inodes: Seq::new(
            MAX_INODES as nat,
            |slot: int|
                InodeView::decode(
                    image.subrange(inode_offset(slot), inode_offset(slot) + IDXNODE_SIZE),
                ),
        ),
        blocks: Seq::new(
            FREE_BLOCK_SIZE as nat,
            |block: int| image.subrange(block_offset(block), block_offset(block) + BLOCK_SIZE),
        ),
    }
}

/// The bytes are a filesystem image: they have the length of one and the
/// state they stand for is consistent.
pub open spec fn is_image(image: Seq<u8>) -> bool {
    image.len() == IMAGE_SIZE && parse_image(image).wf()
}

/// The indices of the flags that are 0, in ascending order.
pub open spec fn free_indices(free: Seq<u8>) -> Seq<int>
    decreases free.len(),
{
    if free.len() == 0 {
        Seq::empty()
    } else {
        let before = free_indices(free.drop_last());
        if free.last() == 0 {
            before.push(free.len() - 1)
        } else {
            before
        }
    }
}

/// `slot` is the lowest slot whose record satisfies `pred`.
pub open spec fn is_first(
    inodes: Seq<InodeView>,
    pred: spec_fn(InodeView) -> bool,
    slot: int,
) -> bool {
    &&& 0 <= slot < inodes.len()
    &&& pred(inodes[slot])
    &&& forall|j: int| 0 <= j < slot ==> !pred(#[trigger] inodes[j])
}

/// The lowest slot whose record satisfies `pred`, if there is one.
pub open spec fn first_match(inodes: Seq<InodeView>, pred: spec_fn(InodeView) -> bool) -> Option<
    int,
> {
    if exists|slot: int| is_first(inodes, pred, slot) {
        Some(choose|slot: int| is_first(inodes, pred, slot))
    } else {
        None
    }
}

/// The names of the records that are in use, in the order of the records.
pub open spec fn names_in_use(inodes: Seq<InodeView>) -> Seq<Seq<u8>> {
    inodes.filter(|n: InodeView| n.in_use()).map_values(|n: InodeView| n.name)
}

/// The test whether a name is `name`.
pub open spec fn is_name(name: Seq<u8>) -> spec_fn(Seq<u8>) -> bool {
    |n: Seq<u8>| n == name
}

/// How often `name` occurs in `names`.
pub open spec fn occurrences(names: Seq<Seq<u8>>, name: Seq<u8>) -> nat {
    names.filter(is_name(name)).len()
}

impl FsState {
    /// Every region has the length that the layout gives it.
    pub open spec fn shaped(self) -> bool {
        &&& self.free.len() == FREE_BLOCK_SIZE
        &&& self.inodes.len() == MAX_INODES
        &&& self.blocks.len() == FREE_BLOCK_SIZE
        &&& forall|slot: int| 0 <= slot < MAX_INODES ==> (#[trigger] self.inodes[slot]).shaped()
        &&& forall|block: int|
            0 <= block < FREE_BLOCK_SIZE ==> (#[trigger] self.blocks[block]).len() == BLOCK_SIZE
    }

    /// Entry `k` of the block pointers of `slot` is meaningful: the slot is in
    /// use and `k` is below its size.
    pub open spec fn holds(self, slot: int, k: int) -> bool {
        &&& 0 <= slot < MAX_INODES
        &&& self.inodes[slot].in_use()
        &&& 0 <= k < self.inodes[slot].size
    }

    /// Entry `k` of the block pointers of `slot`.
    pub open spec fn pointer(self, slot: int, k: int) -> int {
        self.inodes[slot].block_pointers[k] as int
    }

    /// The file in `slot` holds `block`.
    pub open spec fn owns(self, slot: int, block: int) -> bool {
        exists|k: int| #[trigger] self.holds(slot, k) && self.pointer(slot, k) == block
    }

    /// The invariant of a filesystem image.
    ///
    /// Flags and used-marks are 0 or 1 and block 0 is reserved. A file has at
    /// most 8 blocks. A block other than block 0 is allocated exactly when some
    /// file holds it, and no block is held twice, by one file or by two.
    pub open spec fn wf(self) -> bool {
        &&& self.shaped()
        &&& forall|b: int| 0 <= b < FREE_BLOCK_SIZE ==> #[trigger] self.free[b] <= 1
        &&& self.free[0] == 1
        &&& forall|slot: int| 0 <= slot < MAX_INODES ==> (#[trigger] self.inodes[slot]).used <= 1
        &&& forall|slot: int|
            0 <= slot < MAX_INODES && (#[trigger] self.inodes[slot]).in_use()
                ==> self.inodes[slot].size <= MAX_FILE_BLOCKS
        &&& forall|slot: int, k: int| #[trigger]
            self.holds(slot, k) ==> 1 <= self.pointer(slot, k) < FREE_BLOCK_SIZE
                && self.free[self.pointer(slot, k)] == 1
        &&& forall|b: int|
            1 <= b < FREE_BLOCK_SIZE && #[trigger] self.free[b] == 1 ==> exists|slot: int|
                #[trigger] self.owns(slot, b)
        &&& forall|s1: int, k1: int, s2: int, k2: int|
            #[trigger] self.holds(s1, k1) && #[trigger] self.holds(s2, k2) && self.pointer(s1, k1)
                == self.pointer(s2, k2) ==> s1 == s2 && k1 == k2
    }

    /// The number of free blocks.
    pub open spec fn free_count(self) -> nat {
        free_indices(self.free).len()
    }

    /// The lowest slot that is not in use.
    pub open spec fn first_unused(self) -> Option<int> {
        first_match(self.inodes, |n: InodeView| n.used == 0)
    }

    /// The lowest slot in use whose file is called `name`. A slot that is not
    /// in use is never found, whatever name its record still holds; of two
    /// files with one name the one in the lower slot is found.
    pub open spec fn lookup(self, name: Seq<u8>) -> Option<int> {
        first_match(self.inodes, |n: InodeView| n.is_file(name))
    }

    /// The names of the files, in slot order.
    pub open spec fn list(self) -> Seq<Seq<u8>> {
        names_in_use(self.inodes)
    }

    /// The outcome of creating a file `name` of `size` blocks.
    ///
    /// The file takes the lowest unused slot and the `size` lowest free blocks,
    /// in ascending order. Pointers at and past `size` keep their old bytes.
    pub open spec fn create(self, name: Seq<u8>, size: u8) -> Result<FsState, FsError> {
        if size > MAX_FILE_BLOCKS {
            Err(FsError::InvalidSize)
        } else if self.free_count() < size {
            Err(FsError::InsufficientSpace)
        } else if self.first_unused() is None {
            Err(FsError::NoFreeInode)
        } else {
            let slot = self.first_unused()->0;
            let picked = free_indices(self.free).take(size as int);
            Ok(
                FsState {
                    free: Seq::new(
                        FREE_BLOCK_SIZE as nat,
                        |b: int|
                            if picked.contains(b) {
                                1u8
                            } else {
                                self.free[b]
                            },
                    ),
                    inodes: self.inodes.update(
                        slot,
                        InodeView {
                            name,
                            size,
                            block_pointers: Seq::new(
                                MAX_FILE_BLOCKS as nat,
                                |k: int|
                                    if k < size {
                                        picked[k] as u8
                                    } else {
                                        self.inodes[slot].block_pointers[k]
                                    },
                            ),
                            used: 1,
                        },
                    ),
                    blocks: self.blocks,
                },
            )
        }
    }

    /// The outcome of deleting the first file called `name`.
    ///
    /// The blocks of the file become free and its slot unused; the other
    /// fields of the record stay as they were. Where no file has the name,
    /// that is an error and nothing changes.
    pub open spec fn delete(self, name: Seq<u8>) -> Result<FsState, FsError> {
        match self.lookup(name) {
            None => Err(FsError::NotFound),
            Some(slot) => Ok(
                FsState {
                    free: Seq::new(
                        FREE_BLOCK_SIZE as nat,
                        |b: int|
                            if self.owns(slot, b) {
                                0u8
                            } else {
                                self.free[b]
                            },
                    ),
                    inodes: self.inodes.update(
                        slot,
                        InodeView {
                            name: self.inodes[slot].name,
                            size: self.inodes[slot].size,
                            block_pointers: self.inodes[slot].block_pointers,
                            used: 0,
                        },
                    ),
                    blocks: self.blocks,
                },
            ),
        }
    }

    /// The outcome of reading block `block_num` of the first file called `name`.
    pub open spec fn read(self, name: Seq<u8>, block_num: u8) -> Result<Seq<u8>, FsError> {
        match self.lookup(name) {
            None => Err(FsError::NotFound),
            Some(slot) => if block_num >= self.inodes[slot].size {
                Err(FsError::OutOfRange)
            } else {
                Ok(self.blocks[self.pointer(slot, block_num as int)])
            },
        }
    }

    /// The outcome of writing `data` to block `block_num` of the first file
    /// called `name`. The block number is held to the file's size, as in
    /// `read`.
    pub open spec fn write(self, name: Seq<u8>, block_num: u8, data: Seq<u8>) -> Result<
        FsState,
        FsError,
    > {
        match self.lookup(name) {
            None => Err(FsError::NotFound),
            Some(slot) => if block_num >= self.inodes[slot].size {
                Err(FsError::OutOfRange)
            } else {
                Ok(
                    FsState {
                        free: self.free,
                        inodes: self.inodes,
                        blocks: self.blocks.update(self.pointer(slot, block_num as int), data),
                    },
                )
            },
        }
    }
}

/// The bytes of a freshly formatted image: all zero, but for the flag of the
/// reserved block 0.
pub open spec fn blank_image() -> Seq<u8> {
    Seq::new(
        IMAGE_SIZE as nat,
        |i: int|
            if i == 0 {
                1u8
            } else {
                0u8
            },
    )
}

} // verus!
