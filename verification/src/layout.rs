//! Capacity constants and byte offsets of the disk image.
//!
//! The image holds three regions, one after another: the free block list,
//! the inode table and the data blocks.

use vstd::prelude::*;

verus! {

/// Size in bytes of one data block.
pub const BLOCK_SIZE: usize = 1024;

/// Number of data blocks, and of flags in the free block list.
pub const FREE_BLOCK_SIZE: usize = 128;

/// Number of slots in the inode table.
pub const MAX_INODES: usize = 16;

/// Largest number of blocks that one file can hold.
pub const MAX_FILE_BLOCKS: usize = 8;

/// Length in bytes of a file name field.
pub const NAME_LEN: usize = 8;

/// Size in bytes of one encoded inode record: the name, one byte of size, the
/// block pointers of one byte each, one byte of used-flag.
pub const IDXNODE_SIZE: usize = 18;

/// Offset of the first inode record: the table follows the free block list.
pub const INODE_TABLE_OFFSET: usize = 128;

/// Offset of the first data block: the blocks follow the inode table.
pub const DATA_OFFSET: usize = 416;

/// Total length in bytes of a disk image.
pub const IMAGE_SIZE: usize = 131488;

/// Byte offset of the inode record in `slot`.
pub open spec fn inode_offset(slot: int) -> int {
    INODE_TABLE_OFFSET + slot * IDXNODE_SIZE
}

/// Byte offset of data block `block`.
pub open spec fn block_offset(block: int) -> int {
    DATA_OFFSET + block * BLOCK_SIZE
}

/// The regions follow one another without a gap and fill the image.
pub proof fn lemma_layout()
    ensures
        IDXNODE_SIZE == NAME_LEN + 1 + MAX_FILE_BLOCKS + 1,
        INODE_TABLE_OFFSET == FREE_BLOCK_SIZE,
        DATA_OFFSET == inode_offset(MAX_INODES as int),
        IMAGE_SIZE == block_offset(FREE_BLOCK_SIZE as int),
{
}

} // verus!
