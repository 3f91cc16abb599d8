//! Inode records and their byte-exact encoding.
//!
//! A record occupies 18 bytes: 8 bytes of name, 1 byte of size, 8 one-byte
//! block pointers and 1 byte of used-flag, in that order. Every field is a
//! sequence of single bytes, so the encoding does not depend on byte order.

use vstd::prelude::*;
use crate::layout::{IDXNODE_SIZE, MAX_FILE_BLOCKS, NAME_LEN};

verus! {

/// One slot of the inode table, as held in memory.
#[derive(Clone, Copy, Debug, PartialEq, Eq)]
pub struct IDXNode {
    /// File name, raw bytes, padded with zeros.
    pub name: [u8; NAME_LEN],
    /// Number of blocks in use.
    pub size: u8,
    /// Block indices; only the first `size` entries are meaningful.
    pub block_pointers: [u8; MAX_FILE_BLOCKS],
    /// 1 when the slot describes a file, 0 when it is free.
    pub used: u8,
}

/// The mathematical content of an inode record.
pub struct InodeView {
    pub name: Seq<u8>,
    pub size: u8,
    pub block_pointers: Seq<u8>,
    pub used: u8,
}

impl View for IDXNode {
    type V = InodeView;

    open spec fn view(&self) -> InodeView {
        InodeView {
            name: self.name@,
            size: self.size,
            block_pointers: self.block_pointers@,
            used: self.used,
        }
    }
}

impl InodeView {
    /// The field lengths are those of a record.
    pub open spec fn shaped(self) -> bool {
        &&& self.name.len() == NAME_LEN
        &&& self.block_pointers.len() == MAX_FILE_BLOCKS
    }

    /// The slot describes a file.
    pub open spec fn in_use(self) -> bool {
        self.used == 1
    }

    /// The slot describes a file that is called `name`.
    pub open spec fn is_file(self, name: Seq<u8>) -> bool {
        self.used == 1 && self.name == name
    }

    /// `block` is among the first `size` block pointers.
    pub open spec fn points_to(self, block: int) -> bool {
        exists|k: int| 0 <= k < self.size && #[trigger] self.block_pointers[k] == block
    }

    /// The 18 bytes of the record.
    pub open spec fn encode(self) -> Seq<u8> {
        self.name + seq![self.size] + self.block_pointers + seq![self.used]
    }

    /// The record that 18 bytes stand for.
    pub open spec fn decode(bytes: Seq<u8>) -> InodeView {
        InodeView {
            name: bytes.subrange(0, 8),
            size: bytes[8],
            block_pointers: bytes.subrange(9, 17),
            used: bytes[17],
        }
    }
}

/// Decoding an encoded record gives the record back.
pub proof fn lemma_decode_encode(v: InodeView)
    requires
        v.shaped(),
    ensures
        v.encode().len() == IDXNODE_SIZE,
        InodeView::decode(v.encode()) == v,
{
    let b = v.encode();
    assert(b.subrange(0, 8) =~= v.name);
    assert(b.subrange(9, 17) =~= v.block_pointers);
}

/// Encoding a decoded record gives the bytes back.
pub proof fn lemma_encode_decode(bytes: Seq<u8>)
    requires
        bytes.len() == IDXNODE_SIZE,
    ensures
        InodeView::decode(bytes).shaped(),
        InodeView::decode(bytes).encode() == bytes,
{
    assert(InodeView::decode(bytes).encode() =~= bytes);
}

impl IDXNode {
    /// Writes the record out as bytes.
    pub fn encode(&self) -> (bytes: [u8; IDXNODE_SIZE])
        ensures
            bytes@ == self@.encode(),
    {
        let mut bytes: [u8; IDXNODE_SIZE] = [0u8; IDXNODE_SIZE];
        let mut i: usize = 0;
        while i < NAME_LEN
            invariant
                i <= NAME_LEN,
                forall|k: int| 0 <= k < i ==> bytes@[k] == self.name@[k],
            decreases NAME_LEN - i,
        {
            bytes[i] = self.name[i];
            i += 1;
        }
        bytes[8] = self.size;
        let mut j: usize = 0;
        while j < MAX_FILE_BLOCKS
            invariant
                j <= MAX_FILE_BLOCKS,
                forall|k: int| 0 <= k < 8 ==> bytes@[k] == self.name@[k],
                bytes@[8] == self.size,
                forall|k: int| 0 <= k < j ==> bytes@[9 + k] == self.block_pointers@[k],
            decreases MAX_FILE_BLOCKS - j,
        {
            bytes[9 + j] = self.block_pointers[j];
            j += 1;
        }
        bytes[17] = self.used;
        assert(bytes@ =~= self@.encode());
        bytes
    }

    /// Reads a record from its bytes.
    pub fn decode(bytes: &[u8; IDXNODE_SIZE]) -> (node: IDXNode)
        ensures
            node@ == InodeView::decode(bytes@),
    {
        let mut name: [u8; NAME_LEN] = [0u8; NAME_LEN];
        let mut i: usize = 0;
        while i < NAME_LEN
            invariant
                i <= NAME_LEN,
                forall|k: int| 0 <= k < i ==> name@[k] == bytes@[k],
            decreases NAME_LEN - i,
        {
            name[i] = bytes[i];
            i += 1;
        }
        let mut block_pointers: [u8; MAX_FILE_BLOCKS] = [0u8; MAX_FILE_BLOCKS];
        let mut j: usize = 0;
        while j < MAX_FILE_BLOCKS
            invariant
                j <= MAX_FILE_BLOCKS,
                forall|k: int| 0 <= k < j ==> block_pointers@[k] == bytes@[9 + k],
            decreases MAX_FILE_BLOCKS - j,
        {
            block_pointers[j] = bytes[9 + j];
            j += 1;
        }
        assert(name@ =~= bytes@.subrange(0, 8));
        assert(block_pointers@ =~= bytes@.subrange(9, 17));
        IDXNode { name, size: bytes[8], block_pointers, used: bytes[17] }
    }
}

} // verus!
