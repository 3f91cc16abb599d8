//! A minimal flat-file filesystem over a fixed-size disk image.
//!
//! The image is a region of 131488 bytes: a free block list of 128 one-byte
//! flags, an inode table of 16 records of 18 bytes, and 128 data blocks of
//! 1024 bytes. Files have a name of 8 bytes and up to 8 blocks; there are no
//! directories.
//!
//! - [`layout`] names the sizes and offsets.
//! - [`disk`] reads and writes runs of bytes at an offset.
//! - [`inode`] holds the inode record and its encoding.
//! - [`state`] is the mathematical model: what an image stands for, when it
//!   is consistent, and what each operation does to it.
//! - [`validate`] decides whether bytes are a consistent image.
//! - [`create_fs`] makes the bytes of an empty filesystem.
//! - [`myfs`] is the engine: create, delete, read, write and list.
//! - [`command`] reads the lines of a script and carries them out.
//! - [`laws`] states what holds of the operations, and [`lemmas`] holds the
//!   facts that the proofs rest on.

pub mod command;
pub mod create_fs;
pub mod disk;
pub mod inode;
pub mod laws;
pub mod layout;
pub mod lemmas;
pub mod myfs;
pub mod state;
pub mod validate;
