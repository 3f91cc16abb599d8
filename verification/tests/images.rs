use cs377_filesystem::create_fs::format_disk;
use cs377_filesystem::disk::{read_at, write_at};
use cs377_filesystem::inode::IDXNode;
use cs377_filesystem::layout::{
    BLOCK_SIZE, DATA_OFFSET, FREE_BLOCK_SIZE, IDXNODE_SIZE, IMAGE_SIZE, INODE_TABLE_OFFSET,
    MAX_FILE_BLOCKS, MAX_INODES, NAME_LEN,
};
use cs377_filesystem::myfs::{count_free, same_name, MyFileSystem};
use cs377_filesystem::state::FsError;
use cs377_filesystem::validate::is_valid_image;

/// A blank image with one record written into `slot` and the flags of `blocks` set.
fn image_with(slot: usize, record: [u8; 18], blocks: &[usize]) -> Vec<u8> {
    let mut disk = format_disk();
    disk[128 + 18 * slot..128 + 18 * (slot + 1)].copy_from_slice(&record);
    for b in blocks {
        disk[*b] = 1;
    }
    disk
}

fn refused(disk: Vec<u8>) -> bool {
    !is_valid_image(&disk) && matches!(MyFileSystem::new(disk), Err(FsError::OpenError))
}

#[test]
fn the_constants_describe_the_layout() {
    assert_eq!(BLOCK_SIZE, 1024);
    assert_eq!(FREE_BLOCK_SIZE, 128);
    assert_eq!(MAX_INODES, 16);
    assert_eq!(MAX_FILE_BLOCKS, 8);
    assert_eq!(IDXNODE_SIZE, NAME_LEN + 1 + MAX_FILE_BLOCKS + 1);
    assert_eq!(INODE_TABLE_OFFSET, FREE_BLOCK_SIZE);
    assert_eq!(DATA_OFFSET, INODE_TABLE_OFFSET + MAX_INODES * IDXNODE_SIZE);
    assert_eq!(IMAGE_SIZE, 128 + 16 * 18 + 128 * 1024);
}

#[test]
fn a_formatted_disk_is_zero_but_for_its_first_byte() {
    let disk = format_disk();
    assert_eq!(disk.len(), 131488);
    assert_eq!(disk[0], 1);
    assert!(disk[1..].iter().all(|b| *b == 0));
    assert!(is_valid_image(&disk));
    assert!(MyFileSystem::new(disk).is_ok());
}

#[test]
fn a_record_is_encoded_field_by_field() {
    let node = IDXNode {
        name: [b'r', b'e', b'c', b'o', b'r', b'd', 0, 0],
        size: 3,
        block_pointers: [17, 4, 99, 0, 0, 0, 0, 200],
        used: 1,
    };
    let bytes = node.encode();
    assert_eq!(bytes, [b'r', b'e', b'c', b'o', b'r', b'd', 0, 0, 3, 17, 4, 99, 0, 0, 0, 0, 200, 1]);
    assert_eq!(IDXNode::decode(&bytes), node);
    let other = [1, 2, 3, 4, 5, 6, 7, 8, 9, 10, 11, 12, 13, 14, 15, 16, 17, 18];
    let decoded = IDXNode::decode(&other);
    assert_eq!(decoded.name, [1, 2, 3, 4, 5, 6, 7, 8]);
    assert_eq!(decoded.size, 9);
    assert_eq!(decoded.block_pointers, [10, 11, 12, 13, 14, 15, 16, 17]);
    assert_eq!(decoded.used, 18);
    assert_eq!(decoded.encode(), other);
}

#[test]
fn reading_and_writing_at_an_offset() {
    let mut disk: Vec<u8> = (0..20u8).collect();
    let three: [u8; 3] = read_at(&disk, 5);
    assert_eq!(three, [5, 6, 7]);
    write_at(&mut disk, 17, &[70, 71, 72]);
    write_at(&mut disk, 0, &[90]);
    assert_eq!(disk, vec![90, 1, 2, 3, 4, 5, 6, 7, 8, 9, 10, 11, 12, 13, 14, 15, 16, 70, 71, 72]);
    let all: [u8; 20] = read_at(&disk, 0);
    assert_eq!(all.to_vec(), disk);
    let none: [u8; 0] = read_at(&disk, 20);
    assert_eq!(none, []);
}

#[test]
fn free_flags_are_counted() {
    let mut flags = [0u8; 128];
    assert_eq!(count_free(&flags), 128);
    flags[0] = 1;
    flags[127] = 1;
    flags[64] = 1;
    assert_eq!(count_free(&flags), 125);
    assert_eq!(count_free(&[1u8; 128]), 0);
}

#[test]
fn names_are_compared_byte_by_byte() {
    assert!(same_name(&[1, 2, 3, 4, 5, 6, 7, 8], &[1, 2, 3, 4, 5, 6, 7, 8]));
    assert!(!same_name(&[1, 2, 3, 4, 5, 6, 7, 8], &[1, 2, 3, 4, 5, 6, 7, 9]));
    assert!(!same_name(&[0, 2, 3, 4, 5, 6, 7, 8], &[1, 2, 3, 4, 5, 6, 7, 8]));
}

#[test]
fn an_image_with_a_file_is_accepted() {
    let record = [b'a', 0, 0, 0, 0, 0, 0, 0, 2, 5, 9, 77, 0, 0, 0, 0, 0, 1];
    let disk = image_with(3, record, &[5, 9]);
    assert!(is_valid_image(&disk));
    let fs = MyFileSystem::new(disk).unwrap();
    assert_eq!(fs.ls(), vec![[b'a', 0, 0, 0, 0, 0, 0, 0]]);
    // An unused record may hold anything.
    let stale = [b's', 1, 2, 3, 4, 5, 6, 7, 200, 0, 255, 1, 1, 1, 1, 1, 1, 0];
    assert!(is_valid_image(&image_with(0, stale, &[])));
}

#[test]
fn bytes_of_another_length_are_no_image() {
    assert!(refused(Vec::new()));
    assert!(refused(vec![1u8; 131487]));
    let mut long = format_disk();
    long.push(0);
    assert!(refused(long));
    // The data blocks alone, without the metadata before them, are too short.
    let mut old = vec![0u8; 128 * 1024];
    old[0] = 1;
    assert!(refused(old));
}

#[test]
fn flags_must_be_zero_or_one_and_block_zero_reserved() {
    let mut disk = format_disk();
    disk[0] = 0;
    assert!(refused(disk));
    let mut disk = format_disk();
    disk[40] = 2;
    assert!(refused(disk));
}

#[test]
fn an_allocated_block_must_belong_to_a_file() {
    let mut disk = format_disk();
    disk[127] = 1;
    assert!(refused(disk));
    let record = [b'a', 0, 0, 0, 0, 0, 0, 0, 1, 5, 6, 0, 0, 0, 0, 0, 0, 1];
    // Block 6 is past the size of the file, so nobody holds it.
    assert!(refused(image_with(0, record, &[5, 6])));
    assert!(!refused(image_with(0, record, &[5])));
}

#[test]
fn a_file_must_hold_allocated_blocks_in_range() {
    let name = [b'a', 0, 0, 0, 0, 0, 0, 0];
    let mut record = [0u8; 18];
    record[..8].copy_from_slice(&name);
    record[17] = 1;
    // Its block is not flagged.
    record[8] = 1;
    record[9] = 5;
    assert!(refused(image_with(0, record, &[])));
    // Block 0 is nobody's.
    record[9] = 0;
    assert!(refused(image_with(0, record, &[])));
    // There is no block 128.
    record[9] = 128;
    assert!(refused(image_with(0, record, &[])));
    // Nine blocks are one too many.
    record[8] = 9;
    record[9] = 1;
    assert!(refused(image_with(0, record, &[1])));
    // A used-flag is 0 or 1.
    record[8] = 0;
    record[17] = 2;
    assert!(refused(image_with(0, record, &[])));
}

#[test]
fn no_block_may_be_held_twice() {
    let twice = [b'a', 0, 0, 0, 0, 0, 0, 0, 2, 5, 5, 0, 0, 0, 0, 0, 0, 1];
    assert!(refused(image_with(0, twice, &[5])));
    let one = [b'a', 0, 0, 0, 0, 0, 0, 0, 2, 5, 6, 0, 0, 0, 0, 0, 0, 1];
    let two = [b'b', 0, 0, 0, 0, 0, 0, 0, 1, 6, 0, 0, 0, 0, 0, 0, 0, 1];
    let mut disk = image_with(0, one, &[5, 6]);
    disk[128 + 18 * 9..128 + 18 * 10].copy_from_slice(&two);
    assert!(refused(disk.clone()));
    disk[128 + 18 * 9 + 9] = 7;
    disk[7] = 1;
    assert!(is_valid_image(&disk));
}
