use cs377_filesystem::command::get_filename_array;
use cs377_filesystem::create_fs::format_disk;
use cs377_filesystem::layout::BLOCK_SIZE;
use cs377_filesystem::myfs::MyFileSystem;
use cs377_filesystem::state::FsError;

fn fresh() -> MyFileSystem {
    MyFileSystem::new(format_disk()).unwrap()
}

fn count(names: &[[u8; 8]], name: &[u8; 8]) -> usize {
    names.iter().filter(|n| *n == name).count()
}

/// The flags of the free block list, read from the image.
fn flags(fs: &MyFileSystem) -> Vec<u8> {
    fs.as_bytes()[0..128].to_vec()
}

/// The 18 bytes of the inode record in `slot`, read from the image.
fn record(fs: &MyFileSystem, slot: usize) -> Vec<u8> {
    fs.as_bytes()[128 + 18 * slot..128 + 18 * (slot + 1)].to_vec()
}

#[test]
#[should_panic]
fn lib_bad_fs() {
    // Dummy filename in byte format
    let filename = [0, 0, 0, 0, 0, 0, 0, 1];
    let mut my_fs = MyFileSystem::new(Vec::new()).unwrap();
    my_fs.create_file(filename, 7).unwrap();
}

#[test]
#[should_panic]
fn lib_bad_file() {
    // Dummy filename in byte format
    let filename = [0, 0, 0, 0, 0, 0, 0, 1];
    let mut my_fs = fresh();
    my_fs.create_file(filename, 100).unwrap();
}

#[test]
fn lib_good_file_ops() {
    let mut my_fs = fresh();
    // 'testfile' in byte format
    let my_filename = [116, 101, 115, 116, 102, 105, 108, 101];
    my_fs.create_file(my_filename, 8).unwrap();
    my_fs.write(my_filename, 1, &[12; BLOCK_SIZE]).unwrap();
    let buf = [0; BLOCK_SIZE];
    assert!(my_fs.read(my_filename, 0).unwrap() == buf);
    assert!(my_fs.read(my_filename, 1).unwrap() != buf);
}

#[test]
#[should_panic]
fn myfs_bad_fs() {
    let mut my_fs = MyFileSystem::new(Vec::new()).unwrap();
    my_fs.create_file([0u8, 0u8, 0u8, 0u8, 0u8, 0u8, 0u8, 1u8], 7).unwrap();
}

#[test]
#[should_panic]
fn myfs_bad_file() {
    let mut my_fs = fresh();
    my_fs.create_file([0u8, 0u8, 0u8, 0u8, 0u8, 0u8, 0u8, 1u8], 100).unwrap();
}

#[test]
fn myfs_good_file_ops() {
    let mut my_fs = fresh();
    let my_filename = get_filename_array("testfile");
    my_fs.create_file(my_filename, 8).unwrap();
    my_fs.write(my_filename, 1, &[12; BLOCK_SIZE]).unwrap();
    let buf = [0; BLOCK_SIZE];
    assert!(my_fs.read(my_filename, 0).unwrap() == buf);
    assert!(my_fs.read(my_filename, 1).unwrap() != buf);
}

#[test]
fn written_block_reads_back_exactly() {
    let mut my_fs = fresh();
    let my_filename = get_filename_array("testfile");
    my_fs.create_file(my_filename, 8).unwrap();
    my_fs.write(my_filename, 1, &[12; BLOCK_SIZE]).unwrap();
    assert_eq!(my_fs.read(my_filename, 1).unwrap(), [12; BLOCK_SIZE]);
}

#[test]
fn create_delete_list_and_reuse_blocks() {
    let file1 = get_filename_array("file1");
    let file2 = get_filename_array("file2");
    let file3 = get_filename_array("file3");
    let mut my_fs = fresh();
    assert_eq!(my_fs.create_file(file1, 8), Ok(()));
    assert_eq!(my_fs.create_file(file2, 4), Ok(()));
    assert_eq!(my_fs.delete_file(file1), Ok(()));
    assert_eq!(my_fs.ls(), vec![file2]);
    assert_eq!(my_fs.create_file(file3, 8), Ok(()));
    // file3 sits in the slot and in the blocks that file1 gave up.
    assert_eq!(
        record(&my_fs, 0),
        vec![b'f', b'i', b'l', b'e', b'3', 0, 0, 0, 8, 1, 2, 3, 4, 5, 6, 7, 8, 1]
    );
    assert_eq!(
        record(&my_fs, 1),
        vec![b'f', b'i', b'l', b'e', b'2', 0, 0, 0, 4, 9, 10, 11, 12, 0, 0, 0, 0, 1]
    );
    assert_eq!(my_fs.ls(), vec![file3, file2]);
}

#[test]
fn seventeenth_file_finds_no_inode() {
    let mut my_fs = fresh();
    for i in 0..16u8 {
        assert_eq!(my_fs.create_file([b'f', i, 0, 0, 0, 0, 0, 0], 0), Ok(()));
    }
    let before = my_fs.as_bytes().clone();
    assert_eq!(my_fs.create_file([b'f', 16, 0, 0, 0, 0, 0, 0], 0), Err(FsError::NoFreeInode));
    assert_eq!(my_fs.as_bytes(), &before);
    assert_eq!(my_fs.ls().len(), 16);
}

#[test]
fn block_two_written_block_zero_untouched() {
    let name = get_filename_array("data");
    let mut my_fs = fresh();
    my_fs.create_file(name, 8).unwrap();
    my_fs.write(name, 2, &[0x45; BLOCK_SIZE]).unwrap();
    assert_eq!(my_fs.read(name, 2), Ok([0x45; BLOCK_SIZE]));
    assert_eq!(my_fs.read(name, 0), Ok([0; BLOCK_SIZE]));
    // Block 2 of the file is data block 3, at byte 416 + 3 * 1024.
    let image = my_fs.as_bytes();
    assert!(image[416 + 3 * 1024..416 + 4 * 1024].iter().all(|b| *b == 0x45));
    assert!(image[416 + 2 * 1024..416 + 3 * 1024].iter().all(|b| *b == 0));
    assert!(image[416 + 4 * 1024..416 + 5 * 1024].iter().all(|b| *b == 0));
}

#[test]
fn created_file_is_listed_once_with_its_size() {
    for size in 0..=8u8 {
        let name = [b'n', size, 0, 0, 0, 0, 0, 0];
        let mut my_fs = fresh();
        my_fs.create_file(get_filename_array("other"), 3).unwrap();
        assert_eq!(my_fs.create_file(name, size), Ok(()));
        assert_eq!(count(&my_fs.ls(), &name), 1);
        assert_eq!(record(&my_fs, 1)[8], size);
        for block_num in 0..size {
            assert!(my_fs.read(name, block_num).is_ok());
        }
        assert_eq!(my_fs.read(name, size), Err(FsError::OutOfRange));
    }
}

#[test]
fn too_many_blocks_is_invalid_size_and_changes_nothing() {
    let mut my_fs = fresh();
    my_fs.create_file(get_filename_array("kept"), 2).unwrap();
    let before = my_fs.as_bytes().clone();
    for size in [9u8, 10, 100, 255] {
        assert_eq!(my_fs.create_file(get_filename_array("big"), size), Err(FsError::InvalidSize));
        assert_eq!(my_fs.as_bytes(), &before);
    }
}

#[test]
fn too_few_free_blocks_is_insufficient_space_and_changes_nothing() {
    let mut my_fs = fresh();
    // 127 blocks are free on a blank image; fifteen files of 8 leave 7.
    for i in 0..15u8 {
        assert_eq!(my_fs.create_file([b'f', i, 0, 0, 0, 0, 0, 0], 8), Ok(()));
    }
    assert_eq!(flags(&my_fs).iter().filter(|f| **f == 0).count(), 7);
    let before = my_fs.as_bytes().clone();
    assert_eq!(my_fs.create_file(get_filename_array("last"), 8), Err(FsError::InsufficientSpace));
    assert_eq!(my_fs.as_bytes(), &before);
    assert_eq!(my_fs.create_file(get_filename_array("last"), 7), Ok(()));
    assert_eq!(flags(&my_fs), vec![1u8; 128]);
}

#[test]
fn size_is_judged_before_space_and_space_before_inodes() {
    let mut my_fs = fresh();
    for i in 0..15u8 {
        my_fs.create_file([b'f', i, 0, 0, 0, 0, 0, 0], 8).unwrap();
    }
    my_fs.create_file([b'f', 15, 0, 0, 0, 0, 0, 0], 0).unwrap();
    // No slot is unused and 7 blocks are free.
    assert_eq!(my_fs.create_file(get_filename_array("x"), 9), Err(FsError::InvalidSize));
    assert_eq!(my_fs.create_file(get_filename_array("x"), 8), Err(FsError::InsufficientSpace));
    assert_eq!(my_fs.create_file(get_filename_array("x"), 7), Err(FsError::NoFreeInode));
    assert_eq!(my_fs.create_file(get_filename_array("x"), 0), Err(FsError::NoFreeInode));
}

#[test]
fn deleted_file_is_not_listed_and_its_blocks_are_free() {
    let a = get_filename_array("a");
    let b = get_filename_array("b");
    let mut my_fs = fresh();
    my_fs.create_file(a, 3).unwrap();
    my_fs.create_file(b, 2).unwrap();
    assert_eq!(flags(&my_fs)[0..7], [1, 1, 1, 1, 1, 1, 0]);
    assert_eq!(my_fs.delete_file(a), Ok(()));
    assert_eq!(count(&my_fs.ls(), &a), 0);
    assert_eq!(my_fs.ls(), vec![b]);
    assert_eq!(flags(&my_fs)[0..7], [1, 0, 0, 0, 1, 1, 0]);
    // The record keeps its other fields; only the used-flag is cleared.
    assert_eq!(record(&my_fs, 0), vec![b'a', 0, 0, 0, 0, 0, 0, 0, 3, 1, 2, 3, 0, 0, 0, 0, 0, 0]);
}

#[test]
fn deleted_file_cannot_be_found_again() {
    let a = get_filename_array("a");
    let mut my_fs = fresh();
    my_fs.create_file(a, 3).unwrap();
    my_fs.delete_file(a).unwrap();
    let before = my_fs.as_bytes().clone();
    assert_eq!(my_fs.read(a, 0), Err(FsError::NotFound));
    assert_eq!(my_fs.write(a, 0, &[7; BLOCK_SIZE]), Err(FsError::NotFound));
    assert_eq!(my_fs.delete_file(a), Err(FsError::NotFound));
    assert_eq!(my_fs.as_bytes(), &before);
}

#[test]
fn unknown_name_is_not_found() {
    let mut my_fs = fresh();
    my_fs.create_file(get_filename_array("here"), 1).unwrap();
    let missing = get_filename_array("missing");
    let before = my_fs.as_bytes().clone();
    assert_eq!(my_fs.read(missing, 0), Err(FsError::NotFound));
    assert_eq!(my_fs.write(missing, 0, &[1; BLOCK_SIZE]), Err(FsError::NotFound));
    assert_eq!(my_fs.delete_file(missing), Err(FsError::NotFound));
    assert_eq!(my_fs.as_bytes(), &before);
    // A blank image has no file, not even one with an all-zero name.
    let mut blank = fresh();
    assert_eq!(blank.delete_file([0; 8]), Err(FsError::NotFound));
}

#[test]
fn every_block_of_a_file_holds_what_was_written() {
    let name = get_filename_array("blocks");
    let mut my_fs = fresh();
    my_fs.create_file(get_filename_array("first"), 5).unwrap();
    my_fs.create_file(name, 8).unwrap();
    for block_num in 0..8u8 {
        let mut payload = [block_num + 1; BLOCK_SIZE];
        payload[0] = 0xff;
        payload[BLOCK_SIZE - 1] = 0xee;
        assert_eq!(my_fs.write(name, block_num, &payload), Ok(()));
    }
    for block_num in 0..8u8 {
        let mut payload = [block_num + 1; BLOCK_SIZE];
        payload[0] = 0xff;
        payload[BLOCK_SIZE - 1] = 0xee;
        assert_eq!(my_fs.read(name, block_num), Ok(payload));
    }
    for block_num in 0..5u8 {
        assert_eq!(my_fs.read(get_filename_array("first"), block_num), Ok([0; BLOCK_SIZE]));
    }
}

#[test]
fn reading_and_writing_past_the_size_is_out_of_range() {
    let name = get_filename_array("three");
    let mut my_fs = fresh();
    my_fs.create_file(name, 3).unwrap();
    let before = my_fs.as_bytes().clone();
    for block_num in [3u8, 4, 8, 200, 255] {
        assert_eq!(my_fs.read(name, block_num), Err(FsError::OutOfRange));
        assert_eq!(my_fs.write(name, block_num, &[9; BLOCK_SIZE]), Err(FsError::OutOfRange));
    }
    assert_eq!(my_fs.as_bytes(), &before);
    let empty = get_filename_array("empty");
    my_fs.create_file(empty, 0).unwrap();
    assert_eq!(my_fs.read(empty, 0), Err(FsError::OutOfRange));
}

#[test]
fn files_are_given_distinct_blocks() {
    let mut my_fs = fresh();
    let sizes = [8u8, 3, 0, 5, 8, 1, 7];
    for (i, size) in sizes.iter().enumerate() {
        my_fs.create_file([b'f', i as u8, 0, 0, 0, 0, 0, 0], *size).unwrap();
    }
    my_fs.delete_file([b'f', 1, 0, 0, 0, 0, 0, 0]).unwrap();
    my_fs.create_file(get_filename_array("again"), 6).unwrap();
    let mut seen = vec![false; 128];
    for slot in 0..16 {
        let rec = record(&my_fs, slot);
        if rec[17] == 1 {
            for k in 0..rec[8] as usize {
                let block = rec[9 + k] as usize;
                assert!(block >= 1 && block < 128);
                assert!(!seen[block]);
                seen[block] = true;
            }
        }
    }
    let allocated = flags(&my_fs);
    for block in 1..128 {
        assert_eq!(allocated[block] == 1, seen[block]);
    }
    // "again" took the slot and the three blocks that were given up, then
    // the next free ones.
    assert_eq!(record(&my_fs, 1)[8..18], [6, 9, 10, 11, 33, 34, 35, 0, 0, 1]);
}

#[test]
fn of_two_files_with_one_name_the_lower_slot_is_found() {
    let name = get_filename_array("twin");
    let mut my_fs = fresh();
    my_fs.create_file(name, 1).unwrap();
    my_fs.create_file(name, 2).unwrap();
    assert_eq!(my_fs.ls(), vec![name, name]);
    assert_eq!(my_fs.read(name, 1), Err(FsError::OutOfRange));
    my_fs.write(name, 0, &[5; BLOCK_SIZE]).unwrap();
    assert_eq!(my_fs.delete_file(name), Ok(()));
    // The second one is left, and is found now.
    assert_eq!(my_fs.ls(), vec![name]);
    assert_eq!(my_fs.read(name, 1), Ok([0; BLOCK_SIZE]));
    assert_eq!(my_fs.read(name, 0), Ok([0; BLOCK_SIZE]));
}

#[test]
fn listing_follows_slot_order() {
    let mut my_fs = fresh();
    let names: Vec<[u8; 8]> =
        ["zeta", "alpha", "mid", "beta"].iter().map(|n| get_filename_array(n)).collect();
    for name in &names {
        my_fs.create_file(*name, 1).unwrap();
    }
    assert_eq!(my_fs.ls(), names);
    my_fs.delete_file(names[1]).unwrap();
    assert_eq!(my_fs.ls(), vec![names[0], names[2], names[3]]);
    my_fs.create_file(get_filename_array("new"), 0).unwrap();
    assert_eq!(my_fs.ls(), vec![names[0], get_filename_array("new"), names[2], names[3]]);
    assert_eq!(fresh().ls(), Vec::<[u8; 8]>::new());
}

#[test]
fn closing_hands_back_the_image_and_reopening_finds_the_files() {
    let name = get_filename_array("kept");
    let mut my_fs = fresh();
    my_fs.create_file(name, 2).unwrap();
    my_fs.write(name, 1, &[3; BLOCK_SIZE]).unwrap();
    let snapshot = my_fs.as_bytes().clone();
    let disk = my_fs.close_disk();
    assert_eq!(disk, snapshot);
    let reopened = MyFileSystem::new(disk).unwrap();
    assert_eq!(reopened.ls(), vec![name]);
    assert_eq!(reopened.read(name, 1), Ok([3; BLOCK_SIZE]));
}
