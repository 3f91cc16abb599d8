use cs377_filesystem::command::{
    do_file_op, filename_from_bytes, get_filename_array, is_space_byte, next_word,
    parse_file_op, parse_u8, run_file_op, FileOp, LineError, OpFailure, Output, DIGIT_NINE,
    DIGIT_ZERO, LETTER_CREATE, LETTER_DELETE, LETTER_LIST, LETTER_READ, LETTER_WRITE, PLUS_SIGN,
    WRITE_FILL,
};
use cs377_filesystem::create_fs::format_disk;
use cs377_filesystem::layout::BLOCK_SIZE;
use cs377_filesystem::myfs::MyFileSystem;
use cs377_filesystem::state::FsError;

fn fresh() -> MyFileSystem {
    MyFileSystem::new(format_disk()).unwrap()
}

#[test]
fn a_name_is_packed_into_eight_bytes() {
    assert_eq!(get_filename_array("testfile"), [116, 101, 115, 116, 102, 105, 108, 101]);
    assert_eq!(get_filename_array("file1"), [102, 105, 108, 101, 49, 0, 0, 0]);
    assert_eq!(get_filename_array(""), [0; 8]);
    assert_eq!(get_filename_array("a"), [97, 0, 0, 0, 0, 0, 0, 0]);
    assert_eq!(get_filename_array("longer_than_eight"), [108, 111, 110, 103, 101, 114, 95, 116]);
    // Bytes count, not characters: "é" is two bytes.
    assert_eq!(get_filename_array("é"), [0xc3, 0xa9, 0, 0, 0, 0, 0, 0]);
    assert_eq!(filename_from_bytes(&[1, 2, 3]), [1, 2, 3, 0, 0, 0, 0, 0]);
    assert_eq!(filename_from_bytes(&[9; 20]), [9; 8]);
}

#[test]
fn whitespace_is_space_tab_and_the_line_ends() {
    for byte in 0..=255u8 {
        assert_eq!(is_space_byte(byte), byte.is_ascii_whitespace());
    }
}

#[test]
fn words_are_found_one_after_the_other() {
    let line = b"  C  name\t12 \r\n";
    assert_eq!(next_word(line, 0), Some((2, 3)));
    assert_eq!(next_word(line, 3), Some((5, 9)));
    assert_eq!(next_word(line, 9), Some((10, 12)));
    assert_eq!(next_word(line, 12), None);
    assert_eq!(next_word(line, 6), Some((6, 9)));
    assert_eq!(next_word(line, line.len()), None);
    assert_eq!(next_word(b"", 0), None);
    assert_eq!(next_word(b"word", 0), Some((0, 4)));
    assert_eq!(next_word(b" \t\n\x0c\r", 0), None);
    // A vertical tab parts no words.
    assert_eq!(next_word(b"a\x0bb c", 0), Some((0, 3)));
}

#[test]
fn numbers_below_256_are_read() {
    assert_eq!(parse_u8(b"0"), Some(0));
    assert_eq!(parse_u8(b"8"), Some(8));
    assert_eq!(parse_u8(b"12"), Some(12));
    assert_eq!(parse_u8(b"255"), Some(255));
    assert_eq!(parse_u8(b"+7"), Some(7));
    assert_eq!(parse_u8(b"007"), Some(7));
    assert_eq!(parse_u8(b"0000000000000000000000255"), Some(255));
    assert_eq!(parse_u8(b"256"), None);
    assert_eq!(parse_u8(b"1000"), None);
    assert_eq!(parse_u8(b"99999999999999999999999"), None);
    assert_eq!(parse_u8(b""), None);
    assert_eq!(parse_u8(b"+"), None);
    assert_eq!(parse_u8(b"-1"), None);
    assert_eq!(parse_u8(b"-0"), None);
    assert_eq!(parse_u8(b"++1"), None);
    assert_eq!(parse_u8(b"1a"), None);
    assert_eq!(parse_u8(b"a1"), None);
    assert_eq!(parse_u8(b"1_0"), None);
    assert_eq!(parse_u8(b"0x10"), None);
    assert_eq!(parse_u8(b"2561x"), None);
}

#[test]
fn numbers_are_read_as_the_standard_library_reads_them() {
    let words = [
        "0", "1", "9", "10", "99", "100", "255", "256", "300", "+0", "+255", "+256", "-1", "+",
        "-", "", "00", "0255", "25 5", "2.5", "1e2", "٣", "12a", " 12", "12 ", "+-1", "4294967296",
    ];
    for word in words {
        assert_eq!(parse_u8(word.as_bytes()), word.parse::<u8>().ok(), "{:?}", word);
    }
    for number in 0..=255u8 {
        assert_eq!(parse_u8(format!("{}", number).as_bytes()), Some(number));
    }
    for number in 256..2000u32 {
        assert_eq!(parse_u8(format!("{}", number).as_bytes()), None);
    }
}

#[test]
fn lines_are_read_as_operations() {
    let name = get_filename_array("file1");
    assert_eq!(parse_file_op("C file1 8"), Ok(FileOp::Create { filename: name, size: 8 }));
    assert_eq!(parse_file_op("W file1 2"), Ok(FileOp::Write { filename: name, block_num: 2 }));
    assert_eq!(parse_file_op("R file1 7"), Ok(FileOp::Read { filename: name, block_num: 7 }));
    assert_eq!(parse_file_op("D file1"), Ok(FileOp::Delete { filename: name }));
    assert_eq!(parse_file_op("L"), Ok(FileOp::List));
    // Only the first letter of the first word counts, and more words than
    // needed do no harm.
    assert_eq!(parse_file_op("Create file1 8 now"), Ok(FileOp::Create { filename: name, size: 8 }));
    assert_eq!(parse_file_op("  \tList all  "), Ok(FileOp::List));
    assert_eq!(parse_file_op("Delete file1 9 9"), Ok(FileOp::Delete { filename: name }));
    assert_eq!(
        parse_file_op("C averylongname 200"),
        Ok(FileOp::Create { filename: get_filename_array("averylon"), size: 200 })
    );
    // Letters are told apart by case, and other lines do nothing.
    assert_eq!(parse_file_op("c file1 8"), Ok(FileOp::Skip));
    assert_eq!(parse_file_op("# a remark"), Ok(FileOp::Skip));
    assert_eq!(parse_file_op("X"), Ok(FileOp::Skip));
}

#[test]
fn lines_that_are_no_operation_are_refused() {
    assert_eq!(parse_file_op(""), Err(LineError::NoOperation));
    assert_eq!(parse_file_op("   \t "), Err(LineError::NoOperation));
    assert_eq!(parse_file_op("C"), Err(LineError::MissingArgument));
    assert_eq!(parse_file_op("C file1"), Err(LineError::MissingArgument));
    assert_eq!(parse_file_op("W file1 "), Err(LineError::MissingArgument));
    assert_eq!(parse_file_op("R"), Err(LineError::MissingArgument));
    assert_eq!(parse_file_op("D"), Err(LineError::MissingArgument));
    assert_eq!(parse_file_op("D   "), Err(LineError::MissingArgument));
    assert_eq!(parse_file_op("C file1 eight"), Err(LineError::BadNumber));
    assert_eq!(parse_file_op("C file1 256"), Err(LineError::BadNumber));
    assert_eq!(parse_file_op("R file1 -1"), Err(LineError::BadNumber));
    assert_eq!(parse_file_op("W file1 1.0"), Err(LineError::BadNumber));
}

#[test]
fn a_script_is_carried_out_line_by_line() {
    let mut my_fs = fresh();
    assert_eq!(do_file_op(&mut my_fs, "C file1 3"), Ok(Output::Done));
    assert_eq!(do_file_op(&mut my_fs, "C file2 1"), Ok(Output::Done));
    assert_eq!(do_file_op(&mut my_fs, "W file1 2"), Ok(Output::Done));
    assert_eq!(
        do_file_op(&mut my_fs, "L"),
        Ok(Output::Names(vec![get_filename_array("file1"), get_filename_array("file2")]))
    );
    assert_eq!(do_file_op(&mut my_fs, "R file1 2"), Ok(Output::Block([b'1'; BLOCK_SIZE])));
    assert_eq!(do_file_op(&mut my_fs, "R file1 0"), Ok(Output::Block([0; BLOCK_SIZE])));
    assert_eq!(do_file_op(&mut my_fs, "D file1"), Ok(Output::Done));
    assert_eq!(do_file_op(&mut my_fs, "L"), Ok(Output::Names(vec![get_filename_array("file2")])));
    assert_eq!(do_file_op(&mut my_fs, "nothing to do"), Ok(Output::Done));
    assert_eq!(WRITE_FILL, b'1');
    assert_eq!(my_fs.read(get_filename_array("file2"), 0), Ok([0; BLOCK_SIZE]));
}

#[test]
fn a_failing_line_says_what_failed_and_changes_nothing() {
    let mut my_fs = fresh();
    do_file_op(&mut my_fs, "C file1 3").unwrap();
    let before = my_fs.as_bytes().clone();
    let failures = [
        ("C big 9", OpFailure::Create(FsError::InvalidSize)),
        ("W nofile 0", OpFailure::Write(FsError::NotFound)),
        ("W file1 3", OpFailure::Write(FsError::OutOfRange)),
        ("R nofile 0", OpFailure::Read(FsError::NotFound)),
        ("R file1 3", OpFailure::Read(FsError::OutOfRange)),
        ("D nofile", OpFailure::Delete(FsError::NotFound)),
        ("", OpFailure::Line(LineError::NoOperation)),
        ("C file2", OpFailure::Line(LineError::MissingArgument)),
        ("R file1 x", OpFailure::Line(LineError::BadNumber)),
    ];
    for (line, failure) in failures {
        assert_eq!(do_file_op(&mut my_fs, line), Err(failure), "{:?}", line);
        assert_eq!(my_fs.as_bytes(), &before);
    }
    for _ in 0..15 {
        do_file_op(&mut my_fs, "C fill 8").unwrap();
    }
    assert_eq!(
        do_file_op(&mut my_fs, "C more 8"),
        Err(OpFailure::Create(FsError::InsufficientSpace))
    );
    assert_eq!(do_file_op(&mut my_fs, "C more 0"), Err(OpFailure::Create(FsError::NoFreeInode)));
}

#[test]
fn an_operation_is_carried_out() {
    let name = get_filename_array("op");
    let mut my_fs = fresh();
    assert_eq!(
        run_file_op(&mut my_fs, &FileOp::Create { filename: name, size: 2 }),
        Ok(Output::Done)
    );
    assert_eq!(
        run_file_op(&mut my_fs, &FileOp::Write { filename: name, block_num: 1 }),
        Ok(Output::Done)
    );
    assert_eq!(
        run_file_op(&mut my_fs, &FileOp::Read { filename: name, block_num: 1 }),
        Ok(Output::Block([49; BLOCK_SIZE]))
    );
    assert_eq!(run_file_op(&mut my_fs, &FileOp::List), Ok(Output::Names(vec![name])));
    assert_eq!(run_file_op(&mut my_fs, &FileOp::Skip), Ok(Output::Done));
    assert_eq!(run_file_op(&mut my_fs, &FileOp::Delete { filename: name }), Ok(Output::Done));
    assert_eq!(
        run_file_op(&mut my_fs, &FileOp::Delete { filename: name }),
        Err(OpFailure::Delete(FsError::NotFound))
    );
    assert_eq!(run_file_op(&mut my_fs, &FileOp::List), Ok(Output::Names(vec![])));
}

#[test]
fn words_are_those_between_ascii_whitespace() {
    let lines = [
        "C file1 8",
        "",
        " ",
        "\t\tD\u{b}x  y\r\n",
        "one",
        "  lead and trail  ",
        "tab\tfeed\u{c}cr\rlf\nend",
        "non\u{a0}breaking é space",
        "a b c d e f g h i j",
    ];
    for line in lines {
        let bytes = line.as_bytes();
        let mut found: Vec<&[u8]> = Vec::new();
        let mut at = 0;
        while let Some((from, to)) = next_word(bytes, at) {
            assert!(at <= from && from < to && to <= bytes.len());
            found.push(&bytes[from..to]);
            at = to;
        }
        let expected: Vec<&[u8]> = line.split_ascii_whitespace().map(|w| w.as_bytes()).collect();
        assert_eq!(found, expected, "{:?}", line);
    }
}

#[test]
fn the_letters_and_digits_are_ascii() {
    assert_eq!(LETTER_CREATE, b'C');
    assert_eq!(LETTER_WRITE, b'W');
    assert_eq!(LETTER_LIST, b'L');
    assert_eq!(LETTER_READ, b'R');
    assert_eq!(LETTER_DELETE, b'D');
    assert_eq!(DIGIT_ZERO, b'0');
    assert_eq!(DIGIT_NINE, b'9');
    assert_eq!(PLUS_SIGN, b'+');
    assert_eq!(WRITE_FILL, b'1');
}
