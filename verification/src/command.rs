//! The line-oriented commands that drive a filesystem.
//!
//! A line is a sequence of words parted by ASCII whitespace. Its first word
//! names the operation by its first letter: `C name size` creates a file,
//! `W name block` writes a block of the digit `1` to it, `R name block` reads
//! a block, `D name` deletes the file and `L` lists the names. A line whose
//! first letter is none of these does nothing. Words past those that the
//! operation needs are ignored.

use vstd::prelude::*;
use vstd::slice::slice_subrange;
use vstd::string::StringSliceAdditionalSpecFns;
use crate::layout::{BLOCK_SIZE, NAME_LEN};
use crate::myfs::MyFileSystem;
use crate::state::{FsError, FsState};

verus! {

/// The letter `C`, which creates a file.
pub const LETTER_CREATE: u8 = 0x43;

/// The letter `W`, which writes a block.
pub const LETTER_WRITE: u8 = 0x57;

/// The letter `L`, which lists the names.
pub const LETTER_LIST: u8 = 0x4c;

/// The letter `R`, which reads a block.
pub const LETTER_READ: u8 = 0x52;

/// The letter `D`, which deletes a file.
pub const LETTER_DELETE: u8 = 0x44;

/// The digit `0`.
pub const DIGIT_ZERO: u8 = 0x30;

/// The digit `9`.
pub const DIGIT_NINE: u8 = 0x39;

/// The sign `+`.
pub const PLUS_SIGN: u8 = 0x2b;

/// The byte that a `W` line fills the block with: the digit `1`.
pub const WRITE_FILL: u8 = 0x31;

/// The name field that stands for a name given as bytes: its first 8 bytes,
/// padded with zeros where it is shorter.
pub open spec fn name_field(bytes: Seq<u8>) -> Seq<u8> {
    Seq::new(
        NAME_LEN as nat,
        |i: int|
            if i < bytes.len() {
                bytes[i]
            } else {
                0u8
            },
    )
}

/// The byte is ASCII whitespace: space, tab, line feed, form feed or carriage
/// return.
pub open spec fn is_space(byte: u8) -> bool {
    byte == 0x20 || byte == 0x09 || byte == 0x0a || byte == 0x0c || byte == 0x0d
}

/// The number of bytes before the first whitespace.
pub open spec fn word_len(line: Seq<u8>) -> int
    decreases line.len(),
{
    if line.len() == 0 || is_space(line[0]) {
        0
    } else {
        1 + word_len(line.drop_first())
    }
}

/// The first word of a line that starts with one is not empty and not longer
/// than the line.
pub proof fn lemma_word_len_bounds(line: Seq<u8>)
    ensures
        0 <= word_len(line) <= line.len(),
        line.len() > 0 && !is_space(line[0]) ==> word_len(line) > 0,
    decreases line.len(),
{
    if line.len() > 0 && !is_space(line[0]) {
        lemma_word_len_bounds(line.drop_first());
    }
}

/// The words of a line: its longest runs of bytes that are not whitespace,
/// from left to right.
pub open spec fn words(line: Seq<u8>) -> Seq<Seq<u8>>
    decreases line.len(),
{
    if line.len() == 0 {
        Seq::empty()
    } else if is_space(line[0]) {
        words(line.drop_first())
    } else {
        proof {
            lemma_word_len_bounds(line);
        }
        seq![line.take(word_len(line))] + words(line.skip(word_len(line)))
    }
}

/// The number that a run of decimal digits stands for.
pub open spec fn digits_value(digits: Seq<u8>) -> nat
    decreases digits.len(),
{
    if digits.len() == 0 {
        0
    } else {
        10 * digits_value(digits.drop_last()) + (digits.last() - DIGIT_ZERO) as nat
    }
}

/// Every byte is a decimal digit.
pub open spec fn all_digits(digits: Seq<u8>) -> bool {
    forall|i: int| 0 <= i < digits.len() ==> DIGIT_ZERO <= #[trigger] digits[i] <= DIGIT_NINE
}

/// The number below 256 that a word stands for: an optional `+`, then one or
/// more decimal digits.
pub open spec fn decimal_u8(word: Seq<u8>) -> Option<u8> {
    let digits = if word.len() > 0 && word[0] == PLUS_SIGN {
        word.drop_first()
    } else {
        word
    };
    if digits.len() > 0 && all_digits(digits) && digits_value(digits) <= u8::MAX {
        Some(digits_value(digits) as u8)
    } else {
        None
    }
}

/// One operation of a script.
#[derive(Clone, Copy, Debug, PartialEq, Eq)]
pub enum FileOp {
    Create { filename: [u8; NAME_LEN], size: u8 },
    Write { filename: [u8; NAME_LEN], block_num: u8 },
    List,
    Read { filename: [u8; NAME_LEN], block_num: u8 },
    Delete { filename: [u8; NAME_LEN] },
    /// A line that names no operation.
    Skip,
}

/// The mathematical content of an operation.
pub enum OpView {
    Create { name: Seq<u8>, size: u8 },
    Write { name: Seq<u8>, block_num: u8 },
    List,
    Read { name: Seq<u8>, block_num: u8 },
    Delete { name: Seq<u8> },
    Skip,
}

impl View for FileOp {
    type V = OpView;

    open spec fn view(&self) -> OpView {
        match *self {
            FileOp::Create { filename, size } => OpView::Create { name: filename@, size },
            FileOp::Write { filename, block_num } => OpView::Write { name: filename@, block_num },
            FileOp::List => OpView::List,
            FileOp::Read { filename, block_num } => OpView::Read { name: filename@, block_num },
            FileOp::Delete { filename } => OpView::Delete { name: filename@ },
            FileOp::Skip => OpView::Skip,
        }
    }
}

/// Why a line is no operation.
#[derive(Clone, Copy, Debug, PartialEq, Eq, Structural)]
pub enum LineError {
    /// The line has no word.
    NoOperation,
    /// The operation needs a word that the line does not have.
    MissingArgument,
    /// The word for the size or the block is no number below 256.
    BadNumber,
}

/// Why a line was not carried out.
#[derive(Clone, Copy, Debug, PartialEq, Eq, Structural)]
pub enum OpFailure {
    /// The line is no operation.
    Line(LineError),
    /// The file was not created.
    Create(FsError),
    /// The block was not written.
    Write(FsError),
    /// The block was not read.
    Read(FsError),
    /// The file was not deleted.
    Delete(FsError),
}

/// What an operation hands back for printing.
#[derive(Debug, PartialEq, Eq)]
pub enum Output {
    /// Nothing to print.
    Done,
    /// The names of the files, in slot order.
    Names(Vec<[u8; NAME_LEN]>),
    /// The content of a block.
    Block([u8; BLOCK_SIZE]),
}

/// The mathematical content of an output.
pub enum OutputView {
    Done,
    Names(Seq<Seq<u8>>),
    Block(Seq<u8>),
}

impl View for Output {
    type V = OutputView;

    open spec fn view(&self) -> OutputView {
        match *self {
            Output::Done => OutputView::Done,
            Output::Names(names) => OutputView::Names(
                names@.map_values(|name: [u8; NAME_LEN]| name@),
            ),
            Output::Block(block) => OutputView::Block(block@),
        }
    }
}

/// The name and the number that an operation takes from the words after its
/// own.
pub open spec fn name_and_number(args: Seq<Seq<u8>>) -> Result<(Seq<u8>, u8), LineError> {
    if args.len() < 2 {
        Err(LineError::MissingArgument)
    } else {
        match decimal_u8(args[1]) {
            None => Err(LineError::BadNumber),
            Some(number) => Ok((name_field(args[0]), number)),
        }
    }
}

/// The operation that a line stands for.
pub open spec fn parse_line(line: Seq<u8>) -> Result<OpView, LineError> {
    let all = words(line);
    if all.len() == 0 {
        Err(LineError::NoOperation)
    } else {
        let letter = all[0][0];
        let args = all.drop_first();
        if letter == LETTER_CREATE {
            match name_and_number(args) {
                Ok((name, size)) => Ok(OpView::Create { name, size }),
                Err(e) => Err(e),
            }
        } else if letter == LETTER_WRITE {
            match name_and_number(args) {
                Ok((name, block_num)) => Ok(OpView::Write { name, block_num }),
                Err(e) => Err(e),
            }
        } else if letter == LETTER_LIST {
            Ok(OpView::List)
        } else if letter == LETTER_READ {
            match name_and_number(args) {
                Ok((name, block_num)) => Ok(OpView::Read { name, block_num }),
                Err(e) => Err(e),
            }
        } else if letter == LETTER_DELETE {
            if args.len() < 1 {
                Err(LineError::MissingArgument)
            } else {
                Ok(OpView::Delete { name: name_field(args[0]) })
            }
        } else {
            Ok(OpView::Skip)
        }
    }
}

/// What carrying out a line does to a state and hands back, or why the line
/// was not carried out.
pub open spec fn run_line(state: FsState, line: Seq<u8>) -> Result<
    (FsState, OutputView),
    OpFailure,
> {
    match parse_line(line) {
        Err(e) => Err(OpFailure::Line(e)),
        Ok(op) => op.run(state),
    }
}

/// The block that a `W` line writes.
pub open spec fn write_payload() -> Seq<u8> {
    Seq::new(BLOCK_SIZE as nat, |i: int| WRITE_FILL)
}

impl OpView {
    /// The state after the operation and what it hands back, or why it
    /// failed.
    pub open spec fn run(self, state: FsState) -> Result<(FsState, OutputView), OpFailure> {
        match self {
            OpView::Create { name, size } => match state.create(name, size) {
                Ok(after) => Ok((after, OutputView::Done)),
                Err(e) => Err(OpFailure::Create(e)),
            },
            OpView::Write { name, block_num } => match state.write(
                name,
                block_num,
                write_payload(),
            ) {
                Ok(after) => Ok((after, OutputView::Done)),
                Err(e) => Err(OpFailure::Write(e)),
            },
            OpView::List => Ok((state, OutputView::Names(state.list()))),
            OpView::Read { name, block_num } => match state.read(name, block_num) {
                Ok(data) => Ok((state, OutputView::Block(data))),
                Err(e) => Err(OpFailure::Read(e)),
            },
            OpView::Delete { name } => match state.delete(name) {
                Ok(after) => Ok((after, OutputView::Done)),
                Err(e) => Err(OpFailure::Delete(e)),
            },
            OpView::Skip => Ok((state, OutputView::Done)),
        }
    }

    /// The operation changes nothing whatever its outcome.
    pub open spec fn read_only(self) -> bool {
        self is List || self is Read || self is Skip
    }
}

/// A run of `n` bytes without whitespace, ended by whitespace or by the end of
/// the line, is the first word.
pub proof fn lemma_word_len(line: Seq<u8>, n: int)
    requires
        0 <= n <= line.len(),
        forall|j: int| 0 <= j < n ==> !is_space(#[trigger] line[j]),
        n == line.len() || is_space(line[n]),
    ensures
        word_len(line) == n,
    decreases n,
{
    if n > 0 {
        let rest = line.drop_first();
        assert forall|j: int| 0 <= j < n - 1 implies !is_space(#[trigger] rest[j]) by {
            assert(rest[j] == line[j + 1]);
        }
        lemma_word_len(rest, n - 1);
    }
}

/// Whether the byte is ASCII whitespace.
pub fn is_space_byte(byte: u8) -> (space: bool)
    ensures
        space == is_space(byte),
{
    byte == 0x20 || byte == 0x09 || byte == 0x0a || byte == 0x0c || byte == 0x0d
}

/// Finds the first word at or after `start`: the range of its bytes.
pub fn next_word(line: &[u8], start: usize) -> (found: Option<(usize, usize)>)
    requires
        start <= line@.len(),
    ensures
        match found {
            None => words(line@.skip(start as int)).len() == 0,
            Some((from, to)) => start <= from < to <= line@.len() && words(
                line@.skip(start as int),
            ) == seq![line@.subrange(from as int, to as int)] + words(line@.skip(to as int)),
        },
{
    let mut from: usize = start;
    while from < line.len() && is_space_byte(line[from])
        invariant
            start <= from <= line@.len(),
            words(line@.skip(start as int)) == words(line@.skip(from as int)),
        decreases line@.len() - from,
    {
        assert(line@.skip(from as int).drop_first() =~= line@.skip(from + 1));
        from += 1;
    }
    if from == line.len() {
        return None;
    }
    let mut to: usize = from + 1;
    while to < line.len() && !is_space_byte(line[to])
        invariant
            from < to <= line@.len(),
            forall|j: int| from <= j < to ==> !is_space(#[trigger] line@[j]),
        decreases line@.len() - to,
    {
        to += 1;
    }
    proof {
        let rest = line@.skip(from as int);
        assert forall|j: int| 0 <= j < to - from implies !is_space(#[trigger] rest[j]) by {
            assert(rest[j] == line@[from + j]);
        }
        lemma_word_len(rest, to - from);
        assert(rest.take(to - from) =~= line@.subrange(from as int, to as int));
        assert(rest.skip(to - from) =~= line@.skip(to as int));
    }
    Some((from, to))
}

/// Adding a digit does not make the number smaller.
pub proof fn lemma_digits_value_grows(digits: Seq<u8>, n: int)
    requires
        0 <= n <= digits.len(),
        all_digits(digits),
    ensures
        digits_value(digits.take(n)) <= digits_value(digits),
    decreases digits.len() - n,
{
    if n == digits.len() {
        assert(digits.take(n) =~= digits);
    } else {
        lemma_digits_value_grows(digits.drop_last(), n);
        assert(digits.drop_last().take(n) =~= digits.take(n));
    }
}

/// Reads a word as a number below 256: an optional `+`, then decimal digits.
pub fn parse_u8(word: &[u8]) -> (number: Option<u8>)
    ensures
        number == decimal_u8(word@),
{
    let start: usize = if word.len() > 0 && word[0] == PLUS_SIGN {
        1
    } else {
        0
    };
    if start == word.len() {
        return None;
    }
    let ghost digits = if word@[0] == PLUS_SIGN {
        word@.drop_first()
    } else {
        word@
    };
    assert(digits =~= word@.skip(start as int));
    let mut value: u32 = 0;
    let mut i: usize = start;
    assert(digits.take(0) =~= Seq::<u8>::empty());
    while i < word.len()
        invariant
            start <= i <= word@.len(),
            word@.len() > 0,
            digits == word@.skip(start as int),
            digits == if word@[0] == PLUS_SIGN {
                word@.drop_first()
            } else {
                word@
            },
            all_digits(digits.take(i - start)),
            value == digits_value(digits.take(i - start)),
            value <= u8::MAX,
        decreases word@.len() - i,
    {
        let byte = word[i];
        if byte < DIGIT_ZERO || byte > DIGIT_NINE {
            assert(digits[i - start] == byte);
            return None;
        }
        proof {
            let longer = digits.take(i - start + 1);
            assert(longer.drop_last() =~= digits.take(i - start));
            assert(longer.last() == byte);
            assert forall|j: int| 0 <= j < longer.len() implies DIGIT_ZERO <= #[trigger] longer[j]
                <= DIGIT_NINE by {
                if j < i - start {
                    assert(longer[j] == digits.take(i - start)[j]);
                }
            }
        }
        value = value * 10 + (byte - DIGIT_ZERO) as u32;
        if value > 255 {
            proof {
                if all_digits(digits) {
                    lemma_digits_value_grows(digits, i - start + 1);
                }
            }
            return None;
        }
        i += 1;
    }
    assert(digits.take(i - start) =~= digits);
    Some(value as u8)
}

/// Packs the first 8 bytes of a name into a name field.
pub fn filename_from_bytes(bytes: &[u8]) -> (filename_array: [u8; NAME_LEN])
    ensures
        filename_array@ == name_field(bytes@),
{
    let mut filename_array: [u8; NAME_LEN] = [0u8; NAME_LEN];
    let count = if bytes.len() < NAME_LEN {
        bytes.len()
    } else {
        NAME_LEN
    };
    let mut i: usize = 0;
    while i < count
        invariant
            i <= count <= NAME_LEN,
            count <= bytes@.len(),
            forall|k: int| 0 <= k < i ==> filename_array@[k] == bytes@[k],
            forall|k: int| i <= k < NAME_LEN ==> filename_array@[k] == 0,
        decreases count - i,
    {
        filename_array[i] = bytes[i];
        i += 1;
    }
    assert(filename_array@ =~= name_field(bytes@));
    filename_array
}

/// Packs the first 8 bytes of `filename` into a name field.
pub fn get_filename_array(filename: &str) -> (filename_array: [u8; NAME_LEN])
    ensures
        filename_array@ == name_field(filename.spec_bytes()),
{
    filename_from_bytes(filename.as_bytes())
}

/// Reads the name and the number that follow an operation's word, which ends
/// at `after`.
fn parse_name_and_number(line: &[u8], after: usize) -> (res: Result<
    ([u8; NAME_LEN], u8),
    LineError,
>)
    requires
        after <= line@.len(),
    ensures
        match name_and_number(words(line@.skip(after as int))) {
            Ok((name, number)) => res is Ok && res->Ok_0.0@ == name && res->Ok_0.1 == number,
            Err(e) => res == Err::<([u8; NAME_LEN], u8), LineError>(e),
        },
{
    let (name_from, name_to) = match next_word(line, after) {
        None => {
            return Err(LineError::MissingArgument);
        },
        Some(range) => range,
    };
    let (number_from, number_to) = match next_word(line, name_to) {
        None => {
            return Err(LineError::MissingArgument);
        },
        Some(range) => range,
    };
    let filename = filename_from_bytes(slice_subrange(line, name_from, name_to));
    match parse_u8(slice_subrange(line, number_from, number_to)) {
        None => Err(LineError::BadNumber),
        Some(number) => Ok((filename, number)),
    }
}

/// Reads a line as an operation.
pub fn parse_file_op(line: &str) -> (res: Result<FileOp, LineError>)
    ensures
        match parse_line(line.spec_bytes()) {
            Ok(op) => res is Ok && res->Ok_0@ == op,
            Err(e) => res == Err::<FileOp, LineError>(e),
        },
{
    let bytes = line.as_bytes();
    let (op_from, op_to) = match next_word(bytes, 0) {
        None => {
            assert(bytes@.skip(0) =~= bytes@);
            return Err(LineError::NoOperation);
        },
        Some(range) => range,
    };
    proof {
        assert(bytes@.skip(0) =~= bytes@);
        let all = words(bytes@);
        assert(all.drop_first() =~= words(bytes@.skip(op_to as int)));
    }
    let letter = bytes[op_from];
    if letter == LETTER_CREATE {
        match parse_name_and_number(bytes, op_to) {
            Ok((filename, size)) => Ok(FileOp::Create { filename, size }),
            Err(e) => Err(e),
        }
    } else if letter == LETTER_WRITE {
        match parse_name_and_number(bytes, op_to) {
            Ok((filename, block_num)) => Ok(FileOp::Write { filename, block_num }),
            Err(e) => Err(e),
        }
    } else if letter == LETTER_LIST {
        Ok(FileOp::List)
    } else if letter == LETTER_READ {
        match parse_name_and_number(bytes, op_to) {
            Ok((filename, block_num)) => Ok(FileOp::Read { filename, block_num }),
            Err(e) => Err(e),
        }
    } else if letter == LETTER_DELETE {
        match next_word(bytes, op_to) {
            None => Err(LineError::MissingArgument),
            Some((name_from, name_to)) => Ok(
                FileOp::Delete {
                    filename: filename_from_bytes(slice_subrange(bytes, name_from, name_to)),
                },
            ),
        }
    } else {
        Ok(FileOp::Skip)
    }
}

/// Carries out one operation on a filesystem.
pub fn run_file_op(my_fs: &mut MyFileSystem, op: &FileOp) -> (res: Result<Output, OpFailure>)
    ensures
        final(my_fs).wf(),
        match op@.run(old(my_fs)@) {
            Ok((after, output)) => res is Ok && res->Ok_0@ == output && final(my_fs)@ == after,
            Err(e) => res == Err::<Output, OpFailure>(e) && *final(my_fs) == *old(my_fs),
        },
        op@.read_only() ==> *final(my_fs) == *old(my_fs),
{
    proof {
        use_type_invariant(&*my_fs);
    }
    match *op {
        FileOp::Create { filename, size } => match my_fs.create_file(filename, size) {
            Ok(()) => Ok(Output::Done),
            Err(e) => Err(OpFailure::Create(e)),
        },
        FileOp::Write { filename, block_num } => {
            let buff: [u8; BLOCK_SIZE] = [WRITE_FILL;BLOCK_SIZE];
            assert(buff@ =~= write_payload());
            match my_fs.write(filename, block_num, &buff) {
                Ok(()) => Ok(Output::Done),
                Err(e) => Err(OpFailure::Write(e)),
            }
        },
        FileOp::List => Ok(Output::Names(my_fs.ls())),
        FileOp::Read { filename, block_num } => match my_fs.read(filename, block_num) {
            Ok(block) => Ok(Output::Block(block)),
            Err(e) => Err(OpFailure::Read(e)),
        },
        FileOp::Delete { filename } => match my_fs.delete_file(filename) {
            Ok(()) => Ok(Output::Done),
            Err(e) => Err(OpFailure::Delete(e)),
        },
        FileOp::Skip => Ok(Output::Done),
    }
}

/// Reads a line and carries out the operation that it stands for. A line
/// that is no operation, and an operation that fails, leave the filesystem
/// as it was.
pub fn do_file_op(my_fs: &mut MyFileSystem, line: &str) -> (res: Result<Output, OpFailure>)
    ensures
        final(my_fs).wf(),
        match run_line(old(my_fs)@, line.spec_bytes()) {
            Ok((after, output)) => res is Ok && res->Ok_0@ == output && final(my_fs)@ == after,
            Err(e) => res == Err::<Output, OpFailure>(e) && *final(my_fs) == *old(my_fs),
        },
{
    proof {
        use_type_invariant(&*my_fs);
    }
    match parse_file_op(line) {
        Err(e) => Err(OpFailure::Line(e)),
        Ok(op) => run_file_op(my_fs, &op),
    }
}

} // verus!
