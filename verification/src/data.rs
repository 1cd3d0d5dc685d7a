//! Provides utilities for reading and writing points.
//!
//! A point stream is a run of records of twelve bytes: `x`, `y` and the
//! height, each a single-precision value in little-endian byte order. The
//! stream has no header and no separators. This module frames the stream
//! and keeps each value as the 32 bits that stand for it.

use vstd::prelude::*;
use vstd::string::StringSliceAdditionalSpecFns;

verus! {

/// Length of a record in bytes.
pub const RECORD_LEN: usize = 12;

/// `std::io::Error`, the failure of an I/O operation of std. The library
/// does no I/O: it takes such a value from its caller in `ImportError::Io`
/// and hands it on, and claims nothing of what the value holds.
#[verifier::external_type_specification]
#[verifier::external_body]
pub struct ExIoError(std::io::Error);

/// The error type that can occur during data import.
///
/// Error can originate from underlying I/O operations or
/// from being unable to parse the data because of invalid format.
#[derive(Debug)]
pub enum ImportError {
    /// An I/O operation failed.
    Io(std::io::Error),
    /// Three components were expected and only this many were found.
    InvalidData(u8),
}

pub type ImportResult = Result<(), ImportError>;

/// A point of the stream: the bit patterns of its three values.
#[derive(Debug, Clone, Copy, PartialEq, Eq)]
pub struct Record {
    pub x: u32,
    pub y: u32,
    pub data: u32,
}

/// The four bytes of a word, least significant first.
pub open spec fn word_bytes(word: u32) -> Seq<u8> {
    seq![
        (word % 256) as u8,
        (word / 256 % 256) as u8,
        (word / 65536 % 256) as u8,
        (word / 16777216) as u8,
    ]
}

/// The word that four bytes spell, least significant first.
pub open spec fn word_of(bytes: Seq<u8>) -> u32
    recommends
        bytes.len() == 4,
{
    (bytes[0] + 256 * bytes[1] + 65536 * bytes[2] + 16777216 * bytes[3]) as u32
}

/// The twelve bytes of a record: `x`, `y`, then the height.
pub open spec fn record_bytes(record: Record) -> Seq<u8> {
    word_bytes(record.x) + word_bytes(record.y) + word_bytes(record.data)
}

/// The record that twelve bytes spell.
pub open spec fn record_of(bytes: Seq<u8>) -> Record
    recommends
        bytes.len() == RECORD_LEN,
{
    Record {
        x: word_of(bytes.subrange(0, 4)),
        y: word_of(bytes.subrange(4, 8)),
        data: word_of(bytes.subrange(8, 12)),
    }
}

/// The stream of some records: their bytes, one record after the other.
pub open spec fn stream_of(records: Seq<Record>) -> Seq<u8>
    decreases records.len(),
{
    if records.len() == 0 {
        Seq::empty()
    } else {
        stream_of(records.drop_last()) + record_bytes(records.last())
    }
}

/// The records of a stream that ends on a record boundary.
pub open spec fn records_of(bytes: Seq<u8>) -> Seq<Record>
    recommends
        bytes.len() % 12 == 0,
{
    Seq::new(
        bytes.len() / 12,
        |i: int| record_of(bytes.subrange(RECORD_LEN * i, RECORD_LEN * i + RECORD_LEN)),
    )
}

/// A word is read back from its bytes.
pub proof fn lemma_word_round_trip(word: u32)
    ensures
        word_bytes(word).len() == 4,
        word_of(word_bytes(word)) == word,
{
}

/// A record is read back from its bytes.
pub proof fn lemma_record_round_trip(record: Record)
    ensures
        record_bytes(record).len() == RECORD_LEN,
        record_of(record_bytes(record)) == record,
{
    let bytes = record_bytes(record);
    lemma_word_round_trip(record.x);
    lemma_word_round_trip(record.y);
    lemma_word_round_trip(record.data);
    assert(bytes.subrange(0, 4) == word_bytes(record.x));
    assert(bytes.subrange(4, 8) == word_bytes(record.y));
    assert(bytes.subrange(8, 12) == word_bytes(record.data));
}

/// Writing points and reading the stream back gives the same points,
/// bit for bit.
pub proof fn lemma_stream_round_trip(records: Seq<Record>)
    ensures
        stream_of(records).len() == RECORD_LEN * records.len(),
        records_of(stream_of(records)) == records,
    decreases records.len(),
{
    if records.len() > 0 {
        let front = records.drop_last();
        let last = records.last();
        lemma_stream_round_trip(front);
        lemma_record_round_trip(last);
        let stream = stream_of(records);
        let read = records_of(stream);
        assert(read.len() == records.len());
        assert forall|i: int| 0 <= i < records.len() implies read[i] == records[i] by {
            let chunk = stream.subrange(RECORD_LEN * i, RECORD_LEN * i + RECORD_LEN);
            if i < front.len() {
                assert(chunk == stream_of(front).subrange(
                    RECORD_LEN * i,
                    RECORD_LEN * i + RECORD_LEN,
                ));
                assert(records_of(stream_of(front))[i] == front[i]);
            } else {
                assert(chunk == record_bytes(last));
            }
        }
        assert(read =~= records);
    } else {
        assert(records_of(stream_of(records)) =~= records);
    }
}

fn write_word(writer: &mut Vec<u8>, word: u32)
    ensures
        final(writer)@ == old(writer)@ + word_bytes(word),
{
    writer.push((word % 256) as u8);
    writer.push((word / 256 % 256) as u8);
    writer.push((word / 65536 % 256) as u8);
    writer.push((word / 16777216) as u8);
    assert(writer@ == old(writer)@ + word_bytes(word));
}

fn write_record(writer: &mut Vec<u8>, point: &Record)
    ensures
        final(writer)@ == old(writer)@ + record_bytes(*point),
{
    write_word(writer, point.x);
    write_word(writer, point.y);
    write_word(writer, point.data);
    assert(writer@ == old(writer)@ + record_bytes(*point));
}

fn read_word(reader: &[u8], at: usize) -> (word: u32)
    requires
        at + 4 <= reader@.len(),
    ensures
        word == word_of(reader@.subrange(at as int, at + 4)),
{
    let b0: u32 = reader[at] as u32;
    let b1: u32 = reader[at + 1] as u32;
    let b2: u32 = reader[at + 2] as u32;
    let b3: u32 = reader[at + 3] as u32;
    b0 + 256 * b1 + 65536 * b2 + 16777216 * b3
}

/// Read points from the bytes of a stream.
///
/// Returned points contain height as data.
///
/// A stream that ends within a record is refused, with the number of
/// whole values found of the record that it breaks off in.
pub fn read_points(reader: &[u8]) -> (r: Result<Vec<Record>, ImportError>)
    ensures
        reader@.len() % 12 == 0 ==> r is Ok && r->Ok_0@ == records_of(reader@),
        reader@.len() % 12 != 0 ==> r == Err::<Vec<Record>, ImportError>(
            ImportError::InvalidData((reader@.len() % 12 / 4) as u8),
        ),
{
    let left: usize = reader.len() % RECORD_LEN;
    if left != 0 {
        return Err(ImportError::InvalidData((left / 4) as u8));
    }
    let count: usize = reader.len() / RECORD_LEN;
    let mut points: Vec<Record> = Vec::new();
    let mut n: usize = 0;
    while n < count
        invariant
            n <= count,
            count == reader@.len() / 12,
            reader@.len() % 12 == 0,
            reader@.len() <= usize::MAX,
            points@ == records_of(reader@).take(n as int),
        decreases count - n,
    {
        let at: usize = n * RECORD_LEN;
        let ghost chunk = reader@.subrange(at as int, at + RECORD_LEN);
        let x = read_word(reader, at);
        let y = read_word(reader, at + 4);
        let data = read_word(reader, at + 8);
        proof {
            assert(chunk.subrange(0, 4) == reader@.subrange(at as int, at + 4));
            assert(chunk.subrange(4, 8) == reader@.subrange(at + 4, at + 8));
            assert(chunk.subrange(8, 12) == reader@.subrange(at + 8, at + 12));
            assert(records_of(reader@).take(n + 1) == records_of(reader@).take(n as int).push(
                record_of(chunk),
            ));
        }
        points.push(Record { x, y, data });
        n += 1;
    }
    assert(records_of(reader@).take(n as int) == records_of(reader@));
    Ok(points)
}

/// Write points to the end of a stream.
///
/// Write points that have height as additional data.
pub fn write_points(writer: &mut Vec<u8>, points: &[Record])
    ensures
        final(writer)@ == old(writer)@ + stream_of(points@),
{
    let mut n: usize = 0;
    assert(writer@ == old(writer)@ + stream_of(points@.take(0)));
    while n < points.len()
        invariant
            n <= points@.len(),
            writer@ == old(writer)@ + stream_of(points@.take(n as int)),
        decreases points@.len() - n,
    {
        assert(points@.take(n + 1).drop_last() == points@.take(n as int));
        write_record(writer, &points[n]);
        n += 1;
    }
    assert(points@.take(n as int) == points@);
}

/// The numbers of a text line: of its tokens, in order, those that read
/// as a number, each as the bits of the value read.
pub open spec fn numbers(tokens: Seq<Option<u32>>) -> Seq<u32>
    decreases tokens.len(),
{
    if tokens.len() == 0 {
        Seq::empty()
    } else {
        match tokens.last() {
            Some(bits) => numbers(tokens.drop_last()).push(bits),
            None => numbers(tokens.drop_last()),
        }
    }
}

/// Whether a text line gives a point: it does with three numbers or more.
pub open spec fn gives_point(tokens: Seq<Option<u32>>) -> bool {
    numbers(tokens).len() >= 3
}

/// The point that a text line gives: its first three numbers.
pub open spec fn point_of(tokens: Seq<Option<u32>>) -> Record
    recommends
        gives_point(tokens),
{
    Record { x: numbers(tokens)[0], y: numbers(tokens)[1], data: numbers(tokens)[2] }
}

/// How many lines from the first on give a point each.
pub open spec fn leading_points(lines: Seq<Vec<Option<u32>>>) -> nat
    decreases lines.len(),
{
    if lines.len() == 0 {
        0
    } else {
        let before = leading_points(lines.drop_last());
        if before == lines.len() - 1 && gives_point(lines.last()@) {
            lines.len()
        } else {
            before
        }
    }
}

/// The points of the first `count` lines.
pub open spec fn points_of(lines: Seq<Vec<Option<u32>>>, count: nat) -> Seq<Record> {
    Seq::new(count, |i: int| point_of(lines[i]@))
}

/// All lines before the first that gives no point give one, and
/// that line, if there is one, gives none.
pub proof fn lemma_leading_points(lines: Seq<Vec<Option<u32>>>)
    ensures
        leading_points(lines) <= lines.len(),
        forall|i: int| 0 <= i < leading_points(lines) ==> gives_point(#[trigger] lines[i]@),
        leading_points(lines) < lines.len() ==> !gives_point(
            lines[leading_points(lines) as int]@,
        ),
    decreases lines.len(),
{
    if lines.len() > 0 {
        let front = lines.drop_last();
        lemma_leading_points(front);
        assert forall|i: int| 0 <= i < leading_points(lines) implies gives_point(
            #[trigger] lines[i]@,
        ) by {
            if i < front.len() {
                assert(front[i] == lines[i]);
            }
        }
        if leading_points(lines) < front.len() {
            assert(front[leading_points(lines) as int] == lines[leading_points(lines) as int]);
        }
    }
}

/// Whether a file of this name holds survey text: the name ends in
/// `.xyz`, behind at least one other character.
pub open spec fn names_survey_text(name: Seq<u8>) -> bool {
    &&& name.len() > 4
    &&& name[name.len() - 4] == 0x2e
    &&& name[name.len() - 3] == 0x78
    &&& name[name.len() - 2] == 0x79
    &&& name[name.len() - 1] == 0x7a
}

/// Tells by the name of a file whether the import reads it. Files of
/// other kinds are passed over in silence.
pub fn is_import_file(file_name: &str) -> (wanted: bool)
    ensures
        wanted == names_survey_text(file_name.spec_bytes()),
{
    let name = file_name.as_bytes();
    let len: usize = name.len();
    len > 4 && name[len - 4] == 0x2e && name[len - 3] == 0x78 && name[len - 2] == 0x79 && name[len
        - 1] == 0x7a
}

/// Makes a point of one text line.
///
/// `tokens` holds, for each token of the line in order, the bits of the
/// number that it reads as, or `None` if it does not read as a number.
/// The first three numbers are `x`, `y` and the height; what follows them
/// is ignored. A line with fewer numbers is refused, with their count.
pub fn import_line(tokens: &[Option<u32>]) -> (r: Result<Record, ImportError>)
    ensures
        gives_point(tokens@) ==> r == Ok::<Record, ImportError>(point_of(tokens@)),
        !gives_point(tokens@) ==> r == Err::<Record, ImportError>(
            ImportError::InvalidData(numbers(tokens@).len() as u8),
        ),
{
    let mut found: Vec<u32> = Vec::new();
    let mut n: usize = 0;
    while n < tokens.len() && found.len() < 3
        invariant
            n <= tokens@.len(),
            found@ == numbers(tokens@.take(n as int)),
            found@.len() <= 3,
        decreases tokens@.len() - n,
    {
        assert(tokens@.take(n + 1).drop_last() == tokens@.take(n as int));
        match tokens[n] {
            Some(bits) => {
                found.push(bits);
            },
            None => {},
        }
        n += 1;
    }
    proof {
        lemma_numbers_prefix(tokens@, n as int);
        if n == tokens@.len() {
            assert(tokens@.take(n as int) == tokens@);
        }
    }
    if found.len() == 3 {
        Ok(Record { x: found[0], y: found[1], data: found[2] })
    } else {
        Err(ImportError::InvalidData(found.len() as u8))
    }
}

/// The numbers of the first tokens of a line are the first numbers of
/// the line.
proof fn lemma_numbers_prefix(tokens: Seq<Option<u32>>, n: int)
    requires
        0 <= n <= tokens.len(),
    ensures
        numbers(tokens.take(n)).len() <= numbers(tokens).len(),
        numbers(tokens.take(n)) == numbers(tokens).take(numbers(tokens.take(n)).len() as int),
    decreases tokens.len(),
{
    if n == tokens.len() {
        assert(tokens.take(n) == tokens);
        assert(numbers(tokens).take(numbers(tokens).len() as int) == numbers(tokens));
    } else {
        let front = tokens.drop_last();
        assert(front.take(n) == tokens.take(n));
        lemma_numbers_prefix(front, n);
        let k = numbers(tokens.take(n)).len() as int;
        assert(numbers(front).take(k) == numbers(tokens).take(k));
    }
}

/// Imports the text lines of survey data.
///
/// Each line is given by its tokens, as `import_line` takes them. The
/// points of the lines are written to the end of `writer`, line by line,
/// up to the first line that gives no point: there the import stops
/// and reports that line's failure.
pub fn import_data(lines: &[Vec<Option<u32>>], writer: &mut Vec<u8>) -> (r: ImportResult)
    ensures
        final(writer)@ == old(writer)@ + stream_of(points_of(lines@, leading_points(lines@))),
        leading_points(lines@) == lines@.len() ==> r == Ok::<(), ImportError>(()),
        leading_points(lines@) < lines@.len() ==> r == Err::<(), ImportError>(
            ImportError::InvalidData(
                numbers(lines@[leading_points(lines@) as int]@).len() as u8,
            ),
        ),
{
    let mut n: usize = 0;
    proof {
        assert(points_of(lines@, 0) =~= Seq::<Record>::empty());
        assert(writer@ == old(writer)@ + stream_of(points_of(lines@, 0)));
    }
    while n < lines.len()
        invariant
            n <= lines@.len(),
            leading_points(lines@.take(n as int)) == n,
            writer@ == old(writer)@ + stream_of(points_of(lines@, n as nat)),
        decreases lines@.len() - n,
    {
        assert(lines@.take(n + 1).drop_last() == lines@.take(n as int));
        match import_line(lines[n].as_slice()) {
            Ok(point) => {
                proof {
                    assert(points_of(lines@, (n + 1) as nat).drop_last() == points_of(
                        lines@,
                        n as nat,
                    ));
                }
                write_record(writer, &point);
            },
            Err(e) => {
                proof {
                    lemma_leading_points_stop(lines@, n as int);
                }
                return Err(e);
            },
        }
        n += 1;
    }
    assert(lines@.take(n as int) == lines@);
    Ok(())
}

/// Once a line gives no point, the count of leading points stays where
/// it is, however many lines follow.
proof fn lemma_leading_points_stop(lines: Seq<Vec<Option<u32>>>, n: int)
    requires
        0 <= n < lines.len(),
        leading_points(lines.take(n)) == n,
        !gives_point(lines[n]@),
    ensures
        leading_points(lines) == n,
    decreases lines.len(),
{
    if n == lines.len() - 1 {
        assert(lines.drop_last() == lines.take(n));
    } else {
        assert(lines.drop_last().take(n) == lines.take(n));
        lemma_leading_points_stop(lines.drop_last(), n);
    }
}

} // verus!
