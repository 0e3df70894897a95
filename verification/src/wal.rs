//! The write-ahead log: framing, parsing, and what recovery keeps of a log.
//!
//! The log is a flat sequence of records, each an eight-byte big-endian length followed by
//! that many bytes of an encoded [`WalEntry`].

use vstd::prelude::*;
use vstd::string::StringExecFns;
use crate::bytes::{be64, be64_at, be64_value, write_u64};
use crate::decimal::{decimal, write_decimal};
use crate::proto::{blank_entry, read_wal, wal_bytes, Operation, WalEntry, WalEntryModel};
use crate::value::{Value, ValueModel};
use crate::wire::failure;

verus! {

broadcast use crate::bytes::group_be;

/// Default path of the log file.
pub const WAL_PATH: &'static str = "./data/wal.log";

/// The record of one entry.
#[verifier::opaque]
pub open spec fn frame_bytes(e: WalEntryModel) -> Seq<u8> {
    be64(wal_bytes(e).len() as u64) + wal_bytes(e)
}

/// The records of some entries, in order.
pub open spec fn log_bytes(entries: Seq<WalEntryModel>) -> Seq<u8>
    decreases entries.len(),
{
    if entries.len() == 0 {
        Seq::empty()
    } else {
        frame_bytes(entries[0]) + log_bytes(entries.skip(1))
    }
}

/// Whether `b` begins with a complete record.
#[verifier::opaque]
pub open spec fn has_frame(b: Seq<u8>) -> bool {
    b.len() >= 8 && be64_value(b) <= b.len() - 8
}

/// The length of the record that begins `b`.
#[verifier::opaque]
pub open spec fn frame_len(b: Seq<u8>) -> int {
    8 + be64_value(b)
}

/// The entry in the record that begins `b`, or `None` if it cannot be decoded.
#[verifier::opaque]
pub open spec fn frame_entry(b: Seq<u8>) -> Option<WalEntryModel> {
    match read_wal(blank_entry(), b.subrange(8, frame_len(b))) {
        Ok(e) => Some(e),
        Err(p) => None,
    }
}

/// Why the record that begins `b` cannot be decoded, if it cannot.
#[verifier::opaque]
pub open spec fn frame_problem(b: Seq<u8>) -> Seq<char> {
    match read_wal(blank_entry(), b.subrange(8, frame_len(b))) {
        Ok(e) => ""@,
        Err(p) => failure(p),
    }
}

/// The records of the log `b` that are passed over because they cannot be decoded, in order: the
/// offset of each behind its length, where the log begins at `at`, and the reason.
pub open spec fn passed_over(b: Seq<u8>, at: int) -> Seq<(int, Seq<char>)>
    decreases b.len(),
{
    if !has_frame(b) {
        Seq::empty()
    } else {
        proof {
            lemma_frame_bounds(b);
        }
        let rest = passed_over(b.skip(frame_len(b)), at + frame_len(b));
        if frame_entry(b) is None {
            seq![(at + 8, frame_problem(b))] + rest
        } else {
            rest
        }
    }
}

/// The entries of the log `b`, in order. A record that cannot be decoded is passed over; an
/// incomplete record ends the log.
pub open spec fn log_entries(b: Seq<u8>) -> Seq<WalEntryModel>
    decreases b.len(),
{
    if !has_frame(b) {
        Seq::empty()
    } else {
        proof {
            lemma_frame_bounds(b);
        }
        let rest = log_entries(b.skip(frame_len(b)));
        match frame_entry(b) {
            Some(e) => seq![e] + rest,
            None => rest,
        }
    }
}

/// The length of the log `b` up to and including its last commit; zero if it holds none.
pub open spec fn committed_len(b: Seq<u8>) -> nat
    decreases b.len(),
{
    if !has_frame(b) {
        0
    } else {
        proof {
            lemma_frame_bounds(b);
        }
        let rest = committed_len(b.skip(frame_len(b)));
        if rest > 0 {
            (frame_len(b) + rest) as nat
        } else {
            match frame_entry(b) {
                Some(e) => if e.op() == Operation::Commit {
                    frame_len(b) as nat
                } else {
                    0
                },
                None => 0,
            }
        }
    }
}

/// How many of the entries stand up to and including the last commit.
pub open spec fn committed_count(entries: Seq<WalEntryModel>) -> nat
    decreases entries.len(),
{
    if entries.len() == 0 {
        0
    } else if entries.last().op() == Operation::Commit {
        entries.len()
    } else {
        committed_count(entries.drop_last())
    }
}

/// The entries up to and including the last commit.
pub open spec fn committed(entries: Seq<WalEntryModel>) -> Seq<WalEntryModel> {
    entries.take(committed_count(entries) as int)
}

/// The models of some entries.
pub open spec fn entries_view(entries: Seq<WalEntry>) -> Seq<WalEntryModel> {
    Seq::new(entries.len(), |i: int| entries[i]@)
}

/// The entry that stores `value` under `key`.
pub open spec fn put_entry(key: Seq<u8>, value: ValueModel, sequence: u64) -> WalEntryModel {
    WalEntryModel {
        operation: Operation::Put.number(),
        key,
        value: Some(Some(value)),
        sequence,
        timestamp: 0,
    }
}

/// The entry that deletes `key`.
pub open spec fn delete_entry(key: Seq<u8>, sequence: u64) -> WalEntryModel {
    WalEntryModel {
        operation: Operation::Delete.number(),
        key,
        value: None,
        sequence,
        timestamp: 0,
    }
}

/// The entry that commits all entries before it.
pub open spec fn commit_entry(sequence: u64) -> WalEntryModel {
    WalEntryModel {
        operation: Operation::Commit.number(),
        key: Seq::empty(),
        value: None,
        sequence,
        timestamp: 0,
    }
}

/// The write-ahead log of a table, known by the path of its file.
#[derive(Debug)]
pub struct Wal {
    file_path: String,
}

/// A record of the log that cannot be decoded.
#[derive(Debug)]
pub struct PassedOver {
    /// The offset of its entry in the log, behind the length.
    pub offset: usize,
    /// The reason.
    pub reason: String,
}

impl PassedOver {
    /// How it is reported.
    pub fn message(&self) -> (r: String)
        ensures
            r@ == "WAL: Failed to decode entry at offset "@ + decimal(self.offset as nat) + ": "@
                + self.reason@,
    {
        let mut text: String = String::from_str("WAL: Failed to decode entry at offset ");
        write_decimal(&mut text, self.offset as u64);
        text.concat(": ").concat(self.reason.as_str())
    }
}

/// The models of some records that are passed over.
pub open spec fn passed_over_view(s: Seq<PassedOver>) -> Seq<(int, Seq<char>)> {
    Seq::new(s.len(), |i: int| (s[i].offset as int, s[i].reason@))
}

/// What recovery makes of a log.
#[derive(Debug)]
pub struct Recovery {
    /// The entries up to and including the last commit.
    pub entries: Vec<WalEntry>,
    /// The length to which the log file is to be cut, if it holds an uncommitted tail.
    pub truncate_to: Option<usize>,
    /// The records that cannot be decoded.
    pub passed_over: Vec<PassedOver>,
}

impl Wal {
    /// The path of the log file.
    pub closed spec fn file_path(&self) -> Seq<char> {
        self.file_path@
    }

    /// A log at the default path.
    pub fn new() -> (r: Wal)
        ensures
            r.file_path() == WAL_PATH@,
    {
        Wal::with_path(String::from_str(WAL_PATH))
    }

    /// A log at the given path.
    pub fn with_path(path: String) -> (r: Wal)
        ensures
            r.file_path() == path@,
    {
        Wal { file_path: path }
    }

    /// The path of the log file.
    pub fn path(&self) -> (r: &str)
        ensures
            r@ == self.file_path(),
    {
        self.file_path.as_str()
    }

    /// The bytes that append `entry` to the log. Not durable on their own: a batch of appends
    /// is always followed by the bytes of [`Wal::write_commit`].
    pub fn append(&self, entry: &WalEntry) -> (r: Vec<u8>)
        ensures
            r@ == frame_bytes(entry@),
    {
        frame(entry)
    }

    /// The bytes that commit all entries before them, once the log has been synced.
    pub fn write_commit(&self, sequence: u64) -> (r: Vec<u8>)
        ensures
            r@ == frame_bytes(commit_entry(sequence)),
    {
        let entry = WalEntry {
            operation: Operation::Commit.to_number(),
            key: Vec::new(),
            value: None,
            sequence,
            timestamp: 0,
        };
        assert(entry@.key =~= Seq::<u8>::empty());
        frame(&entry)
    }

    /// All entries of a log file with these contents, in write order, up to a truncated tail.
    pub fn read_all(&self, contents: &[u8]) -> (r: Vec<WalEntry>)
        ensures
            entries_view(r@) == log_entries(contents@),
    {
        parse_buffer(contents).0
    }

    /// The committed entries of a log file with these contents, and the length to cut the file
    /// to if bytes follow its last commit. Cutting the tail off keeps a later commit from
    /// adopting writes of a crashed session.
    pub fn read_for_recovery(&self, contents: &[u8]) -> (r: Recovery)
        ensures
            entries_view(r.entries@) == committed(log_entries(contents@)),
            r.truncate_to == (if committed_len(contents@) < contents@.len() {
                Some(committed_len(contents@) as usize)
            } else {
                None
            }),
            committed_len(contents@) <= contents@.len(),
            passed_over_view(r.passed_over@) == passed_over(contents@, 0),
    {
        let (mut entries, count, end, passed) = parse_buffer(contents);
        let ghost all = entries@;
        proof {
            lemma_committed_count_len(entries_view(all));
        }
        entries.truncate(count);
        assert(entries_view(entries@) =~= entries_view(all).take(count as int));
        if end < contents.len() {
            Recovery { entries, truncate_to: Some(end), passed_over: passed }
        } else {
            Recovery { entries, truncate_to: None, passed_over: passed }
        }
    }

    /// The entry that stores `value` under `key`.
    pub fn create_put_entry(key: Vec<u8>, value: &Value, sequence: u64) -> (r: WalEntry)
        ensures
            r@ == put_entry(key@, value@, sequence),
    {
        WalEntry {
            operation: Operation::Put.to_number(),
            key,
            value: Some(value.to_proto()),
            sequence,
            timestamp: 0,
        }
    }

    /// The entry that deletes `key`.
    pub fn create_delete_entry(key: Vec<u8>, sequence: u64) -> (r: WalEntry)
        ensures
            r@ == delete_entry(key@, sequence),
    {
        WalEntry {
            operation: Operation::Delete.to_number(),
            key,
            value: None,
            sequence,
            timestamp: 0,
        }
    }
}

/// The record of one entry.
fn frame(entry: &WalEntry) -> (r: Vec<u8>)
    ensures
        r@ == frame_bytes(entry@),
{
    let bytes: Vec<u8> = entry.encode_to_vec();
    let mut framed: Vec<u8> = Vec::new();
    write_u64(&mut framed, bytes.len() as u64);
    framed.extend_from_slice(bytes.as_slice());
    proof {
        reveal(frame_bytes);
    }
    assert(framed@ =~= frame_bytes(entry@));
    framed
}

/// Parses the records of a log. Gives all decoded entries, how many of them stand up to and
/// including the last commit, the offset just past that commit, and the records that are passed
/// over because they cannot be decoded.
pub fn parse_buffer(buffer: &[u8]) -> (r: (Vec<WalEntry>, usize, usize, Vec<PassedOver>))
    ensures
        entries_view(r.0@) == log_entries(buffer@),
        r.1 == committed_count(log_entries(buffer@)),
        r.2 == committed_len(buffer@),
        committed_len(buffer@) <= buffer@.len(),
        passed_over_view(r.3@) == passed_over(buffer@, 0),
{
    let mut passed: Vec<PassedOver> = Vec::new();
    let mut entries: Vec<WalEntry> = Vec::new();
    let mut count: usize = 0;
    let mut end: usize = 0;
    let mut offset: usize = 0;
    assert(buffer@.skip(0) =~= buffer@);
    assert(entries_view(entries@) + log_entries(buffer@) =~= log_entries(buffer@));
    assert(passed_over_view(passed@) + passed_over(buffer@, 0) =~= passed_over(buffer@, 0));
    while offset < buffer.len() && buffer.len() - offset >= 8 && be64_at(buffer, offset)
        <= (buffer.len() - offset - 8) as u64
        invariant
            offset <= buffer@.len(),
            end <= offset,
            count == committed_count(entries_view(entries@)),
            log_entries(buffer@) == entries_view(entries@) + log_entries(
                buffer@.skip(offset as int),
            ),
            committed_len(buffer@) == (if committed_len(buffer@.skip(offset as int)) > 0 {
                offset + committed_len(buffer@.skip(offset as int))
            } else {
                end as int
            }),
            passed_over(buffer@, 0) == passed_over_view(passed@) + passed_over(
                buffer@.skip(offset as int),
                offset as int,
            ),
        decreases buffer@.len() - offset,
    {
        let ghost tail = buffer@.skip(offset as int);
        let ghost before = entries_view(entries@);
        let len: usize = be64_at(buffer, offset) as usize;
        let start: usize = offset + 8;
        let stop: usize = start + len;
        proof {
            reveal(has_frame);
            reveal(frame_len);
            reveal(frame_entry);
            reveal(frame_problem);
        }
        assert(has_frame(tail));
        assert(tail.skip(frame_len(tail)) =~= buffer@.skip(stop as int));
        assert(tail.subrange(8, frame_len(tail)) =~= buffer@.subrange(start as int, stop as int));
        match WalEntry::decode(vstd::slice::slice_subrange(buffer, start, stop)) {
            Ok(entry) => {
                let is_commit = entry.operation() == Operation::Commit;
                let ghost e = entry@;
                entries.push(entry);
                assert(entries_view(entries@) =~= before.push(e));
                assert(entries_view(entries@).drop_last() =~= before);
                assert(before + (seq![e] + log_entries(buffer@.skip(stop as int)))
                    =~= entries_view(entries@) + log_entries(buffer@.skip(stop as int)));
                if is_commit {
                    count = entries.len();
                    end = stop;
                }
            },
            Err(reason) => {
                let ghost passed_before = passed_over_view(passed@);
                let ghost x = (start as int, reason@);
                passed.push(PassedOver { offset: start, reason });
                assert(passed_over_view(passed@) =~= passed_before.push(x));
                assert(passed_before + (seq![x] + passed_over(
                    buffer@.skip(stop as int),
                    stop as int,
                )) =~= passed_over_view(passed@) + passed_over(
                    buffer@.skip(stop as int),
                    stop as int,
                ));
            },
        }
        offset = stop;
    }
    let ghost tail = buffer@.skip(offset as int);
    proof {
        reveal(has_frame);
    }
    assert(!has_frame(tail));
    assert(entries_view(entries@) + log_entries(tail) =~= entries_view(entries@));
    assert(passed_over_view(passed@) + passed_over(tail, offset as int) =~= passed_over_view(
        passed@,
    ));
    (entries, count, end, passed)
}

/// A complete record takes at least eight bytes and lies within its log.
pub proof fn lemma_frame_bounds(b: Seq<u8>)
    ensures
        has_frame(b) ==> 8 <= frame_len(b) <= b.len(),
{
    reveal(has_frame);
    reveal(frame_len);
}

/// The committed entries are among the entries.
pub proof fn lemma_committed_count_len(entries: Seq<WalEntryModel>)
    ensures
        committed_count(entries) <= entries.len(),
    decreases entries.len(),
{
    if entries.len() > 0 {
        lemma_committed_count_len(entries.drop_last());
    }
}

} // verus!
