//! Laws of the write-ahead log: what is written is read back, a torn tail costs nothing
//! before it, and recovery keeps exactly what was committed.

use vstd::prelude::*;
use crate::bytes::{be32_value, be64, be64_value, lemma_be64_round_trip};
use crate::entry_map::put_pair;
use crate::format::Pair;
use crate::model::{replay, replay_writes, write_entry, ReplayFailure, ReplayModel};
use crate::proto::{
    blank_entry, lemma_wal_entry_round_trip, read_wal, wal_bytes, Operation, WalEntry,
    WalEntryModel,
};
use crate::value::{EntryModel, ValueModel};
use crate::wal::{
    commit_entry, committed, committed_count, committed_len, delete_entry, entries_view,
    frame_bytes, frame_entry, frame_len, frame_problem, has_frame, lemma_committed_count_len,
    lemma_frame_bounds, log_bytes, log_entries, passed_over, passed_over_view, put_entry,
    PassedOver,
};

verus! {

broadcast use crate::bytes::group_be;

/// Whether every entry has an encoding whose length fits in the record's length field.
pub open spec fn framable(entries: Seq<WalEntryModel>) -> bool {
    forall|i: int| 0 <= i < entries.len() ==> wal_bytes(#[trigger] entries[i]).len() <= u64::MAX
}

/// Whether none of the entries is a commit.
pub open spec fn no_commit(entries: Seq<WalEntryModel>) -> bool {
    forall|i: int| 0 <= i < entries.len() ==> (#[trigger] entries[i]).op() != Operation::Commit
}

/// Whether `b` is a whole number of records.
pub open spec fn whole(b: Seq<u8>) -> bool
    decreases b.len(),
{
    b.len() == 0 || (has_frame(b) && {
        proof {
            lemma_frame_bounds(b);
        }
        whole(b.skip(frame_len(b)))
    })
}

/// Whether `b` is a log as recovery leaves it: whole records, the last of them a commit.
pub open spec fn recovered(b: Seq<u8>) -> bool {
    whole(b) && committed_len(b) == b.len()
}

proof fn lemma_frame_read(e: WalEntryModel, rest: Seq<u8>)
    requires
        wal_bytes(e).len() <= u64::MAX,
    ensures
        has_frame(frame_bytes(e) + rest),
        frame_len(frame_bytes(e) + rest) == frame_bytes(e).len(),
        frame_entry(frame_bytes(e) + rest) == Some(e),
        (frame_bytes(e) + rest).skip(frame_len(frame_bytes(e) + rest)) == rest,
        frame_bytes(e).len() >= 8,
{
    reveal(frame_bytes);
    reveal(has_frame);
    reveal(frame_len);
    reveal(frame_entry);
    let b = frame_bytes(e) + rest;
    let n = wal_bytes(e).len() as u64;
    assert(b =~= be64(n) + (wal_bytes(e) + rest));
    lemma_be64_round_trip(n, wal_bytes(e) + rest);
    assert(b.subrange(8, frame_len(b)) =~= wal_bytes(e));
    assert(b.skip(frame_len(b)) =~= rest);
    lemma_wal_entry_round_trip(e);
}

/// A record is read from its own bytes alone.
proof fn lemma_frame_local(a: Seq<u8>, b: Seq<u8>)
    requires
        has_frame(a),
        frame_len(a) <= b.len(),
        a.take(frame_len(a)) == b.take(frame_len(a)),
    ensures
        has_frame(b),
        frame_len(b) == frame_len(a),
        frame_entry(b) == frame_entry(a),
{
    reveal(has_frame);
    reveal(frame_len);
    reveal(frame_entry);
    reveal(be64_value);
    reveal(be32_value);
    let n = frame_len(a);
    assert(forall|i: int| 0 <= i < n ==> a[i] == a.take(n)[i]);
    assert(forall|i: int| 0 <= i < n ==> b[i] == b.take(n)[i]);
    assert(b.subrange(8, n) =~= a.subrange(8, n));
}

proof fn lemma_log_then(entries: Seq<WalEntryModel>, rest: Seq<u8>)
    requires
        framable(entries),
    ensures
        log_entries(log_bytes(entries) + rest) == entries + log_entries(rest),
    decreases entries.len(),
{
    if entries.len() == 0 {
        assert(log_bytes(entries) + rest =~= rest);
        assert(entries + log_entries(rest) =~= log_entries(rest));
    } else {
        let e = entries[0];
        let tail = entries.skip(1);
        assert(forall|i: int| 0 <= i < tail.len() ==> tail[i] == entries[i + 1]);
        lemma_log_then(tail, rest);
        assert(log_bytes(entries) + rest =~= frame_bytes(e) + (log_bytes(tail) + rest));
        lemma_frame_read(e, log_bytes(tail) + rest);
        assert(seq![e] + (tail + log_entries(rest)) =~= entries + log_entries(rest));
    }
}

/// Reading a log gives back the entries that were written to it, in order.
pub proof fn law_log_round_trip(entries: Seq<WalEntryModel>)
    requires
        framable(entries),
    ensures
        log_entries(log_bytes(entries)) == entries,
{
    let none = Seq::<u8>::empty();
    lemma_frame_bounds(none);
    lemma_log_then(entries, none);
    assert(log_bytes(entries) + none =~= log_bytes(entries));
    assert(entries + log_entries(none) =~= entries);
}

proof fn lemma_torn_frame(e: WalEntryModel, n: int)
    requires
        wal_bytes(e).len() <= u64::MAX,
        0 <= n < frame_bytes(e).len(),
    ensures
        !has_frame(frame_bytes(e).take(n)),
{
    reveal(frame_bytes);
    reveal(has_frame);
    let b = frame_bytes(e).take(n);
    if n >= 8 {
        let len = wal_bytes(e).len() as u64;
        lemma_be64_round_trip(len, wal_bytes(e).take(n - 8));
        assert(b =~= be64(len) + wal_bytes(e).take(n - 8));
    }
}

/// A write that was torn in the middle of a record costs that record and nothing before it.
pub proof fn law_torn_tail_keeps_what_precedes(
    entries: Seq<WalEntryModel>,
    torn: WalEntryModel,
    n: int,
)
    requires
        framable(entries),
        wal_bytes(torn).len() <= u64::MAX,
        0 <= n < frame_bytes(torn).len(),
    ensures
        log_entries(log_bytes(entries) + frame_bytes(torn).take(n)) == entries,
{
    lemma_torn_frame(torn, n);
    lemma_log_then(entries, frame_bytes(torn).take(n));
    assert(entries + Seq::<WalEntryModel>::empty() =~= entries);
}

proof fn lemma_whole_then(a: Seq<u8>, x: Seq<u8>)
    requires
        whole(a),
    ensures
        log_entries(a + x) == log_entries(a) + log_entries(x),
        committed_len(a + x) == (if committed_len(x) > 0 {
            a.len() + committed_len(x)
        } else {
            committed_len(a)
        }),
        whole(x) ==> whole(a + x),
    decreases a.len(),
{
    if a.len() == 0 {
        lemma_frame_bounds(a);
        assert(a + x =~= x);
        assert(log_entries(a) + log_entries(x) =~= log_entries(x));
    } else {
        let b = a + x;
        let n = frame_len(a);
        lemma_frame_bounds(a);
        assert(b.take(n) =~= a.take(n));
        lemma_frame_local(a, b);
        assert(b.skip(n) =~= a.skip(n) + x);
        lemma_whole_then(a.skip(n), x);
        match frame_entry(a) {
            Some(e) => {
                assert(seq![e] + (log_entries(a.skip(n)) + log_entries(x)) =~= (seq![e]
                    + log_entries(a.skip(n))) + log_entries(x));
            },
            None => {},
        }
    }
}

proof fn lemma_committed_prefix(b: Seq<u8>)
    ensures
        committed_len(b) <= b.len(),
        whole(b.take(committed_len(b) as int)),
        committed_len(b.take(committed_len(b) as int)) == committed_len(b),
        log_entries(b.take(committed_len(b) as int)) == committed(log_entries(b)),
        committed_len(b) == 0 <==> no_commit(log_entries(b)),
    decreases b.len(),
{
    let none = Seq::<u8>::empty();
    lemma_frame_bounds(none);
    assert(whole(none) && committed_len(none) == 0);
    let c = committed_len(b) as int;
    if !has_frame(b) {
        assert(b.take(0) =~= none);
        assert(log_entries(none) =~= committed(log_entries(b)));
    } else {
        lemma_frame_bounds(b);
        let n = frame_len(b);
        let rest = b.skip(n);
        lemma_committed_prefix(rest);
        let k = committed_len(rest) as int;
        let a = b.take(c);
        if k > 0 {
            assert(a.take(n) =~= b.take(n));
            lemma_frame_local(b, a);
            assert(a.skip(n) =~= rest.take(k));
            let es = log_entries(rest);
            match frame_entry(b) {
                Some(e) => {
                    lemma_committed_prepend(e, es);
                    if no_commit(seq![e] + es) {
                        assert forall|i: int| 0 <= i < es.len() implies (
                        #[trigger] es[i]).op() != Operation::Commit by {
                            assert((seq![e] + es)[i + 1] == es[i]);
                        }
                    }
                },
                None => {},
            }
        } else {
            let es = log_entries(rest);
            lemma_no_commit_count(es);
            match frame_entry(b) {
                Some(e) => {
                    lemma_committed_prepend(e, es);
                    if e.op() == Operation::Commit {
                        assert(a.take(n) =~= b.take(n));
                        lemma_frame_local(b, a);
                        assert(a.skip(n) =~= none);
                        assert(log_entries(none) =~= Seq::<WalEntryModel>::empty());
                        assert((seq![e] + es)[0] == e);
                        assert(seq![e] + log_entries(none) =~= committed(log_entries(b)));
                    } else {
                        assert(a =~= none);
                        assert forall|i: int| 0 <= i < (seq![e] + es).len() implies (
                        #[trigger] (seq![e] + es)[i]).op() != Operation::Commit by {
                            if i > 0 {
                                assert((seq![e] + es)[i] == es[i - 1]);
                            }
                        }
                        lemma_no_commit_count(seq![e] + es);
                        assert(log_entries(none) =~= committed(log_entries(b)));
                    }
                },
                None => {
                    assert(a =~= none);
                    assert(log_entries(none) =~= committed(log_entries(b)));
                },
            }
        }
    }
}

proof fn lemma_no_commit_count(entries: Seq<WalEntryModel>)
    requires
        no_commit(entries),
    ensures
        committed_count(entries) == 0,
    decreases entries.len(),
{
    if entries.len() > 0 {
        lemma_no_commit_count(entries.drop_last());
    }
}

proof fn lemma_committed_prepend(e: WalEntryModel, es: Seq<WalEntryModel>)
    ensures
        !no_commit(es) ==> committed(seq![e] + es) == seq![e] + committed(es),
        no_commit(es) && e.op() == Operation::Commit ==> committed(seq![e] + es) == seq![e],
{
    lemma_committed_concat(seq![e], es);
    let one = seq![e];
    assert(one.drop_last() =~= Seq::<WalEntryModel>::empty());
    if e.op() == Operation::Commit {
        assert(one.last() == e);
        assert(committed_count(one) == 1);
        assert(committed(one) =~= one);
    }
}

proof fn lemma_committed_concat(a: Seq<WalEntryModel>, x: Seq<WalEntryModel>)
    ensures
        no_commit(x) ==> committed(a + x) == committed(a),
        !no_commit(x) ==> committed(a + x) == a + committed(x),
        committed_count(x) <= x.len(),
        committed_count(a) <= a.len(),
    decreases x.len(),
{
    lemma_committed_count_len(x);
    lemma_committed_count_len(a);
    if x.len() == 0 {
        assert(a + x =~= a);
    } else {
        let y = x.drop_last();
        lemma_committed_concat(a, y);
        assert((a + x).drop_last() =~= a + y);
        assert((a + x).last() == x.last());
        if x.last().op() == Operation::Commit {
            assert(!no_commit(x)) by {
                assert(x[x.len() - 1] == x.last());
            }
            assert(committed(a + x) =~= a + committed(x));
        } else {
            assert(no_commit(x) <==> no_commit(y)) by {
                if no_commit(y) {
                    assert forall|i: int| 0 <= i < x.len() implies (#[trigger] x[i]).op()
                        != Operation::Commit by {
                        if i < y.len() {
                            assert(y[i] == x[i]);
                        }
                    }
                }
                if no_commit(x) {
                    assert forall|i: int| 0 <= i < y.len() implies (#[trigger] y[i]).op()
                        != Operation::Commit by {
                        assert(y[i] == x[i]);
                    }
                }
            }
            assert(committed_count(a + x) == committed_count(a + y));
            assert(committed_count(x) == committed_count(y));
            assert(committed(x) =~= committed(y));
            if no_commit(x) {
                assert(committed(a + x) =~= committed(a)) by {
                    lemma_no_commit_count(y);
                    lemma_count_no_commit(a, y);
                    assert((a + x).take(committed_count(a) as int) =~= a.take(
                        committed_count(a) as int,
                    ));
                }
            } else {
                lemma_count_with_commit(a, y);
                assert(committed(a + x) =~= a + committed(x));
            }
        }
    }
}

proof fn lemma_count_no_commit(a: Seq<WalEntryModel>, x: Seq<WalEntryModel>)
    requires
        no_commit(x),
    ensures
        committed_count(a + x) == committed_count(a),
    decreases x.len(),
{
    if x.len() == 0 {
        assert(a + x =~= a);
    } else {
        assert((a + x).drop_last() =~= a + x.drop_last());
        assert((a + x).last() == x[x.len() - 1]);
        assert forall|i: int| 0 <= i < x.drop_last().len() implies (
        #[trigger] x.drop_last()[i]).op() != Operation::Commit by {
            assert(x.drop_last()[i] == x[i]);
        }
        lemma_count_no_commit(a, x.drop_last());
    }
}

proof fn lemma_count_with_commit(a: Seq<WalEntryModel>, x: Seq<WalEntryModel>)
    requires
        !no_commit(x),
    ensures
        committed_count(a + x) == a.len() + committed_count(x),
        committed_count(x) > 0,
    decreases x.len(),
{
    assert(x.len() > 0);
    assert((a + x).drop_last() =~= a + x.drop_last());
    assert((a + x).last() == x[x.len() - 1]);
    if x.last().op() != Operation::Commit {
        let i = choose|i: int|
            0 <= i < x.len() && (#[trigger] x[i]).op() == Operation::Commit;
        assert(x.drop_last()[i] == x[i]);
        lemma_count_with_commit(a, x.drop_last());
    }
}

/// Cutting a log just past its last commit keeps exactly the committed entries, and leaves a
/// log that recovery would not cut again.
pub proof fn law_recovery_keeps_the_committed(b: Seq<u8>)
    ensures
        committed_len(b) <= b.len(),
        recovered(b.take(committed_len(b) as int)),
        log_entries(b.take(committed_len(b) as int)) == committed(log_entries(b)),
        committed(log_entries(b.take(committed_len(b) as int))) == committed(log_entries(b)),
{
    lemma_committed_prefix(b);
    let a = b.take(committed_len(b) as int);
    lemma_committed_prefix(a);
    assert(a.take(committed_len(a) as int) =~= a);
}

/// Once an uncommitted tail has been cut off, nothing that is appended later brings an entry
/// of it back.
pub proof fn law_later_commits_adopt_nothing(b: Seq<u8>, later: Seq<u8>)
    ensures
        log_entries(b.take(committed_len(b) as int) + later) == committed(log_entries(b))
            + log_entries(later),
{
    law_recovery_keeps_the_committed(b);
    lemma_whole_then(b.take(committed_len(b) as int), later);
}

proof fn lemma_log_prefix(entries: Seq<WalEntryModel>, n: int) -> (j: int)
    requires
        framable(entries),
        0 <= n < log_bytes(entries).len(),
    ensures
        0 <= j < entries.len(),
        log_entries(log_bytes(entries).take(n)) == entries.take(j),
    decreases entries.len(),
{
    let e = entries[0];
    let tail = entries.skip(1);
    assert(forall|i: int| 0 <= i < tail.len() ==> tail[i] == entries[i + 1]);
    let f = frame_bytes(e);
    let b = log_bytes(entries).take(n);
    if n < f.len() {
        lemma_torn_frame(e, n);
        assert(b =~= f.take(n));
        assert(entries.take(0) =~= Seq::<WalEntryModel>::empty());
        0
    } else {
        let rest = log_bytes(tail).take(n - f.len());
        assert(b =~= f + rest);
        lemma_frame_read(e, rest);
        let j = lemma_log_prefix(tail, n - f.len());
        assert(seq![e] + tail.take(j) =~= entries.take(j + 1));
        j + 1
    }
}

/// A transaction is atomic under a crash. Say a log as recovery leaves it is being appended the
/// records of some writes and of the commit that ends them, and a crash lets only the first `n`
/// bytes through. If `n` is all of them, recovery finds every write; otherwise it finds the log
/// as it was before.
pub proof fn law_crash_leaves_all_or_nothing(
    b: Seq<u8>,
    writes: Seq<WalEntryModel>,
    sequence: u64,
    n: int,
)
    requires
        recovered(b),
        framable(writes.push(commit_entry(sequence))),
        no_commit(writes),
        0 <= n <= log_bytes(writes.push(commit_entry(sequence))).len(),
    ensures
        committed(log_entries(b + log_bytes(writes.push(commit_entry(sequence))).take(n))) == (
        if n == log_bytes(writes.push(commit_entry(sequence))).len() {
            log_entries(b) + writes.push(commit_entry(sequence))
        } else {
            log_entries(b)
        }),
        n == log_bytes(writes.push(commit_entry(sequence))).len() ==> recovered(
            b + log_bytes(writes.push(commit_entry(sequence))),
        ),
{
    let commit = commit_entry(sequence);
    let all = writes.push(commit);
    let t = log_bytes(all);
    let p = t.take(n);
    lemma_whole_then(b, p);
    lemma_committed_prefix(b);
    assert(b.take(b.len() as int) =~= b);
    lemma_committed_concat(log_entries(b), log_entries(p));
    if n == t.len() {
        assert(p =~= t);
        law_log_round_trip(all);
        assert(all.last() == commit);
        assert(!no_commit(all)) by {
            assert(all[all.len() - 1] == commit);
        }
        assert(committed(all) =~= all);
        lemma_whole_log(all);
        lemma_committed_prefix(t);
        lemma_whole_committed_all(all);
    } else {
        let j = lemma_log_prefix(all, n);
        assert forall|i: int| 0 <= i < all.take(j).len() implies (#[trigger] all.take(j)[i]).op()
            != Operation::Commit by {
            assert(all.take(j)[i] == writes[i]);
        }
    }
}

proof fn lemma_whole_log(entries: Seq<WalEntryModel>)
    requires
        framable(entries),
    ensures
        whole(log_bytes(entries)),
    decreases entries.len(),
{
    if entries.len() > 0 {
        let tail = entries.skip(1);
        assert(forall|i: int| 0 <= i < tail.len() ==> tail[i] == entries[i + 1]);
        lemma_whole_log(tail);
        lemma_frame_read(entries[0], log_bytes(tail));
    }
}

proof fn lemma_whole_committed_all(entries: Seq<WalEntryModel>)
    requires
        framable(entries),
        entries.len() > 0,
        entries.last().op() == Operation::Commit,
    ensures
        committed_len(log_bytes(entries)) == log_bytes(entries).len(),
    decreases entries.len(),
{
    let tail = entries.skip(1);
    assert(forall|i: int| 0 <= i < tail.len() ==> tail[i] == entries[i + 1]);
    lemma_frame_read(entries[0], log_bytes(tail));
    if tail.len() > 0 {
        assert(tail.last() == entries.last());
        lemma_whole_committed_all(tail);
        lemma_frame_read(tail[0], log_bytes(tail.skip(1)));
    } else {
        lemma_frame_bounds(log_bytes(tail));
        assert(committed_len(log_bytes(tail)) == 0);
        assert(entries.last() == entries[0]);
        assert(log_bytes(entries) =~= frame_bytes(entries[0]) + log_bytes(tail));
    }
}

/// A log is read record by record. A record is eight bytes, most significant first, that say how
/// many bytes follow, and those bytes: if they are those of an entry it comes next, else the record
/// is passed over. What is too short for its record ends the log.
pub proof fn law_log_is_read_record_by_record(payload: Seq<u8>, rest: Seq<u8>, short: Seq<u8>)
    requires
        payload.len() <= u64::MAX,
        short.len() < 8 || short.len() < 8 + be64_value(short),
    ensures
        log_entries(be64(payload.len() as u64) + payload + rest) == (match read_wal(
            blank_entry(),
            payload,
        ) {
            Ok(e) => seq![e] + log_entries(rest),
            Err(_) => log_entries(rest),
        }),
        log_entries(short) == Seq::<WalEntryModel>::empty(),
        committed_len(short) == 0,
        committed_len(be64(payload.len() as u64) + payload + rest) == (if committed_len(rest) > 0 {
            8 + payload.len() + committed_len(rest)
        } else {
            match read_wal(blank_entry(), payload) {
                Ok(e) => if e.operation == 2 {
                    8 + payload.len()
                } else {
                    0
                },
                Err(_) => 0,
            }
        }),
{
    reveal(has_frame);
    reveal(frame_len);
    reveal(frame_entry);
    let b = be64(payload.len() as u64) + payload + rest;
    assert(b =~= be64(payload.len() as u64) + (payload + rest));
    lemma_be64_round_trip(payload.len() as u64, payload + rest);
    assert(b.subrange(8, frame_len(b)) =~= payload);
    assert(b.skip(frame_len(b)) =~= rest);
}

/// The record of an entry is the length of its encoding in eight bytes and the encoding, and a log
/// is its records one after the other.
pub proof fn law_entries_are_framed_by_their_length(e: WalEntryModel, entries: Seq<WalEntryModel>)
    ensures
        frame_bytes(e) == be64(wal_bytes(e).len() as u64) + wal_bytes(e),
        log_bytes(Seq::empty()) == Seq::<u8>::empty(),
        log_bytes(seq![e] + entries) == frame_bytes(e) + log_bytes(entries),
{
    reveal(frame_bytes);
    assert((seq![e] + entries).skip(1) =~= entries);
    assert((seq![e] + entries)[0] == e);
}

/// What is committed is the entries up to the last commit among them: it ends in a commit unless it
/// is empty, and no commit comes after it.
pub proof fn law_committed_ends_in_the_last_commit(entries: Seq<WalEntryModel>)
    ensures
        ({
            let n = committed(entries).len() as int;
            &&& n <= entries.len()
            &&& committed(entries) == entries.take(n)
            &&& n > 0 ==> entries[n - 1].operation == 2
            &&& forall|i: int| n <= i < entries.len() ==> (#[trigger] entries[i]).operation != 2
        }),
    decreases entries.len(),
{
    if entries.len() > 0 {
        let before = entries.drop_last();
        law_committed_ends_in_the_last_commit(before);
        lemma_committed_count_len(entries);
        lemma_committed_count_len(before);
        let n = committed_count(entries) as int;
        if entries.last().op() != Operation::Commit {
            assert(committed(before) == before.take(n));
            assert(entries.take(n) =~= before.take(n));
            assert forall|i: int| n <= i < entries.len() implies (#[trigger] entries[i]).operation
                != 2 by {
                if i < before.len() {
                    assert(before[i].operation != 2);
                }
            }
        }
    }
}

/// What the entries of the log say: a put its key and value, a delete its key, a commit nothing but
/// its sequence number; the numbers of the operations are zero, one and two, and any other counts
/// as a put.
pub proof fn law_entries_say_what_was_done(
    key: Seq<u8>,
    value: ValueModel,
    sequence: u64,
    e: WalEntryModel,
)
    ensures
        put_entry(key, value, sequence) == (WalEntryModel {
            operation: 0,
            key,
            value: Some(Some(value)),
            sequence,
            timestamp: 0,
        }),
        delete_entry(key, sequence) == (WalEntryModel {
            operation: 1,
            key,
            value: None,
            sequence,
            timestamp: 0,
        }),
        commit_entry(sequence) == (WalEntryModel {
            operation: 2,
            key: Seq::empty(),
            value: None,
            sequence,
            timestamp: 0,
        }),
        e.op() == Operation::Delete <==> e.operation == 1,
        e.op() == Operation::Commit <==> e.operation == 2,
        e.op() == Operation::Put <==> e.operation != 1 && e.operation != 2,
        write_entry((key, EntryModel::Value(value)), sequence) == put_entry(key, value, sequence),
        write_entry((key, EntryModel::Tombstone), sequence) == delete_entry(key, sequence),
{
}

/// An entry can be framed whenever the length of its encoding fits in eight bytes.
pub proof fn law_what_can_be_framed(entries: Seq<WalEntryModel>)
    ensures
        framable(entries) <==> forall|i: int|
            0 <= i < entries.len() ==> wal_bytes(#[trigger] entries[i]).len() <= u64::MAX,
{
}

/// Decoding what was encoded gives the entry back, with its operation, key, value, sequence number
/// and timestamp.
pub proof fn law_encoded_entry_is_decoded(e: WalEntryModel)
    requires
        wal_bytes(e).len() <= u64::MAX,
    ensures
        read_wal(
            WalEntryModel {
                operation: 0,
                key: Seq::empty(),
                value: None,
                sequence: 0,
                timestamp: 0,
            },
            wal_bytes(e),
        ) == Ok::<WalEntryModel, Seq<char>>(e),
{
    lemma_wal_entry_round_trip(e);
}

/// Replay. A commit applies the writes before it to the memtable, in order: a put sets the value of
/// its key, a delete its marker, and nothing else changes; and the sequence number becomes the
/// highest that was seen. Writes without a commit wait.
pub proof fn law_replay_applies_what_was_committed(
    r: ReplayModel,
    e: WalEntryModel,
    value: ValueModel,
    sequence: u64,
)
    requires
        r.pending.len() == 0,
        e.operation != 2,
        e.operation == 1 || e.value == Some(Some(value)),
    ensures
        replay(r, seq![e]) == Ok::<ReplayModel, ReplayFailure>(
            ReplayModel { pending: seq![e], ..r },
        ),
        replay(r, seq![e, commit_entry(sequence)]) == Ok::<ReplayModel, ReplayFailure>(
            ReplayModel {
                memtable: put_pair(
                    r.memtable,
                    (
                        e.key,
                        if e.operation == 1 {
                            EntryModel::Tombstone
                        } else {
                            EntryModel::Value(value)
                        },
                    ),
                ),
                sequence: largest(largest(r.sequence, e.sequence), sequence),
                pending: Seq::empty(),
            },
        ),
{
    let one = seq![e];
    let two = seq![e, commit_entry(sequence)];
    assert(one.drop_last() =~= Seq::<WalEntryModel>::empty());
    assert(two.drop_last() =~= one);
    assert(r.pending.push(e) =~= one);
    assert(replay(r, Seq::empty()) == Ok::<ReplayModel, ReplayFailure>(r));
    assert(replay_writes(r.memtable, r.sequence, Seq::empty()) == Ok::<
        (Seq<Pair>, u64),
        ReplayFailure,
    >((r.memtable, r.sequence)));
}

/// The largest of two numbers.
pub open spec fn largest(a: u64, b: u64) -> u64 {
    if a >= b {
        a
    } else {
        b
    }
}

/// Replaying two logs one after the other is replaying them as one.
pub proof fn law_replay_goes_on(r: ReplayModel, a: Seq<WalEntryModel>, b: Seq<WalEntryModel>)
    ensures
        replay(r, a + b) == (match replay(r, a) {
            Ok(q) => replay(q, b),
            Err(f) => Err(f),
        }),
    decreases b.len(),
{
    if b.len() == 0 {
        assert(a + b =~= a);
    } else {
        assert((a + b).drop_last() =~= a + b.drop_last());
        law_replay_goes_on(r, a, b.drop_last());
    }
}

/// The records that are passed over are those whose bytes are not those of an entry, each with
/// where its bytes begin and why.
pub proof fn law_every_bad_record_is_reported(
    payload: Seq<u8>,
    rest: Seq<u8>,
    short: Seq<u8>,
    at: int,
)
    requires
        payload.len() <= u64::MAX,
        short.len() < 8 || short.len() < 8 + be64_value(short),
    ensures
        passed_over(short, at) == Seq::<(int, Seq<char>)>::empty(),
        passed_over(be64(payload.len() as u64) + payload + rest, at) == (match read_wal(
            blank_entry(),
            payload,
        ) {
            Ok(_) => passed_over(rest, at + 8 + payload.len()),
            Err(p) => seq![(at + 8, "failed to decode Protobuf message: "@ + p)] + passed_over(
                rest,
                at + 8 + payload.len(),
            ),
        }),
{
    reveal(has_frame);
    reveal(frame_len);
    reveal(frame_entry);
    reveal(frame_problem);
    let b = be64(payload.len() as u64) + payload + rest;
    assert(b =~= be64(payload.len() as u64) + (payload + rest));
    lemma_be64_round_trip(payload.len() as u64, payload + rest);
    assert(b.subrange(8, frame_len(b)) =~= payload);
    assert(b.skip(frame_len(b)) =~= rest);
}

/// What log entries stand for is each of them, in order.
pub proof fn law_log_entries_stand_for_each_of_them(
    entries: Seq<WalEntry>,
    passed: Seq<PassedOver>,
    i: int,
)
    ensures
        entries_view(entries).len() == entries.len(),
        0 <= i < entries.len() ==> entries_view(entries)[i] == entries[i]@,
        passed_over_view(passed).len() == passed.len(),
        0 <= i < passed.len() ==> passed_over_view(passed)[i] == (
            passed[i].offset as int,
            passed[i].reason@,
        ),
{
}

} // verus!
