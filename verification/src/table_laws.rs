//! Laws of table files: what is laid out is found again, by key and as a whole, and a damaged
//! block is noticed.

use vstd::prelude::*;
use crate::bloom::{
    filter_bits, filter_bytes, has_positions, lemma_filter_has_every_key, lemma_filter_len, PROBES,
};
use crate::bytes::{
    after, be32, be32_value, be64, be64_value, key_le, key_lt, lemma_be32_round_trip,
    lemma_be64_round_trip, lemma_key_le_lt, lemma_key_lt_asymmetric, lemma_key_lt_irreflexive,
};
use crate::crc::{crc32_of, lemma_crc32_detects_one_byte};
use crate::decimal::decimal;
use crate::entry_map::{as_map, lemma_as_map_lookup, sorted};
use crate::format::{
    bisect, block_bytes, block_intact, block_records, block_to_read, blocks_of, bloom_bytes,
    counted_at, cut_short, data_bytes, entry_bytes, file_bytes, filtered_out, find_in_block,
    find_in_records, footer_bytes, index_at, index_bytes, index_entry_at, index_entry_bytes,
    index_of, keys_of, lemma_record_at_len, magic, out_of_range, pairs_in_block, range_bytes,
    record_at, record_bytes, records_at, records_bytes, region_bytes, split, table_at, table_of,
    trailer_at, IndexEntryModel, Pair, TableModel, FOOTER_LEN, TYPE_TOMBSTONE, TYPE_VALUE, VERSION,
};
use crate::proto::{lemma_value_round_trip, read_value, value_bytes};
use crate::sstable::{filter_usable, pairs_in_blocks, probe_safe};
use crate::value::{EntryModel, ValueModel};

verus! {

broadcast use crate::bytes::group_be;

/// Whether the lengths in the record of a pair fit in their fields.
pub open spec fn record_fits(p: Pair) -> bool {
    &&& p.0.len() <= u32::MAX
    &&& p.1 matches EntryModel::Value(v) ==> value_bytes(v).len() <= u32::MAX
}

/// Whether every length and offset in the file of the pairs `s` fits in its field.
pub open spec fn fits(s: Seq<Pair>) -> bool {
    &&& forall|i: int| 0 <= i < s.len() ==> record_fits(#[trigger] s[i])
    &&& forall|i: int|
        0 <= i < blocks_of(s).len() ==> block_bytes(#[trigger] blocks_of(s)[i]).len() <= u32::MAX
    &&& blocks_of(s).len() <= u32::MAX
    &&& filter_bytes(s.len()) <= u32::MAX
    &&& file_bytes(s).len() <= u64::MAX
}

/// What `key` resolves to among the pairs `s`.
pub open spec fn lookup(s: Seq<Pair>, key: Seq<u8>) -> Option<EntryModel> {
    if as_map(s).contains_key(key) {
        Some(as_map(s)[key])
    } else {
        None
    }
}

/// The bytes of the `i`-th block of table `t` in its file.
pub open spec fn block_of_file(t: TableModel, file: Seq<u8>, i: int) -> Seq<u8> {
    file.subrange(
        t.index[i].block_offset as int,
        t.index[i].block_offset + t.index[i].block_len,
    )
}

/// The bytes of every block of table `t` in its file.
pub open spec fn blocks_of_file(t: TableModel, file: Seq<u8>) -> Seq<Seq<u8>> {
    Seq::new(t.index.len(), |i: int| block_of_file(t, file, i))
}

// ---- records ----

/// Reading a record gives its pair back, whatever follows it.
pub proof fn lemma_record_round_trip(p: Pair, rest: Seq<u8>)
    requires
        record_fits(p),
    ensures
        record_at(record_bytes(p) + rest) == Ok::<(Seq<u8>, EntryModel, int), Seq<char>>(
            (p.0, p.1, record_bytes(p).len() as int),
        ),
        record_bytes(p).len() >= 9,
{
    reveal(record_at);
    reveal(record_bytes);
    let b = record_bytes(p) + rest;
    let klen = p.0.len() as u32;
    lemma_be32_round_trip(klen, p.0 + entry_bytes(p.1) + rest);
    assert(b =~= be32(klen) + (p.0 + entry_bytes(p.1) + rest));
    let key_end = 4 + be32_value(b);
    assert(b.subrange(4, key_end) =~= p.0);
    match p.1 {
        EntryModel::Value(v) => {
            let vb = value_bytes(v);
            let vlen = vb.len() as u32;
            assert(b.skip(key_end + 1) =~= be32(vlen) + (vb + rest));
            lemma_be32_round_trip(vlen, vb + rest);
            assert(b[key_end] == TYPE_VALUE);
            assert(b.subrange(key_end + 5, key_end + 5 + vb.len()) =~= vb);
            lemma_value_round_trip(None, v);
        },
        EntryModel::Tombstone => {
            assert(b[key_end] == TYPE_TOMBSTONE);
        },
    }
}

/// Reading a record gives its pair back and passes over exactly the record, whatever stands before
/// it and whatever follows it.
pub proof fn law_record_is_read_back(before: Seq<u8>, p: Pair, rest: Seq<u8>)
    requires
        record_fits(p),
    ensures
        record_at(after(before + record_bytes(p) + rest, before.len())) == Ok::<
            (Seq<u8>, EntryModel, int),
            Seq<char>,
        >((p.0, p.1, record_bytes(p).len() as int)),
{
    let b = before + record_bytes(p) + rest;
    assert(after(b, before.len()) =~= record_bytes(p) + rest);
    lemma_record_round_trip(p, rest);
}

/// A record that is cut short anywhere is an error, never a shorter record.
pub proof fn law_record_cut_short_is_an_error(p: Pair, n: int)
    requires
        record_fits(p),
        0 <= n < record_bytes(p).len(),
    ensures
        record_at(record_bytes(p).take(n)) == Err::<(Seq<u8>, EntryModel, int), Seq<char>>(
            cut_short(),
        ),
{
    reveal(record_at);
    reveal(record_bytes);
    let whole = record_bytes(p);
    let b = whole.take(n);
    let klen = p.0.len() as u32;
    let none = Seq::<u8>::empty();
    assert(whole =~= be32(klen) + (p.0 + entry_bytes(p.1)));
    if n >= 4 {
        let key_end = 4 + p.0.len();
        assert(b =~= be32(klen) + (p.0 + entry_bytes(p.1)).take(n - 4));
        lemma_be32_round_trip(klen, (p.0 + entry_bytes(p.1)).take(n - 4));
        if n >= key_end + 5 {
            match p.1 {
                EntryModel::Value(v) => {
                    let vb = value_bytes(v);
                    let vlen = vb.len() as u32;
                    assert(whole.skip(key_end as int + 1) =~= be32(vlen) + vb);
                    assert(b.skip(key_end as int + 1) =~= be32(vlen) + vb.take(n - key_end - 5)) by {
                        assert(b.skip(key_end as int + 1) =~= whole.skip(key_end as int + 1).take(
                            n - key_end - 1,
                        ));
                    }
                    lemma_be32_round_trip(vlen, vb.take(n - key_end - 5));
                    assert(b[key_end as int] == whole[key_end as int]);
                    assert(whole[key_end as int] == TYPE_VALUE);
                },
                EntryModel::Tombstone => {},
            }
        }
    }
}

proof fn lemma_records_front(s: Seq<Pair>)
    requires
        s.len() > 0,
    ensures
        records_bytes(s) == record_bytes(s[0]) + records_bytes(s.skip(1)),
    decreases s.len(),
{
    let none = Seq::<u8>::empty();
    if s.len() == 1 {
        assert(s.drop_last() =~= Seq::<Pair>::empty());
        assert(s.skip(1) =~= Seq::<Pair>::empty());
        assert(none + record_bytes(s[0]) =~= record_bytes(s[0]) + none);
    } else {
        lemma_records_front(s.drop_last());
        assert(s.skip(1).drop_last() =~= s.drop_last().skip(1));
        assert(s.skip(1).last() == s.last());
        assert(record_bytes(s[0]) + records_bytes(s.drop_last().skip(1)) + record_bytes(s.last())
            =~= record_bytes(s[0]) + (records_bytes(s.skip(1).drop_last()) + record_bytes(
            s.last(),
        )));
    }
}

/// Reading the records of some pairs gives the pairs back.
pub proof fn lemma_records_round_trip(s: Seq<Pair>)
    requires
        forall|i: int| 0 <= i < s.len() ==> record_fits(#[trigger] s[i]),
    ensures
        records_at(records_bytes(s)) == Ok::<Seq<Pair>, Seq<char>>(s),
    decreases s.len(),
{
    if s.len() == 0 {
        assert(s =~= Seq::<Pair>::empty());
    } else {
        let rest = s.skip(1);
        lemma_records_front(s);
        lemma_record_round_trip(s[0], records_bytes(rest));
        assert(forall|i: int| 0 <= i < rest.len() ==> rest[i] == s[i + 1]);
        lemma_records_round_trip(rest);
        let n = record_bytes(s[0]).len() as int;
        assert(records_bytes(s).skip(n) =~= records_bytes(rest));
        assert(seq![(s[0].0, s[0].1)] + rest =~= s);
    }
}

proof fn lemma_find_in_records(s: Seq<Pair>, key: Seq<u8>)
    requires
        sorted(s),
        forall|i: int| 0 <= i < s.len() ==> record_fits(#[trigger] s[i]),
    ensures
        find_in_records(records_bytes(s), key) == Ok::<Option<EntryModel>, Seq<char>>(
            lookup(s, key),
        ),
    decreases s.len(),
{
    lemma_as_map_lookup(s, key);
    if s.len() > 0 {
        let rest = s.skip(1);
        lemma_records_front(s);
        lemma_record_round_trip(s[0], records_bytes(rest));
        assert(forall|i: int| 0 <= i < rest.len() ==> rest[i] == s[i + 1]);
        lemma_find_in_records(rest, key);
        lemma_as_map_lookup(rest, key);
        let n = record_bytes(s[0]).len() as int;
        assert(records_bytes(s).skip(n) =~= records_bytes(rest));
        if s[0].0 == key {
        } else if key_lt(key, s[0].0) {
            assert forall|i: int| 0 <= i < s.len() implies #[trigger] s[i].0 != key by {
                if i > 0 {
                    assert(key_lt(s[0].0, s[i].0));
                    lemma_key_le_lt(key, s[0].0, s[i].0);
                    lemma_key_lt_irreflexive(key);
                }
            }
        } else {
            if as_map(s).contains_key(key) {
                let i = choose|i: int| 0 <= i < s.len() && #[trigger] s[i].0 == key;
                assert(rest[i - 1].0 == key);
            }
            if as_map(rest).contains_key(key) {
                let i = choose|i: int| 0 <= i < rest.len() && #[trigger] rest[i].0 == key;
                assert(s[i + 1].0 == key);
            }
        }
    }
}

// ---- blocks ----

/// The pairs of some blocks, in order.
pub open spec fn flatten(blocks: Seq<Seq<Pair>>) -> Seq<Pair>
    decreases blocks.len(),
{
    if blocks.len() == 0 {
        Seq::empty()
    } else {
        flatten(blocks.drop_last()) + blocks.last()
    }
}

proof fn lemma_split(s: Seq<Pair>)
    ensures
        flatten(split(s).0) + split(s).1 == s,
        forall|i: int| 0 <= i < split(s).0.len() ==> (#[trigger] split(s).0[i]).len() > 0,
    decreases s.len(),
{
    if s.len() == 0 {
        assert(flatten(split(s).0) + split(s).1 =~= s);
    } else {
        let t = s.drop_last();
        lemma_split(t);
        let (done, open) = split(t);
        let open2 = open.push(s.last());
        assert(flatten(done) + open2 =~= (flatten(done) + open).push(s.last()));
        assert(t.push(s.last()) =~= s);
        if records_bytes(open2).len() >= crate::format::BLOCK_SIZE {
            assert(done.push(open2).drop_last() =~= done);
            assert(flatten(done.push(open2)) + Seq::<Pair>::empty() =~= flatten(done) + open2);
        }
    }
}

/// The blocks of a table hold its pairs, in order, and none of them is empty.
pub proof fn lemma_blocks(s: Seq<Pair>)
    ensures
        flatten(blocks_of(s)) == s,
        forall|i: int| 0 <= i < blocks_of(s).len() ==> (#[trigger] blocks_of(s)[i]).len() > 0,
{
    lemma_split(s);
    let (done, open) = split(s);
    if open.len() == 0 {
        assert(flatten(done) + open =~= flatten(done));
    } else {
        assert(done.push(open).drop_last() =~= done);
    }
}

/// Where the pairs of the `i`-th block begin.
spec fn block_start(blocks: Seq<Seq<Pair>>, i: int) -> int {
    flatten(blocks.take(i)).len() as int
}

proof fn lemma_flatten_at(blocks: Seq<Seq<Pair>>, i: int)
    requires
        0 <= i < blocks.len(),
    ensures
        block_start(blocks, i) + blocks[i].len() <= flatten(blocks).len(),
        block_start(blocks, i + 1) == block_start(blocks, i) + blocks[i].len(),
        flatten(blocks).subrange(
            block_start(blocks, i),
            block_start(blocks, i) + blocks[i].len(),
        ) == blocks[i],
    decreases blocks.len(),
{
    let n = blocks.len() - 1;
    let before = blocks.drop_last();
    assert(blocks.take(i + 1).drop_last() =~= blocks.take(i));
    if i == n {
        assert(blocks.take(i) =~= before);
        assert(flatten(blocks).subrange(
            block_start(blocks, i),
            block_start(blocks, i) + blocks[i].len(),
        ) =~= blocks[i]);
    } else {
        lemma_flatten_at(before, i);
        assert(before.take(i) =~= blocks.take(i));
        assert(flatten(blocks).subrange(
            block_start(blocks, i),
            block_start(blocks, i) + blocks[i].len(),
        ) =~= flatten(before).subrange(
            block_start(before, i),
            block_start(before, i) + before[i].len(),
        ));
    }
}

proof fn lemma_flatten_order(blocks: Seq<Seq<Pair>>, i: int, j: int)
    requires
        0 <= i <= j <= blocks.len(),
    ensures
        block_start(blocks, i) <= block_start(blocks, j),
    decreases j - i,
{
    if i < j {
        lemma_flatten_at(blocks, i);
        lemma_flatten_order(blocks, i + 1, j);
    }
}

/// The block that the `k`-th pair is in.
proof fn lemma_flatten_find(blocks: Seq<Seq<Pair>>, k: int) -> (i: int)
    requires
        0 <= k < flatten(blocks).len(),
    ensures
        0 <= i < blocks.len(),
        block_start(blocks, i) <= k < block_start(blocks, i) + blocks[i].len(),
        blocks[i][k - block_start(blocks, i)] == flatten(blocks)[k],
    decreases blocks.len(),
{
    let before = blocks.drop_last();
    if k < flatten(before).len() {
        let i = lemma_flatten_find(before, k);
        assert(before.take(i) =~= blocks.take(i));
        i
    } else {
        let i = blocks.len() - 1;
        assert(blocks.take(i) =~= before);
        i
    }
}

proof fn lemma_block_pair(blocks: Seq<Seq<Pair>>, i: int, j: int)
    requires
        0 <= i < blocks.len(),
        0 <= j < blocks[i].len(),
    ensures
        0 <= block_start(blocks, i) + j < flatten(blocks).len(),
        flatten(blocks)[block_start(blocks, i) + j] == blocks[i][j],
{
    lemma_flatten_at(blocks, i);
    let a = block_start(blocks, i);
    assert(flatten(blocks).subrange(a, a + blocks[i].len())[j] == flatten(blocks)[a + j]);
}

proof fn lemma_block_parts(block: Seq<Pair>)
    ensures
        block_bytes(block).len() == records_bytes(block).len() + 4,
        block_records(block_bytes(block)) == records_bytes(block),
        block_intact(block_bytes(block)),
{
    reveal(block_bytes);
    let r = records_bytes(block);
    let b = block_bytes(block);
    assert(block_records(b) =~= r);
    lemma_be32_round_trip(crc32_of(r), Seq::empty());
    assert(b.skip(b.len() - 4) =~= be32(crc32_of(r)) + Seq::<u8>::empty());
}

// ---- data region ----

proof fn lemma_data_at(blocks: Seq<Seq<Pair>>, i: int)
    requires
        0 <= i < blocks.len(),
    ensures
        index_of(blocks).len() == blocks.len(),
        index_of(blocks)[i].first_key == blocks[i][0].0,
        index_of(blocks)[i].block_offset == data_bytes(blocks.take(i)).len() as u64,
        index_of(blocks)[i].block_len == block_bytes(blocks[i]).len() as u32,
        data_bytes(blocks.take(i)).len() + block_bytes(blocks[i]).len() <= data_bytes(
            blocks,
        ).len(),
        data_bytes(blocks).subrange(
            data_bytes(blocks.take(i)).len() as int,
            (data_bytes(blocks.take(i)).len() + block_bytes(blocks[i]).len()) as int,
        ) == block_bytes(blocks[i]),
    decreases blocks.len(),
{
    let n = blocks.len() - 1;
    let before = blocks.drop_last();
    lemma_index_len(before);
    let a = data_bytes(blocks.take(i)).len() as int;
    let b = a + block_bytes(blocks[i]).len();
    if i == n {
        assert(blocks.take(i) =~= before);
        assert(data_bytes(blocks).subrange(a, b) =~= block_bytes(blocks[i]));
    } else {
        lemma_data_at(before, i);
        assert(before.take(i) =~= blocks.take(i));
        assert(data_bytes(blocks).subrange(a, b) =~= data_bytes(before).subrange(a, b));
    }
}

/// A table has one index entry for each block.
pub proof fn lemma_index_len(blocks: Seq<Seq<Pair>>)
    ensures
        index_of(blocks).len() == blocks.len(),
    decreases blocks.len(),
{
    if blocks.len() > 0 {
        lemma_index_len(blocks.drop_last());
    }
}

/// Every block of a table is found in its file where the index says.
pub proof fn lemma_block_in_file(path: Seq<char>, s: Seq<Pair>, i: int)
    requires
        fits(s),
        0 <= i < blocks_of(s).len(),
    ensures
        table_of(path, s).index.len() == blocks_of(s).len(),
        block_of_file(table_of(path, s), file_bytes(s), i) == block_bytes(blocks_of(s)[i]),
        table_of(path, s).index[i].block_offset + table_of(path, s).index[i].block_len
            <= file_bytes(s).len(),
        table_of(path, s).index[i].block_len >= 4,
{
    let blocks = blocks_of(s);
    let t = table_of(path, s);
    lemma_data_at(blocks, i);
    let data = data_bytes(blocks);
    let file = file_bytes(s);
    lemma_block_parts(blocks[i]);
    assert(block_bytes(blocks[i]).len() <= u32::MAX);
    assert(data.len() <= file.len());
    assert(block_of_file(t, file, i) =~= data.subrange(
        t.index[i].block_offset as int,
        t.index[i].block_offset + t.index[i].block_len,
    ));
}

// ---- index region ----

proof fn lemma_index_entry_round_trip(e: IndexEntryModel, rest: Seq<u8>)
    requires
        e.first_key.len() <= u32::MAX,
    ensures
        index_entry_at(index_entry_bytes(e) + rest) == Some(
            (e, index_entry_bytes(e).len() as int),
        ),
{
    reveal(index_entry_at);
    reveal(index_entry_bytes);
    let b = index_entry_bytes(e) + rest;
    let klen = e.first_key.len() as u32;
    let off = be64(e.block_offset);
    let len = be32(e.block_len);
    lemma_be32_round_trip(klen, e.first_key + off + len + rest);
    assert(b =~= be32(klen) + (e.first_key + off + len + rest));
    let key_end = 4 + be32_value(b);
    assert(b.subrange(4, key_end) =~= e.first_key);
    lemma_be64_round_trip(e.block_offset, len + rest);
    assert(b.skip(key_end) =~= off + (len + rest));
    lemma_be32_round_trip(e.block_len, rest);
    assert(b.skip(key_end + 8) =~= len + rest);
}

proof fn lemma_index_front(index: Seq<IndexEntryModel>)
    requires
        index.len() > 0,
    ensures
        index_bytes(index) == index_entry_bytes(index[0]) + index_bytes(index.skip(1)),
    decreases index.len(),
{
    let none = Seq::<u8>::empty();
    if index.len() == 1 {
        assert(index.drop_last() =~= Seq::<IndexEntryModel>::empty());
        assert(index.skip(1) =~= Seq::<IndexEntryModel>::empty());
        assert(none + index_entry_bytes(index[0]) =~= index_entry_bytes(index[0]) + none);
    } else {
        lemma_index_front(index.drop_last());
        assert(index.skip(1).drop_last() =~= index.drop_last().skip(1));
        assert(index.skip(1).last() == index.last());
        assert(index_entry_bytes(index[0]) + index_bytes(index.drop_last().skip(1))
            + index_entry_bytes(index.last()) =~= index_entry_bytes(index[0]) + (index_bytes(
            index.skip(1).drop_last(),
        ) + index_entry_bytes(index.last())));
    }
}

proof fn lemma_index_round_trip(index: Seq<IndexEntryModel>, rest: Seq<u8>)
    requires
        forall|i: int| 0 <= i < index.len() ==> (#[trigger] index[i]).first_key.len() <= u32::MAX,
    ensures
        index_at(index_bytes(index) + rest, index.len()) == Some(
            (index, index_bytes(index).len() as int),
        ),
    decreases index.len(),
{
    if index.len() == 0 {
        assert(index =~= Seq::<IndexEntryModel>::empty());
    } else {
        let tail = index.skip(1);
        lemma_index_front(index);
        let b = index_bytes(index) + rest;
        let e = index_entry_bytes(index[0]);
        assert(b =~= e + (index_bytes(tail) + rest));
        lemma_index_entry_round_trip(index[0], index_bytes(tail) + rest);
        assert(b.skip(e.len() as int) =~= index_bytes(tail) + rest);
        assert(forall|i: int| 0 <= i < tail.len() ==> tail[i] == index[i + 1]);
        lemma_index_round_trip(tail, rest);
        assert(seq![index[0]] + tail =~= index);
    }
}

proof fn lemma_counted_round_trip(s: Seq<u8>, rest: Seq<u8>)
    requires
        s.len() <= u32::MAX,
    ensures
        counted_at(be32(s.len() as u32) + s + rest) == Some((s, 4 + s.len() as int)),
{
    let b = be32(s.len() as u32) + s + rest;
    lemma_be32_round_trip(s.len() as u32, s + rest);
    assert(b =~= be32(s.len() as u32) + (s + rest));
    assert(b.subrange(4, 4 + s.len() as int) =~= s);
}

proof fn lemma_trailer_round_trip(min: Seq<u8>, max: Seq<u8>, bits: Seq<u8>, k: u32)
    requires
        min.len() <= u32::MAX,
        max.len() <= u32::MAX,
        bits.len() <= u32::MAX,
    ensures
        trailer_at(range_bytes(Some((min, max))) + bloom_bytes(Some((bits, k)))) == Some(
            ((min, max), (bits, k)),
        ),
{
    let none = Seq::<u8>::empty();
    let b = range_bytes(Some((min, max))) + bloom_bytes(Some((bits, k)));
    let p3 = be32(bits.len() as u32) + bits + none;
    let p2 = be32(k) + p3;
    let p1 = be32(max.len() as u32) + max + p2;
    let n = 4 + min.len() as int;
    let m = 4 + max.len() as int;
    lemma_regroup(
        be32(min.len() as u32),
        min,
        be32(max.len() as u32),
        max,
        be32(k),
        be32(bits.len() as u32),
        bits,
    );
    lemma_counted_round_trip(min, p1);
    lemma_skip_two(be32(min.len() as u32), min, p1);
    assert(b.skip(n) == p1);
    lemma_counted_round_trip(max, p2);
    lemma_skip_two(be32(max.len() as u32), max, p2);
    lemma_skip_skip(b, n, m);
    assert(b.skip(n + m) == p2);
    lemma_be32_round_trip(k, p3);
    lemma_skip_two(be32(k), none, p3);
    assert(be32(k) + none + p3 =~= p2);
    lemma_skip_skip(b, n + m, 4);
    assert(b.skip(n + m + 4) == p3);
    lemma_counted_round_trip(bits, none);
    reveal(trailer_at);
}

proof fn lemma_regroup(
    a: Seq<u8>,
    b: Seq<u8>,
    c: Seq<u8>,
    d: Seq<u8>,
    e: Seq<u8>,
    f: Seq<u8>,
    g: Seq<u8>,
)
    ensures
        (a + b + c + d) + (e + f + g) == a + b + (c + d + (e + (f + g + Seq::<u8>::empty()))),
{
    assert((a + b + c + d) + (e + f + g) =~= a + b + (c + d + (e + (f + g
        + Seq::<u8>::empty()))));
}

proof fn lemma_skip_two(a: Seq<u8>, b: Seq<u8>, rest: Seq<u8>)
    ensures
        (a + b + rest).skip(a.len() + b.len() as int) == rest,
{
    assert((a + b + rest).skip(a.len() + b.len() as int) =~= rest);
}

proof fn lemma_skip_skip(s: Seq<u8>, n: int, m: int)
    requires
        0 <= n,
        0 <= m,
        n + m <= s.len(),
    ensures
        s.skip(n).skip(m) == s.skip(n + m),
{
    assert(s.skip(n).skip(m) =~= s.skip(n + m));
}

proof fn lemma_first_keys_fit(s: Seq<Pair>)
    requires
        fits(s),
    ensures
        forall|i: int|
            0 <= i < index_of(blocks_of(s)).len() ==> (#[trigger] index_of(
                blocks_of(s),
            )[i]).first_key.len() <= u32::MAX,
{
    let blocks = blocks_of(s);
    lemma_blocks(s);
    lemma_index_len(blocks);
    assert forall|i: int| 0 <= i < index_of(blocks).len() implies (#[trigger] index_of(
        blocks,
    )[i]).first_key.len() <= u32::MAX by {
        lemma_data_at(blocks, i);
        lemma_block_pair(blocks, i, 0);
        assert(record_fits(s[block_start(blocks, i)]));
    }
}

/// Opening the index region that was written for a table gives the table back.
pub proof fn law_open_gives_back_the_table(path: Seq<char>, s: Seq<Pair>)
    requires
        fits(s),
    ensures
        table_at(
            path,
            table_of(path, s).index.len(),
            region_bytes(table_of(path, s)),
        ) == Some(table_of(path, s)),
{
    reveal(region_bytes);
    let t = table_of(path, s);
    let region = region_bytes(t);
    let tail = range_bytes(t.range) + bloom_bytes(t.bloom);
    assert(region =~= index_bytes(t.index) + tail);
    lemma_first_keys_fit(s);
    lemma_index_round_trip(t.index, tail);
    assert(region.skip(index_bytes(t.index).len() as int) =~= tail);
    if s.len() > 0 {
        lemma_blocks(s);
        assert(record_fits(s[0]));
        assert(record_fits(s[s.len() - 1]));
        lemma_filter_len(keys_of(s), filter_bytes(s.len()));
        let bits = filter_bits(keys_of(s), filter_bytes(s.len()));
        lemma_trailer_round_trip(s[0].0, s.last().0, bits, PROBES);
    }
}

/// The footer that ends a table file leads to its index region.
pub proof fn law_footer_leads_to_the_index(path: Seq<char>, s: Seq<Pair>)
    requires
        fits(s),
    ensures
        ({
            let file = file_bytes(s);
            let footer = file.skip(file.len() - FOOTER_LEN);
            &&& file.len() >= FOOTER_LEN
            &&& footer.subrange(20, 24) == magic()
            &&& be32_value(footer.skip(24)) == VERSION
            &&& be32_value(footer.skip(16)) == table_of(path, s).index.len()
            &&& be64_value(footer) + be64_value(footer.skip(8)) <= file.len()
            &&& file.subrange(
                be64_value(footer),
                be64_value(footer) + be64_value(footer.skip(8)),
            ) == region_bytes(table_of(path, s))
        }),
{
    reveal(footer_bytes);
    reveal(region_bytes);
    let data = data_bytes(blocks_of(s));
    let t = table_of(Seq::empty(), s);
    let region = region_bytes(t);
    assert(region == region_bytes(table_of(path, s)));
    lemma_index_len(blocks_of(s));
    let a = data.len() as u64;
    let b = region.len() as u64;
    let c = t.index.len() as u32;
    let none = Seq::<u8>::empty();
    let f = footer_bytes(a, b, c);
    let file = file_bytes(s);
    lemma_be64_round_trip(a, none);
    lemma_be64_round_trip(b, none);
    assert(f.len() == 28);
    assert(file.skip(file.len() - FOOTER_LEN) =~= f);
    lemma_be64_round_trip(a, be64(b) + be32(c) + magic() + be32(VERSION));
    assert(f =~= be64(a) + (be64(b) + be32(c) + magic() + be32(VERSION)));
    lemma_be64_round_trip(b, be32(c) + magic() + be32(VERSION));
    assert(f.skip(8) =~= be64(b) + (be32(c) + magic() + be32(VERSION)));
    lemma_be32_round_trip(c, magic() + be32(VERSION));
    assert(f.skip(16) =~= be32(c) + (magic() + be32(VERSION)));
    assert(f.subrange(20, 24) =~= magic());
    lemma_be32_round_trip(VERSION, none);
    assert(f.skip(24) =~= be32(VERSION) + none);
    assert(file.subrange(data.len() as int, (data.len() + region.len()) as int) =~= region);
}

/// The table that opening the file at `path` gives, or `None` if the file is not that of a table.
pub open spec fn opened(path: Seq<char>, file: Seq<u8>) -> Option<TableModel> {
    let footer = file.skip(file.len() - FOOTER_LEN);
    let at = be64_value(footer);
    let len = be64_value(footer.skip(8));
    if file.len() < FOOTER_LEN || footer.subrange(20, 24) != magic() || be32_value(footer.skip(24))
        != VERSION || at + len > file.len() {
        None
    } else {
        table_at(path, be32_value(footer.skip(16)) as nat, file.subrange(at, at + len))
    }
}

/// Opening the file that was written for a table gives the table back.
pub proof fn law_opening_a_file_gives_back_its_table(path: Seq<char>, s: Seq<Pair>)
    requires
        fits(s),
    ensures
        opened(path, file_bytes(s)) == Some(table_of(path, s)),
{
    law_footer_leads_to_the_index(path, s);
    law_open_gives_back_the_table(path, s);
}

// ---- looking up ----

/// Bisection of an index in order finds where the entries that come after `key` begin.
pub proof fn lemma_bisect(index: Seq<IndexEntryModel>, key: Seq<u8>, lo: int, hi: int)
    requires
        0 <= lo <= hi <= index.len(),
        forall|i: int, j: int|
            0 <= i < j < index.len() ==> key_lt(
                (#[trigger] index[i]).first_key,
                (#[trigger] index[j]).first_key,
            ),
        forall|i: int| 0 <= i < lo ==> key_le((#[trigger] index[i]).first_key, key),
        forall|i: int| hi <= i < index.len() ==> key_lt(key, (#[trigger] index[i]).first_key),
    ensures
        lo <= bisect(index, key, lo, hi) <= hi,
        forall|i: int|
            0 <= i < bisect(index, key, lo, hi) ==> key_le((#[trigger] index[i]).first_key, key),
        forall|i: int|
            bisect(index, key, lo, hi) <= i < index.len() ==> key_lt(
                key,
                (#[trigger] index[i]).first_key,
            ),
    decreases hi - lo,
{
    if lo < hi {
        let mid = lo + (hi - lo) / 2;
        let m = index[mid].first_key;
        lemma_key_le_lt(key, m, key);
        if key_le(m, key) {
            assert forall|i: int| 0 <= i < mid + 1 implies key_le(
                (#[trigger] index[i]).first_key,
                key,
            ) by {
                if i < mid {
                    lemma_key_le_lt(index[i].first_key, m, key);
                }
            }
            lemma_bisect(index, key, mid + 1, hi);
        } else {
            assert forall|i: int| mid <= i < index.len() implies key_lt(
                key,
                (#[trigger] index[i]).first_key,
            ) by {
                if i > mid {
                    lemma_key_le_lt(key, m, index[i].first_key);
                }
            }
            lemma_bisect(index, key, lo, mid);
        }
    }
}

proof fn lemma_index_sorted(s: Seq<Pair>)
    requires
        sorted(s),
    ensures
        forall|i: int, j: int|
            0 <= i < j < index_of(blocks_of(s)).len() ==> key_lt(
                (#[trigger] index_of(blocks_of(s))[i]).first_key,
                (#[trigger] index_of(blocks_of(s))[j]).first_key,
            ),
{
    let blocks = blocks_of(s);
    lemma_blocks(s);
    lemma_index_len(blocks);
    assert forall|i: int, j: int| 0 <= i < j < index_of(blocks).len() implies key_lt(
        (#[trigger] index_of(blocks)[i]).first_key,
        (#[trigger] index_of(blocks)[j]).first_key,
    ) by {
        lemma_data_at(blocks, i);
        lemma_data_at(blocks, j);
        lemma_block_pair(blocks, i, 0);
        lemma_block_pair(blocks, j, 0);
        lemma_flatten_at(blocks, i);
        lemma_flatten_order(blocks, i + 1, j);
        assert(key_lt(s[block_start(blocks, i) + 0].0, s[block_start(blocks, j) + 0].0));
    }
}

/// In a sorted table, a key can only be in the block that bisection picks.
proof fn lemma_key_in_block(s: Seq<Pair>, key: Seq<u8>, n: int)
    requires
        sorted(s),
        0 < n <= blocks_of(s).len(),
        forall|i: int|
            0 <= i < n ==> key_le((#[trigger] index_of(blocks_of(s))[i]).first_key, key),
        forall|i: int|
            n <= i < blocks_of(s).len() ==> key_lt(
                key,
                (#[trigger] index_of(blocks_of(s))[i]).first_key,
            ),
    ensures
        sorted(blocks_of(s)[n - 1]),
        lookup(s, key) == lookup(blocks_of(s)[n - 1], key),
{
    let blocks = blocks_of(s);
    let block = blocks[n - 1];
    let index = index_of(blocks);
    lemma_blocks(s);
    lemma_index_len(blocks);
    let a = block_start(blocks, n - 1);
    lemma_flatten_at(blocks, n - 1);
    assert forall|i: int, j: int| 0 <= i < j < block.len() implies key_lt(
        #[trigger] block[i].0,
        #[trigger] block[j].0,
    ) by {
        lemma_block_pair(blocks, n - 1, i);
        lemma_block_pair(blocks, n - 1, j);
        assert(key_lt(s[a + i].0, s[a + j].0));
    }
    lemma_as_map_lookup(s, key);
    lemma_as_map_lookup(block, key);
    if as_map(block).contains_key(key) {
        let i = choose|i: int| 0 <= i < block.len() && #[trigger] block[i].0 == key;
        lemma_block_pair(blocks, n - 1, i);
        assert(s[a + i].0 == key);
    }
    if as_map(s).contains_key(key) {
        let k = choose|k: int| 0 <= k < s.len() && #[trigger] s[k].0 == key;
        let i = lemma_flatten_find(blocks, k);
        lemma_data_at(blocks, i);
        lemma_data_at(blocks, n - 1);
        lemma_block_pair(blocks, i, 0);
        lemma_block_pair(blocks, n - 1, 0);
        if i < n - 1 {
            lemma_flatten_at(blocks, i);
            lemma_flatten_order(blocks, i + 1, n - 1);
            assert(key_lt(s[k].0, s[a + 0].0));
            assert(key_le(index[n - 1].first_key, key));
            lemma_key_le_lt(key, index[n - 1].first_key, key);
            lemma_key_lt_irreflexive(key);
            assert(false);
        }
        if i >= n {
            assert(key_lt(key, index[i].first_key));
            let b = block_start(blocks, i);
            if b < k {
                assert(key_lt(s[b + 0].0, s[k].0));
                lemma_key_lt_asymmetric(key, index[i].first_key);
            }
            lemma_key_lt_irreflexive(key);
            assert(false);
        }
        assert(block[k - a].0 == key);
    }
}

/// Looking a key up finds what the table was written with: either no block has to be read and
/// the table does not hold the key, or the one block that is read gives its entry.
pub proof fn law_get_finds_what_was_written(path: Seq<char>, s: Seq<Pair>, key: Seq<u8>)
    requires
        sorted(s),
        fits(s),
    ensures
        filter_usable(table_of(path, s)),
        ({
            let t = table_of(path, s);
            match block_to_read(t, key) {
                None => lookup(s, key) is None,
                Some(i) => {
                    &&& 0 <= i < t.index.len()
                    &&& t.index[i].block_len >= 4
                    &&& find_in_block(
                        t.index[i].block_offset,
                        block_of_file(t, file_bytes(s), i),
                        key,
                    ) == Ok::<Option<EntryModel>, Seq<char>>(lookup(s, key))
                },
            }
        }),
{
    let t = table_of(path, s);
    let blocks = blocks_of(s);
    let index = t.index;
    lemma_blocks(s);
    lemma_index_len(blocks);
    lemma_as_map_lookup(s, key);
    if s.len() > 0 {
        lemma_filter_len(keys_of(s), filter_bytes(s.len()));
    }
    let n = bisect(index, key, 0, index.len() as int);
    lemma_index_sorted(s);
    lemma_bisect(index, key, 0, index.len() as int);
    if out_of_range(t, key) {
        assert forall|i: int| 0 <= i < s.len() implies #[trigger] s[i].0 != key by {
            lemma_key_lt_irreflexive(key);
            if key_lt(key, s[0].0) {
                if i > 0 {
                    assert(key_lt(s[0].0, s[i].0));
                    lemma_key_le_lt(key, s[0].0, s[i].0);
                }
            } else {
                let last = s.len() - 1;
                if i < last {
                    assert(key_lt(s[i].0, s[last].0));
                    lemma_key_le_lt(s[i].0, s[last].0, key);
                }
            }
        }
    } else if filtered_out(t, key) {
        assert forall|i: int| 0 <= i < s.len() implies #[trigger] s[i].0 != key by {
            if s[i].0 == key {
                lemma_filter_has_every_key(keys_of(s), filter_bytes(s.len()), i);
                assert(keys_of(s)[i] == key);
            }
        }
    } else if n == 0 {
        assert forall|i: int| 0 <= i < s.len() implies #[trigger] s[i].0 != key by {
            let b = lemma_flatten_find(blocks, i);
            lemma_data_at(blocks, 0);
            lemma_block_pair(blocks, 0, 0);
            assert(blocks.take(0) =~= Seq::<Seq<Pair>>::empty());
            assert(block_start(blocks, 0) == 0);
            assert(key_lt(key, index[0].first_key));
            lemma_key_lt_irreflexive(key);
            if i > 0 {
                assert(key_lt(s[0].0, s[i].0));
                lemma_key_le_lt(key, s[0].0, s[i].0);
            }
        }
    } else {
        lemma_key_in_block(s, key, n);
        let block = blocks[n - 1];
        lemma_block_in_file(path, s, n - 1);
        lemma_block_parts(block);
        assert forall|i: int| 0 <= i < block.len() implies record_fits(#[trigger] block[i]) by {
            lemma_block_pair(blocks, n - 1, i);
            assert(record_fits(s[block_start(blocks, n - 1) + i]));
        }
        lemma_find_in_records(block, key);
    }
}

/// The pairs of one block are read back from the file.
pub proof fn lemma_block_pairs_in_file(path: Seq<char>, s: Seq<Pair>, i: int)
    requires
        fits(s),
        0 <= i < blocks_of(s).len(),
    ensures
        table_of(path, s).index.len() == blocks_of(s).len(),
        table_of(path, s).index[i].block_len >= 4,
        pairs_in_block(
            table_of(path, s).index[i].block_offset,
            block_of_file(table_of(path, s), file_bytes(s), i),
        ) == Ok::<Seq<Pair>, Seq<char>>(blocks_of(s)[i]),
{
    let blocks = blocks_of(s);
    let block = blocks[i];
    lemma_blocks(s);
    lemma_block_in_file(path, s, i);
    lemma_block_parts(block);
    assert forall|j: int| 0 <= j < block.len() implies record_fits(#[trigger] block[j]) by {
        lemma_block_pair(blocks, i, j);
        assert(record_fits(s[block_start(blocks, i) + j]));
    }
    lemma_records_round_trip(block);
}

proof fn lemma_read_blocks(path: Seq<char>, s: Seq<Pair>, n: int)
    requires
        fits(s),
        0 <= n <= blocks_of(s).len(),
    ensures
        pairs_in_blocks(
            table_of(path, s).index.take(n),
            blocks_of_file(table_of(path, s), file_bytes(s)).take(n),
        ) == Ok::<Seq<Pair>, Seq<char>>(flatten(blocks_of(s).take(n))),
    decreases n,
{
    let t = table_of(path, s);
    let all = blocks_of_file(t, file_bytes(s));
    let blocks = blocks_of(s);
    lemma_index_len(blocks);
    if n > 0 {
        lemma_read_blocks(path, s, n - 1);
        assert(t.index.take(n).drop_last() =~= t.index.take(n - 1));
        assert(all.take(n).drop_last() =~= all.take(n - 1));
        assert(blocks.take(n).drop_last() =~= blocks.take(n - 1));
        lemma_block_pairs_in_file(path, s, n - 1);
    }
}

/// Reading every block of a table gives back all its pairs, in order.
pub proof fn law_read_all_gives_back_every_pair(path: Seq<char>, s: Seq<Pair>)
    requires
        fits(s),
    ensures
        pairs_in_blocks(
            table_of(path, s).index,
            blocks_of_file(table_of(path, s), file_bytes(s)),
        ) == Ok::<Seq<Pair>, Seq<char>>(s),
{
    let t = table_of(path, s);
    let all = blocks_of_file(t, file_bytes(s));
    let blocks = blocks_of(s);
    let n = blocks.len() as int;
    lemma_index_len(blocks);
    lemma_blocks(s);
    lemma_read_blocks(path, s, n);
    assert(t.index.take(n) =~= t.index);
    assert(all.take(n) =~= all);
    assert(blocks.take(n) =~= blocks);
}

/// A block in which one byte has changed, among its records or in its checksum, fails its
/// checksum.
pub proof fn law_changed_byte_is_noticed(block: Seq<u8>, changed: Seq<u8>, at: int)
    requires
        block.len() >= 4,
        block_intact(block),
        changed.len() == block.len(),
        0 <= at < block.len(),
        changed[at] != block[at],
        forall|i: int| 0 <= i < block.len() && i != at ==> changed[i] == block[i],
    ensures
        !block_intact(changed),
{
    let n = block.len() - 4;
    let a = block.take(n);
    let b = changed.take(n);
    let p = block.skip(n);
    let q = changed.skip(n);
    if at < n {
        assert forall|i: int| 0 <= i < a.len() && i != at implies a[i] == b[i] by {
            assert(changed[i] == block[i]);
        }
        lemma_crc32_detects_one_byte(a, b, at);
        assert(p =~= q);
    } else {
        assert(a =~= b);
        let i = at - n;
        assert(p[i] != q[i]);
        assert(forall|j: int| 0 <= j < 4 && j != i ==> p[j] == q[j]);
        reveal(be32_value);
        assert(be32_value(p) != be32_value(q));
    }
}

/// What is known of a table without reading a block: the smallest and the largest of its keys, and
/// that its filter finds every key it holds. A table without pairs has neither, and no block.
pub proof fn law_table_knows_its_keys(path: Seq<char>, s: Seq<Pair>, i: int)
    requires
        sorted(s),
        filter_bytes(s.len()) > 0,
    ensures
        table_of(path, s).path == path,
        s.len() == 0 ==> table_of(path, s).range is None && table_of(path, s).bloom is None
            && table_of(path, s).index.len() == 0,
        0 <= i < s.len() ==> (table_of(path, s).range matches Some((min, max)) && min == s[0].0
            && max == s[s.len() - 1].0 && (min == s[i].0 || key_lt(min, s[i].0)) && (s[i].0 == max
            || key_lt(s[i].0, max))) && (table_of(path, s).bloom matches Some((bits, k))
            && has_positions(bits, s[i].0, k as nat) && k == 7 && bits.len() == filter_bytes(
            s.len(),
        )),
{
    if s.len() == 0 {
        assert(split(s).0.len() == 0);
        lemma_index_len(blocks_of(s));
    }
    if 0 <= i < s.len() {
        lemma_filter_has_every_key(keys_of(s), filter_bytes(s.len()), i);
        assert(keys_of(s)[i] == s[i].0);
        assert(i > 0 ==> key_lt(s[0].0, s[i].0));
        assert(i < s.len() - 1 ==> key_lt(s[i].0, s[s.len() - 1].0));
    }
}

proof fn lemma_split_sizes(s: Seq<Pair>)
    ensures
        forall|i: int|
            0 <= i < split(s).0.len() ==> records_bytes(#[trigger] split(s).0[i]).len() >= 4096
                && split(s).0[i].len() > 0 && records_bytes(split(s).0[i].drop_last()).len() < 4096,
        records_bytes(split(s).1).len() < 4096,
    decreases s.len(),
{
    if s.len() > 0 {
        let t = s.drop_last();
        lemma_split_sizes(t);
        let (done, open) = split(t);
        let open2 = open.push(s.last());
        assert(open2.drop_last() =~= open);
    } else {
        assert(records_bytes(split(s).1).len() == 0);
    }
}

/// The blocks of a table hold its pairs, all of them and in order. A block ends with the record
/// that brings it to 4096 bytes or more; only the last one may be shorter.
pub proof fn law_blocks_end_at_their_size(s: Seq<Pair>, i: int)
    ensures
        flatten(blocks_of(s)) == s,
        0 <= i < blocks_of(s).len() ==> blocks_of(s)[i].len() > 0 && records_bytes(
            blocks_of(s)[i].drop_last(),
        ).len() < 4096,
        0 <= i < blocks_of(s).len() - 1 ==> records_bytes(blocks_of(s)[i]).len() >= 4096,
        table_of(Seq::empty(), s).index.len() == blocks_of(s).len(),
{
    lemma_blocks(s);
    lemma_split_sizes(s);
    lemma_index_len(blocks_of(s));
    let (done, open) = split(s);
    if 0 <= i < done.len() {
        assert(blocks_of(s)[i] == done[i]);
        assert(records_bytes(split(s).0[i]).len() >= 4096);
    } else if i == done.len() && open.len() > 0 {
        assert(records_bytes(open) == records_bytes(open.drop_last()) + record_bytes(open.last()));
    }
}

/// How a record is laid out: the length of the key in four bytes, the key, one byte that tells a
/// value from a deletion marker, the length of the value in four bytes, and the value; and records,
/// one after the other.
pub proof fn law_records_are_laid_out_like_this(
    key: Seq<u8>,
    v: ValueModel,
    s: Seq<Pair>,
    p: Pair,
)
    ensures
        record_bytes((key, EntryModel::Value(v))) == be32(key.len() as u32) + key + seq![0u8]
            + be32(value_bytes(v).len() as u32) + value_bytes(v),
        record_bytes((key, EntryModel::Tombstone)) == be32(key.len() as u32) + key + seq![1u8]
            + be32(0),
        records_bytes(Seq::empty()) == Seq::<u8>::empty(),
        records_bytes(s.push(p)) == records_bytes(s) + record_bytes(p),
        block_bytes(s) == records_bytes(s) + be32(crc32_of(records_bytes(s))),
{
    reveal(record_bytes);
    reveal(block_bytes);
    assert(s.push(p).drop_last() =~= s);
    assert(record_bytes((key, EntryModel::Value(v))) =~= be32(key.len() as u32) + key + seq![0u8]
        + be32(value_bytes(v).len() as u32) + value_bytes(v));
    assert(record_bytes((key, EntryModel::Tombstone)) =~= be32(key.len() as u32) + key + seq![1u8]
        + be32(0));
}

/// Pairs fit in a table file exactly if every length and offset in the file fits in the field that
/// it is written in; nothing else is asked of them.
pub proof fn law_what_fits_in_a_table_file(s: Seq<Pair>)
    ensures
        fits(s) <==> {
            &&& forall|i: int|
                0 <= i < s.len() ==> (#[trigger] s[i]).0.len() <= 0xFFFF_FFFF && (
                s[i].1 matches EntryModel::Value(v) ==> value_bytes(v).len() <= 0xFFFF_FFFF)
            &&& forall|i: int|
                0 <= i < blocks_of(s).len() ==> records_bytes(#[trigger] blocks_of(s)[i]).len() + 4
                    <= 0xFFFF_FFFF
            &&& blocks_of(s).len() <= 0xFFFF_FFFF
            &&& filter_bytes(s.len()) <= 0xFFFF_FFFF
            &&& file_bytes(s).len() <= 0xFFFF_FFFF_FFFF_FFFF
        },
{
    reveal(block_bytes);
    assert forall|b: Seq<Pair>| #[trigger] block_bytes(b).len() == records_bytes(b).len() + 4 by {
        assert(be32(crc32_of(records_bytes(b))).len() == 4);
    }
    if fits(s) {
        assert forall|i: int| 0 <= i < s.len() implies (#[trigger] s[i]).0.len() <= 0xFFFF_FFFF && (
        s[i].1 matches EntryModel::Value(v) ==> value_bytes(v).len() <= 0xFFFF_FFFF) by {
            assert(record_fits(s[i]));
        }
        assert forall|i: int| 0 <= i < blocks_of(s).len() implies records_bytes(
            #[trigger] blocks_of(s)[i],
        ).len() + 4 <= 0xFFFF_FFFF by {
            assert(block_bytes(blocks_of(s)[i]).len() <= u32::MAX);
        }
    }
}

/// A block is what it should be exactly if its last four bytes are the checksum of the others. If
/// not, neither a lookup nor a reading of all pairs gives anything but the error that names its
/// offset.
pub proof fn law_damaged_block_is_reported(offset: u64, block: Seq<u8>, key: Seq<u8>)
    requires
        block.len() >= 4,
    ensures
        be32_value(block.skip(block.len() - 4)) != crc32_of(block.take(block.len() - 4)) ==> {
            let text = "SSTable block CRC mismatch at offset "@ + decimal(offset as nat);
            &&& find_in_block(offset, block, key) == Err::<Option<EntryModel>, Seq<char>>(text)
            &&& pairs_in_block(offset, block) == Err::<Seq<Pair>, Seq<char>>(text)
        },
        cut_short() == "unexpected end of SSTable record"@,
        VERSION == 3,
        FOOTER_LEN == 28,
        magic() == seq![0x46u8, 0x53u8, 0x53u8, 0x54u8],
{
}

/// A lookup can be made in a table unless its filter has probes but no bits, and then only where
/// the filter is asked.
pub proof fn law_where_a_lookup_can_be_made(t: TableModel, key: Seq<u8>)
    ensures
        probe_safe(t, key) <==> t.index.len() == 0 || (t.range matches Some((min, max)) && (key_lt(
            key,
            min,
        ) || key_lt(max, key))) || (t.bloom matches Some((bits, k)) ==> k == 0 || bits.len() > 0),
{
}

/// An index region gives back whatever table it was written for, with any index, any key range and
/// any filter; one without a key range has no filter.
pub proof fn law_any_index_region_is_read_back(t: TableModel)
    requires
        forall|i: int|
            0 <= i < t.index.len() ==> (#[trigger] t.index[i]).first_key.len() <= u32::MAX,
        t.range is Some <==> t.bloom is Some,
        t.range matches Some((min, max)) ==> min.len() <= u32::MAX && max.len() <= u32::MAX,
        t.bloom matches Some((bits, k)) ==> bits.len() <= u32::MAX,
    ensures
        table_at(t.path, t.index.len(), region_bytes(t)) == Some(t),
{
    reveal(region_bytes);
    let region = region_bytes(t);
    let tail = range_bytes(t.range) + bloom_bytes(t.bloom);
    assert(region =~= index_bytes(t.index) + tail);
    lemma_index_round_trip(t.index, tail);
    assert(region.skip(index_bytes(t.index).len() as int) =~= tail);
    if let Some((min, max)) = t.range {
        let (bits, k) = t.bloom->Some_0;
        assert(t.range == Some((min, max)) && t.bloom == Some((bits, k)));
        lemma_trailer_round_trip(min, max, bits, k);
    }
}

/// An index that ends before its last entry does, and a trailer that ends before its filter does,
/// are no table.
pub proof fn law_index_region_cut_short_is_no_table(path: Seq<char>, count: nat, region: Seq<u8>)
    ensures
        index_entry_at(region) is None <==> region.len() < 4 || region.len() < 16 + be32_value(
            region,
        ),
        counted_at(region) is None <==> region.len() < 4 || region.len() < 4 + be32_value(region),
        count > 0 && region.len() < 16 ==> table_at(path, count, region) is None,
        0 < region.len() < 16 ==> table_at(path, 0, region) is None,
        region.len() == 0 ==> table_at(path, 0, region) == Some(
            TableModel { path, index: Seq::empty(), range: None, bloom: None },
        ),
{
    reveal(index_entry_at);
    reveal(trailer_at);
    if count == 0 && 0 < region.len() {
        assert(region.skip(0) =~= region);
        if region.len() < 16 {
            if let Some((min, n)) = counted_at(region) {
                if let Some((max, m)) = counted_at(region.skip(n)) {
                    assert(n >= 4 && m >= 4);
                    if region.len() >= n + m + 4 {
                        assert(region.skip(n + m + 4).len() < 4);
                    }
                }
            }
        }
    }
    lemma_index_at_len(region, count);
}

proof fn lemma_index_at_len(b: Seq<u8>, count: nat)
    ensures
        index_at(b, count) matches Some((index, n)) ==> index.len() == count && 16 * count <= n
            <= b.len(),
    decreases count,
{
    if count > 0 {
        reveal(index_entry_at);
        if let Some((e, n)) = index_entry_at(b) {
            lemma_index_at_len(b.skip(n), (count - 1) as nat);
        }
    }
}

/// The numbers and texts of the index region and of the footer stand one after the other.
pub proof fn law_index_and_footer_are_laid_out_like_this(
    e: IndexEntryModel,
    index: Seq<IndexEntryModel>,
    t: TableModel,
    offset: u64,
    len: u64,
    count: u32,
)
    ensures
        index_entry_bytes(e) == be32(e.first_key.len() as u32) + e.first_key + be64(e.block_offset)
            + be32(e.block_len),
        index_bytes(Seq::empty()) == Seq::<u8>::empty(),
        index_bytes(index.push(e)) == index_bytes(index) + index_entry_bytes(e),
        region_bytes(t) == index_bytes(t.index) + (match t.range {
            Some((min, max)) => be32(min.len() as u32) + min + be32(max.len() as u32) + max,
            None => Seq::empty(),
        }) + (match t.bloom {
            Some((bits, k)) => be32(k) + be32(bits.len() as u32) + bits,
            None => Seq::empty(),
        }),
        footer_bytes(offset, len, count) == be64(offset) + be64(len) + be32(count) + seq![
            0x46u8,
            0x53u8,
            0x53u8,
            0x54u8,
        ] + be32(3),
{
    reveal(index_entry_bytes);
    reveal(region_bytes);
    reveal(footer_bytes);
    assert(index.push(e).drop_last() =~= index);
}

/// What a record holds is told by its type: a value if it is zero, which has to be one that can be
/// decoded, and else a deletion marker, which ends before the value.
pub proof fn law_record_is_what_its_type_says(key: Seq<u8>, kind: u8, vb: Seq<u8>, rest: Seq<u8>)
    requires
        key.len() <= u32::MAX,
        vb.len() <= u32::MAX,
    ensures
        record_at(
            be32(key.len() as u32) + key + seq![kind] + be32(vb.len() as u32) + vb + rest,
        ) == (if kind != 0 {
            Ok((key, EntryModel::Tombstone, 9 + key.len() as int))
        } else {
            match read_value(None, vb) {
                Ok(Some(v)) => Ok(
                    (key, EntryModel::Value(v), (9 + key.len() + vb.len()) as int),
                ),
                Ok(None) => Err("value message has no kind set"@),
                Err(text) => Err(text),
            }
        }),
{
    reveal(record_at);
    let klen = key.len() as u32;
    let vlen = vb.len() as u32;
    let b = be32(klen) + key + seq![kind] + be32(vlen) + vb + rest;
    let tail = key + seq![kind] + be32(vlen) + vb + rest;
    assert(b =~= be32(klen) + tail);
    lemma_be32_round_trip(klen, tail);
    let key_end = 4 + key.len() as int;
    assert(b.subrange(4, key_end) =~= key);
    assert(b[key_end] == kind);
    assert(b.skip(key_end + 1) =~= be32(vlen) + (vb + rest));
    lemma_be32_round_trip(vlen, vb + rest);
    assert(b.subrange(key_end + 5, key_end + 5 + vb.len()) =~= vb);
}

proof fn lemma_find_agrees(b: Seq<u8>, key: Seq<u8>, pairs: Seq<Pair>)
    requires
        records_at(b) == Ok::<Seq<Pair>, Seq<char>>(pairs),
        sorted(pairs),
    ensures
        find_in_records(b, key) == Ok::<Option<EntryModel>, Seq<char>>(lookup(pairs, key)),
    decreases b.len(),
{
    lemma_as_map_lookup(pairs, key);
    if b.len() > 0 {
        lemma_record_at_len(b);
        let (k, e, n) = record_at(b)->Ok_0;
        let rest = records_at(b.skip(n))->Ok_0;
        assert(pairs == seq![(k, e)] + rest);
        assert(forall|i: int| 0 <= i < rest.len() ==> rest[i] == pairs[i + 1]);
        assert(pairs[0] == (k, e));
        assert(sorted(rest));
        lemma_find_agrees(b.skip(n), key, rest);
        lemma_as_map_lookup(rest, key);
        if k == key {
            assert(pairs[0].0 == key);
            assert(lookup(pairs, key) == Some(e));
        } else if key_lt(key, k) {
            assert forall|i: int| 0 <= i < pairs.len() implies #[trigger] pairs[i].0 != key by {
                if i > 0 {
                    assert(key_lt(pairs[0].0, pairs[i].0));
                    lemma_key_le_lt(key, pairs[0].0, pairs[i].0);
                    lemma_key_lt_irreflexive(key);
                }
            }
        } else {
            if as_map(pairs).contains_key(key) {
                let i = choose|i: int| 0 <= i < pairs.len() && #[trigger] pairs[i].0 == key;
                assert(i > 0);
                assert(rest[i - 1] == pairs[i]);
                assert(rest[i - 1].0 == key);
            }
            if as_map(rest).contains_key(key) {
                let i = choose|i: int| 0 <= i < rest.len() && #[trigger] rest[i].0 == key;
                assert(pairs[i + 1] == rest[i]);
                assert(pairs[i + 1].0 == key);
            }
            assert(lookup(pairs, key) == lookup(rest, key));
        }
    } else {
        assert(pairs.len() == 0);
        assert(lookup(pairs, key) is None);
    }
}

/// Of any block that can be read as a whole and whose keys are in order, looking a key up gives
/// what stands in the block under that key, and nothing if no pair has it.
pub proof fn law_lookup_agrees_with_the_whole_block(
    offset: u64,
    block: Seq<u8>,
    key: Seq<u8>,
    pairs: Seq<Pair>,
    i: int,
)
    requires
        pairs_in_block(offset, block) == Ok::<Seq<Pair>, Seq<char>>(pairs),
        sorted(pairs),
    ensures
        0 <= i < pairs.len() && pairs[i].0 == key ==> find_in_block(offset, block, key) == Ok::<
            Option<EntryModel>,
            Seq<char>,
        >(Some(pairs[i].1)),
        (forall|j: int| 0 <= j < pairs.len() ==> (#[trigger] pairs[j]).0 != key) ==> find_in_block(
            offset,
            block,
            key,
        ) == Ok::<Option<EntryModel>, Seq<char>>(None),
{
    lemma_find_agrees(block_records(block), key, pairs);
    lemma_as_map_lookup(pairs, key);
}

} // verus!
