//! The layout of a table file.
//!
//! ```text
//! [ data block 0 ][ data block 1 ] ... [ data block N ]
//! [ sparse index: one entry per block ][ key range ][ bloom filter ]
//! [ footer: 28 bytes ]
//! ```
//!
//! The file is read from the back: the footer says where the index is, and the index says
//! which block a key is in.

use vstd::prelude::*;
use crate::bloom::{filter_bits, filter_bytes, has_positions, PROBES};
use crate::bytes::{be32, be32_value, be64, be64_value, key_le, key_lt};
use crate::crc::crc32_of;
use crate::proto::{read_value, value_bytes};
use crate::value::EntryModel;

verus! {

broadcast use crate::bytes::group_be;

/// A block ends once its records reach this many bytes.
pub const BLOCK_SIZE: usize = 4096;

/// Version of the format.
pub const VERSION: u32 = 3;

/// Length of the footer: index offset (8), index length (8), entry count (4), magic (4),
/// version (4).
pub const FOOTER_LEN: usize = 28;

/// Record type of a value.
pub const TYPE_VALUE: u8 = 0;

/// Record type of a deletion marker.
pub const TYPE_TOMBSTONE: u8 = 1;

/// A key with what it resolves to.
pub type Pair = (Seq<u8>, EntryModel);

/// The bytes `FSST`, by which a table file is known.
pub open spec fn magic() -> Seq<u8> {
    seq![0x46u8, 0x53u8, 0x53u8, 0x54u8]
}

// ---- writing ----

/// The part of a record after its key: type, value length and value.
pub open spec fn entry_bytes(e: EntryModel) -> Seq<u8> {
    match e {
        EntryModel::Value(v) => seq![TYPE_VALUE] + be32(value_bytes(v).len() as u32) + value_bytes(
            v,
        ),
        EntryModel::Tombstone => seq![TYPE_TOMBSTONE] + be32(0),
    }
}

/// One record: key length, key, type, value length and value.
#[verifier::opaque]
pub open spec fn record_bytes(p: Pair) -> Seq<u8> {
    be32(p.0.len() as u32) + p.0 + entry_bytes(p.1)
}

/// Some records, in order.
pub open spec fn records_bytes(s: Seq<Pair>) -> Seq<u8>
    decreases s.len(),
{
    if s.len() == 0 {
        Seq::empty()
    } else {
        records_bytes(s.drop_last()) + record_bytes(s.last())
    }
}

/// How the pairs of a table fall into blocks: the finished blocks, and the pairs of the block
/// that has not reached its size yet.
pub open spec fn split(s: Seq<Pair>) -> (Seq<Seq<Pair>>, Seq<Pair>)
    decreases s.len(),
{
    if s.len() == 0 {
        (Seq::empty(), Seq::empty())
    } else {
        let (done, open) = split(s.drop_last());
        let open = open.push(s.last());
        if records_bytes(open).len() >= BLOCK_SIZE {
            (done.push(open), Seq::empty())
        } else {
            (done, open)
        }
    }
}

/// The blocks of a table.
pub open spec fn blocks_of(s: Seq<Pair>) -> Seq<Seq<Pair>> {
    let (done, open) = split(s);
    if open.len() == 0 {
        done
    } else {
        done.push(open)
    }
}

/// One block: its records and their checksum.
#[verifier::opaque]
pub open spec fn block_bytes(block: Seq<Pair>) -> Seq<u8> {
    records_bytes(block) + be32(crc32_of(records_bytes(block)))
}

/// Some blocks, in order.
pub open spec fn data_bytes(blocks: Seq<Seq<Pair>>) -> Seq<u8>
    decreases blocks.len(),
{
    if blocks.len() == 0 {
        Seq::empty()
    } else {
        data_bytes(blocks.drop_last()) + block_bytes(blocks.last())
    }
}

/// What the sparse index says of one block: its first key, where it stands, and its length.
pub struct IndexEntryModel {
    pub first_key: Seq<u8>,
    pub block_offset: u64,
    pub block_len: u32,
}

/// The sparse index of some blocks.
pub open spec fn index_of(blocks: Seq<Seq<Pair>>) -> Seq<IndexEntryModel>
    decreases blocks.len(),
{
    if blocks.len() == 0 {
        Seq::empty()
    } else {
        index_of(blocks.drop_last()).push(
            IndexEntryModel {
                first_key: blocks.last()[0].0,
                block_offset: data_bytes(blocks.drop_last()).len() as u64,
                block_len: block_bytes(blocks.last()).len() as u32,
            },
        )
    }
}

/// A table as it is held in memory.
pub struct TableModel {
    pub path: Seq<char>,
    pub index: Seq<IndexEntryModel>,
    /// The smallest and the largest key.
    pub range: Option<(Seq<u8>, Seq<u8>)>,
    /// The bits of the bloom filter, and the number of its probes.
    pub bloom: Option<(Seq<u8>, u32)>,
}

/// The keys of some pairs.
pub open spec fn keys_of(s: Seq<Pair>) -> Seq<Seq<u8>> {
    Seq::new(s.len(), |i: int| s[i].0)
}

/// The table that holds the pairs `s`.
pub open spec fn table_of(path: Seq<char>, s: Seq<Pair>) -> TableModel {
    TableModel {
        path,
        index: index_of(blocks_of(s)),
        range: if s.len() == 0 {
            None
        } else {
            Some((s[0].0, s.last().0))
        },
        bloom: if s.len() == 0 {
            None
        } else {
            Some((filter_bits(keys_of(s), filter_bytes(s.len())), PROBES))
        },
    }
}

/// One entry of the sparse index.
#[verifier::opaque]
pub open spec fn index_entry_bytes(e: IndexEntryModel) -> Seq<u8> {
    be32(e.first_key.len() as u32) + e.first_key + be64(e.block_offset) + be32(e.block_len)
}

/// The entries of the sparse index.
pub open spec fn index_bytes(index: Seq<IndexEntryModel>) -> Seq<u8>
    decreases index.len(),
{
    if index.len() == 0 {
        Seq::empty()
    } else {
        index_bytes(index.drop_last()) + index_entry_bytes(index.last())
    }
}

/// The key range.
pub open spec fn range_bytes(range: Option<(Seq<u8>, Seq<u8>)>) -> Seq<u8> {
    match range {
        Some((min, max)) => be32(min.len() as u32) + min + be32(max.len() as u32) + max,
        None => Seq::empty(),
    }
}

/// The bloom filter.
pub open spec fn bloom_bytes(bloom: Option<(Seq<u8>, u32)>) -> Seq<u8> {
    match bloom {
        Some((bits, k)) => be32(k) + be32(bits.len() as u32) + bits,
        None => Seq::empty(),
    }
}

/// The index region: sparse index, key range and bloom filter.
#[verifier::opaque]
pub open spec fn region_bytes(t: TableModel) -> Seq<u8> {
    index_bytes(t.index) + range_bytes(t.range) + bloom_bytes(t.bloom)
}

/// The footer.
#[verifier::opaque]
pub open spec fn footer_bytes(index_offset: u64, index_len: u64, entry_count: u32) -> Seq<u8> {
    be64(index_offset) + be64(index_len) + be32(entry_count) + magic() + be32(VERSION)
}

/// The file of the table that holds the pairs `s`.
pub open spec fn file_bytes(s: Seq<Pair>) -> Seq<u8> {
    let data = data_bytes(blocks_of(s));
    let t = table_of(Seq::empty(), s);
    let region = region_bytes(t);
    data + region + footer_bytes(data.len() as u64, region.len() as u64, t.index.len() as u32)
}

// ---- reading ----

/// How a record or an index that ends too early is reported.
pub open spec fn cut_short() -> Seq<char> {
    "unexpected end of SSTable record"@
}

/// The record that begins `b`: key, entry and length, or what is wrong. Any type but that of a
/// value is a deletion marker.
#[verifier::opaque]
pub open spec fn record_at(b: Seq<u8>) -> Result<(Seq<u8>, EntryModel, int), Seq<char>> {
    let key_end = 4 + be32_value(b);
    let value_len = be32_value(b.skip(key_end + 1));
    let value_at = key_end + 5;
    if b.len() < 4 || b.len() < value_at {
        Err(cut_short())
    } else if b[key_end] != TYPE_VALUE {
        Ok((b.subrange(4, key_end), EntryModel::Tombstone, value_at))
    } else if b.len() < value_at + value_len {
        Err(cut_short())
    } else {
        match read_value(None, b.subrange(value_at, value_at + value_len)) {
            Err(text) => Err(text),
            Ok(None) => Err("value message has no kind set"@),
            Ok(Some(v)) => Ok(
                (b.subrange(4, key_end), EntryModel::Value(v), value_at + value_len),
            ),
        }
    }
}

/// How far reading the record that begins `b` gets: past the record, or up to the part of it that is
/// cut short. A value that is there but cannot be decoded is passed.
#[verifier::opaque]
pub open spec fn record_reach(b: Seq<u8>) -> int {
    let key_end = 4 + be32_value(b);
    let value_at = key_end + 5;
    if b.len() < 4 {
        0
    } else if b.len() < key_end {
        4
    } else if b.len() < key_end + 1 {
        key_end
    } else if b.len() < value_at {
        key_end + 1
    } else if b[key_end] != TYPE_VALUE || b.len() < value_at + be32_value(b.skip(key_end + 1)) {
        value_at
    } else {
        value_at + be32_value(b.skip(key_end + 1))
    }
}

/// A record that can be read takes at least nine bytes and lies within its block.
pub proof fn lemma_record_at_len(b: Seq<u8>)
    ensures
        record_at(b) matches Ok((k, e, n)) ==> 9 <= n <= b.len(),
{
    reveal(record_at);
}

/// All records of `b`, in order, or what is wrong with the first that cannot be read.
pub open spec fn records_at(b: Seq<u8>) -> Result<Seq<Pair>, Seq<char>>
    decreases b.len(),
{
    if b.len() == 0 {
        Ok(Seq::empty())
    } else {
        match record_at(b) {
            Err(text) => Err(text),
            Ok((k, e, n)) => {
                proof {
                    lemma_record_at_len(b);
                }
                match records_at(b.skip(n)) {
                    Err(text) => Err(text),
                    Ok(rest) => Ok(seq![(k, e)] + rest),
                }
            },
        }
    }
}

/// What `key` resolves to in the records of `b`. The search ends at the first record whose key
/// comes after `key`.
pub open spec fn find_in_records(b: Seq<u8>, key: Seq<u8>) -> Result<
    Option<EntryModel>,
    Seq<char>,
>
    decreases b.len(),
{
    if b.len() == 0 {
        Ok(None)
    } else {
        match record_at(b) {
            Err(text) => Err(text),
            Ok((k, e, n)) => {
                proof {
                    lemma_record_at_len(b);
                }
                if k == key {
                    Ok(Some(e))
                } else if key_lt(key, k) {
                    Ok(None)
                } else {
                    find_in_records(b.skip(n), key)
                }
            },
        }
    }
}

/// The records of a block without their checksum.
pub open spec fn block_records(block: Seq<u8>) -> Seq<u8> {
    block.take(block.len() - 4)
}

/// Whether the checksum of a block is that of its records.
pub open spec fn block_intact(block: Seq<u8>) -> bool {
    be32_value(block.skip(block.len() - 4)) == crc32_of(block_records(block))
}

/// The index entry that begins `b`, and its length; `None` if it is cut short.
#[verifier::opaque]
pub open spec fn index_entry_at(b: Seq<u8>) -> Option<(IndexEntryModel, int)> {
    let key_end = 4 + be32_value(b);
    if b.len() < 4 || b.len() < key_end + 12 {
        None
    } else {
        Some(
            (
                IndexEntryModel {
                    first_key: b.subrange(4, key_end),
                    block_offset: be64_value(b.skip(key_end)) as u64,
                    block_len: be32_value(b.skip(key_end + 8)) as u32,
                },
                key_end + 12,
            ),
        )
    }
}

/// The first `count` index entries of `b`, and their length; `None` if they are cut short.
pub open spec fn index_at(b: Seq<u8>, count: nat) -> Option<(Seq<IndexEntryModel>, int)>
    decreases count,
{
    if count == 0 {
        Some((Seq::empty(), 0))
    } else {
        match index_entry_at(b) {
            None => None,
            Some((e, n)) => match index_at(b.skip(n), (count - 1) as nat) {
                None => None,
                Some((rest, m)) => Some((seq![e] + rest, n + m)),
            },
        }
    }
}

/// The byte string that begins `b` after its length, and the length of both; `None` if it is
/// cut short.
pub open spec fn counted_at(b: Seq<u8>) -> Option<(Seq<u8>, int)> {
    let end = 4 + be32_value(b);
    if b.len() < 4 || b.len() < end {
        None
    } else {
        Some((b.subrange(4, end), end))
    }
}

/// The key range and the bloom filter in `b`; `None` if they are cut short.
#[verifier::opaque]
pub open spec fn trailer_at(b: Seq<u8>) -> Option<((Seq<u8>, Seq<u8>), (Seq<u8>, u32))> {
    match counted_at(b) {
        None => None,
        Some((min, n)) => match counted_at(b.skip(n)) {
            None => None,
            Some((max, m)) => if b.len() < n + m + 4 {
                None
            } else {
                match counted_at(b.skip(n + m + 4)) {
                    None => None,
                    Some((bits, _)) => Some(
                        ((min, max), (bits, be32_value(b.skip(n + m)) as u32)),
                    ),
                }
            },
        },
    }
}

/// The table that an index region with `count` entries describes; `None` if it is cut short. An
/// index region that ends with its entries is that of an empty table.
pub open spec fn table_at(path: Seq<char>, count: nat, region: Seq<u8>) -> Option<TableModel> {
    match index_at(region, count) {
        None => None,
        Some((index, n)) => if n >= region.len() {
            Some(TableModel { path, index, range: None, bloom: None })
        } else {
            match trailer_at(region.skip(n)) {
                None => None,
                Some((range, bloom)) => Some(
                    TableModel { path, index, range: Some(range), bloom: Some(bloom) },
                ),
            }
        },
    }
}

// ---- finding a key ----

/// The entry that bisection of `index` between `lo` and `hi` ends at: how many entries come
/// before it. Entries below `lo` do not come after `key`, entries from `hi` on do.
pub open spec fn bisect(index: Seq<IndexEntryModel>, key: Seq<u8>, lo: int, hi: int) -> int
    decreases hi - lo,
{
    if lo >= hi {
        lo
    } else {
        let mid = lo + (hi - lo) / 2;
        if key_le(index[mid].first_key, key) {
            bisect(index, key, mid + 1, hi)
        } else {
            bisect(index, key, lo, mid)
        }
    }
}

/// The block that may hold `key`: by bisection, the last one whose first key does not come
/// after it.
pub open spec fn block_for(index: Seq<IndexEntryModel>, key: Seq<u8>) -> Option<int> {
    let n = bisect(index, key, 0, index.len() as int);
    if n == 0 {
        None
    } else {
        Some(n - 1)
    }
}

/// Whether the key range of a table rules `key` out.
pub open spec fn out_of_range(t: TableModel, key: Seq<u8>) -> bool {
    match t.range {
        Some((min, max)) => key_lt(key, min) || key_lt(max, key),
        None => false,
    }
}

/// Whether the bloom filter of a table rules `key` out.
pub open spec fn filtered_out(t: TableModel, key: Seq<u8>) -> bool {
    match t.bloom {
        Some((bits, k)) => !has_positions(bits, key, k as nat),
        None => false,
    }
}

/// The one block of a table that has to be read to look `key` up; `None` if the table can be
/// seen not to hold it.
pub open spec fn block_to_read(t: TableModel, key: Seq<u8>) -> Option<int> {
    if out_of_range(t, key) || filtered_out(t, key) {
        None
    } else {
        block_for(t.index, key)
    }
}

/// How a block that fails its checksum is reported.
pub open spec fn checksum_error(offset: u64) -> Seq<char> {
    "SSTable block CRC mismatch at offset "@ + crate::decimal::decimal(offset as nat)
}

/// What `key` resolves to in the block at `offset`, or what is wrong with the block.
pub open spec fn find_in_block(offset: u64, block: Seq<u8>, key: Seq<u8>) -> Result<
    Option<EntryModel>,
    Seq<char>,
> {
    if block_intact(block) {
        find_in_records(block_records(block), key)
    } else {
        Err(checksum_error(offset))
    }
}

/// All pairs in the block at `offset`, or what is wrong with the block.
pub open spec fn pairs_in_block(offset: u64, block: Seq<u8>) -> Result<Seq<Pair>, Seq<char>> {
    if block_intact(block) {
        records_at(block_records(block))
    } else {
        Err(checksum_error(offset))
    }
}

} // verus!
