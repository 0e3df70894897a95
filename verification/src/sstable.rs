//! Sorted string tables: the immutable files that the memtable becomes when it is flushed.

use vstd::prelude::*;
use vstd::slice::slice_subrange;
use vstd::string::StringExecFns;
use crate::bloom::{filter_bits, filter_bytes, has_positions, BloomFilter, PROBES};
use crate::bytes::{
    after, be32, be32_at, be32_value, be64_at, be64_value, copy_bytes, key_before,
    lemma_key_lt_total, relate, write_u32, write_u64, Relation,
};
use crate::crc::{crc32, crc32_of};
use crate::decimal::write_decimal;
use crate::entry_map::{pairs_view, EntryMap};
use crate::errors::{decode_error, AppError, AppErrorModel};
use crate::format::{
    bisect, block_bytes, block_intact, block_records, block_to_read, blocks_of, checksum_error,
    counted_at, cut_short, data_bytes, file_bytes, find_in_block, find_in_records, footer_bytes,
    index_at, index_bytes, index_entry_at, index_entry_bytes, index_of, keys_of,
    lemma_record_at_len, magic, out_of_range, pairs_in_block, record_at, record_bytes, record_reach,
    records_at, records_bytes, region_bytes, split, table_at, table_of, trailer_at, IndexEntryModel,
    Pair, TableModel, BLOCK_SIZE, FOOTER_LEN, TYPE_TOMBSTONE, TYPE_VALUE, VERSION,
};
use crate::proto::ValueMessage;
use crate::value::{Entry, Value};

verus! {

broadcast use crate::bytes::group_be;

/// What the sparse index says of one block.
#[derive(Debug)]
pub struct IndexEntry {
    pub first_key: Vec<u8>,
    pub block_offset: u64,
    pub block_len: u32,
}

impl View for IndexEntry {
    type V = IndexEntryModel;

    open spec fn view(&self) -> IndexEntryModel {
        IndexEntryModel {
            first_key: self.first_key@,
            block_offset: self.block_offset,
            block_len: self.block_len,
        }
    }
}

/// The models of some index entries.
pub open spec fn index_view(index: Seq<IndexEntry>) -> Seq<IndexEntryModel> {
    Seq::new(index.len(), |i: int| index[i]@)
}

/// One immutable table, its sparse index held in memory and its blocks left in its file.
#[derive(Debug)]
pub struct SsTable {
    path: String,
    index: Vec<IndexEntry>,
    // The smallest and the largest key; `None` only for an empty table.
    range: Option<(Vec<u8>, Vec<u8>)>,
    // Membership filter over every key; `None` only for an empty table.
    bloom: Option<BloomFilter>,
}

impl View for SsTable {
    type V = TableModel;

    closed spec fn view(&self) -> TableModel {
        TableModel {
            path: self.path@,
            index: index_view(self.index@),
            range: match self.range {
                Some((min, max)) => Some((min@, max@)),
                None => None,
            },
            bloom: match self.bloom {
                Some(b) => Some((b.bits@, b.k)),
                None => None,
            },
        }
    }
}

/// Whether looking `key` up in the table probes no filter that has probes but no bits.
pub open spec fn probe_safe(t: TableModel, key: Seq<u8>) -> bool {
    t.index.len() == 0 || out_of_range(t, key) || filter_usable(t)
}

/// Whether the filter of the table, if it has one, has no probes or some bits.
pub open spec fn filter_usable(t: TableModel) -> bool {
    t.bloom matches Some((bits, k)) ==> k == 0 || bits.len() > 0
}

/// What the footer of a table file says.
#[derive(Debug)]
pub struct Footer {
    pub index_offset: u64,
    pub index_len: u64,
    pub entry_count: u32,
}

/// Where a block stands in its file.
#[derive(Clone, Copy, Debug)]
pub struct BlockRef {
    /// The number of the block.
    pub block: usize,
    pub offset: u64,
    pub len: u32,
}

/// The reference to a table's block.
pub open spec fn block_ref(t: TableModel, i: int) -> BlockRef {
    BlockRef {
        block: i as usize,
        offset: t.index[i].block_offset,
        len: t.index[i].block_len,
    }
}

impl Footer {
    /// Reads the footer of a table file from the bytes that end the file: the last 28 of them,
    /// or all of them if the file is shorter.
    pub fn parse(tail: &[u8]) -> (r: Result<Footer, AppError>)
        ensures
            ({
                let footer = tail@.skip(tail@.len() - FOOTER_LEN);
                let version = be32_value(footer.skip(24));
                if tail@.len() < FOOTER_LEN {
                    r matches Err(e) && e@ == AppErrorModel::DecodeError(
                        "SSTable smaller than footer"@,
                    )
                } else if footer.subrange(20, 24) != magic() {
                    r matches Err(e) && e@ == AppErrorModel::DecodeError(
                        "not a FerrumDB SSTable (bad magic)"@,
                    )
                } else if version != VERSION {
                    r matches Err(e) && e@ == AppErrorModel::DecodeError(
                        "unsupported SSTable version "@ + crate::decimal::decimal(version as nat),
                    )
                } else {
                    r matches Ok(f) && f.index_offset == be64_value(footer) && f.index_len
                        == be64_value(footer.skip(8)) && f.entry_count == be32_value(
                        footer.skip(16),
                    )
                }
            }),
    {
        if tail.len() < FOOTER_LEN {
            return Err(decode_error("SSTable smaller than footer"));
        }
        let at: usize = tail.len() - FOOTER_LEN;
        let footer: &[u8] = slice_subrange(tail, at, tail.len());
        assert(footer@ =~= tail@.skip(tail@.len() - FOOTER_LEN));
        assert(footer@.skip(0) =~= footer@);
        let index_offset: u64 = be64_at(footer, 0);
        let index_len: u64 = be64_at(footer, 8);
        let entry_count: u32 = be32_at(footer, 16);
        let version: u32 = be32_at(footer, 24);
        let is_table: bool = footer[20] == 0x46 && footer[21] == 0x53 && footer[22] == 0x53
            && footer[23] == 0x54;
        proof {
            let m = footer@.subrange(20, 24);
            assert(forall|i: int| 0 <= i < 4 ==> m[i] == footer@[20 + i]);
            if is_table {
                assert(m =~= magic());
            } else if m == magic() {
                assert(m[0] == 0x46u8 && m[1] == 0x53u8 && m[2] == 0x53u8 && m[3] == 0x54u8);
            }
        }
        if !is_table {
            return Err(decode_error("not a FerrumDB SSTable (bad magic)"));
        }
        if version != VERSION {
            let mut text: String = String::from_str("unsupported SSTable version ");
            write_decimal(&mut text, version as u64);
            return Err(AppError::DecodeError(text));
        }
        Ok(Footer { index_offset, index_len, entry_count })
    }
}

impl SsTable {
    /// Lays a sorted sequence of entries out as a table: the table, and the contents of its
    /// file.
    pub fn flush(path: String, entries: &EntryMap) -> (r: (SsTable, Vec<u8>))
        ensures
            r.0@ == table_of(path@, entries.pairs()),
            r.1@ == file_bytes(entries.pairs()),
    {
        let ghost s = entries.pairs();
        let (mut file, index) = write_blocks(entries);
        let ghost data = file@;
        let index_offset: u64 = file.len() as u64;
        write_index(&mut file, &index);
        let mut range: Option<(Vec<u8>, Vec<u8>)> = None;
        let mut bloom: Option<BloomFilter> = None;
        if entries.len() > 0 {
            let min: Vec<u8> = copy_bytes(entries.key_at(0).as_slice());
            let max: Vec<u8> = copy_bytes(entries.key_at(entries.len() - 1).as_slice());
            write_counted(&mut file, min.as_slice());
            write_counted(&mut file, max.as_slice());
            range = Some((min, max));
            let filter: BloomFilter = build_filter(entries);
            write_u32(&mut file, filter.k);
            write_counted(&mut file, filter.bits.as_slice());
            bloom = Some(filter);
        }
        let table = SsTable { path, index, range, bloom };
        proof {
            reveal(region_bytes);
            assert(table@ == table_of(path@, s));
            let region = region_bytes(table_of(Seq::empty(), s));
            assert(file@ =~= data + region);
        }
        let index_len: u64 = file.len() as u64 - index_offset;
        write_u64(&mut file, index_offset);
        write_u64(&mut file, index_len);
        write_u32(&mut file, table.index.len() as u32);
        file.push(0x46);
        file.push(0x53);
        file.push(0x53);
        file.push(0x54);
        write_u32(&mut file, VERSION);
        proof {
            reveal(footer_bytes);
            assert(file@ =~= file_bytes(s));
        }
        (table, file)
    }

    /// Opens the table whose footer and index region these are. The data blocks stay in the
    /// file.
    pub fn open(path: String, footer: &Footer, region: &[u8]) -> (r: Result<SsTable, AppError>)
        ensures
            match table_at(path@, footer.entry_count as nat, region@) {
                Some(t) => r matches Ok(x) && x@ == t,
                None => r matches Err(e) && e@ == AppErrorModel::DecodeError(cut_short()),
            },
    {
        let mut c: usize = 0;
        let index: Vec<IndexEntry> = match read_index(region, &mut c, footer.entry_count) {
            Ok(index) => index,
            Err(e) => return Err(e),
        };
        if c < region.len() {
            let ghost b = region@.skip(c as int);
            proof {
                reveal(trailer_at);
            }
            let min: Vec<u8> = match read_counted(region, &mut c) {
                Ok(min) => min,
                Err(e) => return Err(e),
            };
            let ghost (_, n) = counted_at(b).unwrap();
            assert(b.skip(n) =~= region@.skip(c as int));
            let max: Vec<u8> = match read_counted(region, &mut c) {
                Ok(max) => max,
                Err(e) => return Err(e),
            };
            let ghost (_, m) = counted_at(b.skip(n)).unwrap();
            assert(b.skip(n + m) =~= region@.skip(c as int));
            let k: u32 = match read_u32(region, &mut c) {
                Ok(k) => k,
                Err(e) => return Err(e),
            };
            assert(b.skip(n + m + 4) =~= region@.skip(c as int));
            let bits: Vec<u8> = match read_counted(region, &mut c) {
                Ok(bits) => bits,
                Err(e) => return Err(e),
            };
            Ok(
                SsTable {
                    path,
                    index,
                    range: Some((min, max)),
                    bloom: Some(BloomFilter { bits, k }),
                },
            )
        } else {
            Ok(SsTable { path, index, range: None, bloom: None })
        }
    }

    /// Begins to look a key up: the one block that has to be read, or `None` if the table can be
    /// seen not to hold the key. [`SsTable::get_from_block`] does the rest.
    pub fn get(&self, key: &[u8]) -> (r: Option<BlockRef>)
        requires
            probe_safe(self@, key@),
        ensures
            r == (match block_to_read(self@, key@) {
                Some(i) => Some(block_ref(self@, i)),
                None => None,
            }),
            r matches Some(b) ==> b.block < self@.index.len(),
    {
        if self.index.len() == 0 {
            return None;
        }
        if let Some((min, max)) = &self.range {
            if key_before(key, min.as_slice()) || key_before(max.as_slice(), key) {
                return None;
            }
        }
        if let Some(bloom) = &self.bloom {
            if !bloom.maybe_contains(key) {
                return None;
            }
        }
        let mut lo: usize = 0;
        let mut hi: usize = self.index.len();
        while lo < hi
            invariant
                lo <= hi <= self.index@.len(),
                bisect(index_view(self.index@), key@, 0, self.index@.len() as int) == bisect(
                    index_view(self.index@),
                    key@,
                    lo as int,
                    hi as int,
                ),
            decreases hi - lo,
        {
            let mid: usize = lo + (hi - lo) / 2;
            if key_before(key, self.index[mid].first_key.as_slice()) {
                proof {
                    crate::bytes::lemma_key_le_lt(
                        key@,
                        self.index@[mid as int].first_key@,
                        key@,
                    );
                }
                hi = mid;
            } else {
                proof {
                    crate::bytes::lemma_key_le_lt(
                        key@,
                        self.index@[mid as int].first_key@,
                        key@,
                    );
                }
                lo = mid + 1;
            }
        }
        if lo == 0 {
            return None;
        }
        let e: &IndexEntry = &self.index[lo - 1];
        Some(BlockRef { block: lo - 1, offset: e.block_offset, len: e.block_len })
    }

    /// What a key resolves to in a block that has been read. A deletion marker is given as such:
    /// the caller decides what it shadows.
    pub fn get_from_block(&self, i: usize, block: &[u8], key: &[u8]) -> (r: Result<
        Option<Entry>,
        AppError,
    >)
        requires
            i < self@.index.len(),
            block@.len() >= 4,
        ensures
            match find_in_block(self@.index[i as int].block_offset, block@, key@) {
                Ok(found) => r matches Ok(x) && (match found {
                    Some(e) => x matches Some(y) && y@ == e,
                    None => x is None,
                }),
                Err(text) => r matches Err(e) && e@ == AppErrorModel::DecodeError(text),
            },
    {
        let records: &[u8] = match self.check_block(i, block) {
            Ok(records) => records,
            Err(e) => return Err(e),
        };
        let mut c: usize = 0;
        assert(records@.skip(0) =~= records@);
        while c < records.len()
            invariant
                c <= records@.len(),
                find_in_records(records@, key@) == find_in_records(records@.skip(c as int), key@),
                find_in_block(self@.index[i as int].block_offset, block@, key@)
                    == find_in_records(records@, key@),
            decreases records@.len() - c,
        {
            let ghost b = records@.skip(c as int);
            proof {
                lemma_record_at_len(b);
            }
            let (rec_key, rec_entry) = match decode_record(records, &mut c) {
                Ok(rec) => rec,
                Err(e) => return Err(e),
            };
            match relate(rec_key.as_slice(), key) {
                Relation::Same => return Ok(Some(rec_entry)),
                Relation::After => {
                    proof {
                        lemma_key_lt_total(rec_key@, key@);
                    }
                    return Ok(None);
                },
                Relation::Before => {
                    proof {
                        crate::bytes::lemma_key_lt_asymmetric(rec_key@, key@);
                        let n = record_at(b)->Ok_0.2;
                        assert(b.skip(n) =~= records@.skip(c as int));
                    }
                },
            }
        }
        Ok(None)
    }

    /// Appends every pair of one block to `out`, in order.
    pub fn read_block_entries(
        &self,
        i: usize,
        block: &[u8],
        out: &mut Vec<(Vec<u8>, Entry)>,
    ) -> (r: Result<(), AppError>)
        requires
            i < self@.index.len(),
            block@.len() >= 4,
        ensures
            match pairs_in_block(self@.index[i as int].block_offset, block@) {
                Ok(pairs) => r is Ok && pairs_view(final(out)@) == pairs_view(old(out)@) + pairs,
                Err(text) => (r matches Err(e) && e@ == AppErrorModel::DecodeError(text))
                    && final(out)@ == old(out)@,
            },
    {
        let held: usize = out.len();
        let records: &[u8] = match self.check_block(i, block) {
            Ok(records) => records,
            Err(e) => return Err(e),
        };
        let ghost start = pairs_view(out@);
        assert(out@.take(held as int) =~= old(out)@);
        let ghost mut done: Seq<Pair> = Seq::empty();
        let mut c: usize = 0;
        proof {
            assert(records@.skip(0) =~= records@);
            assert(start + done =~= start);
            if let Ok(all) = records_at(records@) {
                assert(done + all =~= all);
            }
        }
        while c < records.len()
            invariant
                c <= records@.len(),
                held == old(out)@.len(),
                held <= out@.len(),
                out@.take(held as int) == old(out)@,
                pairs_view(out@) == start + done,
                match records_at(records@.skip(c as int)) {
                    Ok(rest) => records_at(records@) == Ok::<Seq<Pair>, Seq<char>>(done + rest),
                    Err(text) => records_at(records@) == Err::<Seq<Pair>, Seq<char>>(text),
                },
                pairs_in_block(self@.index[i as int].block_offset, block@) == records_at(records@),
            decreases records@.len() - c,
        {
            let ghost b = records@.skip(c as int);
            proof {
                lemma_record_at_len(b);
            }
            let rec: (Vec<u8>, Entry) = match decode_record(records, &mut c) {
                Ok(rec) => rec,
                Err(e) => {
                    out.truncate(held);
                    return Err(e);
                },
            };
            let ghost pair = (rec.0@, rec.1@);
            let ghost before = out@;
            out.push(rec);
            proof {
                assert(out@.take(held as int) =~= before.take(held as int));
                let n = record_at(b)->Ok_0.2;
                assert(b.skip(n) =~= records@.skip(c as int));
                assert(pairs_view(out@) =~= pairs_view(before).push(pair));
                assert((start + done).push(pair) =~= start + done.push(pair));
                if let Ok(rest) = records_at(b.skip(n)) {
                    assert(done + (seq![pair] + rest) =~= done.push(pair) + rest);
                }
                done = done.push(pair);
            }
        }
        proof {
            let b = records@.skip(c as int);
            assert(done + Seq::<Pair>::empty() =~= done);
        }
        Ok(())
    }

    /// Every pair of the table, in ascending key order, from the contents of its blocks.
    pub fn read_all_entries(&self, blocks: &Vec<Vec<u8>>) -> (r: Result<
        Vec<(Vec<u8>, Entry)>,
        AppError,
    >)
        requires
            blocks@.len() == self@.index.len(),
            forall|i: int| 0 <= i < blocks@.len() ==> (#[trigger] blocks@[i])@.len() >= 4,
        ensures
            match pairs_in_blocks(self@.index, blocks_view(blocks@)) {
                Ok(pairs) => r matches Ok(v) && pairs_view(v@) == pairs,
                Err(text) => r matches Err(e) && e@ == AppErrorModel::DecodeError(text),
            },
    {
        let mut out: Vec<(Vec<u8>, Entry)> = Vec::new();
        let mut i: usize = 0;
        let ghost index = self@.index;
        let ghost all = blocks_view(blocks@);
        assert(pairs_view(out@) =~= Seq::<Pair>::empty());
        while i < blocks.len()
            invariant
                i <= blocks@.len(),
                index == self@.index,
                all == blocks_view(blocks@),
                blocks@.len() == index.len(),
                forall|j: int| 0 <= j < blocks@.len() ==> (#[trigger] blocks@[j])@.len() >= 4,
                pairs_in_blocks(index.take(i as int), all.take(i as int)) == Ok::<
                    Seq<Pair>,
                    Seq<char>,
                >(pairs_view(out@)),
            decreases blocks@.len() - i,
        {
            proof {
                assert(index.take(i + 1).drop_last() =~= index.take(i as int));
                assert(all.take(i + 1).drop_last() =~= all.take(i as int));
                assert(all.take(i + 1).last() == blocks@[i as int]@);
                assert(index.take(i + 1).last() == index[i as int]);
            }
            match self.read_block_entries(i, blocks[i].as_slice(), &mut out) {
                Ok(()) => {},
                Err(e) => {
                    proof {
                        lemma_pairs_in_blocks_fail(index, all, i + 1);
                    }
                    return Err(e);
                },
            }
            i = i + 1;
        }
        assert(index.take(i as int) =~= index);
        assert(all.take(i as int) =~= all);
        Ok(out)
    }

    /// Checks the checksum of a block and gives the bytes of its records.
    fn check_block<'a>(&self, i: usize, block: &'a [u8]) -> (r: Result<&'a [u8], AppError>)
        requires
            i < self@.index.len(),
            block@.len() >= 4,
        ensures
            if block_intact(block@) {
                r matches Ok(x) && x@ == block_records(block@)
            } else {
                r matches Err(e) && e@ == AppErrorModel::DecodeError(
                    checksum_error(self@.index[i as int].block_offset),
                )
            },
    {
        let at: usize = block.len() - 4;
        let stored: u32 = be32_at(block, at);
        let records: &[u8] = slice_subrange(block, 0, at);
        assert(records@ =~= block_records(block@));
        if crc32(records) != stored {
            let mut text: String = String::from_str("SSTable block CRC mismatch at offset ");
            write_decimal(&mut text, self.index[i].block_offset);
            return Err(AppError::DecodeError(text));
        }
        Ok(records)
    }

    /// Where the `i`-th block stands in the file.
    pub fn block_at(&self, i: usize) -> (r: BlockRef)
        requires
            i < self@.index.len(),
        ensures
            r == block_ref(self@, i as int),
            r.block == i,
    {
        let e: &IndexEntry = &self.index[i];
        BlockRef { block: i, offset: e.block_offset, len: e.block_len }
    }

    /// Number of data blocks.
    pub fn block_count(&self) -> (r: usize)
        ensures
            r == self@.index.len(),
    {
        self.index.len()
    }

    /// The smallest and the largest key, or `None` if the table is empty.
    pub fn key_range(&self) -> (r: Option<(&[u8], &[u8])>)
        ensures
            match self@.range {
                Some((min, max)) => r matches Some((a, b)) && a@ == min && b@ == max,
                None => r is None,
            },
    {
        match &self.range {
            Some((min, max)) => Some((min.as_slice(), max.as_slice())),
            None => None,
        }
    }

    /// Membership test by the bloom filter: `false` means that the key is not in the table,
    /// `true` that it probably is. An empty table holds no key.
    pub fn might_contain(&self, key: &[u8]) -> (r: bool)
        requires
            filter_usable(self@),
        ensures
            r == (match self@.bloom {
                Some((bits, k)) => has_positions(bits, key@, k as nat),
                None => false,
            }),
    {
        match &self.bloom {
            Some(bloom) => bloom.maybe_contains(key),
            None => false,
        }
    }

    /// Whether looking `key` up in the table probes no filter that has probes but no bits.
    pub fn can_probe(&self, key: &[u8]) -> (r: bool)
        ensures
            r == probe_safe(self@, key@),
    {
        if self.index.len() == 0 {
            return true;
        }
        if let Some((min, max)) = &self.range {
            if key_before(key, min.as_slice()) || key_before(max.as_slice(), key) {
                return true;
            }
        }
        match &self.bloom {
            Some(bloom) => bloom.k == 0 || bloom.bits.len() > 0,
            None => true,
        }
    }

    /// Path of the file.
    pub fn path(&self) -> (r: &str)
        ensures
            r@ == self@.path,
    {
        self.path.as_str()
    }
}

/// The contents of some blocks.
pub open spec fn blocks_view(blocks: Seq<Vec<u8>>) -> Seq<Seq<u8>> {
    Seq::new(blocks.len(), |i: int| blocks[i]@)
}

/// All pairs in some blocks, in order, or what is wrong with the first that cannot be read.
pub open spec fn pairs_in_blocks(index: Seq<IndexEntryModel>, blocks: Seq<Seq<u8>>) -> Result<
    Seq<Pair>,
    Seq<char>,
>
    decreases blocks.len(),
{
    if blocks.len() == 0 {
        Ok(Seq::empty())
    } else {
        match pairs_in_blocks(index.drop_last(), blocks.drop_last()) {
            Err(text) => Err(text),
            Ok(before) => match pairs_in_block(index.last().block_offset, blocks.last()) {
                Err(text) => Err(text),
                Ok(pairs) => Ok(before + pairs),
            },
        }
    }
}

proof fn lemma_pairs_in_blocks_fail(
    index: Seq<IndexEntryModel>,
    blocks: Seq<Seq<u8>>,
    n: int,
)
    requires
        0 <= n <= blocks.len(),
        index.len() == blocks.len(),
        pairs_in_blocks(index.take(n), blocks.take(n)) is Err,
    ensures
        pairs_in_blocks(index, blocks) == pairs_in_blocks(index.take(n), blocks.take(n)),
    decreases blocks.len(),
{
    if n == blocks.len() {
        assert(index.take(n) =~= index);
        assert(blocks.take(n) =~= blocks);
    } else {
        assert(index.drop_last().take(n) =~= index.take(n));
        assert(blocks.drop_last().take(n) =~= blocks.take(n));
        lemma_pairs_in_blocks_fail(index.drop_last(), blocks.drop_last(), n);
    }
}

/// Writes the data blocks: their bytes and their index.
fn write_blocks(entries: &EntryMap) -> (r: (Vec<u8>, Vec<IndexEntry>))
    ensures
        r.0@ == data_bytes(blocks_of(entries.pairs())),
        index_view(r.1@) == index_of(blocks_of(entries.pairs())),
{
    let ghost s = entries.pairs();
    let mut file: Vec<u8> = Vec::new();
    let mut index: Vec<IndexEntry> = Vec::new();
    let mut block: Vec<u8> = Vec::new();
    let mut first_key: Vec<u8> = Vec::new();
    let mut block_offset: u64 = 0;
    let mut i: usize = 0;
    assert(file@ =~= data_bytes(split(s.take(0)).0));
    assert(index_view(index@) =~= index_of(split(s.take(0)).0));
    assert(block@ =~= records_bytes(split(s.take(0)).1));
    while i < entries.len()
        invariant
            i <= s.len(),
            s == entries.pairs(),
            file@ == data_bytes(split(s.take(i as int)).0),
            index_view(index@) == index_of(split(s.take(i as int)).0),
            block@ == records_bytes(split(s.take(i as int)).1),
            split(s.take(i as int)).1.len() > 0 ==> first_key@ == split(s.take(i as int)).1[0].0
                && block_offset == file@.len() && block@.len() > 0,
            split(s.take(i as int)).1.len() == 0 ==> block@.len() == 0,
        decreases s.len() - i,
    {
        let ghost (done, open) = split(s.take(i as int));
        let ghost open2 = open.push(s[i as int]);
        let key: &Vec<u8> = entries.key_at(i);
        if block.len() == 0 {
            first_key = copy_bytes(key.as_slice());
            block_offset = file.len() as u64;
        }
        encode_record(&mut block, key.as_slice(), entries.entry_at(i));
        proof {
            assert(s.take(i + 1).drop_last() =~= s.take(i as int));
            assert(s.take(i + 1).last() == s[i as int]);
            assert(open2.drop_last() =~= open);
            assert(open2.last() == s[i as int]);
            assert(block@ == records_bytes(open2));
            assert(first_key@ == open2[0].0);
            lemma_record_bytes_len(s[i as int]);
        }
        if block.len() >= BLOCK_SIZE {
            proof {
                lemma_close_block(done, open2);
            }
            finalize_block(&mut file, &mut block, &mut index, first_key, block_offset);
            first_key = Vec::new();
        }
        i = i + 1;
    }
    assert(s.take(i as int) =~= s);
    if block.len() > 0 {
        let ghost (done, open) = split(s);
        proof {
            lemma_close_block(done, open);
        }
        finalize_block(&mut file, &mut block, &mut index, first_key, block_offset);
    }
    (file, index)
}

/// Ends a block: appends it and its checksum to the file, enters it in the index, and empties it.
fn finalize_block(
    file: &mut Vec<u8>,
    block: &mut Vec<u8>,
    index: &mut Vec<IndexEntry>,
    first_key: Vec<u8>,
    offset: u64,
)
    ensures
        final(file)@ == old(file)@ + old(block)@ + be32(crc32_of(old(block)@)),
        index_view(final(index)@) == index_view(old(index)@).push(
            IndexEntryModel {
                first_key: first_key@,
                block_offset: offset,
                block_len: (old(block)@.len() + 4) as u32,
            },
        ),
        final(block)@ == Seq::<u8>::empty(),
{
    let crc: u32 = crc32(block.as_slice());
    let start: usize = file.len();
    file.extend_from_slice(block.as_slice());
    write_u32(file, crc);
    let block_len: u32 = (file.len() - start) as u32;
    let ghost before = index@;
    index.push(IndexEntry { first_key, block_offset: offset, block_len });
    block.clear();
    assert(file@ =~= old(file)@ + old(block)@ + be32(crc32_of(old(block)@)));
    assert(index_view(index@) =~= index_view(before).push(index@.last()@));
}

/// Ending a block of records lays out the next block of the file.
proof fn lemma_close_block(done: Seq<Seq<Pair>>, open: Seq<Pair>)
    ensures
        ({
            let records = records_bytes(open);
            &&& data_bytes(done.push(open)) == data_bytes(done) + records + be32(crc32_of(records))
            &&& index_of(done.push(open)) == index_of(done).push(
                IndexEntryModel {
                    first_key: open[0].0,
                    block_offset: data_bytes(done).len() as u64,
                    block_len: (records.len() + 4) as u32,
                },
            )
        }),
{
    reveal(block_bytes);
    assert(done.push(open).drop_last() =~= done);
    assert(done.push(open).last() == open);
    let records = records_bytes(open);
    assert(data_bytes(done) + block_bytes(open) =~= data_bytes(done) + records + be32(
        crc32_of(records),
    ));
}

/// Writes the sparse index.
fn write_index(file: &mut Vec<u8>, index: &Vec<IndexEntry>)
    ensures
        final(file)@ == old(file)@ + index_bytes(index_view(index@)),
{
    let ghost s = index_view(index@);
    let mut i: usize = 0;
    assert(file@ =~= old(file)@ + index_bytes(s.take(0)));
    while i < index.len()
        invariant
            i <= index@.len(),
            s == index_view(index@),
            file@ == old(file)@ + index_bytes(s.take(i as int)),
        decreases index@.len() - i,
    {
        let e: &IndexEntry = &index[i];
        let ghost before = file@;
        write_counted(file, e.first_key.as_slice());
        write_u64(file, e.block_offset);
        write_u32(file, e.block_len);
        proof {
            reveal(index_entry_bytes);
            assert(s.take(i + 1).drop_last() =~= s.take(i as int));
            assert(s.take(i + 1).last() == e@);
            assert(file@ =~= before + index_entry_bytes(e@));
            assert(before + index_entry_bytes(e@) =~= old(file)@ + (index_bytes(s.take(i as int))
                + index_entry_bytes(e@)));
        }
        i = i + 1;
    }
    assert(s.take(i as int) =~= s);
}

/// Builds the bloom filter over every key.
fn build_filter(entries: &EntryMap) -> (r: BloomFilter)
    requires
        entries.pairs().len() > 0,
    ensures
        r.bits@ == filter_bits(keys_of(entries.pairs()), filter_bytes(entries.pairs().len())),
        r.k == PROBES,
{
    let ghost keys = keys_of(entries.pairs());
    let ghost bytes = filter_bytes(entries.pairs().len());
    let mut filter: BloomFilter = BloomFilter::new(entries.len());
    let mut i: usize = 0;
    assert(keys.take(0) =~= Seq::<Seq<u8>>::empty());
    while i < entries.len()
        invariant
            i <= entries.pairs().len(),
            keys == keys_of(entries.pairs()),
            filter.bits@ == filter_bits(keys.take(i as int), bytes),
            filter.bits@.len() > 0,
            filter.k == PROBES,
        decreases entries.pairs().len() - i,
    {
        filter.add(entries.key_at(i).as_slice());
        assert(keys.take(i + 1).drop_last() =~= keys.take(i as int));
        i = i + 1;
    }
    assert(keys.take(i as int) =~= keys);
    filter
}

/// Writes a byte string after its length.
fn write_counted(out: &mut Vec<u8>, s: &[u8])
    ensures
        final(out)@ == old(out)@ + be32(s@.len() as u32) + s@,
{
    write_u32(out, s.len() as u32);
    out.extend_from_slice(s);
    assert(out@ =~= old(out)@ + be32(s@.len() as u32) + s@);
}

/// Writes one record.
pub fn encode_record(out: &mut Vec<u8>, key: &[u8], entry: &Entry)
    ensures
        final(out)@ == old(out)@ + record_bytes((key@, entry@)),
{
    write_counted(out, key);
    match entry {
        Entry::Value(v) => {
            out.push(TYPE_VALUE);
            let bytes: Vec<u8> = v.to_proto().encode_to_vec();
            write_counted(out, bytes.as_slice());
        },
        Entry::Tombstone => {
            out.push(TYPE_TOMBSTONE);
            write_u32(out, 0);
        },
    }
    proof {
        reveal(record_bytes);
        assert(out@ =~= old(out)@ + record_bytes((key@, entry@)));
    }
}

proof fn lemma_record_bytes_len(p: Pair)
    ensures
        record_bytes(p).len() >= 9,
{
    reveal(record_bytes);
}

/// Reads one record at `c`, moving `c` past it, or past what is there of it.
pub fn decode_record(buf: &[u8], c: &mut usize) -> (r: Result<(Vec<u8>, Entry), AppError>)
    ensures
        match record_at(after(buf@, *old(c) as nat)) {
            Ok((k, e, n)) => (r matches Ok((x, y)) && x@ == k && y@ == e) && *final(c) == *old(c)
                + n,
            Err(text) => r matches Err(e) && e@ == AppErrorModel::DecodeError(text),
        },
        *final(c) == *old(c) + record_reach(after(buf@, *old(c) as nat)),
{
    let ghost b = after(buf@, *c as nat);
    proof {
        reveal(record_at);
        reveal(record_reach);
    }
    let key: Vec<u8> = match read_counted(buf, c) {
        Ok(key) => key,
        Err(e) => return Err(e),
    };
    let ghost key_end = 4 + be32_value(b);
    let rec_type: u8 = match read_u8(buf, c) {
        Ok(t) => t,
        Err(e) => return Err(e),
    };
    assert(b.skip(key_end + 1) =~= buf@.skip(*c as int));
    let value_len: u32 = match read_u32(buf, c) {
        Ok(n) => n,
        Err(e) => return Err(e),
    };
    if rec_type != TYPE_VALUE {
        return Ok((key, Entry::Tombstone));
    }
    let bytes: &[u8] = match read_bytes(buf, c, value_len as usize) {
        Ok(bytes) => bytes,
        Err(e) => return Err(e),
    };
    assert(bytes@ =~= b.subrange(key_end + 5, key_end + 5 + value_len));
    let msg: ValueMessage = match ValueMessage::decode(bytes) {
        Ok(msg) => msg,
        Err(text) => return Err(AppError::DecodeError(text)),
    };
    match Value::from_proto(&msg) {
        Ok(v) => Ok((key, Entry::Value(v))),
        Err(e) => Err(e),
    }
}

/// Reads the entries of the sparse index.
fn read_index(buf: &[u8], c: &mut usize, count: u32) -> (r: Result<Vec<IndexEntry>, AppError>)
    requires
        *old(c) == 0,
    ensures
        match index_at(buf@, count as nat) {
            Some((index, n)) => (r matches Ok(v) && index_view(v@) == index) && *final(c) == n && n
                <= buf@.len(),
            None => r matches Err(e) && e@ == AppErrorModel::DecodeError(cut_short()),
        },
{
    let mut index: Vec<IndexEntry> = Vec::new();
    let mut i: u32 = 0;
    proof {
        assert(buf@.skip(0) =~= buf@);
        assert(index_view(index@) =~= Seq::<IndexEntryModel>::empty());
        if let Some((all, n)) = index_at(buf@, count as nat) {
            assert(index_view(index@) + all =~= all);
        }
    }
    while i < count
        invariant
            i <= count,
            *c <= buf@.len(),
            match index_at(buf@.skip(*c as int), (count - i) as nat) {
                Some((rest, n)) => index_at(buf@, count as nat) == Some(
                    (index_view(index@) + rest, *c + n),
                ),
                None => index_at(buf@, count as nat) is None,
            },
        decreases count - i,
    {
        let ghost b = buf@.skip(*c as int);
        let ghost before = index@;
        proof {
            reveal(index_entry_at);
        }
        let first_key: Vec<u8> = match read_counted(buf, c) {
            Ok(k) => k,
            Err(e) => return Err(e),
        };
        let ghost key_end = 4 + be32_value(b);
        assert(b.skip(key_end) =~= buf@.skip(*c as int));
        let block_offset: u64 = match read_u64(buf, c) {
            Ok(n) => n,
            Err(e) => return Err(e),
        };
        assert(b.skip(key_end + 8) =~= buf@.skip(*c as int));
        let block_len: u32 = match read_u32(buf, c) {
            Ok(n) => n,
            Err(e) => return Err(e),
        };
        let entry = IndexEntry { first_key, block_offset, block_len };
        let ghost e = entry@;
        index.push(entry);
        proof {
            assert(b.skip(key_end + 12) =~= buf@.skip(*c as int));
            assert(index_view(index@) =~= index_view(before).push(e));
            if let Some((rest, n)) = index_at(b.skip(key_end + 12), (count - i - 1) as nat) {
                assert(index_view(before) + (seq![e] + rest) =~= index_view(index@) + rest);
            }
        }
        i = i + 1;
    }
    proof {
        assert(index_view(index@) + Seq::<IndexEntryModel>::empty() =~= index_view(index@));
    }
    Ok(index)
}

/// Reads a byte string after its length at `c`, moving `c` past both.
fn read_counted(buf: &[u8], c: &mut usize) -> (r: Result<Vec<u8>, AppError>)
    ensures
        match counted_at(after(buf@, *old(c) as nat)) {
            Some((s, n)) => (r matches Ok(v) && v@ == s) && *final(c) == *old(c) + n && *final(c)
                <= buf@.len(),
            None => (r matches Err(e) && e@ == AppErrorModel::DecodeError(cut_short()))
                && *final(c) == *old(c) + (if after(buf@, *old(c) as nat).len() < 4 {
                0int
            } else {
                4
            }),
        },
{
    let ghost b = after(buf@, *c as nat);
    let len: u32 = match read_u32(buf, c) {
        Ok(n) => n,
        Err(e) => return Err(e),
    };
    match read_bytes(buf, c, len as usize) {
        Ok(s) => {
            assert(s@ =~= b.subrange(4, 4 + len));
            Ok(copy_bytes(s))
        },
        Err(e) => Err(e),
    }
}

/// Reads one byte at `c`, moving `c` past it.
fn read_u8(buf: &[u8], c: &mut usize) -> (r: Result<u8, AppError>)
    ensures
        if *old(c) + 1 <= buf@.len() {
            r == Ok::<u8, AppError>(buf@[*old(c) as int]) && *final(c) == *old(c) + 1
        } else {
            (r matches Err(e) && e@ == AppErrorModel::DecodeError(cut_short())) && *final(c)
                == *old(c)
        },
{
    if *c > buf.len() || buf.len() - *c < 1 {
        return Err(decode_error("unexpected end of SSTable record"));
    }
    let v: u8 = buf[*c];
    *c = *c + 1;
    Ok(v)
}

/// Reads four bytes at `c`, most significant first, moving `c` past them.
fn read_u32(buf: &[u8], c: &mut usize) -> (r: Result<u32, AppError>)
    ensures
        if *old(c) + 4 <= buf@.len() {
            (r matches Ok(v) && v == be32_value(buf@.skip(*old(c) as int))) && *final(c) == *old(c)
                + 4
        } else {
            (r matches Err(e) && e@ == AppErrorModel::DecodeError(cut_short())) && *final(c)
                == *old(c)
        },
{
    if *c > buf.len() || buf.len() - *c < 4 {
        return Err(decode_error("unexpected end of SSTable record"));
    }
    let v: u32 = be32_at(buf, *c);
    *c = *c + 4;
    Ok(v)
}

/// Reads eight bytes at `c`, most significant first, moving `c` past them.
fn read_u64(buf: &[u8], c: &mut usize) -> (r: Result<u64, AppError>)
    ensures
        if *old(c) + 8 <= buf@.len() {
            (r matches Ok(v) && v == be64_value(buf@.skip(*old(c) as int))) && *final(c) == *old(c)
                + 8
        } else {
            (r matches Err(e) && e@ == AppErrorModel::DecodeError(cut_short())) && *final(c)
                == *old(c)
        },
{
    if *c > buf.len() || buf.len() - *c < 8 {
        return Err(decode_error("unexpected end of SSTable record"));
    }
    let v: u64 = be64_at(buf, *c);
    *c = *c + 8;
    Ok(v)
}

/// Reads `len` bytes at `c`, moving `c` past them.
fn read_bytes<'a>(buf: &'a [u8], c: &mut usize, len: usize) -> (r: Result<&'a [u8], AppError>)
    ensures
        if *old(c) + len <= buf@.len() {
            (r matches Ok(s) && s@ == buf@.subrange(*old(c) as int, *old(c) + len)) && *final(c)
                == *old(c) + len
        } else {
            (r matches Err(e) && e@ == AppErrorModel::DecodeError(cut_short())) && *final(c)
                == *old(c)
        },
{
    if *c > buf.len() || len > buf.len() - *c {
        return Err(decode_error("unexpected end of SSTable record"));
    }
    let s: &[u8] = slice_subrange(buf, *c, *c + len);
    *c = *c + len;
    Ok(s)
}

} // verus!
