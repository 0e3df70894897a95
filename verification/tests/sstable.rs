//! Tables, with their files held in memory.

use ferrumdb::bloom::{hash64, BloomFilter};
use ferrumdb::bytes::{relate, Relation};
use ferrumdb::crc::crc32;
use ferrumdb::entry_map::EntryMap;
use ferrumdb::errors::AppError;
use ferrumdb::sstable::{decode_record, encode_record, BlockRef, Footer, SsTable};
use ferrumdb::value::{Entry, Value};

fn read(file: &[u8], block: BlockRef) -> Vec<u8> {
    let start = block.offset as usize;
    file[start..start + block.len as usize].to_vec()
}

fn open(file: &[u8]) -> Result<SsTable, AppError> {
    let footer = Footer::parse(file)?;
    let start = footer.index_offset as usize;
    let region = &file[start..start + footer.index_len as usize];
    SsTable::open("test.sst".to_string(), &footer, region)
}

fn get(sst: &SsTable, file: &[u8], key: &str) -> Result<Option<Entry>, AppError> {
    match sst.get(key.as_bytes()) {
        Some(block) => sst.get_from_block(block.block, &read(file, block), key.as_bytes()),
        None => Ok(None),
    }
}

fn all(sst: &SsTable, file: &[u8]) -> Result<Vec<(Vec<u8>, Entry)>, AppError> {
    let blocks = (0..sst.block_count()).map(|i| read(file, sst.block_at(i))).collect();
    sst.read_all_entries(&blocks)
}

fn flush(mem: &EntryMap) -> Vec<u8> {
    SsTable::flush("test.sst".to_string(), mem).1
}

fn put(mem: &mut EntryMap, key: &str, value: Value) {
    mem.insert(key.as_bytes().to_vec(), Entry::Value(value));
}

#[test]
fn test_flush_and_read_roundtrip() {
    let mut mem = EntryMap::new();
    put(&mut mem, "a", Value::Integer(1));
    put(&mut mem, "b", Value::Text("hello".to_string()));
    put(&mut mem, "c", Value::Float(2.5f64.to_bits()));
    put(&mut mem, "d", Value::Boolean(true));
    let file = flush(&mem);

    let sst = open(&file).unwrap();
    assert_eq!(get(&sst, &file, "a").unwrap(), Some(Entry::Value(Value::Integer(1))));
    assert_eq!(get(&sst, &file, "b").unwrap(), Some(Entry::Value(Value::Text("hello".to_string()))));
    assert_eq!(get(&sst, &file, "c").unwrap(), Some(Entry::Value(Value::Float(2.5f64.to_bits()))));
    assert_eq!(get(&sst, &file, "d").unwrap(), Some(Entry::Value(Value::Boolean(true))));
}

#[test]
fn test_missing_key_returns_none() {
    let mut mem = EntryMap::new();
    put(&mut mem, "apple", Value::Integer(1));
    put(&mut mem, "cherry", Value::Integer(3));
    let file = flush(&mem);

    let sst = open(&file).unwrap();
    assert_eq!(get(&sst, &file, "banana").unwrap(), None);
    assert_eq!(get(&sst, &file, "aaa").unwrap(), None);
    assert_eq!(get(&sst, &file, "zzz").unwrap(), None);
}

#[test]
fn test_lookup_across_multiple_blocks() {
    let mut mem = EntryMap::new();
    for i in 0..1000 {
        put(&mut mem, &format!("key_{:06}", i), Value::Integer(i));
    }
    let file = flush(&mem);

    let sst = open(&file).unwrap();
    assert!(sst.block_count() > 1, "1000 records should span multiple blocks");

    assert_eq!(get(&sst, &file, "key_000000").unwrap(), Some(Entry::Value(Value::Integer(0))));
    assert_eq!(get(&sst, &file, "key_000999").unwrap(), Some(Entry::Value(Value::Integer(999))));
    assert_eq!(get(&sst, &file, "key_000500").unwrap(), Some(Entry::Value(Value::Integer(500))));
    assert_eq!(get(&sst, &file, "key_000250").unwrap(), Some(Entry::Value(Value::Integer(250))));
    assert_eq!(get(&sst, &file, "key_000750").unwrap(), Some(Entry::Value(Value::Integer(750))));
    for i in 0..1000 {
        let found = get(&sst, &file, &format!("key_{:06}", i)).unwrap();
        assert_eq!(found, Some(Entry::Value(Value::Integer(i))));
    }
}

#[test]
fn test_tombstone_roundtrip() {
    let mut mem = EntryMap::new();
    put(&mut mem, "alive", Value::Integer(1));
    mem.insert(b"dead".to_vec(), Entry::Tombstone);
    let file = flush(&mem);

    let sst = open(&file).unwrap();
    assert_eq!(get(&sst, &file, "alive").unwrap(), Some(Entry::Value(Value::Integer(1))));
    assert_eq!(get(&sst, &file, "dead").unwrap(), Some(Entry::Tombstone));
}

#[test]
fn test_crc_detects_corruption() {
    let mut mem = EntryMap::new();
    put(&mut mem, "key", Value::Text("important".to_string()));
    let mut file = flush(&mem);

    file[0] ^= 0xFF;

    let sst = open(&file).unwrap();
    let result = get(&sst, &file, "key");
    assert!(result.is_err(), "corrupted block must be rejected by CRC, got {:?}", result);
}

#[test]
fn test_empty_sstable() {
    let file = flush(&EntryMap::new());

    let sst = open(&file).unwrap();
    assert_eq!(sst.block_count(), 0);
    assert_eq!(get(&sst, &file, "anything").unwrap(), None);
}

#[test]
fn empty_tables_are_a_footer() {
    let file = flush(&EntryMap::new());
    let mut expected = vec![0; 20];
    expected.extend(b"FSST");
    expected.extend([0, 0, 0, 3]);
    assert_eq!(file, expected);
    let sst = open(&file).unwrap();
    assert_eq!(sst.key_range(), None);
    assert!(!sst.might_contain(b"anything"));
    assert!(all(&sst, &file).unwrap().is_empty());
}

#[test]
fn small_tables_have_these_bytes() {
    let mut mem = EntryMap::new();
    put(&mut mem, "a", Value::Integer(1));
    mem.insert(b"b".to_vec(), Entry::Tombstone);
    let file = flush(&mem);

    let mut records = vec![0, 0, 0, 1, b'a', 0, 0, 0, 0, 2, 8, 1];
    records.extend([0, 0, 0, 1, b'b', 1, 0, 0, 0, 0]);
    let mut expected = records.clone();
    expected.extend(crc32(&records).to_be_bytes());
    let offset = expected.len() as u64;
    // The sparse index, the key range and the bloom filter.
    expected.extend([0, 0, 0, 1, b'a', 0, 0, 0, 0, 0, 0, 0, 0, 0, 0, 0, 26]);
    expected.extend([0, 0, 0, 1, b'a', 0, 0, 0, 1, b'b']);
    expected.extend([0, 0, 0, 7, 0, 0, 0, 8]);
    let mut bloom = BloomFilter::new(2);
    bloom.add(b"a");
    bloom.add(b"b");
    assert_eq!(bloom.bits.len(), 8);
    expected.extend(&bloom.bits);
    let len = expected.len() as u64 - offset;
    expected.extend(offset.to_be_bytes());
    expected.extend(len.to_be_bytes());
    expected.extend([0, 0, 0, 1]);
    expected.extend(b"FSST");
    expected.extend([0, 0, 0, 3]);
    assert_eq!(file, expected);
}

#[test]
fn tables_report_their_range_and_path() {
    let mut mem = EntryMap::new();
    put(&mut mem, "m", Value::Integer(2));
    put(&mut mem, "b", Value::Integer(1));
    put(&mut mem, "x", Value::Integer(3));
    let (sst, file) = SsTable::flush("dir/sstable_1.sst".to_string(), &mem);
    assert_eq!(sst.path(), "dir/sstable_1.sst");
    assert_eq!(sst.key_range(), Some((b"b".as_slice(), b"x".as_slice())));
    assert_eq!(open(&file).unwrap().key_range(), Some((b"b".as_slice(), b"x".as_slice())));
    // Out of range: no block has to be read.
    assert!(sst.get(b"a").is_none());
    assert!(sst.get(b"y").is_none());
}

#[test]
fn filters_miss_no_key() {
    let mut mem = EntryMap::new();
    for i in 0..500 {
        put(&mut mem, &format!("k{i}"), Value::Integer(i));
    }
    let sst = open(&flush(&mem)).unwrap();
    for i in 0..500 {
        assert!(sst.might_contain(format!("k{i}").as_bytes()));
    }
    let wrong = (0..1000).filter(|i| sst.might_contain(format!("other{i}").as_bytes())).count();
    assert!(wrong < 50, "{wrong} false positives");
}

#[test]
fn filters_have_ten_bits_for_each_key() {
    assert_eq!(BloomFilter::new(0).bits.len(), 8);
    assert_eq!(BloomFilter::new(6).bits.len(), 8);
    assert_eq!(BloomFilter::new(7).bits.len(), 9);
    assert_eq!(BloomFilter::new(1000).bits.len(), 1250);
    assert_eq!(BloomFilter::new(1).k, 7);
    let mut filter = BloomFilter::new(1);
    assert!(!filter.maybe_contains(b"a"));
    filter.add(b"a");
    assert!(filter.maybe_contains(b"a"));
    // Seven positions of one key, none of which coincide.
    let set: u32 = filter.bits.iter().map(|b| b.count_ones()).sum();
    assert_eq!(set, 7);
}

#[test]
fn checksums_and_hashes_are_the_standard_ones() {
    assert_eq!(crc32(b"123456789"), 0xCBF4_3926);
    assert_eq!(crc32(b""), 0);
    assert_eq!(hash64(b""), 0xcbf2_9ce4_8422_2325);
    assert_eq!(hash64(b"a"), 0xaf63_dc4c_8601_ec8c);
    assert_eq!(hash64(b"foobar"), 0x8594_4171_f739_67e8);
}

#[test]
fn any_changed_byte_of_a_block_is_noticed() {
    let mut mem = EntryMap::new();
    put(&mut mem, "key", Value::Text("important".to_string()));
    put(&mut mem, "other", Value::Integer(7));
    let file = flush(&mem);
    let sst = open(&file).unwrap();
    let block = sst.block_at(0);
    for at in 0..block.len as usize {
        for flip in [1u8, 0x80, 0xff] {
            let mut bytes = read(&file, block);
            bytes[at] ^= flip;
            match sst.get_from_block(0, &bytes, b"key") {
                Err(AppError::DecodeError(text)) => {
                    assert_eq!(text, "SSTable block CRC mismatch at offset 0")
                }
                other => panic!("byte {at}: {other:?}"),
            }
        }
    }
}

#[test]
fn checksum_errors_name_their_block() {
    let mut mem = EntryMap::new();
    for i in 0..1000 {
        put(&mut mem, &format!("key_{:06}", i), Value::Integer(i));
    }
    let mut file = flush(&mem);
    let sst = open(&file).unwrap();
    let second = sst.block_at(1);
    file[second.offset as usize] ^= 1;
    let text = format!("SSTable block CRC mismatch at offset {}", second.offset);
    match all(&sst, &file) {
        Err(AppError::DecodeError(m)) => assert_eq!(m, text),
        other => panic!("{other:?}"),
    }
    assert_eq!(get(&sst, &file, "key_000000").unwrap(), Some(Entry::Value(Value::Integer(0))));
}

#[test]
fn blocks_end_once_they_are_full() {
    let mut mem = EntryMap::new();
    put(&mut mem, "a", Value::Bytes(vec![1; 5000]));
    put(&mut mem, "b", Value::Bytes(vec![2; 4000]));
    put(&mut mem, "c", Value::Bytes(vec![3; 100]));
    put(&mut mem, "d", Value::Bytes(vec![4; 10]));
    let file = flush(&mem);
    let sst = open(&file).unwrap();
    assert_eq!(sst.block_count(), 3);
    assert_eq!(sst.get(b"a").unwrap().block, 0);
    assert_eq!(sst.get(b"b").unwrap().block, 1);
    assert_eq!(sst.get(b"c").unwrap().block, 1);
    assert_eq!(sst.get(b"d").unwrap().block, 2);
    assert_eq!(sst.block_at(1).offset, sst.block_at(0).len as u64);
}

#[test]
fn all_entries_are_read_back_in_order() {
    let mut mem = EntryMap::new();
    for i in 0..700 {
        put(&mut mem, &format!("key_{:04}", i * 11 % 700), Value::Integer(i));
    }
    mem.insert(b"key_0100".to_vec(), Entry::Tombstone);
    let file = flush(&mem);
    let sst = open(&file).unwrap();
    let entries = all(&sst, &file).unwrap();
    assert_eq!(entries.len(), 700);
    for (i, (key, entry)) in entries.iter().enumerate() {
        assert_eq!(key, mem.key_at(i));
        assert_eq!(entry, mem.entry_at(i));
    }
}

#[test]
fn files_that_are_no_tables_are_refused() {
    let good = flush(&EntryMap::new());
    let text = |r: Result<SsTable, AppError>| match r {
        Err(AppError::DecodeError(m)) => m,
        other => panic!("{other:?}"),
    };
    assert_eq!(text(open(&good[1..])), "SSTable smaller than footer");
    assert_eq!(text(open(&[])), "SSTable smaller than footer");
    let mut bad = good.clone();
    bad[20] = b'X';
    assert_eq!(text(open(&bad)), "not a FerrumDB SSTable (bad magic)");
    let mut bad = good.clone();
    bad[27] = 2;
    assert_eq!(text(open(&bad)), "unsupported SSTable version 2");
    let mut bad = good.clone();
    bad[24] = 1;
    assert_eq!(text(open(&bad)), "unsupported SSTable version 16777219");
}

#[test]
fn index_regions_that_are_cut_short_are_refused() {
    let mut mem = EntryMap::new();
    put(&mut mem, "abc", Value::Integer(1));
    let file = flush(&mem);
    let footer = Footer::parse(&file).unwrap();
    let start = footer.index_offset as usize;
    let region = &file[start..start + footer.index_len as usize];
    for n in 0..region.len() {
        // A region that ends with its index entries is that of a table without a range.
        match SsTable::open(String::new(), &footer, &region[..n]) {
            Ok(sst) => {
                assert_eq!(n, 19);
                assert_eq!(sst.key_range(), None);
            }
            Err(AppError::DecodeError(m)) => assert_eq!(m, "unexpected end of SSTable record"),
            other => panic!("{other:?}"),
        }
    }
    assert!(SsTable::open(String::new(), &footer, region).is_ok());
}

#[test]
fn records_that_cannot_be_read_are_reported() {
    let mut mem = EntryMap::new();
    put(&mut mem, "k", Value::Integer(1));
    let sst = open(&flush(&mem)).unwrap();
    let error = |records: &[u8]| {
        let mut block = records.to_vec();
        block.extend(crc32(records).to_be_bytes());
        match sst.get_from_block(0, &block, b"k") {
            Err(AppError::DecodeError(m)) => m,
            other => panic!("{other:?}"),
        }
    };
    let short = "unexpected end of SSTable record";
    assert_eq!(error(&[0, 0]), short);
    assert_eq!(error(&[0, 0, 0, 5, b'k']), short);
    assert_eq!(error(&[0, 0, 0, 1, b'k']), short);
    assert_eq!(error(&[0, 0, 0, 1, b'k', 0, 0, 0]), short);
    assert_eq!(error(&[0, 0, 0, 1, b'k', 0, 0, 0, 0, 2, 8]), short);
    assert_eq!(error(&[0, 0, 0, 1, b'k', 0, 0, 0, 0, 0]), "value message has no kind set");
    assert_eq!(
        error(&[0, 0, 0, 1, b'k', 0, 0, 0, 0, 1, 8]),
        "failed to decode Protobuf message: ValueMessage.kind: invalid varint"
    );
}

#[test]
fn lookups_stop_past_their_key() {
    let mut mem = EntryMap::new();
    put(&mut mem, "k", Value::Integer(1));
    let sst = open(&flush(&mem)).unwrap();
    // The record after `m` cannot be read, but it is not reached.
    let records = [0, 0, 0, 1, b'm', 7, 0, 0, 0, 0, 0xff];
    let mut block = records.to_vec();
    block.extend(crc32(&records).to_be_bytes());
    assert_eq!(sst.get_from_block(0, &block, b"k").unwrap(), None);
    // Any type but that of a value is a deletion marker.
    assert_eq!(sst.get_from_block(0, &block, b"m").unwrap(), Some(Entry::Tombstone));
    let mut out = Vec::new();
    assert!(sst.read_block_entries(0, &block, &mut out).is_err());
}

#[test]
fn filters_without_bits_cannot_be_probed() {
    let mut mem = EntryMap::new();
    put(&mut mem, "k", Value::Integer(1));
    let file = flush(&mem);
    let footer = Footer::parse(&file).unwrap();
    let start = footer.index_offset as usize;
    let mut region = file[start..start + footer.index_len as usize].to_vec();
    let n = region.len();
    region.truncate(n - 12);
    region.extend([0, 0, 0, 0]);
    let sst = SsTable::open(String::new(), &footer, &region).unwrap();
    assert!(!sst.can_probe(b"k"));
    assert!(sst.can_probe(b"a"));
    assert!(open(&file).unwrap().can_probe(b"k"));
}

#[test]
fn keys_are_ordered_by_their_bytes() {
    assert_eq!(relate(b"a", b"b"), Relation::Before);
    assert_eq!(relate(b"a", b"a"), Relation::Same);
    assert_eq!(relate(b"b", b"a"), Relation::After);
    assert_eq!(relate(b"", b"a"), Relation::Before);
    assert_eq!(relate(b"ab", b"a"), Relation::After);
    assert_eq!(relate(&[0x7f], &[0x80]), Relation::Before);
    assert_eq!(relate(b"", b""), Relation::Same);
}

#[test]
fn records_are_read_back_wherever_they_stand() {
    let entries = [
        (&b"key"[..], Entry::Value(Value::Bytes(vec![1, 2, 3]))),
        (&b""[..], Entry::Value(Value::Float((-0.0f64).to_bits()))),
        (&b"gone"[..], Entry::Tombstone),
    ];
    for (key, entry) in &entries {
        let mut buf = vec![0xaa; 5];
        encode_record(&mut buf, key, entry);
        let end = buf.len();
        buf.extend([0xbb; 7]);
        let mut c = 5;
        let (k, e) = decode_record(&buf, &mut c).unwrap();
        assert_eq!((&k[..], &e), (*key, entry));
        assert_eq!(c, end);
        for n in 5..end {
            let mut c = 5;
            match decode_record(&buf[..n], &mut c) {
                Err(AppError::DecodeError(m)) => assert_eq!(m, "unexpected end of SSTable record"),
                _ => panic!("cut at {n}"),
            }
            assert!(c <= n);
        }
        let mut beyond = buf.len() + 1;
        assert!(decode_record(&buf, &mut beyond).is_err());
        assert_eq!(beyond, buf.len() + 1);
    }
}
