//! The log, with its file held in memory.

use ferrumdb::proto::{Kind, Operation, ValueMessage, WalEntry};
use ferrumdb::value::Value;
use ferrumdb::wal::{parse_buffer, Wal, WAL_PATH};

#[test]
fn test_append_and_read_entries() {
    let wal = Wal::with_path("./data/test_wal_integration.log".to_string());
    let mut file: Vec<u8> = Vec::new();

    let entry1 = Wal::create_put_entry(b"user_1".to_vec(), &Value::Integer(42), 1);
    file.extend(wal.append(&entry1));
    let entry2 = Wal::create_put_entry(b"name".to_vec(), &Value::Text("FerrumDB".to_string()), 2);
    file.extend(wal.append(&entry2));
    let entry3 = Wal::create_delete_entry(b"user_1".to_vec(), 3);
    file.extend(wal.append(&entry3));
    let entry4 = Wal::create_put_entry(b"price".to_vec(), &Value::Float(19.99f64.to_bits()), 4);
    file.extend(wal.append(&entry4));
    let entry5 = Wal::create_put_entry(b"active".to_vec(), &Value::Boolean(true), 5);
    file.extend(wal.append(&entry5));

    let entries = wal.read_all(&file);
    assert_eq!(entries.len(), 5, "Should have 5 entries");

    assert_eq!(entries[0].key, b"user_1");
    assert_eq!(entries[0].operation(), Operation::Put);
    assert_eq!(entries[0].sequence, 1);

    assert_eq!(entries[1].key, b"name");
    assert_eq!(entries[1].operation(), Operation::Put);
    assert_eq!(entries[1].sequence, 2);

    assert_eq!(entries[2].key, b"user_1");
    assert_eq!(entries[2].operation(), Operation::Delete);
    assert_eq!(entries[2].sequence, 3);

    assert_eq!(entries[3].key, b"price");
    assert_eq!(entries[3].operation(), Operation::Put);
    assert_eq!(entries[3].sequence, 4);

    assert_eq!(entries[4].key, b"active");
    assert_eq!(entries[4].operation(), Operation::Put);
    assert_eq!(entries[4].sequence, 5);

    assert_eq!(entries, vec![entry1, entry2, entry3, entry4, entry5]);
}

#[test]
fn test_wal_persistence() {
    let mut file: Vec<u8> = Vec::new();
    {
        let wal = Wal::with_path("./data/test_wal_persistence.log".to_string());
        let entry = Wal::create_put_entry(b"test_key".to_vec(), &Value::Integer(123), 1);
        file.extend(wal.append(&entry));
    }

    let wal = Wal::with_path("./data/test_wal_persistence.log".to_string());
    let entries = wal.read_all(&file);
    assert_eq!(entries.len(), 1);
    assert_eq!(entries[0].key, b"test_key");
    assert_eq!(entries[0].sequence, 1);
}

#[test]
fn test_wal_clear() {
    let wal = Wal::with_path("./data/test_wal_clear.log".to_string());
    let mut file: Vec<u8> = Vec::new();
    let entry = Wal::create_put_entry(b"key1".to_vec(), &Value::Text("value1".to_string()), 1);
    file.extend(wal.append(&entry));
    assert!(wal.read_all(&file).len() == 1);

    file.clear();
    assert!(wal.read_all(&file).is_empty());
}

#[test]
fn paths_are_kept() {
    assert_eq!(Wal::new().path(), "./data/wal.log");
    assert_eq!(WAL_PATH, "./data/wal.log");
    assert_eq!(Wal::with_path("x/y.log".to_string()).path(), "x/y.log");
}

#[test]
fn put_entries_have_these_bytes() {
    let entry = Wal::create_put_entry(b"k".to_vec(), &Value::Integer(1), 1);
    assert_eq!(entry.timestamp, 0);
    assert_eq!(entry.encode_to_vec(), vec![0x12, 1, b'k', 0x1a, 2, 8, 1, 0x20, 1]);
    let wal = Wal::new();
    let mut framed = vec![0, 0, 0, 0, 0, 0, 0, 9];
    framed.extend(entry.encode_to_vec());
    assert_eq!(wal.append(&entry), framed);
}

#[test]
fn delete_and_commit_entries_have_these_bytes() {
    let entry = Wal::create_delete_entry(b"ab".to_vec(), 300);
    assert_eq!(entry.encode_to_vec(), vec![8, 1, 0x12, 2, b'a', b'b', 0x20, 0xac, 2]);
    let commit = Wal::new().write_commit(7);
    assert_eq!(commit, vec![0, 0, 0, 0, 0, 0, 0, 4, 8, 2, 0x20, 7]);
}

#[test]
fn every_kind_of_value_has_these_bytes() {
    let encode = |v: Value| v.to_proto().encode_to_vec();
    let mut minus_one = vec![8];
    minus_one.extend(vec![0xff; 9]);
    minus_one.push(1);
    assert_eq!(encode(Value::Integer(-1)), minus_one);
    assert_eq!(encode(Value::Integer(0)), vec![8, 0]);
    assert_eq!(encode(Value::Float(2.5f64.to_bits())), vec![0x11, 0, 0, 0, 0, 0, 0, 4, 0x40]);
    assert_eq!(encode(Value::Text("hé".to_string())), vec![0x1a, 3, b'h', 0xc3, 0xa9]);
    assert_eq!(encode(Value::Boolean(true)), vec![0x20, 1]);
    assert_eq!(encode(Value::Boolean(false)), vec![0x20, 0]);
    assert_eq!(encode(Value::Bytes(vec![0, 255])), vec![0x2a, 2, 0, 255]);
    let long = encode(Value::Bytes(vec![7; 200]));
    assert_eq!(long[..3], [0x2a, 0xc8, 1]);
    assert_eq!(long.len(), 203);
}

#[test]
fn every_kind_of_value_is_read_back() {
    for v in [
        Value::Integer(i32::MIN),
        Value::Integer(i32::MAX),
        Value::Float(f64::NAN.to_bits()),
        Value::Float((-0.0f64).to_bits()),
        Value::Text("grüße".to_string()),
        Value::Text(String::new()),
        Value::Boolean(false),
        Value::Bytes(Vec::new()),
        Value::Bytes((0..=255).collect()),
    ] {
        let msg = ValueMessage::decode(&v.to_proto().encode_to_vec()).unwrap();
        assert_eq!(Value::from_proto(&msg).unwrap(), v);
    }
}

#[test]
fn the_last_field_of_a_value_wins() {
    let msg = ValueMessage::decode(&[8, 1, 0x20, 1, 0x1a, 1, b'x']).unwrap();
    assert_eq!(msg.kind, Some(Kind::Text("x".to_string())));
    assert_eq!(ValueMessage::decode(&[]).unwrap().kind, None);
}

#[test]
fn integers_keep_their_low_bits() {
    let msg = ValueMessage::decode(&[8, 0x81, 0x80, 0x80, 0x80, 0x10]).unwrap();
    assert_eq!(msg.kind, Some(Kind::Integer(1)));
    let msg = ValueMessage::decode(&[0x20, 0x80, 0x02]).unwrap();
    assert_eq!(msg.kind, Some(Kind::Boolean(true)));
}

#[test]
fn unknown_fields_are_passed_over() {
    // A varint, eight bytes, a length-delimited field, four bytes and a group, all of tag 9.
    let mut bytes = vec![0x48, 0xff, 1];
    bytes.extend([0x49, 1, 2, 3, 4, 5, 6, 7, 8]);
    bytes.extend([0x4a, 2, 0xaa, 0xbb]);
    bytes.extend([0x4d, 1, 2, 3, 4]);
    bytes.extend([0x4b, 8, 5, 0x4c]);
    bytes.extend([8, 42]);
    assert_eq!(ValueMessage::decode(&bytes).unwrap().kind, Some(Kind::Integer(42)));
    bytes.extend([0x4c]);
    assert_eq!(
        ValueMessage::decode(&bytes).unwrap_err(),
        "failed to decode Protobuf message: unexpected end group tag"
    );
    assert!(ValueMessage::decode(&[0x4a, 5, 1]).is_err());
}

#[test]
fn failures_of_a_value_are_worded_like_this() {
    let fail = |bytes: &[u8]| ValueMessage::decode(bytes).unwrap_err();
    let start = "failed to decode Protobuf message: ";
    let kind = "failed to decode Protobuf message: ValueMessage.kind: ";
    assert_eq!(fail(&[0x0a, 0]), format!("{kind}invalid wire type: LengthDelimited (expected Varint)"));
    assert_eq!(fail(&[0x10, 0]), format!("{kind}invalid wire type: Varint (expected SixtyFourBit)"));
    assert_eq!(fail(&[0x1d]), format!("{kind}invalid wire type: ThirtyTwoBit (expected LengthDelimited)"));
    assert_eq!(fail(&[0x23]), format!("{kind}invalid wire type: StartGroup (expected Varint)"));
    assert_eq!(fail(&[0x2c]), format!("{kind}invalid wire type: EndGroup (expected LengthDelimited)"));
    assert_eq!(fail(&[0x29]), format!("{kind}invalid wire type: SixtyFourBit (expected LengthDelimited)"));
    assert_eq!(fail(&[8]), format!("{kind}invalid varint"));
    assert_eq!(fail(&[8, 0x80]), format!("{kind}invalid varint"));
    assert_eq!(fail(&[0x11, 1, 2, 3]), format!("{kind}buffer underflow"));
    assert_eq!(fail(&[0x2a, 3, 1]), format!("{kind}buffer underflow"));
    assert_eq!(
        fail(&[0x1a, 1, 0xff]),
        format!("{kind}invalid string value: data is not UTF-8 encoded")
    );
    assert_eq!(fail(&[0x80]), format!("{start}invalid varint"));
    assert_eq!(fail(&[0x80, 0x80, 0x80, 0x80, 0x10]), format!("{start}invalid key value: 4294967296"));
    assert_eq!(fail(&[0x0e]), format!("{start}invalid wire type value: 6"));
    assert_eq!(fail(&[0x02]), format!("{start}invalid tag value: 0"));
}

#[test]
fn varints_end_within_ten_bytes() {
    let mut max = vec![0x20];
    max.extend(vec![0xff; 9]);
    max.push(1);
    let entry = WalEntry::decode(&max).unwrap();
    assert_eq!(entry.sequence, u64::MAX);
    let mut over = max.clone();
    over[10] = 2;
    assert!(WalEntry::decode(&over).is_err());
    let mut long = vec![0x20];
    long.extend(vec![0xff; 10]);
    long.push(1);
    assert!(WalEntry::decode(&long).is_err());
}

#[test]
fn entries_merge_their_value_fields() {
    // A second, empty value message leaves the kind of the first.
    let entry = WalEntry::decode(&[0x1a, 2, 8, 5, 0x1a, 0]).unwrap();
    assert_eq!(entry.value, Some(ValueMessage { kind: Some(Kind::Integer(5)) }));
    let entry = WalEntry::decode(&[0x1a, 0]).unwrap();
    assert_eq!(entry.value, Some(ValueMessage { kind: None }));
    let entry = WalEntry::decode(&[0x28, 9, 8, 1, 0x12, 1, b'z', 0x48, 1]).unwrap();
    assert_eq!(entry.timestamp, 9);
    assert_eq!(entry.operation(), Operation::Delete);
    assert_eq!(entry.key, b"z");
    assert_eq!(entry.value, None);
}

#[test]
fn failures_of_an_entry_are_worded_like_this() {
    let fail = |bytes: &[u8]| WalEntry::decode(bytes).unwrap_err();
    let start = "failed to decode Protobuf message: ";
    assert_eq!(fail(&[8, 0x80]), format!("{start}WalEntry.operation: invalid varint"));
    assert_eq!(fail(&[0x12, 2, 1]), format!("{start}WalEntry.key: buffer underflow"));
    assert_eq!(
        fail(&[0x18, 1]),
        format!("{start}WalEntry.value: invalid wire type: Varint (expected LengthDelimited)")
    );
    assert_eq!(fail(&[0x1a, 3, 8]), format!("{start}WalEntry.value: buffer underflow"));
    assert_eq!(fail(&[0x22, 0]), {
        format!("{start}WalEntry.sequence: invalid wire type: LengthDelimited (expected Varint)")
    });
    assert_eq!(fail(&[0x28, 0x80]), format!("{start}WalEntry.timestamp: invalid varint"));
    assert_eq!(fail(&[0x4c]), format!("{start}unexpected end group tag"));
    assert_eq!(fail(&[0x80]), format!("{start}invalid varint"));
    // Within the value: the innermost place comes first.
    assert_eq!(
        fail(&[0x1a, 2, 8, 0x80]),
        format!("{start}ValueMessage.kind: WalEntry.value: invalid varint")
    );
    assert_eq!(fail(&[0x1a, 1, 0x02]), format!("{start}WalEntry.value: invalid tag value: 0"));
    assert_eq!(
        fail(&[0x1a, 1, 0x4c]),
        format!("{start}WalEntry.value: unexpected end group tag")
    );
    assert_eq!(
        fail(&[0x1a, 2, 8, 0x80, 1]),
        format!("{start}WalEntry.value: delimited length exceeded")
    );
}

#[test]
fn groups_nest_one_level_less_within_a_value() {
    let group = |depth: usize| [vec![0x4b; depth], vec![0x4c; depth]].concat();
    let limit = "failed to decode Protobuf message: recursion limit reached";
    assert_eq!(ValueMessage::decode(&group(100)).unwrap().kind, None);
    assert_eq!(ValueMessage::decode(&group(101)).unwrap_err(), limit);
    assert!(WalEntry::decode(&group(100)).is_ok());
    assert_eq!(WalEntry::decode(&group(101)).unwrap_err(), limit);

    let within = |inner: &[u8]| {
        let mut bytes = vec![0x1a];
        if inner.len() < 128 {
            bytes.push(inner.len() as u8);
        } else {
            bytes.extend([(inner.len() % 128 + 128) as u8, (inner.len() / 128) as u8]);
        }
        bytes.extend(inner);
        WalEntry::decode(&bytes)
    };
    let nested = "failed to decode Protobuf message: WalEntry.value: recursion limit reached";
    assert_eq!(within(&group(1)).unwrap().value, Some(ValueMessage { kind: None }));
    assert!(within(&group(99)).is_ok());
    assert_eq!(within(&group(100)).unwrap_err(), nested);
    assert_eq!(within(&group(101)).unwrap_err(), nested);
    // Too deep, and it does not end either: the depth is noticed first.
    assert_eq!(within(&vec![0x4b; 100]).unwrap_err(), nested);
    assert_eq!(
        within(&[0x4b, 0x4b]).unwrap_err(),
        "failed to decode Protobuf message: WalEntry.value: invalid varint"
    );
    // A value behind a group is still read.
    let mut inner = group(3);
    inner.extend([8, 5]);
    assert_eq!(within(&inner).unwrap().value, Some(ValueMessage { kind: Some(Kind::Integer(5)) }));
}

#[test]
fn unknown_operations_count_as_puts() {
    assert_eq!(WalEntry::decode(&[8, 9]).unwrap().operation(), Operation::Put);
    assert_eq!(WalEntry::decode(&[]).unwrap().operation(), Operation::Put);
    assert_eq!(WalEntry::decode(&[8, 2]).unwrap().operation(), Operation::Commit);
}

#[test]
fn torn_tails_cost_only_themselves() {
    let wal = Wal::new();
    let first = Wal::create_put_entry(b"a".to_vec(), &Value::Integer(1), 1);
    let second = Wal::create_put_entry(b"b".to_vec(), &Value::Text("two".to_string()), 2);
    let whole = wal.append(&first);
    let torn = wal.append(&second);
    for n in 0..torn.len() {
        let mut file = whole.clone();
        file.extend(&torn[..n]);
        let entries = wal.read_all(&file);
        assert_eq!(entries.len(), 1, "cut at {n}");
        assert_eq!(entries[0], first);
    }
}

#[test]
fn a_huge_length_is_a_torn_tail() {
    let wal = Wal::new();
    let mut file = wal.append(&Wal::create_delete_entry(b"a".to_vec(), 1));
    file.extend([0xff; 8]);
    file.extend([1, 2, 3]);
    assert_eq!(wal.read_all(&file).len(), 1);
}

#[test]
fn records_that_cannot_be_decoded_are_passed_over() {
    let wal = Wal::new();
    let mut file = vec![0, 0, 0, 0, 0, 0, 0, 1, 0x80];
    file.extend(wal.append(&Wal::create_delete_entry(b"a".to_vec(), 1)));
    file.extend(wal.write_commit(1));
    let (entries, count, end, passed) = parse_buffer(&file);
    assert_eq!(entries.len(), 2);
    assert_eq!(count, 2);
    assert_eq!(end, file.len());
    assert_eq!(passed.len(), 1);
    assert_eq!(passed[0].offset, 8);
    assert_eq!(
        passed[0].message(),
        "WAL: Failed to decode entry at offset 8: failed to decode Protobuf message: invalid varint"
    );
    let at = file.len();
    file.extend([0, 0, 0, 0, 0, 0, 0, 2, 8, 0x80]);
    let recovery = wal.read_for_recovery(&file);
    assert_eq!(recovery.passed_over.len(), 2);
    assert_eq!(recovery.passed_over[1].offset, at + 8);
    assert_eq!(
        recovery.passed_over[1].reason,
        "failed to decode Protobuf message: WalEntry.operation: invalid varint"
    );
    assert_eq!(recovery.truncate_to, Some(at));
}

#[test]
fn recovery_keeps_what_was_committed() {
    let wal = Wal::new();
    let mut file = wal.append(&Wal::create_put_entry(b"a".to_vec(), &Value::Integer(1), 1));
    file.extend(wal.write_commit(1));
    let kept = file.len();
    assert_eq!(wal.read_for_recovery(&file).truncate_to, None);
    file.extend(wal.append(&Wal::create_put_entry(b"b".to_vec(), &Value::Integer(2), 2)));

    let recovery = wal.read_for_recovery(&file);
    assert_eq!(recovery.truncate_to, Some(kept));
    assert_eq!(recovery.entries.len(), 2);
    assert_eq!(recovery.entries[0].key, b"a");

    // Once the tail is cut off, a later commit does not bring its entries back.
    file.truncate(kept);
    file.extend(wal.write_commit(3));
    let entries = wal.read_for_recovery(&file).entries;
    assert!(entries.iter().all(|e| e.key != b"b"));

    let uncommitted = wal.append(&Wal::create_delete_entry(b"x".to_vec(), 1));
    let recovery = wal.read_for_recovery(&uncommitted);
    assert_eq!(recovery.truncate_to, Some(0));
    assert!(recovery.entries.is_empty());
    assert_eq!(wal.read_for_recovery(&[]).truncate_to, None);
}
