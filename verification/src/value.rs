//! Values, and what a key resolves to.

use vstd::prelude::*;
use vstd::arithmetic::div_mod::{
    lemma_add_mod_noop, lemma_fundamental_div_mod_converse, lemma_mod_bound, lemma_sub_mod_noop,
};
use vstd::utf8::encode_utf8;
use crate::bytes::copy_bytes;

verus! {

/// A stored value.
#[derive(Debug, PartialEq)]
pub enum Value {
    Integer(i32),
    /// A double-precision number, held as its IEEE 754 bit pattern.
    Float(u64),
    Text(String),
    Boolean(bool),
    Bytes(Vec<u8>),
}

/// A [`Value`] with its text and bytes as sequences.
pub enum ValueModel {
    Integer(i32),
    Float(u64),
    Text(Seq<char>),
    Boolean(bool),
    Bytes(Seq<u8>),
}

impl View for Value {
    type V = ValueModel;

    open spec fn view(&self) -> ValueModel {
        match *self {
            Value::Integer(n) => ValueModel::Integer(n),
            Value::Float(n) => ValueModel::Float(n),
            Value::Text(s) => ValueModel::Text(s@),
            Value::Boolean(b) => ValueModel::Boolean(b),
            Value::Bytes(b) => ValueModel::Bytes(b@),
        }
    }
}

impl Clone for Value {
    fn clone(&self) -> (r: Value)
        ensures
            r@ == self@,
    {
        match self {
            Value::Integer(n) => Value::Integer(*n),
            Value::Float(n) => Value::Float(*n),
            Value::Text(s) => Value::Text(s.clone()),
            Value::Boolean(b) => Value::Boolean(*b),
            Value::Bytes(b) => Value::Bytes(copy_bytes(b.as_slice())),
        }
    }
}

/// What a key resolves to: a present value, or a deletion marker.
#[derive(Debug, PartialEq)]
pub enum Entry {
    Value(Value),
    Tombstone,
}

/// An [`Entry`] over a [`ValueModel`].
pub enum EntryModel {
    Value(ValueModel),
    Tombstone,
}

impl View for Entry {
    type V = EntryModel;

    open spec fn view(&self) -> EntryModel {
        match *self {
            Entry::Value(v) => EntryModel::Value(v@),
            Entry::Tombstone => EntryModel::Tombstone,
        }
    }
}

impl Clone for Entry {
    fn clone(&self) -> (r: Entry)
        ensures
            r@ == self@,
    {
        match self {
            Entry::Value(v) => Entry::Value(v.clone()),
            Entry::Tombstone => Entry::Tombstone,
        }
    }
}

/// The bytes that an entry's value is counted with.
pub open spec fn value_size(e: EntryModel) -> nat {
    match e {
        EntryModel::Value(ValueModel::Integer(_)) => 4,
        EntryModel::Value(ValueModel::Float(_)) => 8,
        EntryModel::Value(ValueModel::Boolean(_)) => 1,
        EntryModel::Value(ValueModel::Text(s)) => encode_utf8(s).len(),
        EntryModel::Value(ValueModel::Bytes(b)) => b.len(),
        EntryModel::Tombstone => 0,
    }
}

/// The footprint of one memtable entry: the key bytes plus the value bytes.
pub open spec fn footprint(key: Seq<u8>, e: EntryModel) -> nat {
    key.len() + value_size(e)
}

/// `n` reduced to the range of `usize`.
pub open spec fn wrapped(n: int) -> usize {
    (n % (usize::MAX + 1)) as usize
}

/// Reducing a number that is at most one range away.
pub proof fn lemma_wrapped_near(n: int)
    requires
        -(usize::MAX + 1) <= n < 2 * (usize::MAX + 1),
    ensures
        0 <= n <= usize::MAX ==> wrapped(n) == n,
        n > usize::MAX ==> wrapped(n) == n - (usize::MAX + 1),
        n < 0 ==> wrapped(n) == n + (usize::MAX + 1),
{
    let m = usize::MAX + 1;
    if n > usize::MAX {
        lemma_fundamental_div_mod_converse(n, m, 1, n - m);
    } else if n < 0 {
        lemma_fundamental_div_mod_converse(n, m, -1, n + m);
    } else {
        lemma_fundamental_div_mod_converse(n, m, 0, n);
    }
}

/// Adding reduced numbers gives the reduced sum.
pub proof fn lemma_wrapped_add(a: int, b: int)
    ensures
        wrapped(a).wrapping_add(wrapped(b)) == wrapped(a + b),
{
    let m = usize::MAX + 1;
    let x = wrapped(a) as int;
    let y = wrapped(b) as int;
    assert(x == a % m && y == b % m) by {
        lemma_mod_bound(a, m);
        lemma_mod_bound(b, m);
    }
    lemma_wrapped_near(x + y);
    lemma_add_mod_noop(a, b, m);
}

/// Subtracting reduced numbers gives the reduced difference.
pub proof fn lemma_wrapped_sub(a: int, b: int)
    ensures
        wrapped(a).wrapping_sub(wrapped(b)) == wrapped(a - b),
{
    let m = usize::MAX + 1;
    let x = wrapped(a) as int;
    let y = wrapped(b) as int;
    assert(x == a % m && y == b % m) by {
        lemma_mod_bound(a, m);
        lemma_mod_bound(b, m);
    }
    lemma_wrapped_near(x - y);
    lemma_sub_mod_noop(a, b, m);
}

/// The footprint of one memtable entry, as a machine number.
pub fn entry_footprint(key: &[u8], entry: &Entry) -> (r: usize)
    ensures
        r == wrapped(footprint(key@, entry@) as int),
        footprint(key@, entry@) <= usize::MAX ==> r == footprint(key@, entry@),
{
    let value_bytes: usize = match entry {
        Entry::Value(Value::Integer(_)) => 4,
        Entry::Value(Value::Float(_)) => 8,
        Entry::Value(Value::Boolean(_)) => 1,
        Entry::Value(Value::Text(s)) => s.as_str().as_bytes().len(),
        Entry::Value(Value::Bytes(b)) => b.len(),
        Entry::Tombstone => 0,
    };
    assert(value_bytes == value_size(entry@));
    let key_bytes: usize = key.len();
    proof {
        lemma_wrapped_near(key_bytes + value_bytes);
    }
    key_bytes.wrapping_add(value_bytes)
}

/// What a value stands for is what it holds, whole.
pub proof fn law_values_stand_for_what_they_hold(
    n: i32,
    f: u64,
    s: String,
    b: bool,
    bytes: Vec<u8>,
    v: Value,
)
    ensures
        Value::Integer(n)@ == ValueModel::Integer(n),
        Value::Float(f)@ == ValueModel::Float(f),
        Value::Text(s)@ == ValueModel::Text(s@),
        Value::Boolean(b)@ == ValueModel::Boolean(b),
        Value::Bytes(bytes)@ == ValueModel::Bytes(bytes@),
        Entry::Value(v)@ == EntryModel::Value(v@),
        Entry::Tombstone@ == EntryModel::Tombstone,
{
}

/// An entry counts as the bytes of its key and those of its value: four for an integer, eight for a
/// float, one for a boolean, the encoded length of a text, the length of bytes, none for a deletion
/// marker.
pub proof fn law_entries_count_their_bytes(
    key: Seq<u8>,
    n: i32,
    f: u64,
    s: Seq<char>,
    b: bool,
    bytes: Seq<u8>,
)
    ensures
        footprint(key, EntryModel::Value(ValueModel::Integer(n))) == key.len() + 4,
        footprint(key, EntryModel::Value(ValueModel::Float(f))) == key.len() + 8,
        footprint(key, EntryModel::Value(ValueModel::Boolean(b))) == key.len() + 1,
        footprint(key, EntryModel::Value(ValueModel::Text(s))) == key.len() + encode_utf8(s).len(),
        footprint(key, EntryModel::Value(ValueModel::Bytes(bytes))) == key.len() + bytes.len(),
        footprint(key, EntryModel::Tombstone) == key.len(),
{
}

} // verus!
