//! The protobuf messages of the log and the tables, and their encodings.

use vstd::prelude::*;
use vstd::slice::slice_subrange;
use vstd::string::StringExecFns;
use vstd::utf8::{encode_utf8, encode_utf8_decode_utf8, encode_utf8_valid_utf8};
use crate::bytes::{after, copy_bytes};
use crate::errors::{decode_error, AppError, AppErrorModel};
use crate::value::{Value, ValueModel};
use crate::wire::{
    bytes_field, failure, field_key, fixed64_field, int32_bits, int32_of_bits, key_at, le64, locate,
    lemma_bytes_field_round_trip, lemma_field_key_round_trip, lemma_fixed64_round_trip,
    lemma_int32_round_trip, lemma_varint_round_trip, put_bool, put_bytes, put_fixed64, put_int32,
    put_string, put_uint64, skip_nested, skip_unknown, skipped_field, string_field, take_bool,
    take_bytes, take_fixed64, take_int32, take_key, take_string, take_uint64, varint, varint_field,
    wire_name, HEADING, WIRE_LENGTH_DELIMITED, WIRE_SIXTY_FOUR_BIT, WIRE_VARINT,
};

verus! {

/// The kinds of value that a [`ValueMessage`] can carry.
#[derive(Debug, PartialEq)]
pub enum Kind {
    Integer(i32),
    /// A double-precision number, held as its IEEE 754 bit pattern.
    Float(u64),
    Text(String),
    Boolean(bool),
    Data(Vec<u8>),
}

impl View for Kind {
    type V = ValueModel;

    open spec fn view(&self) -> ValueModel {
        match *self {
            Kind::Integer(n) => ValueModel::Integer(n),
            Kind::Float(n) => ValueModel::Float(n),
            Kind::Text(s) => ValueModel::Text(s@),
            Kind::Boolean(b) => ValueModel::Boolean(b),
            Kind::Data(b) => ValueModel::Bytes(b@),
        }
    }
}

/// The message that carries a typed value.
#[derive(Debug, PartialEq)]
pub struct ValueMessage {
    pub kind: Option<Kind>,
}

impl View for ValueMessage {
    type V = Option<ValueModel>;

    open spec fn view(&self) -> Option<ValueModel> {
        kind_view(self.kind)
    }
}

/// The value of an optional kind.
pub open spec fn kind_view(kind: Option<Kind>) -> Option<ValueModel> {
    match kind {
        Some(k) => Some(k@),
        None => None,
    }
}

/// What a log entry does.
#[derive(Clone, Copy, Debug, PartialEq, Eq, Structural)]
pub enum Operation {
    Put,
    Delete,
    Commit,
}

impl Operation {
    /// The number that stands for the operation in a log entry.
    pub open spec fn number(&self) -> i32 {
        match *self {
            Operation::Put => 0,
            Operation::Delete => 1,
            Operation::Commit => 2,
        }
    }

    /// The number that stands for the operation in a log entry.
    pub fn to_number(&self) -> (r: i32)
        ensures
            r == self.number(),
    {
        match self {
            Operation::Put => 0,
            Operation::Delete => 1,
            Operation::Commit => 2,
        }
    }
}

/// One entry of the write-ahead log.
#[derive(Debug, PartialEq)]
pub struct WalEntry {
    pub operation: i32,
    pub key: Vec<u8>,
    pub value: Option<ValueMessage>,
    pub sequence: u64,
    pub timestamp: u64,
}

/// A [`WalEntry`] with its key and value as sequences.
pub struct WalEntryModel {
    pub operation: i32,
    pub key: Seq<u8>,
    pub value: Option<Option<ValueModel>>,
    pub sequence: u64,
    pub timestamp: u64,
}

impl View for WalEntry {
    type V = WalEntryModel;

    open spec fn view(&self) -> WalEntryModel {
        WalEntryModel {
            operation: self.operation,
            key: self.key@,
            value: match self.value {
                Some(m) => Some(m@),
                None => None,
            },
            sequence: self.sequence,
            timestamp: self.timestamp,
        }
    }
}

impl WalEntryModel {
    /// What the entry does; a number that stands for no operation counts as a put.
    pub open spec fn op(&self) -> Operation {
        if self.operation == 1 {
            Operation::Delete
        } else if self.operation == 2 {
            Operation::Commit
        } else {
            Operation::Put
        }
    }
}

/// The encoding of a value message that holds `v`.
pub open spec fn value_bytes(v: ValueModel) -> Seq<u8> {
    match v {
        ValueModel::Integer(n) => field_key(1, WIRE_VARINT) + varint(int32_bits(n)),
        ValueModel::Float(n) => field_key(2, WIRE_SIXTY_FOUR_BIT) + le64(n),
        ValueModel::Text(s) => field_key(3, WIRE_LENGTH_DELIMITED) + varint(encode_utf8(s).len())
            + encode_utf8(s),
        ValueModel::Boolean(b) => field_key(4, WIRE_VARINT) + varint(
            if b { 1nat } else { 0nat },
        ),
        ValueModel::Bytes(b) => field_key(5, WIRE_LENGTH_DELIMITED) + varint(b.len()) + b,
    }
}

/// The encoding of a value message.
pub open spec fn message_bytes(m: Option<ValueModel>) -> Seq<u8> {
    match m {
        Some(v) => value_bytes(v),
        None => Seq::empty(),
    }
}

/// The encoding of a log entry: each field that is not at its default, in the order of the tags.
#[verifier::opaque]
pub open spec fn wal_bytes(e: WalEntryModel) -> Seq<u8> {
    wal_bytes_operation(e) + wal_bytes_key(e) + wal_bytes_value(e) + wal_bytes_sequence(e)
        + wal_bytes_timestamp(e)
}

/// The encoding of a log entry's operation.
pub open spec fn wal_bytes_operation(e: WalEntryModel) -> Seq<u8> {
    if e.operation != 0 {
        field_key(1, WIRE_VARINT) + varint(int32_bits(e.operation))
    } else {
        Seq::empty()
    }
}

/// The encoding of a log entry's key.
pub open spec fn wal_bytes_key(e: WalEntryModel) -> Seq<u8> {
    if e.key.len() != 0 {
        field_key(2, WIRE_LENGTH_DELIMITED) + varint(e.key.len()) + e.key
    } else {
        Seq::empty()
    }
}

/// The encoding of a log entry's value.
pub open spec fn wal_bytes_value(e: WalEntryModel) -> Seq<u8> {
    match e.value {
        Some(m) => field_key(3, WIRE_LENGTH_DELIMITED) + varint(message_bytes(m).len())
            + message_bytes(m),
        None => Seq::empty(),
    }
}

/// The encoding of a log entry's sequence number.
pub open spec fn wal_bytes_sequence(e: WalEntryModel) -> Seq<u8> {
    if e.sequence != 0 {
        field_key(4, WIRE_VARINT) + varint(e.sequence as nat)
    } else {
        Seq::empty()
    }
}

/// The encoding of a log entry's timestamp.
pub open spec fn wal_bytes_timestamp(e: WalEntryModel) -> Seq<u8> {
    if e.timestamp != 0 {
        field_key(5, WIRE_VARINT) + varint(e.timestamp as nat)
    } else {
        Seq::empty()
    }
}

/// How the place of a value message is named in a failure: not at all, or, if the message is the
/// value of a log entry, by that field.
pub open spec fn message_place(nested: bool) -> Seq<char> {
    if nested {
        "WalEntry.value: "@
    } else {
        ""@
    }
}

/// How the place of a value in its message is named in a failure.
pub open spec fn kind_place(nested: bool) -> Seq<char> {
    if nested {
        "ValueMessage.kind: WalEntry.value: "@
    } else {
        "ValueMessage.kind: "@
    }
}

/// What a value message that holds `kind` holds after the field with `tag` that begins `b`, and
/// the length of that field, or what is wrong. `nested` says whether the message is the value of a
/// log entry.
#[verifier::opaque]
pub open spec fn value_field(
    kind: Option<ValueModel>,
    tag: u32,
    wire: u8,
    b: Seq<u8>,
    nested: bool,
) -> Result<(Option<ValueModel>, nat), Seq<char>> {
    if tag == 1 {
        match varint_field(wire, b) {
            Ok((v, n)) => Ok((Some(ValueModel::Integer(int32_of_bits(v))), n)),
            Err(p) => Err(kind_place(nested) + p),
        }
    } else if tag == 2 {
        match fixed64_field(wire, b) {
            Ok((v, n)) => Ok((Some(ValueModel::Float(v)), n)),
            Err(p) => Err(kind_place(nested) + p),
        }
    } else if tag == 3 {
        match string_field(wire, b) {
            Ok((s, n)) => Ok((Some(ValueModel::Text(s)), n)),
            Err(p) => Err(kind_place(nested) + p),
        }
    } else if tag == 4 {
        match varint_field(wire, b) {
            Ok((v, n)) => Ok((Some(ValueModel::Boolean(v != 0)), n)),
            Err(p) => Err(kind_place(nested) + p),
        }
    } else if tag == 5 {
        match bytes_field(wire, b) {
            Ok((s, n)) => Ok((Some(ValueModel::Bytes(s)), n)),
            Err(p) => Err(kind_place(nested) + p),
        }
    } else {
        match skipped_field(wire, tag, b, nested) {
            Ok(n) => Ok((kind, n)),
            Err(p) => Err(message_place(nested) + p),
        }
    }
}

/// What a value message that holds `kind` holds after the fields in `b` up to its last `limit`
/// bytes, the last field winning, or what is wrong.
pub open spec fn read_fields(
    kind: Option<ValueModel>,
    b: Seq<u8>,
    limit: nat,
    nested: bool,
) -> Result<Option<ValueModel>, Seq<char>>
    decreases b.len(),
{
    if b.len() < limit {
        Err(message_place(nested) + "delimited length exceeded"@)
    } else if b.len() == limit {
        Ok(kind)
    } else {
        match key_at(b) {
            Err(p) => Err(message_place(nested) + p),
            Ok((tag, wire, n)) => {
                proof {
                    crate::wire::lemma_varint_at_len(b, 0);
                }
                match value_field(kind, tag, wire, b.skip(n as int), nested) {
                    Err(p) => Err(p),
                    Ok((k, m)) => read_fields(k, after(b.skip(n as int), m), limit, nested),
                }
            },
        }
    }
}

/// What a value message that holds `kind` holds after the fields in `b`, or the text of the
/// failure.
pub open spec fn read_value(kind: Option<ValueModel>, b: Seq<u8>) -> Result<
    Option<ValueModel>,
    Seq<char>,
> {
    match read_fields(kind, b, 0, false) {
        Ok(k) => Ok(k),
        Err(p) => Err(failure(p)),
    }
}

/// What a log entry is after the field with `tag` that begins `b`, and the length of that field, or
/// what is wrong.
#[verifier::opaque]
pub open spec fn wal_field(e: WalEntryModel, tag: u32, wire: u8, b: Seq<u8>) -> Result<
    (WalEntryModel, nat),
    Seq<char>,
> {
    if tag == 1 {
        match varint_field(wire, b) {
            Ok((v, n)) => Ok((WalEntryModel { operation: int32_of_bits(v), ..e }, n)),
            Err(p) => Err("WalEntry.operation: "@ + p),
        }
    } else if tag == 2 {
        match bytes_field(wire, b) {
            Ok((s, n)) => Ok((WalEntryModel { key: s, ..e }, n)),
            Err(p) => Err("WalEntry.key: "@ + p),
        }
    } else if tag == 3 {
        match bytes_field(wire, b) {
            Ok((s, n)) => match read_fields(
                match e.value {
                    Some(m) => m,
                    None => None,
                },
                after(b, (n - s.len()) as nat),
                (b.len() - n) as nat,
                true,
            ) {
                Ok(m) => Ok((WalEntryModel { value: Some(m), ..e }, n)),
                Err(p) => Err(p),
            },
            Err(p) => Err("WalEntry.value: "@ + p),
        }
    } else if tag == 4 {
        match varint_field(wire, b) {
            Ok((v, n)) => Ok((WalEntryModel { sequence: v as u64, ..e }, n)),
            Err(p) => Err("WalEntry.sequence: "@ + p),
        }
    } else if tag == 5 {
        match varint_field(wire, b) {
            Ok((v, n)) => Ok((WalEntryModel { timestamp: v as u64, ..e }, n)),
            Err(p) => Err("WalEntry.timestamp: "@ + p),
        }
    } else {
        match skipped_field(wire, tag, b, false) {
            Ok(n) => Ok((e, n)),
            Err(p) => Err(p),
        }
    }
}

/// What a log entry is after the fields in `b`, or what is wrong.
pub open spec fn read_wal(e: WalEntryModel, b: Seq<u8>) -> Result<WalEntryModel, Seq<char>>
    decreases b.len(),
{
    if b.len() == 0 {
        Ok(e)
    } else {
        match key_at(b) {
            Err(p) => Err(p),
            Ok((tag, wire, n)) => {
                proof {
                    crate::wire::lemma_varint_at_len(b, 0);
                }
                match wal_field(e, tag, wire, b.skip(n as int)) {
                    Err(p) => Err(p),
                    Ok((e2, m)) => read_wal(e2, after(b.skip(n as int), m)),
                }
            },
        }
    }
}

/// The log entry with every field at its default.
pub open spec fn blank_entry() -> WalEntryModel {
    WalEntryModel {
        operation: 0,
        key: Seq::empty(),
        value: None,
        sequence: 0,
        timestamp: 0,
    }
}

impl ValueMessage {
    /// The encoding of the message.
    pub fn encode_to_vec(&self) -> (r: Vec<u8>)
        ensures
            r@ == message_bytes(self@),
    {
        let mut out: Vec<u8> = Vec::new();
        match &self.kind {
            Some(Kind::Integer(n)) => put_int32(1, *n, &mut out),
            Some(Kind::Float(n)) => put_fixed64(2, *n, &mut out),
            Some(Kind::Text(s)) => put_string(3, s, &mut out),
            Some(Kind::Boolean(b)) => put_bool(4, *b, &mut out),
            Some(Kind::Data(b)) => put_bytes(5, b, &mut out),
            None => {},
        }
        assert(out@ =~= message_bytes(self@));
        out
    }

    /// Reads the fields in `buf` up to its last `limit` bytes into a message that holds `held`.
    fn merge(held: Option<Kind>, buf: &[u8], limit: usize, nested: bool) -> (r: Result<
        Option<Kind>,
        String,
    >)
        ensures
            match read_fields(kind_view(held), buf@, limit as nat, nested) {
                Ok(k) => r matches Ok(x) && kind_view(x) == k,
                Err(p) => r matches Err(text) && text@ == failure(p),
            },
    {
        let ghost goal = read_fields(kind_view(held), buf@, limit as nat, nested);
        let message_name: &str = if nested { "WalEntry.value: " } else { "" };
        let kind_name: &str = if nested {
            "ValueMessage.kind: WalEntry.value: "
        } else {
            "ValueMessage.kind: "
        };
        let mut kind = held;
        let mut rest: &[u8] = buf;
        while rest.len() > limit
            invariant
                message_name@ == message_place(nested),
                kind_name@ == kind_place(nested),
                goal == read_fields(kind_view(held), buf@, limit as nat, nested),
                goal == read_fields(kind_view(kind), rest@, limit as nat, nested),
            decreases rest@.len(),
        {
            proof {
                crate::wire::lemma_varint_at_len(rest@, 0);
            }
            let (tag, wire, field) = match take_key(rest) {
                Ok(x) => x,
                Err(text) => return Err(located(text, message_name)),
            };
            proof {
                lemma_value_field_len(kind_view(kind), tag, wire, field@, nested);
                reveal(value_field);
            }
            if tag == 1 {
                match take_int32(wire, field) {
                    Ok((n, next)) => {
                        kind = Some(Kind::Integer(n));
                        rest = next;
                    },
                    Err(text) => return Err(located(text, kind_name)),
                }
            } else if tag == 2 {
                match take_fixed64(wire, field) {
                    Ok((n, next)) => {
                        kind = Some(Kind::Float(n));
                        rest = next;
                    },
                    Err(text) => return Err(located(text, kind_name)),
                }
            } else if tag == 3 {
                match take_string(wire, field) {
                    Ok((s, next)) => {
                        kind = Some(Kind::Text(s));
                        rest = next;
                    },
                    Err(text) => return Err(located(text, kind_name)),
                }
            } else if tag == 4 {
                match take_bool(wire, field) {
                    Ok((b, next)) => {
                        kind = Some(Kind::Boolean(b));
                        rest = next;
                    },
                    Err(text) => return Err(located(text, kind_name)),
                }
            } else if tag == 5 {
                match take_bytes(wire, field) {
                    Ok((b, next)) => {
                        kind = Some(Kind::Data(b));
                        rest = next;
                    },
                    Err(text) => return Err(located(text, kind_name)),
                }
            } else {
                let skipped = if nested {
                    skip_nested(wire, tag, field)
                } else {
                    skip_unknown(wire, tag, field)
                };
                match skipped {
                    Ok(next) => {
                        rest = next;
                    },
                    Err(text) => return Err(located(text, message_name)),
                }
            }
        }
        if rest.len() < limit {
            let problem: String = String::from_str(HEADING).concat(message_name).concat(
                "delimited length exceeded",
            );
            assert(problem@ =~= failure(message_place(nested) + "delimited length exceeded"@));
            return Err(problem);
        }
        Ok(kind)
    }

    /// Decodes a message; a failure is described by its text.
    pub fn decode(buf: &[u8]) -> (r: Result<ValueMessage, String>)
        ensures
            match read_value(None, buf@) {
                Ok(k) => r matches Ok(m) && m@ == k,
                Err(t) => r matches Err(text) && text@ == t,
            },
    {
        match ValueMessage::merge(None, buf, 0, false) {
            Ok(kind) => Ok(ValueMessage { kind }),
            Err(text) => Err(text),
        }
    }
}

impl WalEntry {
    /// What the entry does; a number that stands for no operation counts as a put.
    pub fn operation(&self) -> (r: Operation)
        ensures
            r == self@.op(),
    {
        if self.operation == 1 {
            Operation::Delete
        } else if self.operation == 2 {
            Operation::Commit
        } else {
            Operation::Put
        }
    }

    /// The encoding of the entry.
    pub fn encode_to_vec(&self) -> (r: Vec<u8>)
        ensures
            r@ == wal_bytes(self@),
    {
        let mut out: Vec<u8> = Vec::new();
        self.encode_operation(&mut out);
        self.encode_key(&mut out);
        self.encode_value(&mut out);
        self.encode_sequence(&mut out);
        self.encode_timestamp(&mut out);
        proof {
            reveal(wal_bytes);
            lemma_from_empty(wal_bytes_operation(self@));
        }
        out
    }

    fn encode_operation(&self, out: &mut Vec<u8>)
        ensures
            final(out)@ == old(out)@ + wal_bytes_operation(self@),
    {
        if self.operation != 0 {
            put_int32(1, self.operation, out);
        }
        assert(out@ =~= old(out)@ + wal_bytes_operation(self@));
    }

    fn encode_key(&self, out: &mut Vec<u8>)
        ensures
            final(out)@ == old(out)@ + wal_bytes_key(self@),
    {
        if self.key.len() != 0 {
            put_bytes(2, &self.key, out);
        }
        assert(out@ =~= old(out)@ + wal_bytes_key(self@));
    }

    fn encode_value(&self, out: &mut Vec<u8>)
        ensures
            final(out)@ == old(out)@ + wal_bytes_value(self@),
    {
        if let Some(m) = &self.value {
            let inner: Vec<u8> = m.encode_to_vec();
            put_bytes(3, &inner, out);
        }
        assert(out@ =~= old(out)@ + wal_bytes_value(self@));
    }

    fn encode_sequence(&self, out: &mut Vec<u8>)
        ensures
            final(out)@ == old(out)@ + wal_bytes_sequence(self@),
    {
        if self.sequence != 0 {
            put_uint64(4, self.sequence, out);
        }
        assert(out@ =~= old(out)@ + wal_bytes_sequence(self@));
    }

    fn encode_timestamp(&self, out: &mut Vec<u8>)
        ensures
            final(out)@ == old(out)@ + wal_bytes_timestamp(self@),
    {
        if self.timestamp != 0 {
            put_uint64(5, self.timestamp, out);
        }
        assert(out@ =~= old(out)@ + wal_bytes_timestamp(self@));
    }

    /// Decodes an entry; a failure is described by its text.
    pub fn decode(buf: &[u8]) -> (r: Result<WalEntry, String>)
        ensures
            match read_wal(blank_entry(), buf@) {
                Ok(e) => r matches Ok(x) && x@ == e,
                Err(p) => r matches Err(text) && text@ == failure(p),
            },
    {
        let mut entry = WalEntry {
            operation: 0,
            key: Vec::new(),
            value: None,
            sequence: 0,
            timestamp: 0,
        };
        let mut rest: &[u8] = buf;
        let ghost goal = read_wal(blank_entry(), buf@);
        assert(entry@.key =~= Seq::<u8>::empty());
        while rest.len() > 0
            invariant
                goal == read_wal(blank_entry(), buf@),
                goal == read_wal(entry@, rest@),
            decreases rest@.len(),
        {
            let ghost before = entry@;
            proof {
                crate::wire::lemma_varint_at_len(rest@, 0);
            }
            let (tag, wire, field) = match take_key(rest) {
                Ok(x) => x,
                Err(text) => return Err(text),
            };
            proof {
                lemma_wal_field_len(before, tag, wire, field@);
                reveal(wal_field);
            }
            if tag == 1 {
                match take_int32(wire, field) {
                    Ok((n, next)) => {
                        entry.operation = n;
                        rest = next;
                    },
                    Err(text) => return Err(located(text, "WalEntry.operation: ")),
                }
            } else if tag == 2 {
                match take_bytes(wire, field) {
                    Ok((b, next)) => {
                        entry.key = b;
                        rest = next;
                    },
                    Err(text) => return Err(located(text, "WalEntry.key: ")),
                }
            } else if tag == 3 {
                match take_bytes(wire, field) {
                    Ok((b, next)) => {
                        let held: Option<Kind> = match entry.value {
                            Some(m) => m.kind,
                            None => None,
                        };
                        let limit: usize = next.len();
                        let from: usize = field.len() - limit - b.len();
                        let inner: &[u8] = slice_subrange(field, from, field.len());
                        assert(inner@ =~= after(field@, from as nat));
                        match ValueMessage::merge(held, inner, limit, true) {
                            Ok(kind) => {
                                entry.value = Some(ValueMessage { kind });
                                rest = next;
                            },
                            Err(text) => return Err(text),
                        }
                    },
                    Err(text) => return Err(located(text, "WalEntry.value: ")),
                }
            } else if tag == 4 {
                match take_uint64(wire, field) {
                    Ok((n, next)) => {
                        entry.sequence = n;
                        rest = next;
                    },
                    Err(text) => return Err(located(text, "WalEntry.sequence: ")),
                }
            } else if tag == 5 {
                match take_uint64(wire, field) {
                    Ok((n, next)) => {
                        entry.timestamp = n;
                        rest = next;
                    },
                    Err(text) => return Err(located(text, "WalEntry.timestamp: ")),
                }
            } else {
                match skip_unknown(wire, tag, field) {
                    Ok(next) => {
                        rest = next;
                    },
                    Err(text) => return Err(text),
                }
            }
        }
        Ok(entry)
    }
}

/// The wording of a failure with its place named.
fn located(text: String, place: &str) -> (r: String)
    requires
        exists|p: Seq<char>| text@ == failure(p),
    ensures
        forall|p: Seq<char>| text@ == #[trigger] failure(p) ==> r@ == failure(place@ + p),
{
    let ghost t = text@;
    let r: String = locate(text, place);
    assert forall|p: Seq<char>| t == #[trigger] failure(p) implies r@ == failure(place@ + p) by {
        assert(failure(p).skip(HEADING@.len() as int) =~= p);
    }
    r
}

impl Value {
    /// The message that carries the value. This is the one place where a value becomes a
    /// message: the log and the tables both go through here.
    pub fn to_proto(&self) -> (r: ValueMessage)
        ensures
            r@ == Some(self@),
    {
        let kind = match self {
            Value::Integer(n) => Kind::Integer(*n),
            Value::Float(n) => Kind::Float(*n),
            Value::Text(s) => Kind::Text(s.clone()),
            Value::Boolean(b) => Kind::Boolean(*b),
            Value::Bytes(b) => Kind::Data(copy_bytes(b.as_slice())),
        };
        ValueMessage { kind: Some(kind) }
    }

    /// The value that a message carries. The inverse of [`Value::to_proto`].
    pub fn from_proto(msg: &ValueMessage) -> (r: Result<Value, AppError>)
        ensures
            match msg@ {
                Some(v) => r matches Ok(x) && x@ == v,
                None => r matches Err(e) && e@ == AppErrorModel::DecodeError(
                    "value message has no kind set"@,
                ),
            },
    {
        match &msg.kind {
            Some(Kind::Integer(n)) => Ok(Value::Integer(*n)),
            Some(Kind::Float(n)) => Ok(Value::Float(*n)),
            Some(Kind::Text(s)) => Ok(Value::Text(s.clone())),
            Some(Kind::Boolean(b)) => Ok(Value::Boolean(*b)),
            Some(Kind::Data(b)) => Ok(Value::Bytes(copy_bytes(b.as_slice()))),
            None => Err(decode_error("value message has no kind set")),
        }
    }
}

proof fn lemma_from_empty(s: Seq<u8>)
    ensures
        Seq::<u8>::empty() + s == s,
{
    assert(Seq::<u8>::empty() + s =~= s);
}

proof fn lemma_value_field_len(
    kind: Option<ValueModel>,
    tag: u32,
    wire: u8,
    b: Seq<u8>,
    nested: bool,
)
    ensures
        1 <= tag <= 5 ==> (value_field(kind, tag, wire, b, nested) matches Ok((k, n)) ==> n
            <= b.len()),
{
    reveal(value_field);
    crate::wire::lemma_varint_at_len(b, 0);
}

proof fn lemma_wal_field_len(e: WalEntryModel, tag: u32, wire: u8, b: Seq<u8>)
    ensures
        1 <= tag <= 5 ==> (wal_field(e, tag, wire, b) matches Ok((k, n)) ==> n <= b.len()),
{
    reveal(wal_field);
    crate::wire::lemma_varint_at_len(b, 0);
}

/// The tag, the wire type and the payload of the field that carries a value.
spec fn field_of(v: ValueModel) -> (u32, u8, Seq<u8>) {
    match v {
        ValueModel::Integer(n) => (1, WIRE_VARINT, varint(int32_bits(n))),
        ValueModel::Float(n) => (2, WIRE_SIXTY_FOUR_BIT, le64(n)),
        ValueModel::Text(s) => (
            3,
            WIRE_LENGTH_DELIMITED,
            varint(encode_utf8(s).len()) + encode_utf8(s),
        ),
        ValueModel::Boolean(x) => (4, WIRE_VARINT, varint(if x { 1nat } else { 0nat })),
        ValueModel::Bytes(s) => (5, WIRE_LENGTH_DELIMITED, varint(s.len()) + s),
    }
}

proof fn lemma_field_of(v: ValueModel)
    ensures
        value_bytes(v) == field_key(field_of(v).0, field_of(v).1) + field_of(v).2,
        1 <= field_of(v).0 <= 5,
        field_of(v).1 <= 2,
{
    let (tag, wire, payload) = field_of(v);
    assert(value_bytes(v) =~= field_key(tag, wire) + payload);
}

proof fn lemma_field_round_trip(
    kind: Option<ValueModel>,
    v: ValueModel,
    rest: Seq<u8>,
    nested: bool,
)
    requires
        value_bytes(v).len() <= u64::MAX,
    ensures
        value_field(kind, field_of(v).0, field_of(v).1, field_of(v).2 + rest, nested) == Ok::<
            (Option<ValueModel>, nat),
            Seq<char>,
        >((Some(v), field_of(v).2.len())),
{
    reveal(value_field);
    lemma_field_of(v);
    match v {
        ValueModel::Integer(i) => {
            lemma_int32_round_trip(i);
            lemma_varint_round_trip(int32_bits(i), rest);
        },
        ValueModel::Float(f) => {
            lemma_fixed64_round_trip(f, rest);
        },
        ValueModel::Text(s) => {
            lemma_bytes_field_round_trip(encode_utf8(s), rest);
            encode_utf8_valid_utf8(s);
            encode_utf8_decode_utf8(s);
        },
        ValueModel::Boolean(x) => {
            lemma_varint_round_trip(if x { 1nat } else { 0nat }, rest);
        },
        ValueModel::Bytes(s) => {
            lemma_bytes_field_round_trip(s, rest);
        },
    }
}

proof fn lemma_fields_step(
    kind: Option<ValueModel>,
    next: Option<ValueModel>,
    tag: u32,
    wire: u8,
    payload: Seq<u8>,
    rest: Seq<u8>,
    nested: bool,
)
    requires
        1 <= tag <= 5,
        wire <= 5,
        value_field(kind, tag, wire, payload + rest, nested) == Ok::<
            (Option<ValueModel>, nat),
            Seq<char>,
        >((next, payload.len())),
    ensures
        read_fields(kind, field_key(tag, wire) + payload + rest, rest.len(), nested) == Ok::<
            Option<ValueModel>,
            Seq<char>,
        >(next),
{
    let b = field_key(tag, wire) + payload + rest;
    let n = field_key(tag, wire).len();
    assert(b =~= field_key(tag, wire) + (payload + rest));
    lemma_field_key_round_trip(tag, wire, payload + rest);
    assert(b.skip(n as int) =~= payload + rest);
    assert(after(payload + rest, payload.len()) =~= rest);
    assert(read_fields(next, rest, rest.len(), nested) == Ok::<Option<ValueModel>, Seq<char>>(
        next,
    ));
}

/// Reading the fields of an encoded value gives the value back, whatever follows them.
proof fn lemma_fields_round_trip(
    kind: Option<ValueModel>,
    v: ValueModel,
    rest: Seq<u8>,
    nested: bool,
)
    requires
        value_bytes(v).len() <= u64::MAX,
    ensures
        read_fields(kind, value_bytes(v) + rest, rest.len(), nested) == Ok::<
            Option<ValueModel>,
            Seq<char>,
        >(Some(v)),
{
    let (tag, wire, payload) = field_of(v);
    lemma_field_of(v);
    lemma_field_round_trip(kind, v, rest, nested);
    lemma_fields_step(kind, Some(v), tag, wire, payload, rest, nested);
}

/// Decoding the encoding of a value gives the value back.
pub proof fn lemma_value_round_trip(kind: Option<ValueModel>, v: ValueModel)
    requires
        value_bytes(v).len() <= u64::MAX,
    ensures
        read_value(kind, value_bytes(v)) == Ok::<Option<ValueModel>, Seq<char>>(Some(v)),
{
    let none = Seq::<u8>::empty();
    lemma_fields_round_trip(kind, v, none, false);
    assert(value_bytes(v) + none =~= value_bytes(v));
}

/// Reading the fields of an encoded value message gives the message back, whatever follows them.
proof fn lemma_message_round_trip(m: Option<ValueModel>, rest: Seq<u8>)
    requires
        message_bytes(m).len() <= u64::MAX,
    ensures
        read_fields(None, message_bytes(m) + rest, rest.len(), true) == Ok::<
            Option<ValueModel>,
            Seq<char>,
        >(m),
{
    match m {
        Some(v) => {
            lemma_fields_round_trip(None, v, rest, true);
        },
        None => {
            assert(message_bytes(m) + rest =~= rest);
        },
    }
}

proof fn lemma_wal_field_step(
    e: WalEntryModel,
    next: WalEntryModel,
    tag: u32,
    wire: u8,
    payload: Seq<u8>,
    rest: Seq<u8>,
)
    requires
        1 <= tag <= 5,
        wire <= 5,
        wal_field(e, tag, wire, payload + rest) == Ok::<(WalEntryModel, nat), Seq<char>>(
            (next, payload.len()),
        ),
    ensures
        read_wal(e, field_key(tag, wire) + payload + rest) == read_wal(next, rest),
{
    let b = field_key(tag, wire) + payload + rest;
    let n = field_key(tag, wire).len();
    assert(b =~= field_key(tag, wire) + (payload + rest));
    lemma_field_key_round_trip(tag, wire, payload + rest);
    assert(b.skip(n as int) =~= payload + rest);
    assert(after(payload + rest, payload.len()) =~= rest);
}

proof fn lemma_wal_uint64_step(
    e: WalEntryModel,
    next: WalEntryModel,
    tag: u32,
    v: u64,
    rest: Seq<u8>,
)
    requires
        (tag == 4 && next == (WalEntryModel { sequence: v, ..e })) || (tag == 5 && next == (
        WalEntryModel { timestamp: v, ..e })),
    ensures
        read_wal(e, field_key(tag, WIRE_VARINT) + varint(v as nat) + rest) == read_wal(next, rest),
{
    lemma_varint_round_trip(v as nat, rest);
    reveal(wal_field);
    lemma_wal_field_step(e, next, tag, WIRE_VARINT, varint(v as nat), rest);
}

proof fn lemma_wal_nested_field(
    e: WalEntryModel,
    m: Option<ValueModel>,
    inner: Seq<u8>,
    rest: Seq<u8>,
)
    requires
        e.value is None,
        inner.len() <= u64::MAX,
        read_fields(None, inner + rest, rest.len(), true) == Ok::<Option<ValueModel>, Seq<char>>(m),
    ensures
        wal_field(e, 3, WIRE_LENGTH_DELIMITED, varint(inner.len()) + inner + rest) == Ok::<
            (WalEntryModel, nat),
            Seq<char>,
        >((WalEntryModel { value: Some(m), ..e }, varint(inner.len()).len() + inner.len())),
{
    reveal(wal_field);
    let b = varint(inner.len()) + inner + rest;
    let n = varint(inner.len()).len();
    lemma_bytes_field_round_trip(inner, rest);
    assert(after(b, n) =~= inner + rest);
    assert(b.len() - (n + inner.len()) == rest.len());
}

proof fn lemma_wal_value_step(e: WalEntryModel, m: Option<ValueModel>, rest: Seq<u8>)
    requires
        e.value is None,
        message_bytes(m).len() <= u64::MAX,
    ensures
        read_wal(
            e,
            field_key(3, WIRE_LENGTH_DELIMITED) + varint(message_bytes(m).len()) + message_bytes(m)
                + rest,
        ) == read_wal(WalEntryModel { value: Some(m), ..e }, rest),
{
    let inner = message_bytes(m);
    lemma_message_round_trip(m, rest);
    lemma_wal_nested_field(e, m, inner, rest);
    lemma_wal_nested_step(e, m, inner, rest);
}

proof fn lemma_wal_nested_step(
    e: WalEntryModel,
    m: Option<ValueModel>,
    inner: Seq<u8>,
    rest: Seq<u8>,
)
    requires
        wal_field(e, 3, WIRE_LENGTH_DELIMITED, varint(inner.len()) + inner + rest) == Ok::<
            (WalEntryModel, nat),
            Seq<char>,
        >((WalEntryModel { value: Some(m), ..e }, varint(inner.len()).len() + inner.len())),
    ensures
        read_wal(e, field_key(3, WIRE_LENGTH_DELIMITED) + varint(inner.len()) + inner + rest)
            == read_wal(WalEntryModel { value: Some(m), ..e }, rest),
{
    let payload = varint(inner.len()) + inner;
    lemma_wal_field_step(
        e,
        WalEntryModel { value: Some(m), ..e },
        3,
        WIRE_LENGTH_DELIMITED,
        payload,
        rest,
    );
    assert(field_key(3, WIRE_LENGTH_DELIMITED) + varint(inner.len()) + inner + rest
        =~= field_key(3, WIRE_LENGTH_DELIMITED) + payload + rest);
}

proof fn lemma_wal_key_step(e: WalEntryModel, key: Seq<u8>, rest: Seq<u8>)
    requires
        key.len() <= u64::MAX,
    ensures
        read_wal(e, field_key(2, WIRE_LENGTH_DELIMITED) + varint(key.len()) + key + rest)
            == read_wal(WalEntryModel { key, ..e }, rest),
{
    reveal(wal_field);
    let payload = varint(key.len()) + key;
    lemma_bytes_field_round_trip(key, rest);
    lemma_wal_field_step(
        e,
        WalEntryModel { key, ..e },
        2,
        WIRE_LENGTH_DELIMITED,
        payload,
        rest,
    );
    assert(field_key(2, WIRE_LENGTH_DELIMITED) + varint(key.len()) + key + rest
        =~= field_key(2, WIRE_LENGTH_DELIMITED) + payload + rest);
}

proof fn lemma_wal_operation_step(e: WalEntryModel, operation: i32, rest: Seq<u8>)
    ensures
        read_wal(e, field_key(1, WIRE_VARINT) + varint(int32_bits(operation)) + rest) == read_wal(
            WalEntryModel { operation, ..e },
            rest,
        ),
{
    reveal(wal_field);
    lemma_int32_round_trip(operation);
    lemma_varint_round_trip(int32_bits(operation), rest);
    lemma_wal_field_step(
        e,
        WalEntryModel { operation, ..e },
        1,
        WIRE_VARINT,
        varint(int32_bits(operation)),
        rest,
    );
}

/// Decoding the encoding of a log entry gives the entry back.
pub proof fn lemma_wal_entry_round_trip(e: WalEntryModel)
    requires
        wal_bytes(e).len() <= u64::MAX,
    ensures
        read_wal(blank_entry(), wal_bytes(e)) == Ok::<WalEntryModel, Seq<char>>(e),
{
    reveal(wal_bytes);
    let none = Seq::<u8>::empty();
    let p5 = wal_bytes_timestamp(e) + none;
    let p4 = wal_bytes_sequence(e) + p5;
    let p3 = wal_bytes_value(e) + p4;
    let p2 = wal_bytes_key(e) + p3;
    let p1 = wal_bytes_operation(e) + p2;
    assert(wal_bytes(e) =~= p1);
    let e0 = blank_entry();
    let e1 = WalEntryModel { operation: e.operation, ..e0 };
    let e2 = WalEntryModel { key: e.key, ..e1 };
    let e3 = WalEntryModel { value: e.value, ..e2 };
    let e4 = WalEntryModel { sequence: e.sequence, ..e3 };
    let e5 = WalEntryModel { timestamp: e.timestamp, ..e4 };
    assert(read_wal(e0, p1) == read_wal(e1, p2)) by {
        if e.operation != 0 {
            lemma_wal_operation_step(e0, e.operation, p2);
        } else {
            assert(p1 =~= p2);
        }
    }
    assert(read_wal(e1, p2) == read_wal(e2, p3)) by {
        if e.key.len() != 0 {
            lemma_wal_key_step(e1, e.key, p3);
        } else {
            assert(p2 =~= p3);
            assert(e.key =~= e1.key);
        }
    }
    assert(read_wal(e2, p3) == read_wal(e3, p4)) by {
        match e.value {
            Some(m) => {
                lemma_wal_value_step(e2, m, p4);
            },
            None => {
                assert(p3 =~= p4);
            },
        }
    }
    assert(read_wal(e3, p4) == read_wal(e4, p5)) by {
        if e.sequence != 0 {
            lemma_wal_uint64_step(e3, e4, 4, e.sequence, p5);
        } else {
            assert(p4 =~= p5);
        }
    }
    assert(read_wal(e4, p5) == read_wal(e5, none)) by {
        if e.timestamp != 0 {
            lemma_wal_uint64_step(e4, e5, 5, e.timestamp, none);
        } else {
            assert(p5 =~= none);
        }
    }
    assert(e5 == e);
}

/// What a message and an entry stand for is what they hold, whole.
pub proof fn law_messages_stand_for_what_they_hold(
    n: i32,
    f: u64,
    s: String,
    b: bool,
    bytes: Vec<u8>,
    k: Kind,
    e: WalEntry,
)
    ensures
        Kind::Integer(n)@ == ValueModel::Integer(n),
        Kind::Float(f)@ == ValueModel::Float(f),
        Kind::Text(s)@ == ValueModel::Text(s@),
        Kind::Boolean(b)@ == ValueModel::Boolean(b),
        Kind::Data(bytes)@ == ValueModel::Bytes(bytes@),
        (ValueMessage { kind: Some(k) })@ == Some(k@),
        (ValueMessage { kind: None })@ == None::<ValueModel>,
        e@.operation == e.operation,
        e@.key == e.key@,
        e@.value == (match e.value {
            Some(m) => Some(m@),
            None => None,
        }),
        e@.sequence == e.sequence,
        e@.timestamp == e.timestamp,
{
}

/// Decoding the encoding of a value gives the value back, whatever its kind and however large.
/// Of several values in one message the last one counts.
pub proof fn law_encoded_value_is_decoded(kind: Option<ValueModel>, v: ValueModel)
    requires
        value_bytes(v).len() <= u64::MAX,
    ensures
        read_value(kind, value_bytes(v)) == Ok::<Option<ValueModel>, Seq<char>>(Some(v)),
        read_value(kind, Seq::empty()) == Ok::<Option<ValueModel>, Seq<char>>(kind),
{
    lemma_value_round_trip(kind, v);
}

proof fn lemma_unknown_field(
    kind: Option<ValueModel>,
    e: WalEntryModel,
    tag: u32,
    wire: u8,
    payload: Seq<u8>,
    rest: Seq<u8>,
)
    requires
        6 <= tag < 0x2000_0000,
        wire == WIRE_VARINT || wire == WIRE_LENGTH_DELIMITED,
        skipped_field(wire, tag, payload + rest, false) == Ok::<nat, Seq<char>>(payload.len()),
    ensures
        read_value(kind, field_key(tag, wire) + payload + rest) == read_value(kind, rest),
        read_wal(e, field_key(tag, wire) + payload + rest) == read_wal(e, rest),
{
    let b = field_key(tag, wire) + payload + rest;
    let n = field_key(tag, wire).len();
    assert(b =~= field_key(tag, wire) + (payload + rest));
    lemma_field_key_round_trip(tag, wire, payload + rest);
    assert(b.skip(n as int) =~= payload + rest);
    assert(after(payload + rest, payload.len()) =~= rest);
    assert(value_field(kind, tag, wire, payload + rest, false) == Ok::<
        (Option<ValueModel>, nat),
        Seq<char>,
    >((kind, payload.len()))) by {
        reveal(value_field);
    }
    assert(wal_field(e, tag, wire, payload + rest) == Ok::<(WalEntryModel, nat), Seq<char>>(
        (e, payload.len()),
    )) by {
        reveal(wal_field);
    }
}

/// A field of a tag that is not known changes nothing: what follows it is read as if it were not
/// there.
pub proof fn law_unknown_field_changes_nothing(
    kind: Option<ValueModel>,
    e: WalEntryModel,
    tag: u32,
    n: nat,
    s: Seq<u8>,
    rest: Seq<u8>,
)
    requires
        6 <= tag < 0x2000_0000,
        n <= u64::MAX,
        s.len() <= u64::MAX,
    ensures
        read_value(kind, field_key(tag, WIRE_VARINT) + varint(n) + rest) == read_value(kind, rest),
        read_value(kind, field_key(tag, WIRE_LENGTH_DELIMITED) + (varint(s.len()) + s) + rest)
            == read_value(kind, rest),
        read_wal(e, field_key(tag, WIRE_VARINT) + varint(n) + rest) == read_wal(e, rest),
        read_wal(e, field_key(tag, WIRE_LENGTH_DELIMITED) + (varint(s.len()) + s) + rest)
            == read_wal(e, rest),
{
    lemma_varint_round_trip(n, rest);
    lemma_unknown_field(kind, e, tag, WIRE_VARINT, varint(n), rest);
    let payload = varint(s.len()) + s;
    assert(payload + rest =~= varint(s.len()) + (s + rest));
    lemma_varint_round_trip(s.len(), s + rest);
    lemma_unknown_field(kind, e, tag, WIRE_LENGTH_DELIMITED, payload, rest);
}

/// A message may hold several values: each takes the place of the one before.
pub proof fn law_later_value_takes_the_place(
    kind: Option<ValueModel>,
    v: ValueModel,
    rest: Seq<u8>,
)
    requires
        value_bytes(v).len() <= u64::MAX,
    ensures
        read_value(kind, value_bytes(v) + rest) == read_value(Some(v), rest),
{
    let (tag, wire, payload) = field_of(v);
    lemma_field_of(v);
    lemma_field_round_trip(kind, v, rest, false);
    let b = value_bytes(v) + rest;
    let n = field_key(tag, wire).len();
    assert(b =~= field_key(tag, wire) + (payload + rest));
    lemma_field_key_round_trip(tag, wire, payload + rest);
    assert(b.skip(n as int) =~= payload + rest);
    assert(after(payload + rest, payload.len()) =~= rest);
}

/// The fields of a log entry are read one after the other, each setting what it stands for and
/// nothing else. A value takes the place of one that was read before.
pub proof fn law_entry_fields_are_read_in_turn(
    e: WalEntryModel,
    operation: i32,
    key: Seq<u8>,
    v: ValueModel,
    n: u64,
    rest: Seq<u8>,
)
    requires
        key.len() <= u64::MAX,
        value_bytes(v).len() <= u64::MAX,
    ensures
        read_wal(e, Seq::empty()) == Ok::<WalEntryModel, Seq<char>>(e),
        read_wal(e, field_key(1, WIRE_VARINT) + varint(int32_bits(operation)) + rest) == read_wal(
            WalEntryModel { operation, ..e },
            rest,
        ),
        read_wal(e, field_key(2, WIRE_LENGTH_DELIMITED) + varint(key.len()) + key + rest)
            == read_wal(WalEntryModel { key, ..e }, rest),
        read_wal(
            e,
            field_key(3, WIRE_LENGTH_DELIMITED) + varint(value_bytes(v).len()) + value_bytes(v)
                + rest,
        ) == read_wal(WalEntryModel { value: Some(Some(v)), ..e }, rest),
        read_wal(e, field_key(4, WIRE_VARINT) + varint(n as nat) + rest) == read_wal(
            WalEntryModel { sequence: n, ..e },
            rest,
        ),
        read_wal(e, field_key(5, WIRE_VARINT) + varint(n as nat) + rest) == read_wal(
            WalEntryModel { timestamp: n, ..e },
            rest,
        ),
{
    lemma_wal_operation_step(e, operation, rest);
    lemma_wal_key_step(e, key, rest);
    lemma_wal_uint64_step(e, WalEntryModel { sequence: n, ..e }, 4, n, rest);
    lemma_wal_uint64_step(e, WalEntryModel { timestamp: n, ..e }, 5, n, rest);
    let before = match e.value {
        Some(m) => m,
        None => None,
    };
    let inner = value_bytes(v);
    lemma_fields_round_trip(before, v, rest, true);
    assert(wal_field(e, 3, WIRE_LENGTH_DELIMITED, varint(inner.len()) + inner + rest) == Ok::<
        (WalEntryModel, nat),
        Seq<char>,
    >((WalEntryModel { value: Some(Some(v)), ..e }, varint(inner.len()).len() + inner.len()))) by {
        reveal(wal_field);
        let b = varint(inner.len()) + inner + rest;
        let k = varint(inner.len()).len();
        lemma_bytes_field_round_trip(inner, rest);
        assert(after(b, k) =~= inner + rest);
        assert(b.len() - (k + inner.len()) == rest.len());
    }
    lemma_wal_nested_step(e, Some(v), inner, rest);
}

/// A field that is known but has the wrong wire type is an error, which names the field and both
/// wire types.
pub proof fn law_wrong_wire_type_is_reported(
    kind: Option<ValueModel>,
    e: WalEntryModel,
    tag: u32,
    wire: u8,
    rest: Seq<u8>,
)
    requires
        1 <= tag <= 5,
        wire <= 5,
    ensures
        ({
            let due: u8 = if tag == 2 {
                1
            } else if tag == 3 || tag == 5 {
                2
            } else {
                0
            };
            wire != due ==> read_value(kind, field_key(tag, wire) + rest) == Err::<
                Option<ValueModel>,
                Seq<char>,
            >(
                "failed to decode Protobuf message: "@ + ("ValueMessage.kind: "@ + (
                "invalid wire type: "@ + wire_name(wire) + " (expected "@ + wire_name(due) + ")"@)),
            )
        }),
        ({
            let due: u8 = if tag == 2 || tag == 3 {
                2
            } else {
                0
            };
            let name = if tag == 1 {
                "WalEntry.operation: "@
            } else if tag == 2 {
                "WalEntry.key: "@
            } else if tag == 3 {
                "WalEntry.value: "@
            } else if tag == 4 {
                "WalEntry.sequence: "@
            } else {
                "WalEntry.timestamp: "@
            };
            wire != due ==> read_wal(e, field_key(tag, wire) + rest) == Err::<
                WalEntryModel,
                Seq<char>,
            >(
                name + ("invalid wire type: "@ + wire_name(wire) + " (expected "@ + wire_name(due)
                    + ")"@),
            )
        }),
{
    let b = field_key(tag, wire) + rest;
    lemma_field_key_round_trip(tag, wire, rest);
    assert(b.skip(field_key(tag, wire).len() as int) =~= rest);
    reveal(value_field);
    reveal(wal_field);
}

} // verus!
