//! Byte strings: the lexicographic order on keys, and big-endian integers.

use vstd::prelude::*;

verus! {

/// Whether `a` comes strictly before `b` in lexicographic byte order.
pub open spec fn key_lt(a: Seq<u8>, b: Seq<u8>) -> bool
    decreases a.len(),
{
    if b.len() == 0 {
        false
    } else if a.len() == 0 {
        true
    } else if a[0] != b[0] {
        a[0] < b[0]
    } else {
        key_lt(a.skip(1), b.skip(1))
    }
}

/// Whether `a` comes before `b` or equals it.
pub open spec fn key_le(a: Seq<u8>, b: Seq<u8>) -> bool {
    a == b || key_lt(a, b)
}

/// How one key stands to another in lexicographic byte order.
#[derive(Clone, Copy, Debug, PartialEq, Eq, Structural)]
pub enum Relation {
    Before,
    Same,
    After,
}

/// The relation of `a` to `b`.
pub open spec fn relation(a: Seq<u8>, b: Seq<u8>) -> Relation {
    if a == b {
        Relation::Same
    } else if key_lt(a, b) {
        Relation::Before
    } else {
        Relation::After
    }
}

/// No key comes before itself.
pub proof fn lemma_key_lt_irreflexive(a: Seq<u8>)
    ensures
        !key_lt(a, a),
    decreases a.len(),
{
    if a.len() > 0 {
        lemma_key_lt_irreflexive(a.skip(1));
    }
}

/// The order is transitive.
pub proof fn lemma_key_lt_transitive(a: Seq<u8>, b: Seq<u8>, c: Seq<u8>)
    requires
        key_lt(a, b),
        key_lt(b, c),
    ensures
        key_lt(a, c),
    decreases a.len(),
{
    if a.len() > 0 && a[0] == b[0] && b[0] == c[0] {
        lemma_key_lt_transitive(a.skip(1), b.skip(1), c.skip(1));
    }
}

/// Of two different keys one comes before the other.
pub proof fn lemma_key_lt_total(a: Seq<u8>, b: Seq<u8>)
    ensures
        a == b || key_lt(a, b) || key_lt(b, a),
    decreases a.len(),
{
    if a.len() > 0 && b.len() > 0 && a[0] == b[0] {
        lemma_key_lt_total(a.skip(1), b.skip(1));
        if a.skip(1) == b.skip(1) {
            assert(a =~= seq![a[0]] + a.skip(1));
            assert(b =~= seq![b[0]] + b.skip(1));
        }
    } else if a.len() == 0 && b.len() == 0 {
        assert(a =~= b);
    }
}

/// The order is asymmetric.
pub proof fn lemma_key_lt_asymmetric(a: Seq<u8>, b: Seq<u8>)
    requires
        key_lt(a, b),
    ensures
        !key_lt(b, a),
        a != b,
{
    if key_lt(b, a) {
        lemma_key_lt_transitive(a, b, a);
    }
    lemma_key_lt_irreflexive(a);
}

/// `key_le` followed by `key_lt` is `key_lt`, in either order.
pub proof fn lemma_key_le_lt(a: Seq<u8>, b: Seq<u8>, c: Seq<u8>)
    ensures
        key_le(a, b) && key_lt(b, c) ==> key_lt(a, c),
        key_lt(a, b) && key_le(b, c) ==> key_lt(a, c),
        key_le(a, b) && key_le(b, c) ==> key_le(a, c),
        key_lt(a, b) <==> !key_le(b, a),
{
    if key_lt(a, b) && key_lt(b, c) {
        lemma_key_lt_transitive(a, b, c);
    }
    lemma_key_lt_total(a, b);
    lemma_key_lt_irreflexive(a);
    if key_lt(a, b) {
        lemma_key_lt_asymmetric(a, b);
    }
}

/// Equal first bytes do not affect the order.
proof fn lemma_key_lt_skip(a: Seq<u8>, b: Seq<u8>, n: int)
    requires
        0 <= n <= a.len(),
        n <= b.len(),
        a.take(n) == b.take(n),
    ensures
        key_lt(a, b) == key_lt(a.skip(n), b.skip(n)),
        (a == b) == (a.skip(n) == b.skip(n)),
    decreases n,
{
    if n == 0 {
        assert(a.skip(0) =~= a);
        assert(b.skip(0) =~= b);
    } else {
        assert(a[0] == a.take(n)[0]);
        assert(b[0] == b.take(n)[0]);
        assert(a.skip(1).take(n - 1) =~= a.take(n).skip(1));
        assert(b.skip(1).take(n - 1) =~= b.take(n).skip(1));
        lemma_key_lt_skip(a.skip(1), b.skip(1), n - 1);
        assert(a.skip(1).skip(n - 1) =~= a.skip(n));
        assert(b.skip(1).skip(n - 1) =~= b.skip(n));
        if a.skip(n) == b.skip(n) {
            assert(a =~= a.take(n) + a.skip(n));
            assert(b =~= b.take(n) + b.skip(n));
        }
    }
}

/// Finds how `a` stands to `b`.
pub fn relate(a: &[u8], b: &[u8]) -> (r: Relation)
    ensures
        r == relation(a@, b@),
{
    let mut i: usize = 0;
    while i < a.len() && i < b.len() && a[i] == b[i]
        invariant
            i <= a@.len(),
            i <= b@.len(),
            a@.take(i as int) == b@.take(i as int),
        decreases a@.len() - i,
    {
        proof {
            assert(a@.take(i + 1) =~= a@.take(i as int).push(a@[i as int]));
            assert(b@.take(i + 1) =~= b@.take(i as int).push(b@[i as int]));
        }
        i = i + 1;
    }
    proof {
        lemma_key_lt_skip(a@, b@, i as int);
        if i < a@.len() && i < b@.len() {
            assert(a@.skip(i as int)[0] == a@[i as int]);
            assert(b@.skip(i as int)[0] == b@[i as int]);
        }
        if i == a@.len() && i == b@.len() {
            assert(a@.skip(i as int) =~= b@.skip(i as int));
        }
    }
    if i < a.len() {
        if i < b.len() {
            if a[i] < b[i] {
                Relation::Before
            } else {
                Relation::After
            }
        } else {
            Relation::After
        }
    } else if i < b.len() {
        Relation::Before
    } else {
        Relation::Same
    }
}

/// Whether `a` comes strictly before `b`.
pub fn key_before(a: &[u8], b: &[u8]) -> (r: bool)
    ensures
        r == key_lt(a@, b@),
{
    proof {
        lemma_key_lt_irreflexive(a@);
    }
    match relate(a, b) {
        Relation::Before => true,
        _ => false,
    }
}

/// What is left of `b` after its first `n` bytes; nothing if it has no more than that.
pub open spec fn after(b: Seq<u8>, n: nat) -> Seq<u8> {
    if n <= b.len() {
        b.skip(n as int)
    } else {
        Seq::empty()
    }
}

/// Copies a byte string.
pub fn copy_bytes(a: &[u8]) -> (r: Vec<u8>)
    ensures
        r@ == a@,
{
    let mut out: Vec<u8> = Vec::new();
    out.extend_from_slice(a);
    assert(out@ =~= a@);
    out
}

/// The four bytes of `v`, most significant first.
#[verifier::opaque]
pub open spec fn be32(v: u32) -> Seq<u8> {
    seq![
        (v / 0x100_0000) as u8,
        ((v / 0x1_0000) % 0x100) as u8,
        ((v / 0x100) % 0x100) as u8,
        (v % 0x100) as u8,
    ]
}

/// The number that the first four bytes of `s` write, most significant first.
#[verifier::opaque]
pub open spec fn be32_value(s: Seq<u8>) -> int {
    s[0] * 0x100_0000 + s[1] * 0x1_0000 + s[2] * 0x100 + s[3]
}

/// The eight bytes of `v`, most significant first.
#[verifier::opaque]
pub open spec fn be64(v: u64) -> Seq<u8> {
    be32((v / 0x1_0000_0000) as u32) + be32((v % 0x1_0000_0000) as u32)
}

/// The number that the first eight bytes of `s` write, most significant first.
#[verifier::opaque]
pub open spec fn be64_value(s: Seq<u8>) -> int {
    be32_value(s) * 0x1_0000_0000 + be32_value(s.skip(4))
}

/// A 32-bit number is written in four bytes.
pub broadcast proof fn lemma_be32_len(v: u32)
    ensures
        #[trigger] be32(v).len() == 4,
{
    reveal(be32);
}

/// A 64-bit number is written in eight bytes.
pub broadcast proof fn lemma_be64_len(v: u64)
    ensures
        #[trigger] be64(v).len() == 8,
{
    reveal(be64);
    reveal(be32);
}

/// Four bytes write a number of 32 bits.
pub broadcast proof fn lemma_be32_value_range(s: Seq<u8>)
    ensures
        0 <= #[trigger] be32_value(s) <= u32::MAX,
{
    reveal(be32_value);
}

/// Eight bytes write a number of 64 bits.
pub broadcast proof fn lemma_be64_value_range(s: Seq<u8>)
    ensures
        0 <= #[trigger] be64_value(s) <= u64::MAX,
{
    reveal(be64_value);
    reveal(be32_value);
}

/// The lengths and ranges of numbers in bytes.
pub broadcast group group_be {
    lemma_be32_len,
    lemma_be64_len,
    lemma_be32_value_range,
    lemma_be64_value_range,
}

/// Reading the bytes of a 32-bit number gives the number back, whatever follows them.
pub proof fn lemma_be32_round_trip(v: u32, rest: Seq<u8>)
    ensures
        be32(v).len() == 4,
        be32_value(be32(v) + rest) == v,
{
    reveal(be32);
    reveal(be32_value);
}

/// Reading the bytes of a 64-bit number gives the number back, whatever follows them.
pub proof fn lemma_be64_round_trip(v: u64, rest: Seq<u8>)
    ensures
        be64(v).len() == 8,
        be64_value(be64(v) + rest) == v,
{
    reveal(be64);
    reveal(be64_value);
    let hi = (v / 0x1_0000_0000) as u32;
    let lo = (v % 0x1_0000_0000) as u32;
    lemma_be32_len(hi);
    lemma_be32_len(lo);
    assert(be64(v) + rest =~= be32(hi) + (be32(lo) + rest));
    lemma_be32_round_trip(hi, be32(lo) + rest);
    lemma_be32_round_trip(lo, rest);
    assert((be64(v) + rest).skip(4) =~= be32(lo) + rest);
}

/// Appends the four bytes of `v`, most significant first.
pub fn write_u32(out: &mut Vec<u8>, v: u32)
    ensures
        final(out)@ == old(out)@ + be32(v),
{
    out.push((v / 0x100_0000) as u8);
    out.push(((v / 0x1_0000) % 0x100) as u8);
    out.push(((v / 0x100) % 0x100) as u8);
    out.push((v % 0x100) as u8);
    proof {
        reveal(be32);
    }
    assert(out@ =~= old(out)@ + be32(v));
}

/// Appends the eight bytes of `v`, most significant first.
pub fn write_u64(out: &mut Vec<u8>, v: u64)
    ensures
        final(out)@ == old(out)@ + be64(v),
{
    write_u32(out, (v / 0x1_0000_0000) as u32);
    write_u32(out, (v % 0x1_0000_0000) as u32);
    proof {
        reveal(be64);
    }
    assert(out@ =~= old(out)@ + be64(v));
}

/// The 32-bit number in the four bytes of `buf` at `at`.
pub fn be32_at(buf: &[u8], at: usize) -> (v: u32)
    requires
        at + 4 <= buf@.len(),
    ensures
        v == be32_value(buf@.skip(at as int)),
{
    let a: u32 = buf[at] as u32;
    let b: u32 = buf[at + 1] as u32;
    let c: u32 = buf[at + 2] as u32;
    let d: u32 = buf[at + 3] as u32;
    proof {
        reveal(be32_value);
    }
    a * 0x100_0000 + b * 0x1_0000 + c * 0x100 + d
}

/// The 64-bit number in the eight bytes of `buf` at `at`.
pub fn be64_at(buf: &[u8], at: usize) -> (v: u64)
    requires
        at + 8 <= buf@.len(),
    ensures
        v == be64_value(buf@.skip(at as int)),
{
    let hi: u64 = be32_at(buf, at) as u64;
    assert(at + 8 <= buf.len());
    let lo: u64 = be32_at(buf, at + 4) as u64;
    assert(buf@.skip(at as int).skip(4) =~= buf@.skip(at + 4));
    proof {
        reveal(be64_value);
    }
    hi * 0x1_0000_0000 + lo
}

/// One key comes before another if they agree up to some place, and there the one ends and the
/// other goes on, or the one has the smaller byte. Of two different keys one comes before the
/// other, and never both.
pub proof fn law_keys_are_ordered_byte_by_byte(a: Seq<u8>, b: Seq<u8>)
    ensures
        key_lt(a, b) <==> exists|i: int|
            0 <= i <= a.len() && i < b.len() && #[trigger] a.take(i) == b.take(i) && (i == a.len()
                || a[i] < b[i]),
        key_le(a, b) <==> a == b || key_lt(a, b),
        a != b ==> (key_lt(a, b) <==> !key_lt(b, a)),
        !key_lt(a, a),
    decreases a.len(),
{
    lemma_key_lt_irreflexive(a);
    if a != b {
        lemma_key_lt_total(a, b);
        if key_lt(a, b) {
            lemma_key_lt_asymmetric(a, b);
        }
    }
    if a.len() > 0 && b.len() > 0 && a[0] == b[0] {
        let x = a.skip(1);
        let y = b.skip(1);
        law_keys_are_ordered_byte_by_byte(x, y);
        if key_lt(x, y) {
            let i = choose|i: int|
                0 <= i <= x.len() && i < y.len() && #[trigger] x.take(i) == y.take(i) && (i
                    == x.len() || x[i] < y[i]);
            assert(a.take(i + 1) =~= seq![a[0]] + x.take(i));
            assert(b.take(i + 1) =~= seq![b[0]] + y.take(i));
            assert(i + 1 == a.len() || a[i + 1] < b[i + 1]);
        }
        if exists|i: int|
            0 <= i <= a.len() && i < b.len() && #[trigger] a.take(i) == b.take(i) && (i == a.len()
                || a[i] < b[i]) {
            let i = choose|i: int|
                0 <= i <= a.len() && i < b.len() && #[trigger] a.take(i) == b.take(i) && (i
                    == a.len() || a[i] < b[i]);
            assert(i > 0);
            assert(x.take(i - 1) =~= a.take(i).skip(1));
            assert(y.take(i - 1) =~= b.take(i).skip(1));
            assert(i - 1 == x.len() || x[i - 1] < y[i - 1]);
        }
    } else if b.len() > 0 {
        if key_lt(a, b) {
            assert(a.take(0) =~= b.take(0));
        } else if exists|i: int|
            0 <= i <= a.len() && i < b.len() && #[trigger] a.take(i) == b.take(i) && (i == a.len()
                || a[i] < b[i]) {
            let i = choose|i: int|
                0 <= i <= a.len() && i < b.len() && #[trigger] a.take(i) == b.take(i) && (i
                    == a.len() || a[i] < b[i]);
            if i > 0 {
                assert(a.take(i)[0] == b.take(i)[0]);
            }
        }
    }
}

/// The bytes of a number are its digits to the base 256, most significant first; those of a number
/// of 64 bits are those of its halves.
pub proof fn law_numbers_are_written_big_endian(v: u32, w: u64)
    ensures
        be32(v).len() == 4,
        v == be32(v)[0] * 0x100_0000 + be32(v)[1] * 0x1_0000 + be32(v)[2] * 0x100 + be32(v)[3],
        be64(w) == be32((w / 0x1_0000_0000) as u32) + be32((w % 0x1_0000_0000) as u32),
{
    reveal(be32);
    reveal(be64);
}

} // verus!
