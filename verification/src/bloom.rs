//! The membership filter of a table: a bit array probed at `k` positions per key.

use vstd::prelude::*;

verus! {

/// Bits set aside per key.
pub const BITS_PER_KEY: usize = 10;

/// Fewest bits a filter has.
pub const MIN_BITS: usize = 64;

/// Number of positions probed per key.
pub const PROBES: u32 = 7;

/// The FNV-1a hash of `bytes`, 64 bits wide.
pub open spec fn hash64_of(bytes: Seq<u8>) -> u64
    decreases bytes.len(),
{
    if bytes.len() == 0 {
        0xcbf2_9ce4_8422_2325
    } else {
        (hash64_of(bytes.drop_last()) ^ (bytes.last() as u64)).wrapping_mul(0x0000_0100_0000_01b3)
    }
}

/// The `i`-th bit position of `key` in a filter of `m` bits: the two halves of the hash,
/// combined as `h1 + i * h2`.
pub open spec fn bit_position(key: Seq<u8>, i: nat, m: nat) -> nat {
    let h = hash64_of(key);
    let h1 = h & 0xFFFF_FFFF;
    let h2 = (h >> 32) | 1;
    (h1.wrapping_add((i as u64).wrapping_mul(h2)) as nat) % m
}

/// Whether bit `p` of `bits` is set.
pub open spec fn has_bit(bits: Seq<u8>, p: nat) -> bool {
    bits[p as int / 8] & (1u8 << ((p % 8) as u8)) != 0
}

/// `bits` with bit `p` set.
pub open spec fn set_bit(bits: Seq<u8>, p: nat) -> Seq<u8> {
    bits.update(p as int / 8, bits[p as int / 8] | (1u8 << ((p % 8) as u8)))
}

/// `bits` with the first `n` positions of `key` set.
pub open spec fn set_positions(bits: Seq<u8>, key: Seq<u8>, n: nat) -> Seq<u8>
    decreases n,
{
    if n == 0 {
        bits
    } else {
        set_bit(
            set_positions(bits, key, (n - 1) as nat),
            bit_position(key, (n - 1) as nat, bits.len() * 8),
        )
    }
}

/// Whether the first `k` positions of `key` are all set in `bits`.
pub open spec fn has_positions(bits: Seq<u8>, key: Seq<u8>, k: nat) -> bool {
    forall|i: nat| i < k ==> has_bit(bits, #[trigger] bit_position(key, i, bits.len() * 8))
}

/// How many bytes a filter for `num_keys` keys has: ten bits for each key, sixty-four bits
/// at the least, rounded up to whole bytes.
pub open spec fn filter_bytes(num_keys: nat) -> nat {
    let m = if num_keys > usize::MAX / BITS_PER_KEY {
        (usize::MAX / BITS_PER_KEY) * BITS_PER_KEY
    } else {
        num_keys * BITS_PER_KEY
    };
    let m = if m < MIN_BITS { MIN_BITS as int } else { m };
    ((m + 7) / 8) as nat
}

/// The bits of the filter for `keys`.
pub open spec fn filter_bits(keys: Seq<Seq<u8>>, bytes: nat) -> Seq<u8>
    decreases keys.len(),
{
    if keys.len() == 0 {
        Seq::new(bytes, |i: int| 0u8)
    } else {
        set_positions(filter_bits(keys.drop_last(), bytes), keys.last(), PROBES as nat)
    }
}

/// Computes the FNV-1a hash of `bytes`.
pub fn hash64(bytes: &[u8]) -> (r: u64)
    ensures
        r == hash64_of(bytes@),
{
    let mut h: u64 = 0xcbf2_9ce4_8422_2325;
    let mut i: usize = 0;
    while i < bytes.len()
        invariant
            i <= bytes@.len(),
            h == hash64_of(bytes@.take(i as int)),
        decreases bytes@.len() - i,
    {
        h = (h ^ (bytes[i] as u64)).wrapping_mul(0x0000_0100_0000_01b3);
        assert(bytes@.take(i + 1).drop_last() =~= bytes@.take(i as int));
        i = i + 1;
    }
    assert(bytes@.take(i as int) =~= bytes@);
    h
}

/// A bloom filter. A negative answer is definitive; a positive one may be wrong.
#[derive(Debug)]
pub struct BloomFilter {
    pub bits: Vec<u8>,
    pub k: u32,
}

impl BloomFilter {
    /// Whether the filter can be probed: it has bits, or probes none.
    pub open spec fn can_probe(&self) -> bool {
        self.k == 0 || self.bits@.len() > 0
    }

    /// An empty filter sized for `num_keys` keys.
    pub fn new(num_keys: usize) -> (r: BloomFilter)
        ensures
            r.k == PROBES,
            r.bits@ == filter_bits(Seq::empty(), filter_bytes(num_keys as nat)),
            r.bits@.len() > 0,
    {
        let limit: usize = usize::MAX / BITS_PER_KEY;
        let counted: usize = if num_keys > limit { limit } else { num_keys };
        let mut m_bits: usize = counted * BITS_PER_KEY;
        if m_bits < MIN_BITS {
            m_bits = MIN_BITS;
        }
        let mut bytes: usize = m_bits / 8;
        if m_bits % 8 != 0 {
            bytes = bytes + 1;
        }
        let bits: Vec<u8> = vec![0u8; bytes];
        assert(bits@ =~= filter_bits(Seq::empty(), filter_bytes(num_keys as nat)));
        BloomFilter { bits, k: PROBES }
    }

    /// The `i`-th bit position of a key whose hash is `h`.
    fn position(&self, h: u64, i: u32, Ghost(key): Ghost<Seq<u8>>) -> (p: u64)
        requires
            self.bits@.len() > 0,
            h == hash64_of(key),
        ensures
            p == bit_position(key, i as nat, self.bits@.len() * 8),
            p < self.bits@.len() * 8,
    {
        let h1: u64 = h & 0xFFFF_FFFF;
        let h2: u64 = (h >> 32) | 1;
        let m: u128 = self.bits.len() as u128 * 8;
        let x: u64 = h1.wrapping_add((i as u64).wrapping_mul(h2));
        let p: u128 = (x as u128) % m;
        assert(p <= x) by (nonlinear_arith)
            requires
                p == (x as u128) % m,
                m > 0,
        ;
        p as u64
    }

    /// Sets every position of `key`.
    pub fn add(&mut self, key: &[u8])
        requires
            old(self).can_probe(),
        ensures
            final(self).bits@ == set_positions(old(self).bits@, key@, old(self).k as nat),
            final(self).bits@.len() == old(self).bits@.len(),
            final(self).k == old(self).k,
    {
        let h: u64 = hash64(key);
        let mut i: u32 = 0;
        while i < self.k
            invariant
                i <= self.k,
                self.k == old(self).k,
                self.can_probe(),
                h == hash64_of(key@),
                self.bits@.len() == old(self).bits@.len(),
                self.bits@ == set_positions(old(self).bits@, key@, i as nat),
            decreases self.k - i,
        {
            let p: u64 = self.position(h, i, Ghost(key@));
            assert(p / 8 < self.bits.len());
            let at: usize = (p / 8) as usize;
            let byte: u8 = self.bits[at] | (1u8 << ((p % 8) as u8));
            self.bits.set(at, byte);
            i = i + 1;
        }
    }

    /// Whether `key` may have been added: every position of it is set.
    pub fn maybe_contains(&self, key: &[u8]) -> (r: bool)
        requires
            self.can_probe(),
        ensures
            r == has_positions(self.bits@, key@, self.k as nat),
    {
        let h: u64 = hash64(key);
        let mut i: u32 = 0;
        while i < self.k
            invariant
                i <= self.k,
                self.can_probe(),
                h == hash64_of(key@),
                has_positions(self.bits@, key@, i as nat),
            decreases self.k - i,
        {
            let p: u64 = self.position(h, i, Ghost(key@));
            assert(p / 8 < self.bits.len());
            let at: usize = (p / 8) as usize;
            if self.bits[at] & (1u8 << ((p % 8) as u8)) == 0 {
                assert(!has_bit(self.bits@, bit_position(key@, i as nat, self.bits@.len() * 8)));
                return false;
            }
            i = i + 1;
        }
        true
    }
}

proof fn lemma_set_bit_has(bits: Seq<u8>, p: nat, q: nat)
    requires
        p < bits.len() * 8,
        q < bits.len() * 8,
    ensures
        has_bit(set_bit(bits, p), q) <==> p == q || has_bit(bits, q),
{
    if p / 8 == q / 8 {
        let x = bits[p as int / 8];
        let i = (p % 8) as u8;
        let j = (q % 8) as u8;
        assert(((x | (1u8 << i)) & (1u8 << j) != 0) <==> (i == j || x & (1u8 << j) != 0))
            by (bit_vector)
            requires
                i < 8,
                j < 8,
        ;
    }
}

proof fn lemma_set_positions_has(bits: Seq<u8>, key: Seq<u8>, n: nat)
    requires
        bits.len() > 0,
    ensures
        set_positions(bits, key, n).len() == bits.len(),
        forall|q: nat|
            q < bits.len() * 8 ==> (#[trigger] has_bit(set_positions(bits, key, n), q) <==> (
            has_bit(bits, q) || exists|i: nat|
                i < n && q == #[trigger] bit_position(key, i, bits.len() * 8))),
    decreases n,
{
    if n > 0 {
        let before = set_positions(bits, key, (n - 1) as nat);
        let m = bits.len() * 8;
        let p = bit_position(key, (n - 1) as nat, m);
        lemma_set_positions_has(bits, key, (n - 1) as nat);
        assert forall|q: nat| q < m implies (#[trigger] has_bit(set_positions(bits, key, n), q)
            <==> (has_bit(bits, q) || exists|i: nat|
            i < n && q == #[trigger] bit_position(key, i, m))) by {
            lemma_set_bit_has(before, p, q);
            if has_bit(set_positions(bits, key, n), q) && !has_bit(bits, q) {
                if p == q {
                    assert(q == bit_position(key, (n - 1) as nat, m));
                }
            }
            if exists|i: nat| i < n && q == #[trigger] bit_position(key, i, m) {
                let i = choose|i: nat| i < n && q == #[trigger] bit_position(key, i, m);
                if i != n - 1 {
                    assert(i < n - 1 && q == bit_position(key, i, m));
                }
            }
        }
    }
}

/// A filter has no false negatives: every key it was built from is found in it.
pub proof fn lemma_filter_has_every_key(keys: Seq<Seq<u8>>, bytes: nat, j: int)
    requires
        bytes > 0,
        0 <= j < keys.len(),
    ensures
        filter_bits(keys, bytes).len() == bytes,
        has_positions(filter_bits(keys, bytes), keys[j], PROBES as nat),
    decreases keys.len(),
{
    let before = filter_bits(keys.drop_last(), bytes);
    lemma_filter_len(keys.drop_last(), bytes);
    lemma_set_positions_has(before, keys.last(), PROBES as nat);
    if j < keys.len() - 1 {
        lemma_filter_has_every_key(keys.drop_last(), bytes, j);
        assert(keys.drop_last()[j] == keys[j]);
        assert forall|i: nat| i < PROBES implies has_bit(
            filter_bits(keys, bytes),
            #[trigger] bit_position(keys[j], i, bytes * 8),
        ) by {
            assert(has_bit(before, bit_position(keys[j], i, bytes * 8)));
        }
    } else {
        assert forall|i: nat| i < PROBES implies has_bit(
            filter_bits(keys, bytes),
            #[trigger] bit_position(keys[j], i, bytes * 8),
        ) by {
            assert(has_bit(
                set_positions(before, keys.last(), PROBES as nat),
                bit_position(keys[j], i, bytes * 8),
            ));
        }
    }
}

/// The length of a filter's bit array.
pub proof fn lemma_filter_len(keys: Seq<Seq<u8>>, bytes: nat)
    requires
        bytes > 0,
    ensures
        filter_bits(keys, bytes).len() == bytes,
    decreases keys.len(),
{
    if keys.len() > 0 {
        lemma_filter_len(keys.drop_last(), bytes);
        lemma_set_positions_has(
            filter_bits(keys.drop_last(), bytes),
            keys.last(),
            PROBES as nat,
        );
    }
}

/// A filter without keys has no bit set. Adding a key sets exactly its positions, as many as there
/// are probes, and a key is found exactly if all its positions are set: so after its own addition,
/// and after the addition of others, it is.
pub proof fn law_filter_knows_what_was_added(bits: Seq<u8>, key: Seq<u8>, other: Seq<u8>, k: nat)
    requires
        bits.len() > 0,
    ensures
        ({
            let after = set_positions(bits, key, k);
            let m = bits.len() * 8;
            &&& after.len() == bits.len()
            &&& has_positions(after, key, k)
            &&& has_positions(bits, other, k) ==> has_positions(after, other, k)
            &&& forall|q: nat|
                q < m ==> (#[trigger] has_bit(after, q) <==> has_bit(bits, q) || exists|i: nat|
                    i < k && q == #[trigger] bit_position(key, i, m))
            &&& has_positions(bits, other, k) <==> forall|i: nat|
                i < k ==> has_bit(bits, #[trigger] bit_position(other, i, m))
        }),
        forall|n: nat, i: int|
            0 <= i < n ==> #[trigger] filter_bits(Seq::empty(), n)[i] == 0u8 && filter_bits(
                Seq::empty(),
                n,
            ).len() == n,
{
    let m = bits.len() * 8;
    let after = set_positions(bits, key, k);
    lemma_set_positions_has(bits, key, k);
    assert forall|i: nat| i < k implies has_bit(after, #[trigger] bit_position(key, i, m)) by {
        assert(bit_position(key, i, m) < m);
    }
    if has_positions(bits, other, k) {
        assert forall|i: nat| i < k implies has_bit(
            after,
            #[trigger] bit_position(other, i, m),
        ) by {
            assert(bit_position(other, i, m) < m);
            assert(has_bit(bits, bit_position(other, i, m)));
        }
    }
}

/// The hash goes over all bytes, one after the other; the positions of a key are its two halves
/// combined; a filter has ten bits for each key, sixty-four at the least, in whole bytes.
pub proof fn law_filters_are_laid_out_like_this(bytes: Seq<u8>, b: u8, i: nat, m: nat, n: nat)
    ensures
        hash64_of(Seq::empty()) == 0xcbf2_9ce4_8422_2325u64,
        hash64_of(bytes.push(b)) == (hash64_of(bytes) ^ (b as u64)).wrapping_mul(
            0x0000_0100_0000_01b3,
        ),
        bit_position(bytes, i, m) == (((hash64_of(bytes) & 0xFFFF_FFFF).wrapping_add(
            (i as u64).wrapping_mul((hash64_of(bytes) >> 32) | 1),
        )) as nat) % m,
        n <= 6 ==> filter_bytes(n) == 8,
        7 <= n <= usize::MAX / 10 ==> 10 * n <= filter_bytes(n) * 8 < 10 * n + 8,
{
    assert(bytes.push(b).drop_last() =~= bytes);
}

} // verus!
