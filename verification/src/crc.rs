//! The CRC32 checksum (IEEE 802.3, reflected polynomial `0xEDB88320`) that guards data blocks.

use vstd::prelude::*;

verus! {

/// One shift of the checksum register.
pub open spec fn crc_bit(c: u32) -> u32 {
    if c & 1 == 1 {
        (c >> 1) ^ 0xEDB8_8320
    } else {
        c >> 1
    }
}

/// The register after `n` shifts.
pub open spec fn crc_bits(c: u32, n: nat) -> u32
    decreases n,
{
    if n == 0 {
        c
    } else {
        crc_bit(crc_bits(c, (n - 1) as nat))
    }
}

/// The register once `data` has gone through it.
pub open spec fn crc_state(data: Seq<u8>) -> u32
    decreases data.len(),
{
    if data.len() == 0 {
        0xFFFF_FFFF
    } else {
        crc_bits(crc_state(data.drop_last()) ^ (data.last() as u32), 8)
    }
}

/// The checksum of `data`.
pub open spec fn crc32_of(data: Seq<u8>) -> u32 {
    !crc_state(data)
}

/// Computes the checksum of `data`.
pub fn crc32(data: &[u8]) -> (r: u32)
    ensures
        r == crc32_of(data@),
{
    let mut crc: u32 = 0xFFFF_FFFF;
    let mut i: usize = 0;
    while i < data.len()
        invariant
            i <= data@.len(),
            crc == crc_state(data@.take(i as int)),
        decreases data@.len() - i,
    {
        let ghost before = crc;
        crc = crc ^ (data[i] as u32);
        let mut n: u32 = 0;
        while n < 8
            invariant
                n <= 8,
                i < data@.len(),
                crc == crc_bits(before ^ (data@[i as int] as u32), n as nat),
            decreases 8 - n,
        {
            let lsb: u32 = crc & 1;
            crc = crc >> 1;
            if lsb == 1 {
                crc = crc ^ 0xEDB8_8320;
            }
            n = n + 1;
        }
        proof {
            assert(data@.take(i + 1).drop_last() =~= data@.take(i as int));
        }
        i = i + 1;
    }
    assert(data@.take(i as int) =~= data@);
    !crc
}

proof fn lemma_crc_bits_injective(a: u32, b: u32, n: nat)
    requires
        crc_bits(a, n) == crc_bits(b, n),
    ensures
        a == b,
    decreases n,
{
    if n > 0 {
        let c = crc_bits(a, (n - 1) as nat);
        let d = crc_bits(b, (n - 1) as nat);
        assert(c == d) by (bit_vector)
            requires
                (if c & 1 == 1 { (c >> 1) ^ 0xEDB8_8320u32 } else { c >> 1 })
                    == (if d & 1 == 1 { (d >> 1) ^ 0xEDB8_8320u32 } else { d >> 1 }),
        ;
        lemma_crc_bits_injective(a, b, (n - 1) as nat);
    }
}

proof fn lemma_crc_state_differs(a: Seq<u8>, b: Seq<u8>, at: int)
    requires
        a.len() == b.len(),
        0 <= at < a.len(),
        a[at] != b[at],
        forall|i: int| 0 <= i < a.len() && i != at ==> a[i] == b[i],
    ensures
        crc_state(a) != crc_state(b),
    decreases a.len(),
{
    let n = a.len() - 1;
    let p = crc_state(a.drop_last());
    let q = crc_state(b.drop_last());
    let x = a.last() as u32;
    let y = b.last() as u32;
    if crc_state(a) == crc_state(b) {
        lemma_crc_bits_injective(p ^ x, q ^ y, 8);
        if at == n {
            assert(a.drop_last() =~= b.drop_last());
            assert(x == y) by (bit_vector)
                requires
                    p ^ x == p ^ y,
            ;
        } else {
            lemma_crc_state_differs(a.drop_last(), b.drop_last(), at);
            assert(p == q) by (bit_vector)
                requires
                    p ^ x == q ^ x,
            ;
        }
    }
}

/// Changing one byte changes the checksum.
pub proof fn lemma_crc32_detects_one_byte(a: Seq<u8>, b: Seq<u8>, at: int)
    requires
        a.len() == b.len(),
        0 <= at < a.len(),
        a[at] != b[at],
        forall|i: int| 0 <= i < a.len() && i != at ==> a[i] == b[i],
    ensures
        crc32_of(a) != crc32_of(b),
{
    lemma_crc_state_differs(a, b, at);
    let p = crc_state(a);
    let q = crc_state(b);
    assert(!p != !q) by (bit_vector)
        requires
            p != q,
    ;
}

/// The checksum goes over all bytes, one after the other, eight shifts for each.
pub proof fn law_checksum_goes_over_all_bytes(data: Seq<u8>, b: u8, c: u32, n: nat)
    ensures
        crc32_of(data) == !crc_state(data),
        crc_state(Seq::empty()) == 0xFFFF_FFFFu32,
        crc_state(data.push(b)) == crc_bits(crc_state(data) ^ (b as u32), 8),
        crc_bits(c, 0) == c,
        crc_bits(c, n + 1) == (if crc_bits(c, n) & 1 == 1 {
            (crc_bits(c, n) >> 1) ^ 0xEDB8_8320u32
        } else {
            crc_bits(c, n) >> 1
        }),
{
    assert(data.push(b).drop_last() =~= data);
}

} // verus!
