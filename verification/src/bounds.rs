//! Key ranges: bounds, prefixes, and which tables can meet them.

use vstd::prelude::*;
use crate::bytes::{
    copy_bytes, key_before, key_le, key_lt, lemma_key_le_lt, lemma_key_lt_transitive,
};

verus! {

/// One end of a key range.
#[derive(Debug)]
pub enum Bound {
    Included(Vec<u8>),
    Excluded(Vec<u8>),
    Unbounded,
}

/// A [`Bound`] over a byte sequence.
pub enum BoundModel {
    Included(Seq<u8>),
    Excluded(Seq<u8>),
    Unbounded,
}

impl View for Bound {
    type V = BoundModel;

    open spec fn view(&self) -> BoundModel {
        match *self {
            Bound::Included(b) => BoundModel::Included(b@),
            Bound::Excluded(b) => BoundModel::Excluded(b@),
            Bound::Unbounded => BoundModel::Unbounded,
        }
    }
}

/// Whether `key` is not below the lower bound `lo`.
pub open spec fn above(key: Seq<u8>, lo: BoundModel) -> bool {
    match lo {
        BoundModel::Unbounded => true,
        BoundModel::Included(b) => key_le(b, key),
        BoundModel::Excluded(b) => key_lt(b, key),
    }
}

/// Whether `key` is not above the upper bound `hi`.
pub open spec fn below(key: Seq<u8>, hi: BoundModel) -> bool {
    match hi {
        BoundModel::Unbounded => true,
        BoundModel::Included(b) => key_le(key, b),
        BoundModel::Excluded(b) => key_lt(key, b),
    }
}

/// Whether `key` lies within the bounds.
pub open spec fn within(key: Seq<u8>, lo: BoundModel, hi: BoundModel) -> bool {
    above(key, lo) && below(key, hi)
}

/// Whether a table whose keys run from `min` to `max` can hold a key within the bounds.
pub open spec fn overlaps(min: Seq<u8>, max: Seq<u8>, lo: BoundModel, hi: BoundModel) -> bool {
    above(max, lo) && below(min, hi)
}

/// Whether the bounds are those of a range: the lower one does not come after the upper one,
/// and they do not both exclude the same key.
pub open spec fn ordered(lo: BoundModel, hi: BoundModel) -> bool {
    match (lo, hi) {
        (BoundModel::Excluded(a), BoundModel::Excluded(b)) => key_lt(a, b),
        (BoundModel::Included(a), BoundModel::Included(b)) => key_le(a, b),
        (BoundModel::Included(a), BoundModel::Excluded(b)) => key_le(a, b),
        (BoundModel::Excluded(a), BoundModel::Included(b)) => key_le(a, b),
        _ => true,
    }
}

/// Whether `key` begins with `prefix`.
pub open spec fn has_prefix(key: Seq<u8>, prefix: Seq<u8>) -> bool {
    prefix.len() <= key.len() && key.take(prefix.len() as int) == prefix
}

/// `prefix` without the `0xFF` bytes that end it.
pub open spec fn without_trailing_ff(prefix: Seq<u8>) -> Seq<u8>
    decreases prefix.len(),
{
    if prefix.len() > 0 && prefix.last() == 0xFF {
        without_trailing_ff(prefix.drop_last())
    } else {
        prefix
    }
}

/// The smallest key that comes after every key that begins with `prefix`: its trailing `0xFF`
/// bytes dropped and the byte before them raised by one. There is none if nothing is left.
pub open spec fn prefix_end(prefix: Seq<u8>) -> Option<Seq<u8>> {
    let p = without_trailing_ff(prefix);
    if p.len() == 0 {
        None
    } else {
        Some(p.drop_last().push((p.last() + 1) as u8))
    }
}

/// Whether `key` lies within the bounds.
pub fn in_bounds(key: &[u8], lo: &Bound, hi: &Bound) -> (r: bool)
    ensures
        r == within(key@, lo@, hi@),
        r == ((match *lo {
            Bound::Unbounded => true,
            Bound::Included(b) => b@ == key@ || key_lt(b@, key@),
            Bound::Excluded(b) => key_lt(b@, key@),
        }) && (match *hi {
            Bound::Unbounded => true,
            Bound::Included(b) => key@ == b@ || key_lt(key@, b@),
            Bound::Excluded(b) => key_lt(key@, b@),
        })),
{
    let above_lo: bool = match lo {
        Bound::Unbounded => true,
        Bound::Included(b) => {
            proof {
                lemma_key_le_lt(key@, b@, key@);
            }
            !key_before(key, b.as_slice())
        },
        Bound::Excluded(b) => key_before(b.as_slice(), key),
    };
    let below_hi: bool = match hi {
        Bound::Unbounded => true,
        Bound::Included(b) => {
            proof {
                lemma_key_le_lt(b@, key@, b@);
            }
            !key_before(b.as_slice(), key)
        },
        Bound::Excluded(b) => key_before(key, b.as_slice()),
    };
    above_lo && below_hi
}

/// Whether a table whose keys run from `min` to `max` can hold a key within the bounds.
pub fn range_overlaps(min: &[u8], max: &[u8], lo: &Bound, hi: &Bound) -> (r: bool)
    ensures
        r == overlaps(min@, max@, lo@, hi@),
{
    let max_below_lo: bool = match lo {
        Bound::Unbounded => false,
        Bound::Included(b) => {
            proof {
                lemma_key_le_lt(max@, b@, max@);
            }
            key_before(max, b.as_slice())
        },
        Bound::Excluded(b) => !key_before(b.as_slice(), max),
    };
    let min_above_hi: bool = match hi {
        Bound::Unbounded => false,
        Bound::Included(b) => {
            proof {
                lemma_key_le_lt(b@, min@, b@);
            }
            key_before(b.as_slice(), min)
        },
        Bound::Excluded(b) => !key_before(min, b.as_slice()),
    };
    !max_below_lo && !min_above_hi
}

/// The smallest key that comes after every key that begins with `prefix`, or `None` if there is
/// none: for an empty prefix, or one that is all `0xFF`.
pub fn prefix_upper_bound(prefix: &[u8]) -> (r: Option<Vec<u8>>)
    ensures
        match prefix_end(prefix@) {
            Some(end) => r matches Some(v) && v@ == end,
            None => r is None,
        },
{
    let mut end: Vec<u8> = copy_bytes(prefix);
    while end.len() > 0
        invariant
            without_trailing_ff(end@) == without_trailing_ff(prefix@),
        decreases end@.len(),
    {
        let n: usize = end.len() - 1;
        let last: u8 = end[n];
        if last < 0xFF {
            let ghost before = end@;
            end.set(n, last + 1);
            assert(end@ =~= before.drop_last().push((before.last() + 1) as u8));
            return Some(end);
        }
        let ghost before = end@;
        end.truncate(n);
        assert(end@ =~= before.drop_last());
    }
    None
}

/// A table that does not overlap the bounds holds no key within them.
pub proof fn law_skipped_table_holds_nothing(
    min: Seq<u8>,
    max: Seq<u8>,
    key: Seq<u8>,
    lo: BoundModel,
    hi: BoundModel,
)
    requires
        key_le(min, key),
        key_le(key, max),
        within(key, lo, hi),
    ensures
        overlaps(min, max, lo, hi),
{
    match lo {
        BoundModel::Unbounded => {},
        BoundModel::Included(b) => {
            lemma_key_le_lt(b, key, max);
        },
        BoundModel::Excluded(b) => {
            lemma_key_le_lt(b, key, max);
        },
    }
    match hi {
        BoundModel::Unbounded => {},
        BoundModel::Included(b) => {
            lemma_key_le_lt(min, key, b);
        },
        BoundModel::Excluded(b) => {
            lemma_key_le_lt(min, key, b);
        },
    }
}

/// The bounds of a prefix scan.
pub open spec fn prefix_bound(prefix: Seq<u8>) -> BoundModel {
    match prefix_end(prefix) {
        Some(end) => BoundModel::Excluded(end),
        None => BoundModel::Unbounded,
    }
}

proof fn lemma_all_ff_above(key: Seq<u8>, prefix: Seq<u8>)
    requires
        without_trailing_ff(prefix).len() == 0,
    ensures
        key_le(prefix, key) ==> has_prefix(key, prefix),
    decreases prefix.len(),
{
    lemma_no_trailing_all_ff(prefix);
    if prefix.len() == 0 {
        assert(key.take(0) =~= prefix);
    } else if key_le(prefix, key) && key != prefix {
        assert(prefix[0] == 0xFF);
        let k = key.skip(1);
        let p = prefix.skip(1);
        assert(forall|i: int| 0 <= i < p.len() ==> p[i] == prefix[i + 1]);
        lemma_all_ff_trimmed(p);
        lemma_all_ff_above(k, p);
        assert(key[0] == 0xFF);
        assert(key.take(prefix.len() as int) =~= seq![key[0]] + k.take(p.len() as int));
        assert(prefix =~= seq![prefix[0]] + p);
    } else if key == prefix {
        assert(key.take(prefix.len() as int) =~= prefix);
    }
}

proof fn lemma_no_trailing_all_ff(prefix: Seq<u8>)
    requires
        without_trailing_ff(prefix).len() == 0,
    ensures
        forall|i: int| 0 <= i < prefix.len() ==> prefix[i] == 0xFF,
    decreases prefix.len(),
{
    if prefix.len() > 0 {
        lemma_no_trailing_all_ff(prefix.drop_last());
        assert(forall|i: int| 0 <= i < prefix.len() - 1 ==> prefix[i] == prefix.drop_last()[i]);
    }
}

proof fn lemma_all_ff_trimmed(prefix: Seq<u8>)
    requires
        forall|i: int| 0 <= i < prefix.len() ==> prefix[i] == 0xFF,
    ensures
        without_trailing_ff(prefix).len() == 0,
    decreases prefix.len(),
{
    if prefix.len() > 0 {
        lemma_all_ff_trimmed(prefix.drop_last());
    }
}

proof fn lemma_prefix_le(key: Seq<u8>, prefix: Seq<u8>)
    requires
        has_prefix(key, prefix),
    ensures
        key_le(prefix, key),
    decreases prefix.len(),
{
    if prefix.len() == 0 {
        assert(prefix =~= Seq::<u8>::empty());
        if key.len() == 0 {
            assert(key =~= prefix);
        }
    } else {
        let k = key.skip(1);
        let p = prefix.skip(1);
        assert(key[0] == key.take(prefix.len() as int)[0]);
        assert(k.take(p.len() as int) =~= key.take(prefix.len() as int).skip(1));
        lemma_prefix_le(k, p);
        if p == k {
            assert(prefix =~= seq![prefix[0]] + p);
            assert(key =~= seq![key[0]] + k);
        }
    }
}

/// `p` is `q` followed by bytes `0xFF`, where the last byte of `q` is not `0xFF`; `end` is `q`
/// with its last byte raised.
proof fn lemma_prefix_end_splits(key: Seq<u8>, p: Seq<u8>)
    requires
        prefix_end(p) is Some,
    ensures
        has_prefix(key, p) <==> (key_le(p, key) && key_lt(key, prefix_end(p)->0)),
    decreases p.len(),
{
    let end = prefix_end(p)->0;
    let q = without_trailing_ff(p);
    lemma_trimmed(p);
    if q.len() == 1 {
        // `end` is one byte; everything after the first byte of `p` is `0xFF`.
        assert(q[0] == p[0]);
        assert(end =~= seq![(p[0] + 1) as u8]);
        let pt = p.skip(1);
        assert(forall|i: int| 0 <= i < pt.len() ==> pt[i] == p[i + 1]);
        lemma_all_ff_trimmed(pt);
        if key.len() == 0 {
        } else {
            let k = key.skip(1);
            assert(end.skip(1) =~= Seq::<u8>::empty());
            assert(!key_lt(k, end.skip(1)));
            lemma_all_ff_above(k, pt);
            if has_prefix(key, p) {
                lemma_prefix_le(key, p);
                assert(key[0] == key.take(p.len() as int)[0]);
            }
            if key_le(p, key) && key_lt(key, end) {
                assert(key[0] == p[0]);
                if key == p {
                    assert(key.take(p.len() as int) =~= p);
                } else {
                    assert(key_le(pt, k));
                    assert(key.take(p.len() as int) =~= seq![key[0]] + k.take(pt.len() as int));
                    assert(p =~= seq![p[0]] + pt);
                }
            }
        }
    } else {
        let pt = p.skip(1);
        lemma_trim_skip(p);
        let qt = q.skip(1);
        assert(qt.drop_last() =~= q.drop_last().skip(1));
        assert(end.skip(1) =~= qt.drop_last().push((qt.last() + 1) as u8));
        assert(end[0] == p[0]);
        if key.len() > 0 {
            let k = key.skip(1);
            lemma_prefix_end_splits(k, pt);
            if has_prefix(key, p) {
                lemma_prefix_le(key, p);
                assert(key[0] == key.take(p.len() as int)[0]);
                assert(k.take(pt.len() as int) =~= key.take(p.len() as int).skip(1));
            }
            if key_le(p, key) && key_lt(key, end) {
                if key == p {
                    assert(key.take(p.len() as int) =~= p);
                } else {
                    assert(key[0] == p[0]);
                    assert(key_le(pt, k));
                    assert(key.take(p.len() as int) =~= seq![key[0]] + k.take(pt.len() as int));
                    assert(p =~= seq![p[0]] + pt);
                }
            }
        }
    }
}

proof fn lemma_trimmed(p: Seq<u8>)
    ensures
        without_trailing_ff(p).len() <= p.len(),
        p.take(without_trailing_ff(p).len() as int) == without_trailing_ff(p),
        forall|i: int| without_trailing_ff(p).len() <= i < p.len() ==> p[i] == 0xFF,
        without_trailing_ff(p).len() > 0 ==> without_trailing_ff(p).last() != 0xFF,
    decreases p.len(),
{
    if p.len() > 0 && p.last() == 0xFF {
        lemma_trimmed(p.drop_last());
        let q = without_trailing_ff(p);
        assert(p.take(q.len() as int) =~= p.drop_last().take(q.len() as int));
        assert forall|i: int| q.len() <= i < p.len() implies p[i] == 0xFF by {
            if i < p.len() - 1 {
                assert(p.drop_last()[i] == p[i]);
            }
        }
    } else {
        assert(p.take(p.len() as int) =~= p);
    }
}

proof fn lemma_trim_skip(p: Seq<u8>)
    requires
        without_trailing_ff(p).len() >= 2,
    ensures
        without_trailing_ff(p.skip(1)) == without_trailing_ff(p).skip(1),
    decreases p.len(),
{
    lemma_trimmed(p);
    if p.last() == 0xFF {
        assert(p.skip(1).last() == p.last());
        assert(p.skip(1).drop_last() =~= p.drop_last().skip(1));
        lemma_trim_skip(p.drop_last());
    } else {
        assert(p.skip(1).last() == p.last());
    }
}

/// Inverted bounds hold no key.
pub proof fn law_inverted_bounds_hold_nothing(lo: BoundModel, hi: BoundModel, key: Seq<u8>)
    requires
        !ordered(lo, hi),
    ensures
        !within(key, lo, hi),
{
    if within(key, lo, hi) {
        match (lo, hi) {
            (BoundModel::Unbounded, _) => {},
            (_, BoundModel::Unbounded) => {},
            (BoundModel::Included(a), BoundModel::Included(b)) => {
                lemma_between(a, key, b);
            },
            (BoundModel::Included(a), BoundModel::Excluded(b)) => {
                lemma_between(a, key, b);
            },
            (BoundModel::Excluded(a), BoundModel::Included(b)) => {
                lemma_between(a, key, b);
            },
            (BoundModel::Excluded(a), BoundModel::Excluded(b)) => {
                lemma_between(a, key, b);
            },
        }
    }
}

proof fn lemma_between(a: Seq<u8>, key: Seq<u8>, b: Seq<u8>)
    ensures
        key_le(a, key) && key_le(key, b) ==> key_le(a, b),
        key_lt(a, key) && key_lt(key, b) ==> key_lt(a, b),
{
    if key_lt(a, key) && key_lt(key, b) {
        lemma_key_lt_transitive(a, key, b);
    }
}

/// The bounds of a prefix scan hold exactly the keys that begin with the prefix.
pub proof fn law_prefix_bounds_are_exact(key: Seq<u8>, prefix: Seq<u8>)
    ensures
        within(key, BoundModel::Included(prefix), prefix_bound(prefix)) <==> has_prefix(
            key,
            prefix,
        ),
{
    if prefix_end(prefix) is Some {
        lemma_prefix_end_splits(key, prefix);
    } else {
        lemma_all_ff_above(key, prefix);
        if has_prefix(key, prefix) {
            lemma_prefix_le(key, prefix);
        }
    }
}

/// What bounds mean, in the order of the keys: an included bound holds the key itself, an excluded
/// one does not, and an open end holds every key on its side.
pub proof fn law_bounds_are_meant_in_key_order(key: Seq<u8>, a: Seq<u8>, b: Seq<u8>)
    ensures
        within(key, BoundModel::Included(a), BoundModel::Excluded(b)) <==> key_le(a, key) && key_lt(
            key,
            b,
        ),
        within(key, BoundModel::Included(a), BoundModel::Included(b)) <==> key_le(a, key) && key_le(
            key,
            b,
        ),
        within(key, BoundModel::Excluded(a), BoundModel::Excluded(b)) <==> key_lt(a, key) && key_lt(
            key,
            b,
        ),
        within(key, BoundModel::Excluded(a), BoundModel::Included(b)) <==> key_lt(a, key) && key_le(
            key,
            b,
        ),
        within(key, BoundModel::Included(a), BoundModel::Unbounded) <==> key_le(a, key),
        within(key, BoundModel::Excluded(a), BoundModel::Unbounded) <==> key_lt(a, key),
        within(key, BoundModel::Unbounded, BoundModel::Included(b)) <==> key_le(key, b),
        within(key, BoundModel::Unbounded, BoundModel::Excluded(b)) <==> key_lt(key, b),
        within(key, BoundModel::Unbounded, BoundModel::Unbounded),
{
}

/// A table can be passed over exactly if its range ends before the bounds begin, or begins after
/// they end.
pub proof fn law_ranges_overlap_in_key_order(min: Seq<u8>, max: Seq<u8>, a: Seq<u8>, b: Seq<u8>)
    ensures
        overlaps(min, max, BoundModel::Included(a), BoundModel::Excluded(b)) <==> key_le(a, max)
            && key_lt(min, b),
        overlaps(min, max, BoundModel::Included(a), BoundModel::Included(b)) <==> key_le(a, max)
            && key_le(min, b),
        overlaps(min, max, BoundModel::Excluded(a), BoundModel::Excluded(b)) <==> key_lt(a, max)
            && key_lt(min, b),
        overlaps(min, max, BoundModel::Excluded(a), BoundModel::Included(b)) <==> key_lt(a, max)
            && key_le(min, b),
        overlaps(min, max, BoundModel::Included(a), BoundModel::Unbounded) <==> key_le(a, max),
        overlaps(min, max, BoundModel::Excluded(a), BoundModel::Unbounded) <==> key_lt(a, max),
        overlaps(min, max, BoundModel::Unbounded, BoundModel::Included(b)) <==> key_le(min, b),
        overlaps(min, max, BoundModel::Unbounded, BoundModel::Excluded(b)) <==> key_lt(min, b),
        overlaps(min, max, BoundModel::Unbounded, BoundModel::Unbounded),
{
}

/// A key begins with a prefix if it has all its bytes in the same places.
pub proof fn law_prefix_is_byte_by_byte(key: Seq<u8>, prefix: Seq<u8>)
    ensures
        has_prefix(key, prefix) <==> prefix.len() <= key.len() && forall|i: int|
            0 <= i < prefix.len() ==> key[i] == prefix[i],
{
    if prefix.len() <= key.len() {
        if forall|i: int| 0 <= i < prefix.len() ==> key[i] == prefix[i] {
            assert(key.take(prefix.len() as int) =~= prefix);
        }
        if has_prefix(key, prefix) {
            assert forall|i: int| 0 <= i < prefix.len() implies key[i] == prefix[i] by {
                assert(key.take(prefix.len() as int)[i] == key[i]);
            }
        }
    }
}

/// The end of a prefix comes after every key that begins with the prefix, and is the first key that
/// does. There is none exactly if the prefix is all `0xFF`, or empty.
pub proof fn law_prefix_end_is_the_first_key_after(prefix: Seq<u8>, key: Seq<u8>)
    ensures
        prefix_end(prefix) is None <==> forall|i: int| 0 <= i < prefix.len() ==> prefix[i] == 0xFF,
        prefix_end(prefix) matches Some(end) ==> {
            &&& has_prefix(key, prefix) ==> key_lt(key, end)
            &&& key_lt(prefix, end)
            &&& key_le(prefix, key) && key_lt(key, end) ==> has_prefix(key, prefix)
        },
{
    lemma_only_ff(prefix);
    law_prefix_bounds_are_exact(key, prefix);
    law_prefix_bounds_are_exact(prefix, prefix);
    assert(prefix.take(prefix.len() as int) =~= prefix);
}

proof fn lemma_only_ff(p: Seq<u8>)
    ensures
        without_trailing_ff(p).len() == 0 <==> forall|i: int| 0 <= i < p.len() ==> p[i] == 0xFF,
    decreases p.len(),
{
    if p.len() > 0 {
        let before = p.drop_last();
        if p.last() == 0xFF {
            lemma_only_ff(before);
            if forall|i: int| 0 <= i < before.len() ==> before[i] == 0xFF {
                assert forall|i: int| 0 <= i < p.len() implies p[i] == 0xFF by {
                    if i < before.len() {
                        assert(before[i] == 0xFF);
                    }
                }
            }
            if forall|i: int| 0 <= i < p.len() ==> p[i] == 0xFF {
                assert forall|i: int| 0 <= i < before.len() implies before[i] == 0xFF by {
                    assert(p[i] == 0xFF);
                }
            }
        } else {
            assert(p[p.len() - 1] != 0xFF);
        }
    }
}

/// What a bound stands for is its kind and its whole key.
pub proof fn law_bounds_stand_for_their_keys(key: Vec<u8>)
    ensures
        Bound::Included(key)@ == BoundModel::Included(key@),
        Bound::Excluded(key)@ == BoundModel::Excluded(key@),
        Bound::Unbounded@ == BoundModel::Unbounded,
{
}

} // verus!
