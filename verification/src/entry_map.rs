//! A map from keys to entries that keeps its keys in ascending order.

use vstd::prelude::*;
use crate::bytes::{
    copy_bytes, key_lt, lemma_key_lt_asymmetric, lemma_key_lt_irreflexive, lemma_key_lt_total,
    lemma_key_lt_transitive, relate, Relation,
};
use crate::value::{Entry, EntryModel, Value, ValueModel};

verus! {

/// Whether the keys of `s` are in strictly ascending order.
pub open spec fn sorted(s: Seq<(Seq<u8>, EntryModel)>) -> bool {
    forall|i: int, j: int| 0 <= i < j < s.len() ==> key_lt(#[trigger] s[i].0, #[trigger] s[j].0)
}

/// The map that `s` writes when its pairs are inserted in order.
pub open spec fn as_map(s: Seq<(Seq<u8>, EntryModel)>) -> Map<Seq<u8>, EntryModel>
    decreases s.len(),
{
    if s.len() == 0 {
        Map::empty()
    } else {
        as_map(s.drop_last()).insert(s.last().0, s.last().1)
    }
}

/// The models of some pairs.
pub open spec fn pairs_view(items: Seq<(Vec<u8>, Entry)>) -> Seq<(Seq<u8>, EntryModel)> {
    Seq::new(items.len(), |i: int| (items[i].0@, items[i].1@))
}

/// A map from keys to entries, in ascending key order.
#[derive(Debug)]
pub struct EntryMap {
    items: Vec<(Vec<u8>, Entry)>,
}

impl View for EntryMap {
    type V = Map<Seq<u8>, EntryModel>;

    open spec fn view(&self) -> Map<Seq<u8>, EntryModel> {
        as_map(self.pairs())
    }
}

impl EntryMap {
    /// The pairs of the map, in order.
    pub closed spec fn pairs(&self) -> Seq<(Seq<u8>, EntryModel)> {
        pairs_view(self.items@)
    }

    /// The keys are in strictly ascending order.
    pub open spec fn wf(&self) -> bool {
        sorted(self.pairs())
    }

    /// An empty map.
    pub fn new() -> (r: EntryMap)
        ensures
            r.wf(),
            r.pairs() == Seq::<(Seq<u8>, EntryModel)>::empty(),
            r@ == Map::<Seq<u8>, EntryModel>::empty(),
    {
        let r = EntryMap { items: Vec::new() };
        assert(r.pairs() =~= Seq::<(Seq<u8>, EntryModel)>::empty());
        r
    }

    /// The number of keys.
    pub fn len(&self) -> (r: usize)
        ensures
            r == self.pairs().len(),
    {
        self.items.len()
    }

    /// Whether the map has no key.
    pub fn is_empty(&self) -> (r: bool)
        ensures
            r == (self.pairs().len() == 0),
    {
        self.items.len() == 0
    }

    /// The `i`-th key, in ascending order.
    pub fn key_at(&self, i: usize) -> (r: &Vec<u8>)
        requires
            i < self.pairs().len(),
        ensures
            r@ == self.pairs()[i as int].0,
    {
        &self.items[i].0
    }

    /// The entry of the `i`-th key.
    pub fn entry_at(&self, i: usize) -> (r: &Entry)
        requires
            i < self.pairs().len(),
        ensures
            r@ == self.pairs()[i as int].1,
    {
        &self.items[i].1
    }

    /// How many keys come before `key`, and whether `key` is in the map.
    fn find(&self, key: &[u8]) -> (r: (usize, bool))
        requires
            self.wf(),
        ensures
            r.0 <= self.pairs().len(),
            forall|i: int| 0 <= i < r.0 ==> key_lt(#[trigger] self.pairs()[i].0, key@),
            r.1 ==> r.0 < self.pairs().len() && self.pairs()[r.0 as int].0 == key@,
            !r.1 ==> forall|i: int|
                r.0 <= i < self.pairs().len() ==> key_lt(key@, #[trigger] self.pairs()[i].0),
    {
        let mut lo: usize = 0;
        let mut hi: usize = self.items.len();
        while lo < hi
            invariant
                self.wf(),
                lo <= hi <= self.pairs().len(),
                forall|i: int| 0 <= i < lo ==> key_lt(#[trigger] self.pairs()[i].0, key@),
                forall|i: int|
                    hi <= i < self.pairs().len() ==> key_lt(key@, #[trigger] self.pairs()[i].0),
            decreases hi - lo,
        {
            let mid: usize = lo + (hi - lo) / 2;
            let ghost s = self.pairs();
            let ghost m = s[mid as int].0;
            match relate(self.items[mid].0.as_slice(), key) {
                Relation::Same => {
                    return (mid, true);
                },
                Relation::Before => {
                    assert forall|i: int| 0 <= i < mid + 1 implies key_lt(
                        #[trigger] s[i].0,
                        key@,
                    ) by {
                        if i < mid {
                            lemma_key_lt_transitive(s[i].0, m, key@);
                        }
                    }
                    lo = mid + 1;
                },
                Relation::After => {
                    proof {
                        lemma_key_lt_total(m, key@);
                    }
                    assert forall|i: int| mid <= i < s.len() implies key_lt(
                        key@,
                        #[trigger] s[i].0,
                    ) by {
                        if i > mid {
                            lemma_key_lt_transitive(key@, m, s[i].0);
                        }
                    }
                    hi = mid;
                },
            }
        }
        (lo, false)
    }

    /// The entry of `key`, if it is in the map.
    pub fn get(&self, key: &[u8]) -> (r: Option<&Entry>)
        requires
            self.wf(),
        ensures
            match r {
                Some(e) => self@.contains_key(key@) && e@ == self@[key@],
                None => !self@.contains_key(key@),
            },
    {
        let (at, found) = self.find(key);
        proof {
            lemma_as_map_lookup(self.pairs(), key@);
        }
        if found {
            Some(&self.items[at].1)
        } else {
            proof {
                let s = self.pairs();
                assert forall|i: int| 0 <= i < s.len() implies #[trigger] s[i].0 != key@ by {
                    if i < at {
                        lemma_key_lt_irreflexive(key@);
                    } else {
                        lemma_key_lt_irreflexive(key@);
                    }
                }
            }
            None
        }
    }

    /// Sets the entry of `key`.
    pub fn insert(&mut self, key: Vec<u8>, entry: Entry)
        requires
            old(self).wf(),
        ensures
            final(self).wf(),
            final(self).pairs() == put_pair(old(self).pairs(), (key@, entry@)),
            final(self)@ == old(self)@.insert(key@, entry@),
    {
        let ghost s = self.pairs();
        let ghost pair = (key@, entry@);
        let (at, found) = self.find(key.as_slice());
        if found {
            self.items.set(at, (key, entry));
            proof {
                assert(self.pairs() =~= s.update(at as int, pair));
                lemma_put_pair_update(s, at as int, pair);
            }
        } else {
            self.items.insert(at, (key, entry));
            proof {
                assert(self.pairs() =~= s.insert(at as int, pair));
                lemma_put_pair_insert(s, at as int, pair);
            }
        }
        proof {
            lemma_put_pair(s, pair);
        }
    }

    /// The map without its deletion markers.
    pub fn to_live(&self) -> (r: EntryMap)
        requires
            self.wf(),
        ensures
            r.wf(),
            r.pairs() == live(self.pairs()),
    {
        let ghost s = self.pairs();
        let mut out: Vec<(Vec<u8>, Entry)> = Vec::new();
        let mut i: usize = 0;
        assert(pairs_view(out@) =~= live(s.take(0)));
        while i < self.items.len()
            invariant
                i <= self.items@.len(),
                s == self.pairs(),
                pairs_view(out@) == live(s.take(i as int)),
            decreases self.items@.len() - i,
        {
            let ghost before = out@;
            assert(s.take(i + 1).drop_last() =~= s.take(i as int));
            if let Entry::Value(v) = &self.items[i].1 {
                let key: Vec<u8> = copy_bytes(self.items[i].0.as_slice());
                out.push((key, Entry::Value(v.clone())));
                assert(pairs_view(out@) =~= pairs_view(before).push(s[i as int]));
            }
            i = i + 1;
        }
        assert(s.take(i as int) =~= s);
        proof {
            lemma_live(s);
        }
        EntryMap { items: out }
    }

    /// The keys that hold a value, with their values, in order.
    pub fn values(&self) -> (r: Vec<(Vec<u8>, Value)>)
        ensures
            values_view(r@) == values_of(self.pairs()),
    {
        let ghost s = self.pairs();
        let mut out: Vec<(Vec<u8>, Value)> = Vec::new();
        let mut i: usize = 0;
        assert(values_view(out@) =~= values_of(s.take(0)));
        while i < self.items.len()
            invariant
                i <= self.items@.len(),
                s == self.pairs(),
                values_view(out@) == values_of(s.take(i as int)),
            decreases self.items@.len() - i,
        {
            let ghost before = out@;
            assert(s.take(i + 1).drop_last() =~= s.take(i as int));
            if let Entry::Value(v) = &self.items[i].1 {
                let key: Vec<u8> = copy_bytes(self.items[i].0.as_slice());
                out.push((key, v.clone()));
                assert(values_view(out@) =~= values_view(before).push(
                    (s[i as int].0, s[i as int].1->Value_0),
                ));
            }
            i = i + 1;
        }
        assert(s.take(i as int) =~= s);
        out
    }

    /// Removes every key.
    pub fn clear(&mut self)
        ensures
            final(self).wf(),
            final(self).pairs() == Seq::<(Seq<u8>, EntryModel)>::empty(),
            final(self)@ == Map::<Seq<u8>, EntryModel>::empty(),
    {
        self.items.clear();
        assert(self.pairs() =~= Seq::<(Seq<u8>, EntryModel)>::empty());
    }
}

/// The models of some keys with values.
pub open spec fn values_view(items: Seq<(Vec<u8>, Value)>) -> Seq<(Seq<u8>, ValueModel)> {
    Seq::new(items.len(), |i: int| (items[i].0@, items[i].1@))
}

/// The pairs of `s` that hold a value.
pub open spec fn live(s: Seq<(Seq<u8>, EntryModel)>) -> Seq<(Seq<u8>, EntryModel)>
    decreases s.len(),
{
    if s.len() == 0 {
        Seq::empty()
    } else if s.last().1 is Value {
        live(s.drop_last()).push(s.last())
    } else {
        live(s.drop_last())
    }
}

/// The keys of `s` that hold a value, with their values.
pub open spec fn values_of(s: Seq<(Seq<u8>, EntryModel)>) -> Seq<(Seq<u8>, ValueModel)>
    decreases s.len(),
{
    if s.len() == 0 {
        Seq::empty()
    } else {
        match s.last().1 {
            EntryModel::Value(v) => values_of(s.drop_last()).push((s.last().0, v)),
            EntryModel::Tombstone => values_of(s.drop_last()),
        }
    }
}

proof fn lemma_live_below(s: Seq<(Seq<u8>, EntryModel)>, bound: Seq<u8>)
    requires
        forall|i: int| 0 <= i < s.len() ==> key_lt(#[trigger] s[i].0, bound),
    ensures
        forall|i: int| 0 <= i < live(s).len() ==> key_lt(#[trigger] live(s)[i].0, bound),
    decreases s.len(),
{
    if s.len() > 0 {
        assert forall|i: int| 0 <= i < s.drop_last().len() implies key_lt(
            #[trigger] s.drop_last()[i].0,
            bound,
        ) by {
            assert(key_lt(s[i].0, bound));
        }
        lemma_live_below(s.drop_last(), bound);
        assert forall|i: int| 0 <= i < live(s).len() implies key_lt(
            #[trigger] live(s)[i].0,
            bound,
        ) by {
            if i < live(s.drop_last()).len() {
                assert(key_lt(live(s.drop_last())[i].0, bound));
            } else {
                assert(key_lt(s[s.len() - 1].0, bound));
            }
        }
    }
}

/// Dropping the deletion markers keeps the order.
pub proof fn lemma_live(s: Seq<(Seq<u8>, EntryModel)>)
    requires
        sorted(s),
    ensures
        sorted(live(s)),
    decreases s.len(),
{
    if s.len() > 0 {
        let before = s.drop_last();
        let n = s.len() - 1;
        lemma_live(before);
        assert forall|i: int| 0 <= i < before.len() implies key_lt(
            #[trigger] before[i].0,
            s.last().0,
        ) by {
            assert(key_lt(s[i].0, s[n].0));
        }
        lemma_live_below(before, s.last().0);
    }
}

/// Dropping the deletion markers keeps every key that holds a value, and no other.
pub proof fn lemma_live_lookup(s: Seq<(Seq<u8>, EntryModel)>, k: Seq<u8>)
    requires
        sorted(s),
    ensures
        as_map(live(s)).contains_key(k) <==> as_map(s).contains_key(k) && as_map(s)[k] is Value,
        as_map(live(s)).contains_key(k) ==> as_map(live(s))[k] == as_map(s)[k],
    decreases s.len(),
{
    if s.len() > 0 {
        let before = s.drop_last();
        let n = s.len() - 1;
        lemma_live_lookup(before, k);
        if k == s.last().0 && as_map(before).contains_key(k) {
            lemma_as_map_lookup(before, k);
            let i = choose|i: int| 0 <= i < before.len() && #[trigger] before[i].0 == k;
            assert(key_lt(s[i].0, s[n].0));
            lemma_key_lt_irreflexive(k);
        }
        if s.last().1 is Value {
            assert(live(s).drop_last() =~= live(before));
        }
    }
}

/// In a sorted sequence a key is in the map when it stands in the sequence, and its entry is the
/// one it stands with.
pub proof fn lemma_as_map_lookup(s: Seq<(Seq<u8>, EntryModel)>, key: Seq<u8>)
    requires
        sorted(s),
    ensures
        as_map(s).contains_key(key) <==> exists|i: int| 0 <= i < s.len() && #[trigger] s[i].0
            == key,
        forall|i: int| 0 <= i < s.len() && #[trigger] s[i].0 == key ==> as_map(s)[key] == s[i].1,
    decreases s.len(),
{
    if s.len() > 0 {
        let t = s.drop_last();
        lemma_as_map_lookup(t, key);
        if s.last().0 == key {
            assert(s[s.len() - 1].0 == key);
            assert forall|i: int| 0 <= i < s.len() && #[trigger] s[i].0 == key implies as_map(
                s,
            )[key] == s[i].1 by {
                if i < s.len() - 1 {
                    lemma_key_lt_irreflexive(key);
                    assert(key_lt(s[i].0, s[s.len() - 1].0));
                }
            }
        } else {
            if as_map(s).contains_key(key) {
                let i = choose|i: int| 0 <= i < t.len() && #[trigger] t[i].0 == key;
                assert(s[i].0 == key);
            }
            assert forall|i: int| 0 <= i < s.len() && #[trigger] s[i].0 == key implies as_map(
                s,
            )[key] == s[i].1 && as_map(s).contains_key(key) by {
                assert(t[i].0 == key);
            }
        }
    }
}

/// The sorted sequence `s` with the pair `p` put in its place, instead of any pair with the same
/// key.
pub open spec fn put_pair(
    s: Seq<(Seq<u8>, EntryModel)>,
    p: (Seq<u8>, EntryModel),
) -> Seq<(Seq<u8>, EntryModel)>
    decreases s.len(),
{
    if s.len() == 0 {
        seq![p]
    } else if s.last().0 == p.0 {
        s.drop_last().push(p)
    } else if key_lt(s.last().0, p.0) {
        s.push(p)
    } else {
        put_pair(s.drop_last(), p).push(s.last())
    }
}

proof fn lemma_put_pair_below(
    s: Seq<(Seq<u8>, EntryModel)>,
    p: (Seq<u8>, EntryModel),
    bound: Seq<u8>,
)
    requires
        forall|i: int| 0 <= i < s.len() ==> key_lt(#[trigger] s[i].0, bound),
        key_lt(p.0, bound),
    ensures
        forall|i: int|
            0 <= i < put_pair(s, p).len() ==> key_lt(#[trigger] put_pair(s, p)[i].0, bound),
    decreases s.len(),
{
    let t = put_pair(s, p);
    if s.len() > 0 {
        let n = s.len() - 1;
        let before = s.drop_last();
        assert forall|i: int| 0 <= i < before.len() implies key_lt(
            #[trigger] before[i].0,
            bound,
        ) by {
            assert(key_lt(s[i].0, bound));
        }
        lemma_put_pair_below(before, p, bound);
        assert forall|i: int| 0 <= i < t.len() implies key_lt(#[trigger] t[i].0, bound) by {
            assert(key_lt(s[n].0, bound));
            if i < n {
                assert(key_lt(s[i].0, bound));
            }
            if i < put_pair(before, p).len() {
                assert(key_lt(put_pair(before, p)[i].0, bound));
            }
        }
    }
}

/// Putting a pair keeps the order and sets the key in the map.
pub proof fn lemma_put_pair(s: Seq<(Seq<u8>, EntryModel)>, p: (Seq<u8>, EntryModel))
    requires
        sorted(s),
    ensures
        sorted(put_pair(s, p)),
        as_map(put_pair(s, p)) == as_map(s).insert(p.0, p.1),
    decreases s.len(),
{
    let t = put_pair(s, p);
    let m = as_map(s).insert(p.0, p.1);
    if s.len() == 0 {
        assert(t.drop_last() =~= s);
        assert(as_map(t) =~= m);
    } else {
        let before = s.drop_last();
        let last = s.last();
        if last.0 == p.0 {
            assert(t.drop_last() =~= before);
            assert(as_map(t) =~= m);
        } else if key_lt(last.0, p.0) {
            assert(t.drop_last() =~= s);
            assert forall|i: int, j: int| 0 <= i < j < t.len() implies key_lt(
                #[trigger] t[i].0,
                #[trigger] t[j].0,
            ) by {
                if j == s.len() && i < s.len() - 1 {
                    assert(key_lt(s[i].0, s[s.len() - 1].0));
                    lemma_key_lt_transitive(s[i].0, last.0, p.0);
                }
            }
        } else {
            lemma_key_lt_total(last.0, p.0);
            lemma_put_pair(before, p);
            assert forall|i: int| 0 <= i < before.len() implies key_lt(
                #[trigger] before[i].0,
                last.0,
            ) by {
                assert(key_lt(s[i].0, s[s.len() - 1].0));
            }
            lemma_put_pair_below(before, p, last.0);
            assert(t.drop_last() =~= put_pair(before, p));
            assert(as_map(t) =~= m);
        }
    }
}

proof fn lemma_put_pair_update(
    s: Seq<(Seq<u8>, EntryModel)>,
    at: int,
    p: (Seq<u8>, EntryModel),
)
    requires
        sorted(s),
        0 <= at < s.len(),
        s[at].0 == p.0,
    ensures
        put_pair(s, p) == s.update(at, p),
    decreases s.len(),
{
    let n = s.len() - 1;
    if at == n {
        assert(s.drop_last().push(p) =~= s.update(at, p));
    } else {
        assert(key_lt(s[at].0, s[n].0));
        lemma_key_lt_asymmetric(p.0, s[n].0);
        lemma_put_pair_update(s.drop_last(), at, p);
        assert(s.drop_last().update(at, p).push(s.last()) =~= s.update(at, p));
    }
}

proof fn lemma_put_pair_insert(
    s: Seq<(Seq<u8>, EntryModel)>,
    at: int,
    p: (Seq<u8>, EntryModel),
)
    requires
        0 <= at <= s.len(),
        forall|i: int| 0 <= i < at ==> key_lt(#[trigger] s[i].0, p.0),
        forall|i: int| at <= i < s.len() ==> key_lt(p.0, #[trigger] s[i].0),
    ensures
        put_pair(s, p) == s.insert(at, p),
    decreases s.len(),
{
    let n = s.len() - 1;
    if s.len() == 0 {
        assert(seq![p] =~= s.insert(at, p));
    } else if at == s.len() {
        assert(key_lt(s[n].0, p.0));
        lemma_key_lt_asymmetric(s[n].0, p.0);
        assert(s.push(p) =~= s.insert(at, p));
    } else {
        assert(key_lt(p.0, s[n].0));
        lemma_key_lt_asymmetric(p.0, s[n].0);
        lemma_put_pair_insert(s.drop_last(), at, p);
        assert(s.drop_last().insert(at, p).push(s.last()) =~= s.insert(at, p));
    }
}

/// A sorted sequence is determined by its map.
pub proof fn lemma_sorted_unique(s: Seq<(Seq<u8>, EntryModel)>, t: Seq<(Seq<u8>, EntryModel)>)
    requires
        sorted(s),
        sorted(t),
        as_map(s) == as_map(t),
    ensures
        s == t,
    decreases s.len(),
{
    if s.len() == 0 {
        if t.len() > 0 {
            lemma_as_map_lookup(t, t[0].0);
        }
        assert(s =~= t);
    } else {
        let a = s[s.len() - 1].0;
        lemma_as_map_lookup(s, a);
        lemma_as_map_lookup(t, a);
        assert(s[s.len() - 1].0 == a);
        assert(as_map(s).dom().contains(a));
        assert(t.len() > 0);
        let b = t[t.len() - 1].0;
        lemma_as_map_lookup(s, b);
        lemma_as_map_lookup(t, b);
        assert(t[t.len() - 1].0 == b);
        assert(as_map(t).dom().contains(b));
        let i = choose|i: int| 0 <= i < s.len() && #[trigger] s[i].0 == b;
        let j = choose|j: int| 0 <= j < t.len() && #[trigger] t[j].0 == a;
        if a != b {
            assert(key_lt(s[i].0, s[s.len() - 1].0));
            assert(key_lt(t[j].0, t[t.len() - 1].0));
            lemma_key_lt_asymmetric(a, b);
        }
        let x = s.drop_last();
        let y = t.drop_last();
        assert(as_map(s) == as_map(x).insert(a, s.last().1));
        assert(as_map(t) == as_map(y).insert(a, t.last().1));
        assert forall|k: Seq<u8>|
            #![trigger as_map(x).dom().contains(k)]
            #![trigger as_map(y).dom().contains(k)]
            as_map(x).dom().contains(k) == as_map(y).dom().contains(k) && (
            as_map(x).dom().contains(k) ==> as_map(x)[k] == as_map(y)[k]) by {
            assert(as_map(s).dom().contains(k) == as_map(t).dom().contains(k));
            lemma_as_map_lookup(x, k);
            lemma_as_map_lookup(y, k);
            lemma_key_lt_irreflexive(a);
            if as_map(x).contains_key(k) {
                let n = choose|n: int| 0 <= n < x.len() && #[trigger] x[n].0 == k;
                assert(x[n] == s[n]);
                assert(key_lt(s[n].0, s[s.len() - 1].0));
                assert(k != a);
                assert(as_map(s)[k] == as_map(x)[k]);
                assert(as_map(t).dom().contains(k));
            }
            if as_map(y).contains_key(k) {
                let n = choose|n: int| 0 <= n < y.len() && #[trigger] y[n].0 == k;
                assert(y[n] == t[n]);
                assert(key_lt(t[n].0, t[t.len() - 1].0));
                assert(k != a);
                assert(as_map(t)[k] == as_map(y)[k]);
                assert(as_map(s).dom().contains(k));
            }
        }
        assert(as_map(x) =~= as_map(y));
        lemma_sorted_unique(x, y);
        assert(s =~= x.push(s.last()));
        assert(t =~= y.push(t.last()));
    }
}

/// What pairs and values stand for is each of them, with its whole key, in order.
pub proof fn law_pairs_stand_for_each_of_them(
    pairs: Seq<(Vec<u8>, Entry)>,
    values: Seq<(Vec<u8>, Value)>,
    i: int,
)
    ensures
        pairs_view(pairs).len() == pairs.len(),
        0 <= i < pairs.len() ==> pairs_view(pairs)[i] == (pairs[i].0@, pairs[i].1@),
        values_view(values).len() == values.len(),
        0 <= i < values.len() ==> values_view(values)[i] == (values[i].0@, values[i].1@),
{
}

} // verus!
