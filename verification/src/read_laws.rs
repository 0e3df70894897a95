//! Laws of reading: what a lookup and a scan give, over the contents of the memtable and the
//! files.

use vstd::prelude::*;
use crate::bounds::{
    has_prefix, law_inverted_bounds_hold_nothing, law_prefix_bounds_are_exact,
    law_skipped_table_holds_nothing, ordered, prefix_bound, within, BoundModel,
};
use crate::bytes::{key_lt, lemma_key_lt_asymmetric, lemma_key_lt_irreflexive};
use crate::entry_map::{as_map, lemma_as_map_lookup, lemma_put_pair, sorted, values_of};
use crate::format::{
    block_to_read, blocks_of, file_bytes, find_in_block, pairs_in_block, table_of, Pair, TableModel,
};
use crate::model::{
    entry_value, lookup_after, lookup_from, lookup_start, may_hold, merge_after, merge_at,
    merge_start, next_read, put_all, scan_step, select, LookupModel, MergeModel, ScanModel,
    StoreModel,
};
use crate::sstable::{block_ref, BlockRef};
use crate::table_laws::{
    block_of_file, fits, flatten, law_get_finds_what_was_written, lemma_block_pairs_in_file,
    lemma_blocks, lookup,
};
use crate::value::{EntryModel, ValueModel};

verus! {

// ---- the contents of a store ----

/// Whether `t` is the table of the pairs `s`, and its file holds them.
pub open spec fn holds(files: Map<Seq<char>, Seq<u8>>, t: TableModel, s: Seq<Pair>) -> bool {
    &&& sorted(s)
    &&& fits(s)
    &&& t == table_of(t.path, s)
    &&& files.contains_key(t.path)
    &&& files[t.path] == file_bytes(s)
}

/// Whether each of the tables holds the contents of the same number.
pub open spec fn all_hold(
    files: Map<Seq<char>, Seq<u8>>,
    tables: Seq<TableModel>,
    contents: Seq<Seq<Pair>>,
) -> bool {
    &&& tables.len() == contents.len()
    &&& forall|i: int| 0 <= i < tables.len() ==> holds(files, #[trigger] tables[i], contents[i])
}

/// Entries over other entries: where both have a key, the upper one counts.
pub open spec fn overlay(
    lower: Map<Seq<u8>, EntryModel>,
    upper: Map<Seq<u8>, EntryModel>,
) -> Map<Seq<u8>, EntryModel> {
    lower.union_prefer_right(upper)
}

/// The entries of some layers of pairs, the newest first.
pub open spec fn layered(contents: Seq<Seq<Pair>>) -> Map<Seq<u8>, EntryModel>
    decreases contents.len(),
{
    if contents.len() == 0 {
        Map::empty()
    } else {
        overlay(layered(contents.skip(1)), as_map(contents[0]))
    }
}

/// The entries of a memtable over tables with the given contents.
pub open spec fn all_entries(memtable: Seq<Pair>, contents: Seq<Seq<Pair>>) -> Map<
    Seq<u8>,
    EntryModel,
> {
    overlay(layered(contents), as_map(memtable))
}

/// The value of a key among some entries; a deleted key has none.
pub open spec fn value_in(m: Map<Seq<u8>, EntryModel>, key: Seq<u8>) -> Option<ValueModel> {
    if m.contains_key(key) {
        entry_value(m[key])
    } else {
        None
    }
}

/// The value of a key in a memtable over tables with the given contents: what the store stands
/// for.
pub open spec fn value_of(
    memtable: Seq<Pair>,
    contents: Seq<Seq<Pair>>,
    key: Seq<u8>,
) -> Option<ValueModel> {
    value_in(all_entries(memtable, contents), key)
}

// ---- looking up ----

/// The bytes of a block in its file.
pub open spec fn read_block(file: Seq<u8>, block: BlockRef) -> Seq<u8> {
    file.subrange(block.offset as int, block.offset + block.len)
}

/// A lookup that goes on from the `i`-th table reads that one or a later one.
pub proof fn lemma_lookup_advances(tables: Seq<TableModel>, i: int, key: Seq<u8>)
    requires
        0 <= i,
    ensures
        lookup_from(tables, i, key) matches LookupModel::Read { table, path, block } ==> i <= table
            < tables.len(),
    decreases tables.len() - i,
{
    if i < tables.len() && block_to_read(tables[i], key) is None {
        lemma_lookup_advances(tables, i + 1, key);
    }
}

/// How many tables a lookup may still read.
pub open spec fn lookup_rank(tables: Seq<TableModel>, l: LookupModel) -> int {
    match l {
        LookupModel::Found(_) => 0,
        LookupModel::Read { table, path, block } => tables.len() - table,
    }
}

/// What a lookup comes to when every block it asks for is read from `files`.
pub open spec fn run_lookup(
    files: Map<Seq<char>, Seq<u8>>,
    tables: Seq<TableModel>,
    key: Seq<u8>,
    l: LookupModel,
) -> Result<Option<ValueModel>, Seq<char>>
    decreases lookup_rank(tables, l),
{
    match l {
        LookupModel::Found(v) => Ok(v),
        LookupModel::Read { table, path, block } => if 0 <= table < tables.len() {
            match find_in_block(block.offset, read_block(files[path], block), key) {
                Err(text) => Err(text),
                Ok(found) => {
                    proof {
                        lemma_lookup_advances(tables, table + 1, key);
                    }
                    run_lookup(files, tables, key, lookup_after(tables, table, key, found))
                },
            }
        } else {
            Ok(None)
        },
    }
}

/// The entries from the `i`-th layer on are those of the next ones under its own.
pub proof fn lemma_layered_at(contents: Seq<Seq<Pair>>, i: int, key: Seq<u8>)
    requires
        0 <= i < contents.len(),
    ensures
        layered(contents.skip(i)).contains_key(key) <==> as_map(contents[i]).contains_key(key)
            || layered(contents.skip(i + 1)).contains_key(key),
        as_map(contents[i]).contains_key(key) ==> layered(contents.skip(i))[key] == as_map(
            contents[i],
        )[key],
        !as_map(contents[i]).contains_key(key) && layered(contents.skip(i + 1)).contains_key(key)
            ==> layered(contents.skip(i))[key] == layered(contents.skip(i + 1))[key],
{
    assert(contents.skip(i).skip(1) =~= contents.skip(i + 1));
    assert(contents.skip(i)[0] == contents[i]);
}

proof fn lemma_lookup_in_tables(
    files: Map<Seq<char>, Seq<u8>>,
    tables: Seq<TableModel>,
    contents: Seq<Seq<Pair>>,
    key: Seq<u8>,
    i: int,
)
    requires
        all_hold(files, tables, contents),
        0 <= i <= tables.len(),
    ensures
        run_lookup(files, tables, key, lookup_from(tables, i, key)) == Ok::<
            Option<ValueModel>,
            Seq<char>,
        >(value_in(layered(contents.skip(i)), key)),
    decreases tables.len() - i,
{
    if i == tables.len() {
        assert(contents.skip(i) =~= Seq::<Seq<Pair>>::empty());
    } else {
        let t = tables[i];
        let s = contents[i];
        assert(holds(files, tables[i], contents[i]));
        law_get_finds_what_was_written(t.path, s, key);
        lemma_layered_at(contents, i, key);
        lemma_lookup_in_tables(files, tables, contents, key, i + 1);
        match block_to_read(t, key) {
            None => {},
            Some(b) => {
                let block = block_ref(t, b);
                assert(read_block(files[t.path], block) == block_of_file(t, file_bytes(s), b));
                let found = lookup(s, key);
                let next = lookup_after(tables, i, key, found);
                assert(run_lookup(files, tables, key, next) == Ok::<
                    Option<ValueModel>,
                    Seq<char>,
                >(value_in(layered(contents.skip(i)), key)));
            },
        }
    }
}

/// A lookup finds the newest entry of its key: the value it holds, or none if it is a deletion
/// marker or the key was never written.
pub proof fn law_lookup_finds_the_newest(
    files: Map<Seq<char>, Seq<u8>>,
    s: StoreModel,
    contents: Seq<Seq<Pair>>,
    key: Seq<u8>,
)
    requires
        sorted(s.memtable),
        all_hold(files, s.tables, contents),
    ensures
        run_lookup(files, s.tables, key, lookup_start(s, key)) == Ok::<
            Option<ValueModel>,
            Seq<char>,
        >(value_of(s.memtable, contents, key)),
{
    lemma_lookup_in_tables(files, s.tables, contents, key, 0);
    assert(contents.skip(0) =~= contents);
}

// ---- merging ----

/// Putting pairs on top of others lays the map of the ones over the map of the others.
pub proof fn lemma_put_all(s: Seq<Pair>, pairs: Seq<Pair>)
    requires
        sorted(s),
    ensures
        sorted(put_all(s, pairs)),
        as_map(put_all(s, pairs)) == overlay(as_map(s), as_map(pairs)),
    decreases pairs.len(),
{
    if pairs.len() == 0 {
        assert(overlay(as_map(s), as_map(pairs)) =~= as_map(s));
    } else {
        let before = pairs.drop_last();
        lemma_put_all(s, before);
        lemma_put_pair(put_all(s, before), pairs.last());
        assert(overlay(as_map(s), as_map(pairs)) =~= overlay(as_map(s), as_map(before)).insert(
            pairs.last().0,
            pairs.last().1,
        ));
    }
}

proof fn lemma_put_all_concat(s: Seq<Pair>, a: Seq<Pair>, b: Seq<Pair>)
    ensures
        put_all(s, a + b) == put_all(put_all(s, a), b),
    decreases b.len(),
{
    if b.len() == 0 {
        assert(a + b =~= a);
    } else {
        assert((a + b).drop_last() =~= a + b.drop_last());
        lemma_put_all_concat(s, a, b.drop_last());
    }
}

proof fn lemma_select_concat(a: Seq<Pair>, b: Seq<Pair>, lo: BoundModel, hi: BoundModel)
    ensures
        select(a + b, lo, hi) == select(a, lo, hi) + select(b, lo, hi),
    decreases b.len(),
{
    if b.len() == 0 {
        assert(a + b =~= a);
        assert(select(a, lo, hi) + select(b, lo, hi) =~= select(a, lo, hi));
    } else {
        assert((a + b).drop_last() =~= a + b.drop_last());
        lemma_select_concat(a, b.drop_last(), lo, hi);
        assert(select(a + b, lo, hi) =~= select(a, lo, hi) + select(b, lo, hi));
    }
}

/// Selecting pairs restricts their map to the bounds.
pub proof fn lemma_select(pairs: Seq<Pair>, lo: BoundModel, hi: BoundModel, key: Seq<u8>)
    ensures
        as_map(select(pairs, lo, hi)).contains_key(key) <==> as_map(pairs).contains_key(key)
            && within(key, lo, hi),
        as_map(select(pairs, lo, hi)).contains_key(key) ==> as_map(select(pairs, lo, hi))[key]
            == as_map(pairs)[key],
    decreases pairs.len(),
{
    if pairs.len() > 0 {
        let before = pairs.drop_last();
        lemma_select(before, lo, hi, key);
        if within(pairs.last().0, lo, hi) {
            assert(select(pairs, lo, hi).drop_last() =~= select(before, lo, hi));
        }
    }
}

proof fn lemma_select_none(pairs: Seq<Pair>, lo: BoundModel, hi: BoundModel)
    requires
        forall|i: int| 0 <= i < pairs.len() ==> !within(#[trigger] pairs[i].0, lo, hi),
    ensures
        select(pairs, lo, hi).len() == 0,
    decreases pairs.len(),
{
    if pairs.len() > 0 {
        assert(!within(pairs[pairs.len() - 1].0, lo, hi));
        assert forall|i: int| 0 <= i < pairs.drop_last().len() implies !within(
            #[trigger] pairs.drop_last()[i].0,
            lo,
            hi,
        ) by {
            assert(!within(pairs[i].0, lo, hi));
        }
        lemma_select_none(pairs.drop_last(), lo, hi);
    }
}

proof fn lemma_not_held(path: Seq<char>, s: Seq<Pair>, lo: BoundModel, hi: BoundModel)
    requires
        sorted(s),
        !may_hold(table_of(path, s), lo, hi),
    ensures
        select(s, lo, hi).len() == 0,
{
    assert forall|i: int| 0 <= i < s.len() implies !within(#[trigger] s[i].0, lo, hi) by {
        if within(s[i].0, lo, hi) {
            let last = s.len() - 1;
            if i > 0 {
                assert(key_lt(s[0].0, s[i].0));
            }
            if i < last {
                assert(key_lt(s[i].0, s[last].0));
            }
            law_skipped_table_holds_nothing(s[0].0, s[last].0, s[i].0, lo, hi);
        }
    }
    lemma_select_none(s, lo, hi);
}

/// A block that a merge reads next is one of its tables, not before where the merge stands.
pub proof fn lemma_next_read(
    tables: Seq<TableModel>,
    t: int,
    b: int,
    lo: BoundModel,
    hi: BoundModel,
)
    requires
        t < tables.len(),
        0 <= b,
    ensures
        next_read(tables, t, b, lo, hi) matches Some((u, c)) ==> 0 <= u <= t && 0 <= c
            < tables[u].index.len() && (u == t ==> c == b) && may_hold(tables[u], lo, hi),
    decreases t + 1,
{
    if t >= 0 && !(may_hold(tables[t], lo, hi) && b < tables[t].index.len()) {
        lemma_next_read(tables, t - 1, 0, lo, hi);
    }
}

/// How many blocks of its present table a merge may still read.
pub open spec fn blocks_left(tables: Seq<TableModel>, m: MergeModel) -> int {
    if 0 <= m.table < tables.len() && m.block < tables[m.table].index.len() {
        tables[m.table].index.len() - m.block
    } else {
        0
    }
}

/// What a merge comes to when every block it asks for is read from `files`.
pub open spec fn run_merge(
    files: Map<Seq<char>, Seq<u8>>,
    tables: Seq<TableModel>,
    m: MergeModel,
) -> Result<Seq<Pair>, Seq<char>>
    decreases m.table + 1, blocks_left(tables, m),
{
    if m.table >= tables.len() || m.block < 0 {
        Ok(m.merged)
    } else {
        match next_read(tables, m.table, m.block, m.lo, m.hi) {
            None => Ok(m.merged),
            Some((t, b)) => {
                proof {
                    lemma_next_read(tables, m.table, m.block, m.lo, m.hi);
                }
                match pairs_in_block(
                    tables[t].index[b].block_offset,
                    read_block(files[tables[t].path], block_ref(tables[t], b)),
                ) {
                    Err(text) => Err(text),
                    Ok(pairs) => run_merge(files, tables, merge_after(merge_at(m, t, b), pairs)),
                }
            },
        }
    }
}

/// The pairs within the bounds of the tables from `t` down to the newest, put on top of `acc`.
pub open spec fn merged_from(
    contents: Seq<Seq<Pair>>,
    t: int,
    lo: BoundModel,
    hi: BoundModel,
    acc: Seq<Pair>,
) -> Seq<Pair>
    decreases t + 1,
{
    if t < 0 {
        acc
    } else {
        merged_from(contents, t - 1, lo, hi, put_all(acc, select(contents[t], lo, hi)))
    }
}

/// A merge that stands at block `b` of table `t`, its first `b` blocks put on top of `acc`.
spec fn merge_in_table(
    blocks: Seq<Seq<Pair>>,
    acc: Seq<Pair>,
    t: int,
    b: int,
    lo: BoundModel,
    hi: BoundModel,
) -> MergeModel {
    MergeModel {
        merged: put_all(acc, select(flatten(blocks.take(b)), lo, hi)),
        lo,
        hi,
        table: t,
        block: b,
    }
}

proof fn lemma_run_merge_table(
    files: Map<Seq<char>, Seq<u8>>,
    tables: Seq<TableModel>,
    contents: Seq<Seq<Pair>>,
    acc: Seq<Pair>,
    t: int,
    b: int,
    lo: BoundModel,
    hi: BoundModel,
)
    requires
        all_hold(files, tables, contents),
        0 <= t < tables.len(),
        may_hold(tables[t], lo, hi),
        0 <= b <= blocks_of(contents[t]).len(),
    ensures
        run_merge(files, tables, merge_in_table(blocks_of(contents[t]), acc, t, b, lo, hi)) == Ok::<
            Seq<Pair>,
            Seq<char>,
        >(merged_from(contents, t, lo, hi, acc)),
    decreases t, 1int, blocks_of(contents[t]).len() - b,
{
    let table = tables[t];
    let s = contents[t];
    let blocks = blocks_of(s);
    assert(holds(files, tables[t], contents[t]));
    lemma_blocks(s);
    let m = merge_in_table(blocks, acc, t, b, lo, hi);
    lemma_index_count(table.path, s);
    if b < blocks.len() {
        lemma_block_pairs_in_file(table.path, s, b);
        assert(read_block(files[table.path], block_ref(table, b)) == block_of_file(
            table,
            file_bytes(s),
            b,
        ));
        let next = merge_after(merge_at(m, t, b), blocks[b]);
        assert(blocks.take(b + 1).drop_last() =~= blocks.take(b));
        lemma_select_concat(flatten(blocks.take(b)), blocks[b], lo, hi);
        lemma_put_all_concat(
            acc,
            select(flatten(blocks.take(b)), lo, hi),
            select(blocks[b], lo, hi),
        );
        assert(next == merge_in_table(blocks, acc, t, b + 1, lo, hi));
        lemma_run_merge_table(files, tables, contents, acc, t, b + 1, lo, hi);
    } else {
        assert(blocks.take(b) =~= blocks);
        let full = put_all(acc, select(s, lo, hi));
        assert(m.merged == full);
        let down = MergeModel { merged: full, lo, hi, table: t - 1, block: 0 };
        lemma_run_merge_down(files, tables, m, down);
        lemma_run_merge(files, tables, contents, full, t - 1, lo, hi);
    }
}

/// A merge whose present table has nothing left to read goes on with the next one.
proof fn lemma_run_merge_down(
    files: Map<Seq<char>, Seq<u8>>,
    tables: Seq<TableModel>,
    m: MergeModel,
    down: MergeModel,
)
    requires
        0 <= m.table < tables.len(),
        0 <= m.block,
        !(may_hold(tables[m.table], m.lo, m.hi) && m.block < tables[m.table].index.len()),
        down == (MergeModel { table: m.table - 1, block: 0, ..m }),
    ensures
        run_merge(files, tables, m) == run_merge(files, tables, down),
{
    match next_read(tables, down.table, down.block, m.lo, m.hi) {
        None => {},
        Some((t, b)) => {
            assert(merge_at(m, t, b) == merge_at(down, t, b));
        },
    }
}

proof fn lemma_index_count(path: Seq<char>, s: Seq<Pair>)
    ensures
        table_of(path, s).index.len() == blocks_of(s).len(),
{
    crate::table_laws::lemma_index_len(blocks_of(s));
}

/// A merge of intact tables puts them on top of one another, from the oldest to the newest.
pub proof fn lemma_run_merge(
    files: Map<Seq<char>, Seq<u8>>,
    tables: Seq<TableModel>,
    contents: Seq<Seq<Pair>>,
    acc: Seq<Pair>,
    t: int,
    lo: BoundModel,
    hi: BoundModel,
)
    requires
        all_hold(files, tables, contents),
        -1 <= t < tables.len(),
    ensures
        run_merge(files, tables, MergeModel { merged: acc, lo, hi, table: t, block: 0 }) == Ok::<
            Seq<Pair>,
            Seq<char>,
        >(merged_from(contents, t, lo, hi, acc)),
    decreases t + 1, 0int, 0int,
{
    let m = MergeModel { merged: acc, lo, hi, table: t, block: 0 };
    if t >= 0 {
        let table = tables[t];
        let s = contents[t];
        assert(holds(files, tables[t], contents[t]));
        if may_hold(table, lo, hi) {
            let blocks = blocks_of(s);
            assert(blocks.take(0) =~= Seq::<Seq<Pair>>::empty());
            assert(m == merge_in_table(blocks, acc, t, 0, lo, hi));
            lemma_run_merge_table(files, tables, contents, acc, t, 0, lo, hi);
        } else {
            lemma_not_held(table.path, s, lo, hi);
            assert(put_all(acc, select(s, lo, hi)) == acc);
            lemma_run_merge_down(
                files,
                tables,
                m,
                MergeModel { merged: acc, lo, hi, table: t - 1, block: 0 },
            );
            lemma_run_merge(files, tables, contents, acc, t - 1, lo, hi);
        }
    }
}

/// What a merge comes to, key by key: the layers below `t`, put on top of those of `acc`.
proof fn lemma_merged_from(
    contents: Seq<Seq<Pair>>,
    t: int,
    lo: BoundModel,
    hi: BoundModel,
    acc: Seq<Pair>,
    key: Seq<u8>,
)
    requires
        -1 <= t < contents.len(),
        sorted(acc),
        as_map(acc).contains_key(key) <==> layered(contents.skip(t + 1)).contains_key(key)
            && within(key, lo, hi),
        as_map(acc).contains_key(key) ==> as_map(acc)[key] == layered(contents.skip(t + 1))[key],
    ensures
        sorted(merged_from(contents, t, lo, hi, acc)),
        as_map(merged_from(contents, t, lo, hi, acc)).contains_key(key) <==> layered(
            contents,
        ).contains_key(key) && within(key, lo, hi),
        as_map(merged_from(contents, t, lo, hi, acc)).contains_key(key) ==> as_map(
            merged_from(contents, t, lo, hi, acc),
        )[key] == layered(contents)[key],
    decreases t + 1,
{
    if t < 0 {
        assert(contents.skip(0) =~= contents);
    } else {
        let next = put_all(acc, select(contents[t], lo, hi));
        lemma_put_all(acc, select(contents[t], lo, hi));
        lemma_select(contents[t], lo, hi, key);
        lemma_layered_at(contents, t, key);
        lemma_merged_from(contents, t - 1, lo, hi, next, key);
    }
}

/// What a whole merge of intact tables comes to, key by key: the newest entry of each key within
/// the bounds.
pub proof fn lemma_whole_merge(
    files: Map<Seq<char>, Seq<u8>>,
    tables: Seq<TableModel>,
    contents: Seq<Seq<Pair>>,
    lo: BoundModel,
    hi: BoundModel,
    key: Seq<u8>,
)
    requires
        all_hold(files, tables, contents),
    ensures
        ({
            let merged = merged_from(contents, tables.len() - 1, lo, hi, Seq::empty());
            &&& run_merge(files, tables, merge_start(tables, lo, hi)) == Ok::<
                Seq<Pair>,
                Seq<char>,
            >(merged)
            &&& sorted(merged)
            &&& as_map(merged).contains_key(key) <==> layered(contents).contains_key(key)
                && within(key, lo, hi)
            &&& as_map(merged).contains_key(key) ==> as_map(merged)[key] == layered(contents)[key]
        }),
{
    lemma_run_merge(files, tables, contents, Seq::empty(), tables.len() - 1, lo, hi);
    assert(contents.skip(tables.len() as int) =~= Seq::<Seq<Pair>>::empty());
    lemma_merged_from(contents, tables.len() - 1, lo, hi, Seq::empty(), key);
}

// ---- scanning ----

/// Where the merge of a scan stands.
pub open spec fn scan_table(scan: ScanModel) -> int {
    match scan {
        ScanModel::ReadBlock { path, block, merge } => merge.table + 2,
        ScanModel::Done(_) => 0,
    }
}

/// How many blocks of its present table a scan may still read.
pub open spec fn scan_blocks(tables: Seq<TableModel>, scan: ScanModel) -> int {
    match scan {
        ScanModel::ReadBlock { path, block, merge } => blocks_left(tables, merge),
        ScanModel::Done(_) => 0,
    }
}

/// What a scan comes to when every block it asks for is read from `files`.
pub open spec fn run_scan(
    files: Map<Seq<char>, Seq<u8>>,
    s: StoreModel,
    scan: ScanModel,
) -> Result<Seq<(Seq<u8>, ValueModel)>, Seq<char>>
    decreases scan_table(scan), scan_blocks(s.tables, scan),
{
    match scan {
        ScanModel::Done(items) => Ok(items),
        ScanModel::ReadBlock { path, block, merge } => if !(0 <= merge.table < s.tables.len() && 0
            <= merge.block < s.tables[merge.table].index.len()) {
            Ok(Seq::empty())
        } else {
            match pairs_in_block(block.offset, read_block(files[path], block)) {
                Err(text) => Err(text),
                Ok(pairs) => {
                    proof {
                        let next = merge_after(merge, pairs);
                        lemma_next_read(s.tables, next.table, next.block, next.lo, next.hi);
                    }
                    run_scan(files, s, scan_step(s, merge_after(merge, pairs)))
                },
            }
        },
    }
}

proof fn lemma_run_scan(files: Map<Seq<char>, Seq<u8>>, s: StoreModel, m: MergeModel)
    requires
        m.table < s.tables.len(),
        0 <= m.block,
    ensures
        run_scan(files, s, scan_step(s, m)) == (match run_merge(files, s.tables, m) {
            Ok(merged) => Ok(values_of(put_all(merged, select(s.memtable, m.lo, m.hi)))),
            Err(text) => Err(text),
        }),
    decreases m.table + 1, blocks_left(s.tables, m),
{
    lemma_next_read(s.tables, m.table, m.block, m.lo, m.hi);
    match next_read(s.tables, m.table, m.block, m.lo, m.hi) {
        None => {},
        Some((t, b)) => {
            let at = merge_at(m, t, b);
            match pairs_in_block(
                s.tables[t].index[b].block_offset,
                read_block(files[s.tables[t].path], block_ref(s.tables[t], b)),
            ) {
                Err(text) => {},
                Ok(pairs) => {
                    lemma_run_scan(files, s, merge_after(at, pairs));
                },
            }
        },
    }
}

/// Whether the keys of `items` are in strictly ascending order.
pub open spec fn ascending(items: Seq<(Seq<u8>, ValueModel)>) -> bool {
    forall|i: int, j: int|
        0 <= i < j < items.len() ==> key_lt(#[trigger] items[i].0, #[trigger] items[j].0)
}

/// Items in ascending order are known by what they are.
pub proof fn lemma_ascending_unique(
    a: Seq<(Seq<u8>, ValueModel)>,
    b: Seq<(Seq<u8>, ValueModel)>,
)
    requires
        ascending(a),
        ascending(b),
        forall|x: (Seq<u8>, ValueModel)| #[trigger] a.contains(x) <==> b.contains(x),
    ensures
        a == b,
    decreases a.len(),
{
    if a.len() == 0 {
        if b.len() > 0 {
            assert(b.contains(b[0]));
            assert(a.contains(b[0]));
        }
        assert(a =~= b);
    } else {
        let n = a.len() - 1;
        assert(a.contains(a[n]));
        let i = choose|i: int| 0 <= i < b.len() && b[i] == a[n];
        let m = b.len() - 1;
        assert(b.contains(b[m]));
        assert(a.contains(b[m]));
        let j = choose|j: int| 0 <= j < a.len() && a[j] == b[m];
        if i < m && j < n {
            assert(key_lt(b[i].0, b[m].0));
            assert(key_lt(a[j].0, a[n].0));
            lemma_key_lt_asymmetric(a[n].0, b[m].0);
        }
        assert(a[n] == b[m]);
        let x = a.drop_last();
        let y = b.drop_last();
        lemma_key_lt_irreflexive(a[n].0);
        assert forall|t: (Seq<u8>, ValueModel)| #[trigger] x.contains(t) <==> y.contains(t) by {
            if x.contains(t) {
                let k = choose|k: int| 0 <= k < x.len() && x[k] == t;
                assert(a[k] == t);
                assert(a.contains(t));
                let l = choose|l: int| 0 <= l < b.len() && b[l] == t;
                assert(key_lt(a[k].0, a[n].0));
                assert(l < m);
                assert(y[l] == t);
            }
            if y.contains(t) {
                let k = choose|k: int| 0 <= k < y.len() && y[k] == t;
                assert(b[k] == t);
                assert(b.contains(t));
                assert(a.contains(t));
                let l = choose|l: int| 0 <= l < a.len() && a[l] == t;
                assert(key_lt(b[k].0, b[m].0));
                assert(l < n);
                assert(x[l] == t);
            }
        }
        lemma_ascending_unique(x, y);
        assert(a =~= x.push(a[n]));
        assert(b =~= y.push(b[m]));
    }
}

proof fn lemma_values_below(s: Seq<Pair>, bound: Seq<u8>)
    requires
        forall|i: int| 0 <= i < s.len() ==> key_lt(#[trigger] s[i].0, bound),
    ensures
        forall|i: int|
            0 <= i < values_of(s).len() ==> key_lt(#[trigger] values_of(s)[i].0, bound),
    decreases s.len(),
{
    if s.len() > 0 {
        let before = s.drop_last();
        assert forall|i: int| 0 <= i < before.len() implies key_lt(
            #[trigger] before[i].0,
            bound,
        ) by {
            assert(key_lt(s[i].0, bound));
        }
        lemma_values_below(before, bound);
        assert forall|i: int| 0 <= i < values_of(s).len() implies key_lt(
            #[trigger] values_of(s)[i].0,
            bound,
        ) by {
            if i < values_of(before).len() {
                assert(key_lt(values_of(before)[i].0, bound));
            } else {
                assert(key_lt(s[s.len() - 1].0, bound));
            }
        }
    }
}

/// The values of sorted pairs are in order, and they are the values of the map.
pub proof fn lemma_values_of(s: Seq<Pair>, key: Seq<u8>, v: ValueModel)
    requires
        sorted(s),
    ensures
        ascending(values_of(s)),
        values_of(s).contains((key, v)) <==> value_in(as_map(s), key) == Some(v),
    decreases s.len(),
{
    let items = values_of(s);
    if s.len() > 0 {
        let before = s.drop_last();
        let n = s.len() - 1;
        lemma_values_of(before, key, v);
        assert forall|i: int| 0 <= i < before.len() implies key_lt(
            #[trigger] before[i].0,
            s.last().0,
        ) by {
            assert(key_lt(s[i].0, s[n].0));
        }
        lemma_values_below(before, s.last().0);
        lemma_as_map_lookup(before, key);
        let old_items = values_of(before);
        crate::bytes::lemma_key_lt_irreflexive(key);
        if s.last().0 == key {
            if old_items.contains((key, v)) {
                let i = choose|i: int| 0 <= i < old_items.len() && old_items[i] == (key, v);
                assert(key_lt(old_items[i].0, s.last().0));
            }
        }
        match s.last().1 {
            EntryModel::Value(w) => {
                assert(items =~= old_items.push((s.last().0, w)));
                if items.contains((key, v)) {
                    let i = choose|i: int| 0 <= i < items.len() && items[i] == (key, v);
                    if i < old_items.len() {
                        assert(old_items[i] == (key, v));
                    }
                }
                if old_items.contains((key, v)) {
                    let i = choose|i: int| 0 <= i < old_items.len() && old_items[i] == (key, v);
                    assert(items[i] == (key, v));
                }
                if s.last().0 == key && w == v {
                    assert(items[old_items.len() as int] == (key, v));
                }
            },
            EntryModel::Tombstone => {},
        }
    }
}

/// A scan gives the keys within its bounds that have a value, each once, in ascending order, and
/// with its newest value.
pub proof fn law_scan_gives_every_value_in_order(
    files: Map<Seq<char>, Seq<u8>>,
    s: StoreModel,
    contents: Seq<Seq<Pair>>,
    lo: BoundModel,
    hi: BoundModel,
)
    requires
        sorted(s.memtable),
        all_hold(files, s.tables, contents),
    ensures
        run_scan(files, s, scan_step(s, merge_start(s.tables, lo, hi))) matches Ok(items)
            && ascending(items) && forall|key: Seq<u8>, v: ValueModel|
            #[trigger] items.contains((key, v)) <==> within(key, lo, hi) && value_of(
                s.memtable,
                contents,
                key,
            ) == Some(v),
{
    let m = merge_start(s.tables, lo, hi);
    let merged = merged_from(contents, s.tables.len() - 1, lo, hi, Seq::empty());
    let upper = select(s.memtable, lo, hi);
    let all = put_all(merged, upper);
    lemma_run_scan(files, s, m);
    lemma_whole_merge(files, s.tables, contents, lo, hi, Seq::empty());
    lemma_put_all(merged, upper);
    let items = values_of(all);
    lemma_values_of(all, Seq::empty(), ValueModel::Boolean(true));
    assert forall|key: Seq<u8>, v: ValueModel| #[trigger] items.contains((key, v)) <==> within(
        key,
        lo,
        hi,
    ) && value_of(s.memtable, contents, key) == Some(v) by {
        lemma_whole_merge(files, s.tables, contents, lo, hi, key);
        lemma_select(s.memtable, lo, hi, key);
        lemma_values_of(all, key, v);
    }
}

/// A prefix scan gives exactly the keys that begin with the prefix and have a value, each once, in
/// ascending order, and with its newest value.
pub proof fn law_prefix_scan_gives_the_keys_with_the_prefix(
    files: Map<Seq<char>, Seq<u8>>,
    s: StoreModel,
    contents: Seq<Seq<Pair>>,
    prefix: Seq<u8>,
)
    requires
        sorted(s.memtable),
        all_hold(files, s.tables, contents),
    ensures
        run_scan(
            files,
            s,
            scan_step(
                s,
                merge_start(s.tables, BoundModel::Included(prefix), prefix_bound(prefix)),
            ),
        ) matches Ok(items) && ascending(items) && forall|key: Seq<u8>, v: ValueModel|
            #[trigger] items.contains((key, v)) <==> has_prefix(key, prefix) && value_of(
                s.memtable,
                contents,
                key,
            ) == Some(v),
{
    let lo = BoundModel::Included(prefix);
    let hi = prefix_bound(prefix);
    law_scan_gives_every_value_in_order(files, s, contents, lo, hi);
    let items = run_scan(files, s, scan_step(s, merge_start(s.tables, lo, hi)))->Ok_0;
    assert forall|key: Seq<u8>, v: ValueModel| #[trigger] items.contains((key, v)) <==> has_prefix(
        key,
        prefix,
    ) && value_of(s.memtable, contents, key) == Some(v) by {
        law_prefix_bounds_are_exact(key, prefix);
    }
}

/// The items whose key lies within the bounds, in their order.
pub open spec fn items_within(
    items: Seq<(Seq<u8>, ValueModel)>,
    lo: BoundModel,
    hi: BoundModel,
) -> Seq<(Seq<u8>, ValueModel)> {
    items.filter(|x: (Seq<u8>, ValueModel)| within(x.0, lo, hi))
}

proof fn lemma_items_within(
    items: Seq<(Seq<u8>, ValueModel)>,
    lo: BoundModel,
    hi: BoundModel,
    bound: Option<Seq<u8>>,
)
    requires
        ascending(items),
        bound matches Some(b) ==> forall|i: int|
            0 <= i < items.len() ==> key_lt(#[trigger] items[i].0, b),
    ensures
        ascending(items_within(items, lo, hi)),
        bound matches Some(b) ==> forall|i: int|
            0 <= i < items_within(items, lo, hi).len() ==> key_lt(
                #[trigger] items_within(items, lo, hi)[i].0,
                b,
            ),
        forall|x: (Seq<u8>, ValueModel)| #[trigger]
            items_within(items, lo, hi).contains(x) <==> items.contains(x) && within(x.0, lo, hi),
    decreases items.len(),
{
    reveal(Seq::filter);
    let kept = items_within(items, lo, hi);
    if items.len() > 0 {
        let before = items.drop_last();
        let last = items.last();
        let n = items.len() - 1;
        assert(items[n] == last);
        assert forall|i: int| 0 <= i < before.len() implies key_lt(
            #[trigger] before[i].0,
            last.0,
        ) by {
            assert(key_lt(items[i].0, items[n].0));
        }
        assert(ascending(before)) by {
            assert forall|i: int, j: int| 0 <= i < j < before.len() implies key_lt(
                #[trigger] before[i].0,
                #[trigger] before[j].0,
            ) by {
                assert(key_lt(items[i].0, items[j].0));
            }
        }
        lemma_items_within(before, lo, hi, Some(last.0));
        let sub = items_within(before, lo, hi);
        assert(kept == (if within(last.0, lo, hi) {
            sub.push(last)
        } else {
            sub
        }));
        assert forall|x: (Seq<u8>, ValueModel)| #[trigger] kept.contains(x) <==> items.contains(x)
            && within(x.0, lo, hi) by {
            if kept.contains(x) {
                let i = choose|i: int| 0 <= i < kept.len() && kept[i] == x;
                if i < sub.len() {
                    assert(sub[i] == x);
                    assert(sub.contains(x));
                    let j = choose|j: int| 0 <= j < before.len() && before[j] == x;
                    assert(items[j] == x);
                }
            }
            if items.contains(x) && within(x.0, lo, hi) {
                let j = choose|j: int| 0 <= j < items.len() && items[j] == x;
                if j < n {
                    assert(before[j] == x);
                    assert(sub.contains(x));
                    let i = choose|i: int| 0 <= i < sub.len() && sub[i] == x;
                    assert(kept[i] == x);
                } else {
                    assert(kept[sub.len() as int] == x);
                }
            }
        }
        if let Some(b) = bound {
            assert forall|i: int| 0 <= i < kept.len() implies key_lt(#[trigger] kept[i].0, b) by {
                assert(kept.contains(kept[i]));
                let j = choose|j: int| 0 <= j < items.len() && items[j] == kept[i];
                assert(key_lt(items[j].0, b));
            }
        }
    }
}

/// A scan within bounds is the scan of everything, filtered by the bounds: the same items in the
/// same order. A scan within inverted bounds gives nothing.
pub proof fn law_scan_is_the_full_scan_filtered(
    files: Map<Seq<char>, Seq<u8>>,
    s: StoreModel,
    contents: Seq<Seq<Pair>>,
    lo: BoundModel,
    hi: BoundModel,
)
    requires
        sorted(s.memtable),
        all_hold(files, s.tables, contents),
    ensures
        run_scan(
            files,
            s,
            scan_step(s, merge_start(s.tables, BoundModel::Unbounded, BoundModel::Unbounded)),
        ) matches Ok(all) && run_scan(files, s, scan_step(s, merge_start(s.tables, lo, hi))) == Ok::<
            Seq<(Seq<u8>, ValueModel)>,
            Seq<char>,
        >(items_within(all, lo, hi)),
        !ordered(lo, hi) ==> run_scan(files, s, scan_step(s, merge_start(s.tables, lo, hi))) == Ok::<
            Seq<(Seq<u8>, ValueModel)>,
            Seq<char>,
        >(Seq::empty()),
{
    let none = BoundModel::Unbounded;
    law_scan_gives_every_value_in_order(files, s, contents, none, none);
    law_scan_gives_every_value_in_order(files, s, contents, lo, hi);
    let all = run_scan(files, s, scan_step(s, merge_start(s.tables, none, none)))->Ok_0;
    let some = run_scan(files, s, scan_step(s, merge_start(s.tables, lo, hi)))->Ok_0;
    lemma_items_within(all, lo, hi, None);
    assert forall|x: (Seq<u8>, ValueModel)| #[trigger] some.contains(x) <==> items_within(
        all,
        lo,
        hi,
    ).contains(x) by {
        let (key, v) = x;
        assert(x == (key, v));
        assert(some.contains((key, v)) <==> within(key, lo, hi) && value_of(
            s.memtable,
            contents,
            key,
        ) == Some(v));
        assert(all.contains((key, v)) <==> within(key, none, none) && value_of(
            s.memtable,
            contents,
            key,
        ) == Some(v));
    }
    lemma_ascending_unique(some, items_within(all, lo, hi));
    if !ordered(lo, hi) {
        if some.len() > 0 {
            let (key, v) = some[0];
            assert(some.contains((key, v)));
            law_inverted_bounds_hold_nothing(lo, hi, key);
        }
        assert(some =~= Seq::empty());
    }
}

/// The value of a key is that of the memtable's pair for it; where the memtable has none, that of
/// the newest table that has one; where none has one, there is none. A deletion marker is no value.
pub proof fn law_value_is_that_of_the_newest_layer(
    memtable: Seq<Pair>,
    contents: Seq<Seq<Pair>>,
    key: Seq<u8>,
    e: EntryModel,
    i: int,
)
    requires
        sorted(memtable),
        forall|j: int| 0 <= j < contents.len() ==> sorted(#[trigger] contents[j]),
    ensures
        ({
            let value = match e {
                EntryModel::Value(v) => Some(v),
                EntryModel::Tombstone => None,
            };
            &&& memtable.contains((key, e)) ==> value_of(memtable, contents, key) == value
            &&& no_pair_for(memtable, key) && 0 <= i < contents.len() && contents[i].contains(
                (key, e),
            ) && (forall|j: int| 0 <= j < i ==> no_pair_for(#[trigger] contents[j], key))
                ==> value_of(memtable, contents, key) == value
            &&& no_pair_for(memtable, key) && (forall|j: int|
                0 <= j < contents.len() ==> no_pair_for(#[trigger] contents[j], key)) ==> value_of(
                memtable,
                contents,
                key,
            ) is None
        }),
    decreases contents.len(),
{
    lemma_as_map_lookup(memtable, key);
    if memtable.contains((key, e)) {
        let k = choose|k: int| 0 <= k < memtable.len() && memtable[k] == (key, e);
        assert(memtable[k].0 == key);
    }
    if no_pair_for(memtable, key) {
        assert(!as_map(memtable).contains_key(key));
        lemma_newest_layer(contents, key, e, i);
    }
}

/// Whether none of the pairs has this key.
pub open spec fn no_pair_for(s: Seq<Pair>, key: Seq<u8>) -> bool {
    forall|i: int| 0 <= i < s.len() ==> (#[trigger] s[i]).0 != key
}

proof fn lemma_newest_layer(contents: Seq<Seq<Pair>>, key: Seq<u8>, e: EntryModel, i: int)
    requires
        forall|j: int| 0 <= j < contents.len() ==> sorted(#[trigger] contents[j]),
    ensures
        0 <= i < contents.len() && contents[i].contains((key, e)) && (forall|j: int|
            0 <= j < i ==> no_pair_for(#[trigger] contents[j], key)) ==> layered(
            contents,
        ).contains_key(key) && layered(contents)[key] == e,
        (forall|j: int| 0 <= j < contents.len() ==> no_pair_for(#[trigger] contents[j], key))
            ==> !layered(contents).contains_key(key),
    decreases contents.len(),
{
    if contents.len() > 0 {
        let top = contents[0];
        let rest = contents.skip(1);
        assert(sorted(top));
        lemma_as_map_lookup(top, key);
        assert forall|j: int| 0 <= j < rest.len() implies sorted(#[trigger] rest[j]) by {
            assert(sorted(contents[j + 1]));
        }
        lemma_newest_layer(rest, key, e, i - 1);
        if 0 <= i < contents.len() && contents[i].contains((key, e)) && (forall|j: int|
            0 <= j < i ==> no_pair_for(#[trigger] contents[j], key)) {
            if i == 0 {
                let k = choose|k: int| 0 <= k < top.len() && top[k] == (key, e);
                assert(top[k].0 == key);
            } else {
                assert(no_pair_for(contents[0], key));
                assert(rest[i - 1] == contents[i]);
                assert forall|j: int| 0 <= j < i - 1 implies no_pair_for(
                    #[trigger] rest[j],
                    key,
                ) by {
                    assert(no_pair_for(contents[j + 1], key));
                }
            }
        }
        if forall|j: int| 0 <= j < contents.len() ==> no_pair_for(#[trigger] contents[j], key) {
            assert(no_pair_for(contents[0], key));
            assert forall|j: int| 0 <= j < rest.len() implies no_pair_for(
                #[trigger] rest[j],
                key,
            ) by {
                assert(no_pair_for(contents[j + 1], key));
            }
        }
    }
}

} // verus!
