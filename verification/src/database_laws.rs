//! Laws of a database and the directory it lives in.

use vstd::prelude::*;
use vstd::utf8::encode_utf8;
use crate::bounds::BoundModel;
use crate::bytes::{key_le, key_lt, lemma_key_lt_transitive};
use crate::database::{
    delete_step, directory_names, distinct, law_deleted_table_is_gone,
    law_list_is_sorted_and_complete, names_sorted, opened_as, place_name, valid_name, DatabaseModel,
};
use crate::errors::ErrorModel;
use crate::history_laws::{fresh_world, law_fresh_world_is_sound, sound, value_at};
use crate::model::{merge_start, scan_step};
use crate::names::{joined, table_name, table_path};
use crate::read_laws::{law_scan_gives_every_value_in_order, run_scan};
use crate::value::ValueModel;

verus! {

/// The directory of a database: its entries, with whether each is a directory, and the files below
/// it.
pub struct RootModel {
    pub entries: Seq<(Seq<char>, bool)>,
    pub files: Map<Seq<char>, Seq<u8>>,
}

/// Whether the directory has an entry of this name.
pub open spec fn listed(root: RootModel, name: Seq<char>) -> bool {
    root.entries.contains((name, true)) || root.entries.contains((name, false))
}

/// Whether the file at `path` lies in the directory `dir`.
pub open spec fn lies_in(path: Seq<char>, dir: Seq<char>) -> bool {
    path.len() > dir.len() && path.take(dir.len() as int + 1) == dir.push('/')
}

/// The entries of a directory without one.
pub open spec fn entries_without(entries: Seq<(Seq<char>, bool)>, name: Seq<char>) -> Seq<
    (Seq<char>, bool),
> {
    entries.filter(|e: (Seq<char>, bool)| e.0 != name)
}

/// The directory of a database when the entry `name`, the directory `dir`, has been removed with all
/// that lies in it.
pub open spec fn with_directory_removed(
    root: RootModel,
    name: Seq<char>,
    dir: Seq<char>,
) -> RootModel {
    RootModel {
        entries: entries_without(root.entries, name),
        files: root.files.remove_keys(Set::new(|path: Seq<char>| lies_in(path, dir))),
    }
}

/// The names without one.
pub open spec fn names_without(names: Seq<Seq<char>>, name: Seq<char>) -> Seq<Seq<char>> {
    names.filter(|x: Seq<char>| x != name)
}

proof fn lemma_filter_member(names: Seq<Seq<char>>, name: Seq<char>, i: int)
    requires
        0 <= i < names_without(names, name).len(),
    ensures
        names.contains(names_without(names, name)[i]),
    decreases names.len(),
{
    reveal(Seq::filter);
    let kept = names_without(names, name);
    if names.len() > 0 {
        let before = names.drop_last();
        let sub = names_without(before, name);
        if i < sub.len() {
            lemma_filter_member(before, name, i);
            let j = choose|j: int| 0 <= j < before.len() && before[j] == sub[i];
            assert(names[j] == kept[i]);
        } else {
            assert(names[names.len() - 1] == kept[i]);
        }
    }
}

/// Placing a name and leaving one out can be done in either order.
proof fn lemma_place_without(s: Seq<Seq<char>>, y: Seq<char>, name: Seq<char>)
    requires
        names_sorted(s),
    ensures
        names_without(place_name(s, y), name) == (if y != name {
            place_name(names_without(s, name), y)
        } else {
            names_without(s, name)
        }),
    decreases s.len(),
{
    reveal(Seq::filter);
    let kept = names_without(s, name);
    if s.len() == 0 || !key_lt(encode_utf8(y), encode_utf8(s.last())) {
        assert(s.push(y).drop_last() =~= s);
        assert(s.push(y).last() == y);
        if y != name && kept.len() > 0 {
            let n = kept.len() - 1;
            lemma_filter_member(s, name, n);
            let j = choose|j: int| 0 <= j < s.len() && s[j] == kept[n];
            let z = encode_utf8(s[j]);
            let last = encode_utf8(s.last());
            assert(j < s.len() - 1 ==> key_le(encode_utf8(s[j]), encode_utf8(s[s.len() - 1])));
            if key_lt(encode_utf8(y), z) && z != last {
                lemma_key_lt_transitive(encode_utf8(y), z, last);
            }
        }
    } else {
        let before = s.drop_last();
        assert forall|i: int, j: int| 0 <= i < j < before.len() implies key_le(
            encode_utf8(#[trigger] before[i]),
            encode_utf8(#[trigger] before[j]),
        ) by {
            assert(key_le(encode_utf8(s[i]), encode_utf8(s[j])));
        }
        lemma_place_without(before, y, name);
        let p = place_name(before, y);
        assert(p.push(s.last()).drop_last() =~= p);
        if s.last() != name {
            let sub = names_without(before, name);
            assert(kept == sub.push(s.last()));
            assert(kept.drop_last() =~= sub);
        }
    }
}

/// The list of tables without an entry is the list without its name.
proof fn lemma_list_without(entries: Seq<(Seq<char>, bool)>, name: Seq<char>)
    ensures
        directory_names(entries_without(entries, name)) == names_without(
            directory_names(entries),
            name,
        ),
    decreases entries.len(),
{
    reveal(Seq::filter);
    if entries.len() > 0 {
        let before = entries.drop_last();
        let last = entries.last();
        lemma_list_without(before, name);
        law_list_is_sorted_and_complete(before, name);
        if last.1 {
            lemma_place_without(directory_names(before), last.0, name);
        }
        if last.0 != name {
            let kept = entries_without(before, name);
            assert(entries_without(entries, name) == kept.push(last));
            assert(kept.push(last).drop_last() =~= kept);
        }
    } else {
        assert(entries_without(entries, name) =~= entries);
    }
}

proof fn lemma_entries_without(entries: Seq<(Seq<char>, bool)>, name: Seq<char>, flag: bool)
    ensures
        !entries_without(entries, name).contains((name, flag)),
    decreases entries.len(),
{
    reveal(Seq::filter);
    if entries.len() > 0 {
        let before = entries.drop_last();
        lemma_entries_without(before, name, flag);
        let kept = entries_without(before, name);
        let all = entries_without(entries, name);
        if all.contains((name, flag)) {
            let i = choose|i: int| 0 <= i < all.len() && all[i] == (name, flag);
            if i < kept.len() {
                assert(kept[i] == (name, flag));
            }
        }
    }
}

/// The directories of two tables have no file in common.
proof fn lemma_directories_apart(
    root: Seq<char>,
    a: Seq<char>,
    b: Seq<char>,
    path: Seq<char>,
)
    requires
        valid_name(a),
        valid_name(b),
        lies_in(path, joined(root, a)),
        lies_in(path, joined(root, b)),
    ensures
        a == b,
{
    let base = joined(root, Seq::empty());
    let da = joined(root, a);
    let db = joined(root, b);
    reveal_strlit("/");
    assert(da =~= base + a);
    assert(db =~= base + b);
    let n = base.len() as int;
    assert(path.take(da.len() as int + 1) == da.push('/'));
    assert(path.take(db.len() as int + 1) == db.push('/'));
    assert(da.push('/')[da.len() as int] == '/');
    assert(db.push('/')[db.len() as int] == '/');
    assert forall|i: int| 0 <= i < da.len() implies path[i] == #[trigger] da[i] by {
        assert(path.take(da.len() as int + 1)[i] == da.push('/')[i]);
    }
    assert forall|i: int| 0 <= i < db.len() implies path[i] == #[trigger] db[i] by {
        assert(path.take(db.len() as int + 1)[i] == db.push('/')[i]);
    }
    assert(path[da.len() as int] == '/') by {
        assert(path.take(da.len() as int + 1)[da.len() as int] == '/');
    }
    assert(path[db.len() as int] == '/') by {
        assert(path.take(db.len() as int + 1)[db.len() as int] == '/');
    }
    if a.len() < b.len() {
        assert(db[da.len() as int] == b[a.len() as int]);
        assert(b.contains('/'));
    } else if b.len() < a.len() {
        assert(da[db.len() as int] == a[b.len() as int]);
        assert(a.contains('/'));
    } else {
        assert forall|i: int| 0 <= i < a.len() implies a[i] == b[i] by {
            assert(da[n + i] == a[i]);
            assert(db[n + i] == b[i]);
        }
        assert(a =~= b);
    }
}

/// Every file of a table lies in its directory.
proof fn lemma_file_lies_in(root: Seq<char>, name: Seq<char>, file: Seq<char>)
    requires
        valid_name(name),
    ensures
        lies_in(joined(joined(root, name), file), joined(root, name)),
{
    reveal_strlit("/");
    let dir = joined(root, name);
    let path = joined(dir, file);
    assert(dir.last() == name.last());
    if name.last() == '/' {
        assert(name[name.len() - 1] == '/');
        assert(name.contains('/'));
    }
    assert(path.take(dir.len() as int + 1) =~= dir.push('/'));
}

/// Whether a scan of the table that is opened in the directory `dir` gives nothing.
pub open spec fn starts_empty(dir: Seq<char>, files: Map<Seq<char>, Seq<u8>>) -> bool {
    let w = fresh_world(dir, files);
    &&& sound(w)
    &&& run_scan(
        files,
        w.store,
        scan_step(
            w.store,
            merge_start(w.store.tables, BoundModel::Unbounded, BoundModel::Unbounded),
        ),
    ) == Ok::<Seq<(Seq<u8>, ValueModel)>, Seq<char>>(Seq::empty())
}

proof fn lemma_starts_empty(dir: Seq<char>, files: Map<Seq<char>, Seq<u8>>)
    requires
        forall|id: u64| !files.contains_key(#[trigger] table_path(dir, id)),
    ensures
        starts_empty(dir, files),
{
    let w = fresh_world(dir, files);
    let none = BoundModel::Unbounded;
    law_fresh_world_is_sound(dir, files, Seq::empty());
    law_scan_gives_every_value_in_order(files, w.store, w.contents, none, none);
    let items = run_scan(
        files,
        w.store,
        scan_step(w.store, merge_start(w.store.tables, none, none)),
    )->Ok_0;
    if items.len() > 0 {
        let (key, v) = items[0];
        assert(items.contains((key, v)));
        law_fresh_world_is_sound(dir, files, key);
        assert(value_at(w, key) == Some(v));
    }
    assert(items =~= Seq::empty());
}

/// Deleting a table as a whole. A table whose directory does not exist is not found, and nothing
/// changes. Else, once its directory is removed, the list of tables is as before without exactly its
/// name, the table is no longer open, opening it again gives an empty one, and deleting it again
/// does not find it. Every other table stays open or closed as it was, and keeps its files.
pub proof fn law_delete_table_as_a_whole(
    db: DatabaseModel,
    root: RootModel,
    name: Seq<char>,
    other: Seq<char>,
    path: Seq<char>,
)
    requires
        distinct(db.open),
        valid_name(name),
    ensures
        !listed(root, name) ==> delete_step(db, name, listed(root, name)) == (
            db,
            Err::<Seq<char>, ErrorModel>(ErrorModel::TableNotFound(name)),
        ),
        root.entries.contains((name, true)) ==> ({
            let dir = joined(db.root, name);
            let (next, result) = delete_step(db, name, listed(root, name));
            let after = with_directory_removed(root, name, dir);
            &&& result == Ok::<Seq<char>, ErrorModel>(dir)
            &&& next.root == db.root
            &&& directory_names(after.entries) == names_without(
                directory_names(root.entries),
                name,
            )
            &&& opened_as(next.open, name) is None
            &&& starts_empty(dir, after.files)
            &&& delete_step(next, name, listed(after, name)) == (
                next,
                Err::<Seq<char>, ErrorModel>(ErrorModel::TableNotFound(name)),
            )
            &&& other != name ==> opened_as(next.open, other) == opened_as(db.open, other)
            &&& other != name && valid_name(other) && lies_in(path, joined(db.root, other)) ==> {
                &&& after.files.contains_key(path) == root.files.contains_key(path)
                &&& root.files.contains_key(path) ==> after.files[path] == root.files[path]
            }
        }),
{
    let dir = joined(db.root, name);
    let after = with_directory_removed(root, name, dir);
    law_deleted_table_is_gone(db.open, name, other);
    lemma_list_without(root.entries, name);
    lemma_entries_without(root.entries, name, true);
    lemma_entries_without(root.entries, name, false);
    assert forall|id: u64| !after.files.contains_key(#[trigger] table_path(dir, id)) by {
        lemma_file_lies_in(db.root, name, table_name(id));
    }
    lemma_starts_empty(dir, after.files);
    if valid_name(other) && lies_in(path, joined(db.root, other)) && lies_in(path, dir) {
        lemma_directories_apart(db.root, name, other, path);
    }
}

} // verus!
