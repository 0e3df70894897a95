//! A database: named tables, each in a directory of its own.

use vstd::prelude::*;
use vstd::string::{StrSliceExecFns, StringExecFns};
use vstd::utf8::encode_utf8;
use crate::bytes::{key_before, key_le, key_lt, lemma_key_le_lt};
use crate::errors::{Error, ErrorModel};
use crate::model::StoreModel;
use crate::names::{join_path, joined};
use crate::store::strings_view;
use crate::table::Table;

verus! {

/// Whether `name` can be the name of a table: not empty, and safe as the name of a directory.
pub open spec fn valid_name(name: Seq<char>) -> bool {
    &&& name.len() > 0
    &&& !name.contains('/')
    &&& !name.contains('\\')
    &&& name != "."@
    &&& name != ".."@
}

/// A database: its directory, and the tables that have been opened, with their names.
pub struct DatabaseModel {
    pub root: Seq<char>,
    pub open: Seq<(Seq<char>, StoreModel)>,
}

/// The place of the opened table `name`.
pub open spec fn position(open: Seq<(Seq<char>, StoreModel)>, name: Seq<char>) -> Option<int>
    decreases open.len(),
{
    if open.len() == 0 {
        None
    } else if open.last().0 == name {
        Some(open.len() - 1)
    } else {
        position(open.drop_last(), name)
    }
}

/// Whether no name occurs twice.
pub open spec fn distinct(open: Seq<(Seq<char>, StoreModel)>) -> bool {
    forall|i: int, j: int|
        0 <= i < j < open.len() ==> (#[trigger] open[i]).0 != (#[trigger] open[j]).0
}

/// The opened tables with one more, or with one replaced.
pub open spec fn with_table(
    open: Seq<(Seq<char>, StoreModel)>,
    name: Seq<char>,
    s: StoreModel,
) -> Seq<(Seq<char>, StoreModel)> {
    match position(open, name) {
        Some(i) => open.update(i, (name, s)),
        None => open.push((name, s)),
    }
}

/// The opened tables without one.
pub open spec fn without_table(
    open: Seq<(Seq<char>, StoreModel)>,
    name: Seq<char>,
) -> Seq<(Seq<char>, StoreModel)> {
    match position(open, name) {
        Some(i) => open.remove(i),
        None => open,
    }
}

/// What deleting a table comes to, given whether its directory exists: the database without the
/// table and the directory to remove, or the error.
pub open spec fn delete_step(db: DatabaseModel, name: Seq<char>, present: bool) -> (
    DatabaseModel,
    Result<Seq<char>, ErrorModel>,
) {
    if !valid_name(name) {
        (db, Err(ErrorModel::InvalidTableName(name)))
    } else if !present {
        (db, Err(ErrorModel::TableNotFound(name)))
    } else {
        (
            DatabaseModel { open: without_table(db.open, name), ..db },
            Ok(joined(db.root, name)),
        )
    }
}

/// Names in byte order with one more in its place, after all that do not come after it.
pub open spec fn place_name(s: Seq<Seq<char>>, name: Seq<char>) -> Seq<Seq<char>>
    decreases s.len(),
{
    if s.len() == 0 || !key_lt(encode_utf8(name), encode_utf8(s.last())) {
        s.push(name)
    } else {
        place_name(s.drop_last(), name).push(s.last())
    }
}

/// The names of the directories among some directory entries, in byte order.
pub open spec fn directory_names(entries: Seq<(Seq<char>, bool)>) -> Seq<Seq<char>>
    decreases entries.len(),
{
    if entries.len() == 0 {
        Seq::empty()
    } else if entries.last().1 {
        place_name(directory_names(entries.drop_last()), entries.last().0)
    } else {
        directory_names(entries.drop_last())
    }
}

/// The models of some directory entries.
pub open spec fn entries_view(entries: Seq<(String, bool)>) -> Seq<(Seq<char>, bool)> {
    Seq::new(entries.len(), |i: int| (entries[i].0@, entries[i].1))
}

/// A database in a directory. Each table is opened once and kept open, because an open table is
/// locked.
#[derive(Debug)]
pub struct Database {
    root: String,
    open: Vec<(String, Table)>,
}

/// The models of some opened tables.
pub open spec fn open_view(open: Seq<(String, Table)>) -> Seq<(Seq<char>, StoreModel)> {
    Seq::new(open.len(), |i: int| (open[i].0@, open[i].1.store@))
}

impl View for Database {
    type V = DatabaseModel;

    closed spec fn view(&self) -> DatabaseModel {
        DatabaseModel { root: self.root@, open: open_view(self.open@) }
    }
}

/// Accepts the names that a table can have, and no others.
pub fn validate_name(name: &str) -> (r: Result<(), Error>)
    ensures
        if valid_name(name@) {
            r is Ok
        } else {
            r matches Err(e) && e@ == ErrorModel::InvalidTableName(name@)
        },
        r is Ok <==> name@.len() > 0 && (forall|i: int|
            0 <= i < name@.len() ==> #[trigger] name@[i] != '/' && name@[i] != '\\') && name@
            != "."@ && name@ != ".."@,
{
    proof {
        reveal_strlit(".");
        reveal_strlit("..");
        law_every_plain_name_is_accepted(name@);
    }
    let n: usize = name.unicode_len();
    let mut bad: bool = n == 0;
    let mut i: usize = 0;
    while i < n && !bad
        invariant
            i <= n,
            n == name@.len(),
            bad ==> !valid_name(name@),
            !bad ==> n > 0,
            !bad ==> forall|j: int|
                0 <= j < i ==> #[trigger] name@[j] != '/' && name@[j] != '\\',
        decreases n - i,
    {
        let c: char = name.get_char(i);
        assert(c == name@[i as int]);
        if c == '/' || c == '\\' {
            assert(name@.contains(c));
            bad = true;
        }
        i = i + 1;
    }
    if !bad {
        proof {
            if name@.contains('/') {
                let j = choose|j: int| 0 <= j < name@.len() && name@[j] == '/';
                assert(name@[j] != '/');
            }
            if name@.contains('\\') {
                let j = choose|j: int| 0 <= j < name@.len() && name@[j] == '\\';
                assert(name@[j] != '\\');
            }
        }
        if n == 1 && name.get_char(0) == '.' {
            assert(name@ =~= "."@);
            bad = true;
        } else if n == 2 && name.get_char(0) == '.' && name.get_char(1) == '.' {
            assert(name@ =~= ".."@);
            bad = true;
        }
    }
    if bad {
        Err(Error::InvalidTableName(String::from_str(name)))
    } else {
        Ok(())
    }
}

/// Every name is accepted but the empty one, those with a slash or a backslash among their
/// characters, and the two that stand for a directory itself and the one above it.
pub proof fn law_every_plain_name_is_accepted(name: Seq<char>)
    ensures
        valid_name(name) <==> name.len() > 0 && (forall|i: int|
            0 <= i < name.len() ==> #[trigger] name[i] != '/' && name[i] != '\\') && name != "."@
            && name != ".."@,
{
    if name.contains('/') {
        let i = choose|i: int| 0 <= i < name.len() && name[i] == '/';
        assert(name[i] == '/');
    }
    if name.contains('\\') {
        let i = choose|i: int| 0 <= i < name.len() && name[i] == '\\';
        assert(name[i] == '\\');
    }
    if !valid_name(name) && name.len() > 0 && name != "."@ && name != ".."@ {
        assert(name.contains('/') || name.contains('\\'));
    }
    if valid_name(name) {
        assert forall|i: int| 0 <= i < name.len() implies #[trigger] name[i] != '/' && name[i]
            != '\\' by {
            if name[i] == '/' {
                assert(name.contains('/'));
            }
            if name[i] == '\\' {
                assert(name.contains('\\'));
            }
        }
    }
}

impl Database {
    /// No table is opened twice, and every opened table is well-formed.
    pub open spec fn wf(&self) -> bool {
        &&& distinct(self@.open)
        &&& self.tables_wf()
    }

    /// Every opened table is well-formed.
    pub closed spec fn tables_wf(&self) -> bool {
        forall|i: int| 0 <= i < self.open@.len() ==> (#[trigger] self.open@[i]).1.store.wf()
    }

    /// The database in the directory `dir`, with no table opened yet.
    pub fn open(dir: String) -> (r: Database)
        ensures
            r.wf(),
            r@ == (DatabaseModel { root: dir@, open: Seq::empty() }),
    {
        let r = Database { root: dir, open: Vec::new() };
        assert(r@.open =~= Seq::<(Seq<char>, StoreModel)>::empty());
        r
    }

    /// The directory of the database.
    pub fn root(&self) -> (r: &str)
        ensures
            r@ == self@.root,
    {
        self.root.as_str()
    }

    /// The directory of the table `name`.
    pub fn table_dir(&self, name: &str) -> (r: String)
        ensures
            r@ == joined(self@.root, name@),
    {
        join_path(self.root.as_str(), name)
    }

    /// Checks the creation of a table, given whether its directory exists: gives the directory in
    /// which to open it, or the error.
    pub fn create_table(&self, name: &str, present: bool) -> (r: Result<String, Error>)
        ensures
            if !valid_name(name@) {
                r matches Err(e) && e@ == ErrorModel::InvalidTableName(name@)
            } else if present {
                r matches Err(e) && e@ == ErrorModel::TableExists(name@)
            } else {
                r matches Ok(dir) && dir@ == joined(self@.root, name@)
            },
            r is Ok <==> !present && name@.len() > 0 && (forall|i: int|
                0 <= i < name@.len() ==> #[trigger] name@[i] != '/' && name@[i] != '\\') && name@
                != "."@ && name@ != ".."@,
    {
        match validate_name(name) {
            Ok(()) => {},
            Err(e) => return Err(e),
        }
        if present {
            return Err(Error::TableExists(String::from_str(name)));
        }
        Ok(self.table_dir(name))
    }

    /// The place of the table `name` among the opened ones, or `None` if it has to be opened in
    /// its directory first.
    pub fn table(&self, name: &str) -> (r: Result<Option<usize>, Error>)
        ensures
            if !valid_name(name@) {
                r matches Err(e) && e@ == ErrorModel::InvalidTableName(name@)
            } else {
                r matches Ok(at) && (match position(self@.open, name@) {
                    Some(i) => at == Some(i as usize) && 0 <= i < self@.open.len(),
                    None => at is None,
                })
            },
    {
        match validate_name(name) {
            Ok(()) => {},
            Err(e) => return Err(e),
        }
        Ok(self.find(name))
    }

    fn find(&self, name: &str) -> (r: Option<usize>)
        ensures
            match position(self@.open, name@) {
                Some(i) => r == Some(i as usize) && 0 <= i < self@.open.len() && r->0 == i,
                None => r is None,
            },
    {
        let ghost all = self@.open;
        let wanted: String = String::from_str(name);
        let mut i: usize = self.open.len();
        assert(all.take(i as int) =~= all);
        while i > 0
            invariant
                i <= all.len(),
                all == open_view(self.open@),
                wanted@ == name@,
                position(all, name@) == position(all.take(i as int), name@),
            decreases i,
        {
            assert(all.take(i as int).last() == all[i - 1]);
            assert(all.take(i as int).drop_last() =~= all.take(i - 1));
            if self.open[i - 1].0 == wanted {
                return Some(i - 1);
            }
            i = i - 1;
        }
        None
    }

    /// Takes in a table that has been opened.
    pub fn opened(&mut self, name: &str, table: Table)
        requires
            old(self).wf(),
            table.store.wf(),
        ensures
            final(self).wf(),
            final(self)@ == (DatabaseModel {
                open: with_table(old(self)@.open, name@, table.store@),
                ..old(self)@
            }),
    {
        let ghost before = self@.open;
        let ghost s = table.store@;
        proof {
            law_opened_table_is_found(before, name@, s, name@);
        }
        match self.find(name) {
            Some(i) => {
                self.open.set(i, (String::from_str(name), table));
                assert(self@.open =~= before.update(i as int, (name@, s)));
            },
            None => {
                self.open.push((String::from_str(name), table));
                assert(self@.open =~= before.push((name@, s)));
            },
        }
    }

    /// The `i`-th opened table.
    pub fn table_at(&mut self, i: usize) -> (r: &mut Table)
        requires
            old(self).wf(),
            i < old(self)@.open.len(),
        ensures
            r.store.wf(),
            final(r).store.wf() ==> final(self).wf(),
            r.store@ == old(self)@.open[i as int].1,
            final(self)@.root == old(self)@.root,
            final(self)@.open == old(self)@.open.update(
                i as int,
                (old(self)@.open[i as int].0, final(r).store@),
            ),
    {
        let ghost before = self@.open;
        assert forall|after: Seq<(Seq<char>, StoreModel)>|
            after.len() == before.len() && (forall|j: int|
                0 <= j < before.len() ==> (#[trigger] after[j]).0 == before[j].0)
            implies #[trigger] distinct(after) by {}
        &mut self.open[i].1
    }

    /// Checks the deletion of a table, given whether its directory exists: lets go of the table if
    /// it is open, and gives the directory to remove, or the error.
    pub fn delete_table(&mut self, name: &str, present: bool) -> (r: Result<String, Error>)
        requires
            old(self).wf(),
        ensures
            final(self).wf(),
            final(self)@ == delete_step(old(self)@, name@, present).0,
            match delete_step(old(self)@, name@, present).1 {
                Ok(dir) => r matches Ok(d) && d@ == dir,
                Err(e) => r matches Err(x) && x@ == e,
            },
    {
        match validate_name(name) {
            Ok(()) => {},
            Err(e) => return Err(e),
        }
        if !present {
            return Err(Error::TableNotFound(String::from_str(name)));
        }
        let ghost before = self@.open;
        proof {
            law_deleted_table_is_gone(before, name@, name@);
        }
        if let Some(i) = self.find(name) {
            self.open.remove(i);
            assert(self@.open =~= before.remove(i as int));
        }
        Ok(self.table_dir(name))
    }

    /// The names of all tables, sorted, from the entries of the database's directory and whether
    /// each is a directory.
    pub fn list_tables(&self, entries: &Vec<(String, bool)>) -> (r: Vec<String>)
        ensures
            strings_view(r@) == directory_names(entries_view(entries@)),
    {
        let ghost all = entries_view(entries@);
        let mut names: Vec<String> = Vec::new();
        let mut i: usize = 0;
        assert(all.take(0) =~= Seq::<(Seq<char>, bool)>::empty());
        assert(strings_view(names@) =~= Seq::<Seq<char>>::empty());
        while i < entries.len()
            invariant
                i <= entries@.len(),
                all == entries_view(entries@),
                strings_view(names@) == directory_names(all.take(i as int)),
            decreases entries@.len() - i,
        {
            proof {
                assert(all.take(i + 1).drop_last() =~= all.take(i as int));
                assert(all.take(i + 1).last() == all[i as int]);
            }
            if entries[i].1 {
                let ghost placed = strings_view(names@);
                let name: String = entries[i].0.clone();
                let mut at: usize = names.len();
                while at > 0 && key_before(
                    name.as_str().as_bytes(),
                    names[at - 1].as_str().as_bytes(),
                )
                    invariant
                        at <= names@.len(),
                        placed == strings_view(names@),
                        forall|j: int|
                            at <= j < placed.len() ==> key_lt(
                                encode_utf8(name@),
                                encode_utf8(#[trigger] placed[j]),
                            ),
                    decreases at,
                {
                    at = at - 1;
                }
                proof {
                    lemma_place_name(placed, at as int, name@);
                }
                let ghost before = names@;
                names.insert(at, name);
                assert(strings_view(names@) =~= placed.insert(at as int, name@));
            }
            i = i + 1;
        }
        assert(all.take(i as int) =~= all);
        names
    }
}

proof fn lemma_place_name(s: Seq<Seq<char>>, at: int, name: Seq<char>)
    requires
        0 <= at <= s.len(),
        at > 0 ==> !key_lt(encode_utf8(name), encode_utf8(s[at - 1])),
        forall|j: int|
            at <= j < s.len() ==> key_lt(encode_utf8(name), encode_utf8(#[trigger] s[j])),
    ensures
        place_name(s, name) == s.insert(at, name),
    decreases s.len(),
{
    if at == s.len() {
        assert(s.push(name) =~= s.insert(at, name));
    } else {
        assert(key_lt(encode_utf8(name), encode_utf8(s[s.len() - 1])));
        lemma_place_name(s.drop_last(), at, name);
        assert(s.drop_last().insert(at, name).push(s.last()) =~= s.insert(at, name));
    }
}

/// The place that is found is one of that name, and where none is found there is none of that name.
pub proof fn law_open_table_is_found_by_name(open: Seq<(Seq<char>, StoreModel)>, name: Seq<char>)
    ensures
        position(open, name) matches Some(i) ==> 0 <= i < open.len() && open[i].0 == name,
        position(open, name) is None <==> forall|i: int|
            0 <= i < open.len() ==> (#[trigger] open[i]).0 != name,
{
    lemma_position(open, name);
}

proof fn lemma_position(open: Seq<(Seq<char>, StoreModel)>, name: Seq<char>)
    ensures
        position(open, name) matches Some(i) ==> 0 <= i < open.len() && open[i].0 == name,
        position(open, name) is None ==> forall|i: int|
            0 <= i < open.len() ==> (#[trigger] open[i]).0 != name,
    decreases open.len(),
{
    if open.len() > 0 && open.last().0 != name {
        let before = open.drop_last();
        lemma_position(before, name);
        if position(open, name) is None {
            assert forall|i: int| 0 <= i < open.len() implies (#[trigger] open[i]).0 != name by {
                if i < before.len() {
                    assert(before[i].0 != name);
                }
            }
        }
    }
}

proof fn lemma_position_is(open: Seq<(Seq<char>, StoreModel)>, name: Seq<char>, i: int)
    requires
        distinct(open),
        0 <= i < open.len(),
        open[i].0 == name,
    ensures
        position(open, name) == Some(i),
{
    lemma_position(open, name);
    match position(open, name) {
        Some(j) => {
            if i < j {
                assert(open[i].0 != open[j].0);
            } else if j < i {
                assert(open[j].0 != open[i].0);
            }
        },
        None => {
            assert(open[i].0 != name);
        },
    }
}

/// What an opened table stands for.
pub open spec fn opened_as(open: Seq<(Seq<char>, StoreModel)>, name: Seq<char>) -> Option<
    StoreModel,
> {
    match position(open, name) {
        Some(i) => Some(open[i].1),
        None => None,
    }
}

/// A table that has been opened is found under its name, and no other is touched.
pub proof fn law_opened_table_is_found(
    open: Seq<(Seq<char>, StoreModel)>,
    name: Seq<char>,
    s: StoreModel,
    other: Seq<char>,
)
    requires
        distinct(open),
    ensures
        distinct(with_table(open, name, s)),
        opened_as(with_table(open, name, s), name) == Some(s),
        other != name ==> opened_as(with_table(open, name, s), other) == opened_as(open, other),
{
    let after = with_table(open, name, s);
    lemma_position(open, name);
    let at = match position(open, name) {
        Some(i) => i,
        None => open.len() as int,
    };
    assert(after[at] == (name, s));
    assert forall|i: int, j: int| 0 <= i < j < after.len() implies (#[trigger] after[i]).0 != (
    #[trigger] after[j]).0 by {
        if i != at {
            assert(after[i] == open[i]);
        }
        if j != at {
            assert(after[j] == open[j]);
        }
    }
    lemma_position_is(after, name, at);
    if other != name {
        lemma_position(open, other);
        match position(open, other) {
            Some(i) => {
                assert(after[i] == open[i]);
                lemma_position_is(after, other, i);
            },
            None => {
                lemma_position(after, other);
                if let Some(i) = position(after, other) {
                    assert(after[i] == open[i]);
                    assert(open[i].0 != other);
                }
            },
        }
    }
}

/// A table that has been deleted is no longer open, and no other is touched.
pub proof fn law_deleted_table_is_gone(
    open: Seq<(Seq<char>, StoreModel)>,
    name: Seq<char>,
    other: Seq<char>,
)
    requires
        distinct(open),
    ensures
        distinct(without_table(open, name)),
        opened_as(without_table(open, name), name) is None,
        other != name ==> opened_as(without_table(open, name), other) == opened_as(open, other),
{
    let after = without_table(open, name);
    lemma_position(open, name);
    if let Some(at) = position(open, name) {
        assert forall|i: int| 0 <= i < after.len() implies #[trigger] after[i] == open[if i < at {
            i
        } else {
            i + 1
        }] by {}
        assert forall|i: int, j: int| 0 <= i < j < after.len() implies (#[trigger] after[i]).0 != (
        #[trigger] after[j]).0 by {
            let a = if i < at { i } else { i + 1 };
            let b = if j < at { j } else { j + 1 };
            assert(open[a].0 != open[b].0);
        }
        lemma_position(after, name);
        if let Some(i) = position(after, name) {
            let a = if i < at { i } else { i + 1 };
            assert(after[i] == open[a]);
            if a < at {
                assert(open[a].0 != open[at].0);
            } else {
                assert(open[at].0 != open[a].0);
            }
        }
        if other != name {
            lemma_position(open, other);
            match position(open, other) {
                Some(i) => {
                    let a = if i < at { i } else { i - 1 };
                    assert(after[a] == open[i]);
                    lemma_position_is(after, other, a);
                },
                None => {
                    lemma_position(after, other);
                    if let Some(i) = position(after, other) {
                        let a = if i < at { i } else { i + 1 };
                        assert(after[i] == open[a]);
                        assert(open[a].0 != other);
                    }
                },
            }
        }
    }
}

/// Whether names are in byte order.
pub open spec fn names_sorted(s: Seq<Seq<char>>) -> bool {
    forall|i: int, j: int|
        0 <= i < j < s.len() ==> key_le(
            encode_utf8(#[trigger] s[i]),
            encode_utf8(#[trigger] s[j]),
        )
}

proof fn lemma_place_name_sorted(s: Seq<Seq<char>>, name: Seq<char>, x: Seq<char>)
    requires
        names_sorted(s),
    ensures
        names_sorted(place_name(s, name)),
        place_name(s, name).contains(x) <==> s.contains(x) || x == name,
        place_name(s, name).len() == s.len() + 1,
    decreases s.len(),
{
    let p = place_name(s, name);
    let b = encode_utf8(name);
    if s.len() == 0 || !key_lt(b, encode_utf8(s.last())) {
        assert(p =~= s.push(name));
        assert forall|i: int, j: int| 0 <= i < j < p.len() implies key_le(
            encode_utf8(#[trigger] p[i]),
            encode_utf8(#[trigger] p[j]),
        ) by {
            if j == s.len() {
                let last = encode_utf8(s[s.len() - 1]);
                lemma_key_le_lt(b, last, b);
                if i < s.len() - 1 {
                    assert(key_le(encode_utf8(s[i]), last));
                    lemma_key_le_lt(encode_utf8(s[i]), last, b);
                }
            }
        }
        if s.contains(x) {
            let i = choose|i: int| 0 <= i < s.len() && s[i] == x;
            assert(p[i] == x);
        }
        assert(p[s.len() as int] == name);
    } else {
        let before = s.drop_last();
        let last = encode_utf8(s.last());
        lemma_place_name_sorted(before, name, x);
        let q = place_name(before, name);
        assert(p =~= q.push(s.last()));
        assert forall|i: int, j: int| 0 <= i < j < p.len() implies key_le(
            encode_utf8(#[trigger] p[i]),
            encode_utf8(#[trigger] p[j]),
        ) by {
            if j == q.len() {
                lemma_place_name_sorted(before, name, q[i]);
                assert(q.contains(q[i]));
                if q[i] != name {
                    let k = choose|k: int| 0 <= k < before.len() && before[k] == q[i];
                    assert(key_le(encode_utf8(s[k]), encode_utf8(s[s.len() - 1])));
                }
            } else {
                assert(key_le(encode_utf8(q[i]), encode_utf8(q[j])));
            }
        }
        if q.contains(x) {
            let i = choose|i: int| 0 <= i < q.len() && q[i] == x;
            assert(p[i] == x);
        }
        assert(p[q.len() as int] == s.last());
        if p.contains(x) {
            let i = choose|i: int| 0 <= i < p.len() && p[i] == x;
            if i < q.len() {
                assert(q[i] == x);
            }
        }
        if before.contains(x) {
            let i = choose|i: int| 0 <= i < before.len() && before[i] == x;
            assert(s[i] == x);
        }
        if s.contains(x) {
            let i = choose|i: int| 0 <= i < s.len() && s[i] == x;
            if i < before.len() {
                assert(before[i] == x);
            }
        }
        assert(s[s.len() - 1] == s.last());
    }
}

/// The list of tables holds the name of each directory, and nothing else, in byte order.
pub proof fn law_list_is_sorted_and_complete(entries: Seq<(Seq<char>, bool)>, name: Seq<char>)
    ensures
        names_sorted(directory_names(entries)),
        directory_names(entries).contains(name) <==> entries.contains((name, true)),
    decreases entries.len(),
{
    if entries.len() > 0 {
        let before = entries.drop_last();
        law_list_is_sorted_and_complete(before, name);
        let e = entries.last();
        if e.1 {
            lemma_place_name_sorted(directory_names(before), e.0, name);
        }
        if before.contains((name, true)) {
            let i = choose|i: int| 0 <= i < before.len() && before[i] == (name, true);
            assert(entries[i] == (name, true));
        }
        if entries.contains((name, true)) {
            let i = choose|i: int| 0 <= i < entries.len() && entries[i] == (name, true);
            if i < before.len() {
                assert(before[i] == (name, true));
            }
        }
        assert(entries[entries.len() - 1] == e);
    }
}

/// A table never escapes the directory of its database: its own directory is one step below, and
/// that step is no way back.
pub proof fn law_table_stays_inside_the_root(root: Seq<char>, name: Seq<char>)
    requires
        valid_name(name),
        root.len() > 0,
    ensures
        joined(root, name).take(root.len() as int) == root,
        ({
            let step = if root.last() == '/' {
                joined(root, name).skip(root.len() as int)
            } else {
                joined(root, name).skip(root.len() as int + 1)
            };
            &&& step == name
            &&& !step.contains('/')
            &&& step != "."@
            &&& step != ".."@
        }),
{
    reveal_strlit("/");
    let p = joined(root, name);
    assert(p.take(root.len() as int) =~= root);
    if root.last() == '/' {
        assert(p.skip(root.len() as int) =~= name);
    } else {
        assert(p.skip(root.len() as int + 1) =~= name);
    }
}

/// The list of tables has as many names as there are directories, each of them the name of one, and
/// in the order of their bytes.
pub proof fn law_list_has_each_directory_once(entries: Seq<(Seq<char>, bool)>)
    ensures
        directory_names(entries).len() == entries.filter(|e: (Seq<char>, bool)| e.1).len(),
        forall|name: Seq<char>| #[trigger]
            directory_names(entries).contains(name) <==> entries.contains((name, true)),
        forall|i: int, j: int|
            0 <= i < j < directory_names(entries).len() ==> !key_lt(
                encode_utf8(#[trigger] directory_names(entries)[j]),
                encode_utf8(#[trigger] directory_names(entries)[i]),
            ),
    decreases entries.len(),
{
    let all = directory_names(entries);
    assert forall|name: Seq<char>| #[trigger] all.contains(name) <==> entries.contains(
        (name, true),
    ) by {
        law_list_is_sorted_and_complete(entries, name);
    }
    law_list_is_sorted_and_complete(entries, Seq::empty());
    assert forall|i: int, j: int| 0 <= i < j < all.len() implies !key_lt(
        encode_utf8(#[trigger] all[j]),
        encode_utf8(#[trigger] all[i]),
    ) by {
        lemma_key_le_lt(encode_utf8(all[j]), encode_utf8(all[i]), encode_utf8(all[j]));
        assert(key_le(encode_utf8(all[i]), encode_utf8(all[j])));
    }
    reveal(Seq::filter);
    if entries.len() > 0 {
        let before = entries.drop_last();
        law_list_has_each_directory_once(before);
        if entries.last().1 {
            lemma_place_name_len(directory_names(before), entries.last().0);
        }
    }
}

proof fn lemma_place_name_len(s: Seq<Seq<char>>, name: Seq<char>)
    ensures
        place_name(s, name).len() == s.len() + 1,
    decreases s.len(),
{
    if s.len() > 0 && key_lt(encode_utf8(name), encode_utf8(s.last())) {
        lemma_place_name_len(s.drop_last(), name);
    }
}

/// What directory entries and opened tables stand for is each of them, in order.
pub proof fn law_entries_stand_for_each_of_them(
    entries: Seq<(String, bool)>,
    open: Seq<(String, Table)>,
    i: int,
)
    ensures
        entries_view(entries).len() == entries.len(),
        0 <= i < entries.len() ==> entries_view(entries)[i] == (entries[i].0@, entries[i].1),
        open_view(open).len() == open.len(),
        0 <= i < open.len() ==> open_view(open)[i] == (open[i].0@, open[i].1.store@),
{
}

} // verus!
