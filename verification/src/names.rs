//! Paths and file names of a table.

use vstd::prelude::*;
use vstd::string::{StrSliceExecFns, StringExecFns};
use crate::decimal::{decimal, lemma_decimal_round_trip, parse_u64, parsed_u64, write_decimal};

verus! {

/// The path of the file `name` in the directory `dir`.
pub open spec fn joined(dir: Seq<char>, name: Seq<char>) -> Seq<char> {
    if dir.len() == 0 || dir.last() == '/' {
        dir + name
    } else {
        dir + "/"@ + name
    }
}

/// The name of the table file with number `id`.
pub open spec fn table_name(id: u64) -> Seq<char> {
    "sstable_"@ + decimal(id as nat) + ".sst"@
}

/// The path of the table file with number `id` in the directory `dir`.
pub open spec fn table_path(dir: Seq<char>, id: u64) -> Seq<char> {
    joined(dir, table_name(id))
}

/// Whether `text` stands in `s` at `at`.
pub open spec fn stands_at(s: Seq<char>, at: int, text: Seq<char>) -> bool {
    0 <= at && at + text.len() <= s.len() && s.subrange(at, at + text.len() as int) == text
}

/// The number of the table file with this name, if it is the name of one.
pub open spec fn id_of_name(name: Seq<char>) -> Option<u64> {
    let n = name.len() as int;
    if n < 12 || !stands_at(name, 0, "sstable_"@) || !stands_at(name, n - 4, ".sst"@) {
        None
    } else {
        parsed_u64(name.subrange(8, n - 4))
    }
}

/// The path of the file `name` in the directory `dir`.
pub fn join_path(dir: &str, name: &str) -> (r: String)
    ensures
        r@ == joined(dir@, name@),
{
    let n: usize = dir.unicode_len();
    let mut path: String = String::from_str(dir);
    if n != 0 && dir.get_char(n - 1) != '/' {
        path.append("/");
    }
    path.append(name);
    assert(path@ =~= joined(dir@, name@));
    path
}

/// The path of the table file with number `id` in the directory `dir`.
pub fn sstable_path(dir: &str, id: u64) -> (r: String)
    ensures
        r@ == table_path(dir@, id),
{
    let mut name: String = String::from_str("sstable_");
    write_decimal(&mut name, id);
    name.append(".sst");
    join_path(dir, name.as_str())
}

/// Whether `text` stands in `s` at `at`.
fn has_text_at(s: &str, at: usize, text: &str) -> (r: bool)
    requires
        at + text@.len() <= s@.len(),
    ensures
        r == stands_at(s@, at as int, text@),
{
    let ghost part = s@.subrange(at as int, at + text@.len() as int);
    let n: usize = text.unicode_len();
    let len: usize = s.unicode_len();
    let mut i: usize = 0;
    while i < n
        invariant
            i <= n,
            n == text@.len(),
            len == s@.len(),
            at + n <= len,
            part == s@.subrange(at as int, at + text@.len() as int),
            forall|j: int| 0 <= j < i ==> part[j] == text@[j],
        decreases n - i,
    {
        if s.get_char(at + i) != text.get_char(i) {
            assert(part[i as int] != text@[i as int]);
            return false;
        }
        i = i + 1;
    }
    assert(part =~= text@);
    true
}

/// The number of the table file with this name, or `None` if it is not the name of one.
pub fn sstable_id_from_name(name: &str) -> (r: Option<u64>)
    ensures
        r == id_of_name(name@),
{
    proof {
        reveal_strlit("sstable_");
        reveal_strlit(".sst");
    }
    let n: usize = name.unicode_len();
    if n < 12 || !has_text_at(name, 0, "sstable_") || !has_text_at(name, n - 4, ".sst") {
        return None;
    }
    parse_u64(name, 8, n - 4)
}

/// The number of a table file is read back from its name.
pub proof fn law_table_name_gives_back_its_number(id: u64)
    ensures
        id_of_name(table_name(id)) == Some(id),
{
    reveal_strlit("sstable_");
    reveal_strlit(".sst");
    let d = decimal(id as nat);
    let name = table_name(id);
    let n = name.len() as int;
    lemma_decimal_round_trip(id);
    crate::decimal::lemma_decimal_len(id as nat);
    assert(name.subrange(0, 8) =~= "sstable_"@);
    assert(name.subrange(n - 4, n) =~= ".sst"@);
    assert(name.subrange(8, n - 4) =~= d);
}

/// A path is the directory, a slash unless there is one or nothing before it, and the name.
pub proof fn law_paths_are_joined_with_one_slash(dir: Seq<char>, name: Seq<char>)
    ensures
        dir.len() == 0 ==> joined(dir, name) == name,
        dir.len() > 0 && dir.last() == '/' ==> joined(dir, name) == dir + name,
        dir.len() > 0 && dir.last() != '/' ==> joined(dir, name) == dir.push('/') + name,
{
    reveal_strlit("/");
    if dir.len() == 0 {
        assert(joined(dir, name) =~= name);
    } else if dir.last() != '/' {
        assert(joined(dir, name) =~= dir.push('/') + name);
    }
}

/// A file is a table file exactly if its name is `sstable_`, a number that is written in digits,
/// and `.sst`; its number is that one.
pub proof fn law_table_files_are_known_by_their_names(name: Seq<char>, digits: Seq<char>)
    ensures
        id_of_name("sstable_"@ + digits + ".sst"@) == parsed_u64(digits),
        id_of_name(name) is Some ==> exists|d: Seq<char>|
            name == #[trigger] ("sstable_"@ + d + ".sst"@) && parsed_u64(d) == id_of_name(name),
        forall|id: u64| #[trigger] table_name(id) == "sstable_"@ + decimal(id as nat) + ".sst"@,
{
    reveal_strlit("sstable_");
    reveal_strlit(".sst");
    let whole = "sstable_"@ + digits + ".sst"@;
    let n = whole.len() as int;
    assert(whole.subrange(0, 8) =~= "sstable_"@);
    assert(whole.subrange(n - 4, n) =~= ".sst"@);
    assert(whole.subrange(8, n - 4) =~= digits);
    if id_of_name(name) is Some {
        let m = name.len() as int;
        let d = name.subrange(8, m - 4);
        assert(name =~= name.subrange(0, 8) + d + name.subrange(m - 4, m));
        assert(name == "sstable_"@ + d + ".sst"@);
    }
}

} // verus!
