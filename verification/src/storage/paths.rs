//! Where the store keeps its files.
use vstd::prelude::*;
use vstd::string::StringExecFns;

use crate::storage::error::ErrorView;
use crate::storage::sstable::{id_spec, SstableId};
use crate::text::{
    all_digits, digit_value, digits_value, extension, extension_spec, file_name, fixed_decimal,
    join, join_spec, law_fixed_decimal_shows_the_number, law_parts_of_a_path,
    lemma_fixed_decimal_value, lemma_last_index_is, place_value, power_of_ten, push_fixed_decimal,
    trimmed,
};

verus! {

/// Where the log is.
pub open spec fn wal_path_spec(data_dir: Seq<char>) -> Seq<char> {
    join_spec(data_dir, "active.wal"@)
}

/// Where the log is.
pub fn active_wal_path(data_dir: &str) -> (path: String)
    ensures
        path@ == wal_path_spec(data_dir@),
{
    join(data_dir, "active.wal")
}

/// The directory of the tables.
pub open spec fn sstable_dir_spec(data_dir: Seq<char>) -> Seq<char> {
    join_spec(data_dir, "sstables"@)
}

/// The directory of the tables.
pub fn sstable_dir(data_dir: &str) -> (path: String)
    ensures
        path@ == sstable_dir_spec(data_dir@),
{
    join(data_dir, "sstables")
}

/// Whether a path is that of a table file in the directory of the tables.
pub open spec fn is_table_file(data_dir: Seq<char>, path: Seq<char>) -> bool {
    &&& exists|name: Seq<char>| #[trigger]
        join_spec(sstable_dir_spec(data_dir), name) == path && !name.contains('/')
    &&& is_sstable_spec(path)
}

/// The name of a table's file: its number in twenty digits.
pub open spec fn sstable_name(id: u64) -> Seq<char> {
    fixed_decimal(id as nat, 20) + ".sst"@
}

/// Where a table is.
pub open spec fn sstable_path_spec(data_dir: Seq<char>, id: u64) -> Seq<char> {
    join_spec(sstable_dir_spec(data_dir), sstable_name(id))
}

/// Where a table is.
pub fn sstable_path(data_dir: &str, id: SstableId) -> (path: String)
    ensures
        path@ == sstable_path_spec(data_dir@, id.0),
{
    let mut name = String::from_str("");
    proof {
        reveal_strlit("");
    }
    push_fixed_decimal(&mut name, id.0, 20);
    name.append(".sst");
    assert(name@ =~= sstable_name(id.0));
    let dir = sstable_dir(data_dir);
    join(dir.as_str(), name.as_str())
}

/// Whether a path is that of a table, by its extension.
pub open spec fn is_sstable_spec(path: Seq<char>) -> bool {
    extension_spec(path) == Some("sst"@)
}

/// Whether a path is that of a table, by its extension.
pub fn is_sstable(path: &str) -> (yes: bool)
    ensures
        yes == is_sstable_spec(path@),
{
    proof {
        reveal_strlit("sst");
    }
    match extension(path) {
        None => false,
        Some(found) => {
            let same = found.len() == 3 && found[0] == 's' && found[1] == 's' && found[2] == 't';
            proof {
                if same {
                    assert(found@ =~= "sst"@);
                }
            }
            same
        },
    }
}

/// A text with a character that is no digit stands for no number.
proof fn lemma_no_digits(s: Seq<char>, at: int)
    requires
        0 <= at < s.len(),
        digit_value(s[at]) is None,
    ensures
        digits_value(s) is None,
    decreases s.len(),
{
    if at < s.len() - 1 {
        assert(s.drop_last()[at] == s[at]);
        lemma_no_digits(s.drop_last(), at);
    }
}

/// Twenty digits hold every number of a table.
proof fn lemma_twenty_digits(id: u64)
    ensures
        id < power_of_ten(20),
{
    reveal_with_fuel(power_of_ten, 21);
}

/// The path of a table leads back to its number, and shows that it is a table.
pub proof fn law_table_path_names_its_id(data_dir: Seq<char>, id: u64)
    ensures
        id_spec(sstable_path_spec(data_dir, id)) == Ok::<u64, ErrorView>(id),
        is_sstable_spec(sstable_path_spec(data_dir, id)),
{
    reveal_strlit(".sst");
    reveal_strlit("sst");
    reveal_strlit("sstables");
    let digits = fixed_decimal(id as nat, 20);
    let name = sstable_name(id);
    let dir = sstable_dir_spec(data_dir);
    let path = sstable_path_spec(data_dir, id);
    lemma_twenty_digits(id);
    lemma_fixed_decimal_value(id as nat, 20);
    assert(dir.last() == 's');
    assert(path == dir.push('/') + name);
    assert(path.last() == 't');
    assert(trimmed(path) == path);
    assert forall|i: int| 0 <= i < 20 implies digits[i] != '/' && digits[i] != '.' && digits[i]
        != '+' by {
        assert(digit_value(digits[i]) is Some);
    }
    assert forall|i: int| dir.len() < i < path.len() implies path[i] != '/' by {
        assert(path[i] == name[i - dir.len() - 1]);
    }
    lemma_last_index_is(path, '/', dir.len() as int);
    assert(file_name(path) =~= name);
    lemma_last_index_is(name, '.', 20);
    assert(name.take(20) =~= digits);
    assert(name.skip(21) =~= "sst"@);
    assert(name[0] == digits[0]);
}

/// The path of a table is that of a table file in the directory of the tables.
pub proof fn lemma_table_file(data_dir: Seq<char>, id: u64)
    ensures
        is_table_file(data_dir, sstable_path_spec(data_dir, id)),
{
    law_table_path_names_its_id(data_dir, id);
    reveal_strlit(".sst");
    let name = sstable_name(id);
    let digits = fixed_decimal(id as nat, 20);
    lemma_twenty_digits(id);
    lemma_fixed_decimal_value(id as nat, 20);
    assert forall|i: int| 0 <= i < name.len() implies name[i] != '/' by {
        if i < 20 {
            assert(name[i] == digits[i]);
            assert(digit_value(digits[i]) is Some);
        }
    }
    assert(!name.contains('/'));
    assert(join_spec(sstable_dir_spec(data_dir), name) == sstable_path_spec(data_dir, id));
}

/// No two tables have the same path.
pub proof fn law_table_paths_differ(data_dir: Seq<char>, a: u64, b: u64)
    requires
        sstable_path_spec(data_dir, a) == sstable_path_spec(data_dir, b),
    ensures
        a == b,
{
    law_table_path_names_its_id(data_dir, a);
    law_table_path_names_its_id(data_dir, b);
}

/// By its name the log is no table: it has no number, and another extension.
pub proof fn lemma_log_name(data_dir: Seq<char>)
    ensures
        !is_sstable_spec(wal_path_spec(data_dir)),
        id_spec(wal_path_spec(data_dir)) is Err,
{
    reveal_strlit("active.wal");
    reveal_strlit("sst");
    let name = "active.wal"@;
    let path = wal_path_spec(data_dir);
    let start = path.len() - name.len();
    assert(path.skip(start) =~= name);
    assert(path.last() == 'l');
    assert(trimmed(path) == path);
    assert forall|i: int| start <= i < path.len() implies path[i] != '/' by {
        assert(path[i] == name[i - start]);
    }
    assert(start > 0 ==> path[start - 1] == '/');
    lemma_last_index_is(path, '/', start - 1);
    lemma_last_index_is(name, '.', 6);
    assert(name.skip(7)[0] == 'w');
    assert("sst"@[0] == 's');
    let stem = name.take(6);
    assert(stem[0] == 'a');
    lemma_no_digits(stem, 0);
}

/// No table has the path of the log.
pub proof fn law_log_is_no_table(data_dir: Seq<char>, id: u64)
    ensures
        wal_path_spec(data_dir) != sstable_path_spec(data_dir, id),
{
    lemma_log_name(data_dir);
    law_table_path_names_its_id(data_dir, id);
}

/// Where the files are: the log is `active.wal` in the directory of the store, and a
/// table is in its directory `sstables`, named by its number in exactly twenty digits and
/// `.sst`. No slash is put in where the directory of the store is empty or ends in one.
pub proof fn law_paths_of_a_store(data_dir: Seq<char>, id: u64)
    ensures
        ({
            let at = if data_dir.len() == 0 || data_dir.last() == '/' {
                data_dir
            } else {
                data_dir + "/"@
            };
            &&& wal_path_spec(data_dir) == at + "active.wal"@
            &&& sstable_dir_spec(data_dir) == at + "sstables"@
            &&& exists|digits: Seq<char>|
                digits.len() == 20 && all_digits(digits) && #[trigger] place_value(digits) == id
                    && sstable_path_spec(data_dir, id) == at + "sstables/"@ + digits + ".sst"@
        }),
{
    reveal_strlit("/");
    reveal_strlit("active.wal");
    reveal_strlit("sstables");
    reveal_strlit("sstables/");
    reveal_strlit(".sst");
    let at = if data_dir.len() == 0 || data_dir.last() == '/' {
        data_dir
    } else {
        data_dir + "/"@
    };
    let digits = fixed_decimal(id as nat, 20);
    lemma_twenty_digits(id);
    law_fixed_decimal_shows_the_number(id as nat, 20);
    assert(wal_path_spec(data_dir) =~= at + "active.wal"@);
    assert(sstable_dir_spec(data_dir) =~= at + "sstables"@);
    assert(sstable_dir_spec(data_dir).last() == 's');
    assert(sstable_path_spec(data_dir, id) =~= at + "sstables/"@ + digits + ".sst"@);
    assert(place_value(digits) == id);
}

/// A file is a table by its extension, `sst`, in whatever directory it is.
pub proof fn law_files_that_are_tables(dir: Seq<char>, stem: Seq<char>, ext: Seq<char>)
    requires
        dir.len() == 0 || dir.last() == '/',
        stem.len() > 0,
        ext.len() > 0,
        !stem.contains('/'),
        !ext.contains('/'),
        !ext.contains('.'),
    ensures
        is_sstable_spec(dir + stem.push('.') + ext) <==> ext == seq!['s', 's', 't'],
{
    reveal_strlit("sst");
    law_parts_of_a_path(dir, stem, ext);
    assert("sst"@ =~= seq!['s', 's', 't']);
}

} // verus!
