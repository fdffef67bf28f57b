//! The names of a database's files.

use crate::common::text;
use vstd::prelude::*;

verus! {

/// How many digits a number in a file's name has at least.
pub const NUMBER_WIDTH: usize = 6;

/// The name of the table with this number.
pub open spec fn table_name(id: u64) -> Seq<char> {
    text::padded(id as nat, NUMBER_WIDTH as nat) + ".sst"@
}

/// The name of the log with this number.
pub open spec fn log_name(id: u64) -> Seq<char> {
    text::padded(id as nat, NUMBER_WIDTH as nat) + ".wal"@
}

pub fn table_file_name(id: u64) -> (name: String)
    ensures
        name@ == table_name(id),
{
    let mut name: String = text::padded_decimal(id, NUMBER_WIDTH);
    name.append(".sst");
    name
}

pub fn log_file_name(id: u64) -> (name: String)
    ensures
        name@ == log_name(id),
{
    let mut name: String = text::padded_decimal(id, NUMBER_WIDTH);
    name.append(".wal");
    name
}

pub fn manifest_file_name() -> (name: &'static str)
    ensures
        name@ == "MANIFEST"@,
{
    "MANIFEST"
}

/// No two files share a name: neither two tables or two logs with different numbers, nor a
/// table and a log, nor one of these and the manifest.
pub proof fn lemma_names_differ(a: u64, b: u64)
    ensures
        table_name(a) == table_name(b) ==> a == b,
        log_name(a) == log_name(b) ==> a == b,
        table_name(a) != log_name(b),
        table_name(a) != "MANIFEST"@,
        log_name(a) != "MANIFEST"@,
{
    reveal_strlit(".sst");
    reveal_strlit(".wal");
    reveal_strlit("MANIFEST");
    let width = NUMBER_WIDTH as nat;
    let left = text::padded(a as nat, width);
    let right = text::padded(b as nat, width);
    text::lemma_padded_injective(a as nat, b as nat, width);
    assert(table_name(a).last() == 't');
    assert(log_name(a).last() == 'l');
    assert(log_name(b).last() == 'l');
    assert("MANIFEST"@.last() == 'T');
    if table_name(a) == table_name(b) {
        assert(table_name(a).take(table_name(a).len() - 4) =~= left);
        assert(table_name(b).take(table_name(b).len() - 4) =~= right);
    }
    if log_name(a) == log_name(b) {
        assert(log_name(a).take(log_name(a).len() - 4) =~= left);
        assert(log_name(b).take(log_name(b).len() - 4) =~= right);
    }
}

} // verus!
