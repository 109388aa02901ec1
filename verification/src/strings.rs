//! The table of the strings that a recording names: the names of
//! functions, libraries and source files of its frames. Each string is kept
//! once, and is known by its place in the table.

use vstd::prelude::*;
use string_interner::{DefaultStringInterner, Symbol};
use string_interner::symbol::SymbolU32;

verus! {

/// The strings, each once, in the order in which they were first added.
#[verifier::external_body]
pub struct StringTable {
    table: DefaultStringInterner,
}

/// The strings that a table holds, by their places.
pub uninterp spec fn table_strings(table: StringTable) -> Seq<Seq<char>>;

/// `StringInterner::new`: a table of no strings.
#[verifier::external_body]
pub fn table_new() -> (table: StringTable)
    ensures
        table_strings(table) == Seq::<Seq<char>>::empty(),
{
    StringTable { table: DefaultStringInterner::new() }
}

/// `StringInterner::get_or_intern`: the place of `string` in the table,
/// where it is already there; else the table's next place, where it is
/// added.
#[verifier::external_body]
pub fn table_get_or_intern(table: &mut StringTable, string: &str) -> (place: usize)
    requires
        table_strings(*old(table)).contains(string@) || table_strings(*old(table)).len() < u32::MAX,
    ensures
        table_strings(*old(table)).contains(string@) ==> table_strings(*final(table)) == table_strings(*old(table)),
        !table_strings(*old(table)).contains(string@) ==> {
            &&& table_strings(*final(table)) == table_strings(*old(table)).push(string@)
            &&& place == table_strings(*old(table)).len()
        },
        place < table_strings(*final(table)).len(),
        table_strings(*final(table))[place as int] == string@,
{
    table.table.get_or_intern(string).to_usize()
}

/// `StringInterner::get`: whether the table holds `string`.
#[verifier::external_body]
pub fn table_contains(table: &StringTable, string: &str) -> (r: bool)
    ensures
        r == table_strings(*table).contains(string@),
{
    table.table.get(string).is_some()
}

/// `StringInterner::len`: how many strings the table holds.
#[verifier::external_body]
pub fn table_len(table: &StringTable) -> (n: usize)
    ensures
        n == table_strings(*table).len(),
{
    table.table.len()
}

/// `StringInterner::resolve`: the string at `place`, if the table has one
/// there. The place is turned into a 32-bit symbol first, so it must fit
/// one.
#[verifier::external_body]
pub fn table_resolve(table: &StringTable, place: usize) -> (resolved: Option<String>)
    requires
        place < u32::MAX,
    ensures
        resolved is Some <==> place < table_strings(*table).len(),
        resolved matches Some(s) ==> s@ == table_strings(*table)[place as int],
{
    match SymbolU32::try_from_usize(place) {
        Some(symbol) => table.table.resolve(symbol).map(|s| s.to_string()),
        None => None,
    }
}

} // verus!
