//! Hash tables of interned entries, held in hashbrown's `HashTable`.
//!
//! An entry carries the hash of its content beside its handle, and the table
//! is always hashed by that field, so a probe with the content's hash reaches
//! every entry stored under it.
use hashbrown::HashTable;
use vstd::multiset::Multiset;
use vstd::prelude::*;

use crate::leaky_alloc::{Arena, IBytes};

verus! {

/// An entry: the hash of the content, then the block and offset of its handle.
pub type Entry = (u64, usize, usize);

pub open spec fn entry_handle(e: Entry) -> IBytes {
    IBytes { block: e.1, offset: e.2 }
}

/// Below this many items an insertion cannot overflow a table's capacity.
pub const MAX_TABLE_LEN: usize = usize::MAX / 0x100_0000;

/// A table of entries, held in a `HashTable` that is hashed by each entry's
/// own hash field.
#[verifier::external_body]
pub struct Table {
    inner: HashTable<(u64, usize, usize)>,
}

/// The entries that a table holds.
pub uninterp spec fn table_items(t: Table) -> Multiset<(u64, usize, usize)>;

/// Relies on `HashTable::new`: a new table holds nothing.
#[verifier::external_body]
pub fn table_new() -> (r: Table)
    ensures
        table_items(r) =~= Multiset::<Entry>::empty(),
{
    Table { inner: HashTable::new() }
}

/// Relies on `HashTable::len`: the number of entries held.
#[verifier::external_body]
pub fn table_len(t: &Table) -> (r: usize)
    ensures
        r == table_items(*t).len(),
{
    t.inner.len()
}

/// Relies on `HashTable::clear`: afterwards the table holds nothing.
#[verifier::external_body]
pub fn table_clear(t: &mut Table)
    ensures
        table_items(*final(t)) =~= Multiset::<Entry>::empty(),
{
    t.inner.clear()
}

/// Relies on `HashTable::insert_unique`, hashing every entry by its own hash field:
/// the entry is added, and nothing else changes. It panics when the capacity
/// would overflow, which the bound on the length keeps off.
#[verifier::external_body]
pub fn table_insert(t: &mut Table, e: Entry)
    requires
        table_items(*old(t)).len() < MAX_TABLE_LEN,
    ensures
        table_items(*final(t)) == table_items(*old(t)).insert(e),
{
    t.inner.insert_unique(e.0, e, |x| x.0);
}

/// Relies on `HashTable::find`: it returns an entry held by the table on which
/// the test holds, or none when no entry stored under `hash` passes the test.
/// The test compares the entry's content with `s`.
#[verifier::external_body]
pub fn table_get(t: &Table, hash: u64, arena: &Arena, s: &[u8]) -> (r: Option<Entry>)
    ensures
        r matches Some(e) ==> table_items(*t).count(e) > 0 && arena.holds(entry_handle(e), s@),
        r is None ==> forall|e: Entry|
            table_items(*t).count(e) > 0 && e.0 == hash ==> !arena.holds(entry_handle(e), s@),
{
    t.inner.find(hash, |x| entry_matches(arena, x, s)).copied()
}

/// Whether the content of entry `e` is `s`.
pub fn entry_matches(arena: &Arena, e: &Entry, s: &[u8]) -> (r: bool)
    ensures
        r == arena.holds(entry_handle(*e), s@),
{
    arena.matches(IBytes { block: e.1, offset: e.2 }, s)
}

/// Relies on `HashTable::iter`: it visits each entry of the table once, in an
/// order that the table's layout decides.
#[verifier::external_body]
pub fn table_entries(t: &Table) -> (r: Vec<Entry>)
    ensures
        r@.to_multiset() == table_items(*t),
{
    t.inner.iter().copied().collect()
}

} // verus!
