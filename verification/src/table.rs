//! The hash table that keeps one accumulator per key: a hash map of the
//! standard library with the Fx hasher of `rustc_hash`. Verus does not
//! look into the table; what is said here of its methods is taken on trust
//! from their documentation.

use crate::values::{Stats, Values};
use rustc_hash::{FxBuildHasher, FxHashMap};
use vstd::prelude::*;

verus! {

/// `rustc_hash::FxBuildHasher`, the builder of the table's hashers. It has
/// no state: equal keys hash alike in every table.
#[verifier::external_type_specification]
#[verifier::external_body]
pub struct ExFxBuildHasher(FxBuildHasher);

/// What a table holds: the statistics kept under each key.
pub uninterp spec fn table_entries(table: FxHashMap<Vec<u8>, Values>) -> Map<Seq<u8>, Stats>;

/// `FxHashMap::default`: a table that holds nothing.
#[verifier::external_body]
pub(crate) fn new_table() -> (fresh: FxHashMap<Vec<u8>, Values>)
    ensures
        table_entries(fresh) =~= Map::empty(),
{
    FxHashMap::default()
}

/// `HashMap::get`: the accumulator kept under `key`, if there is one.
#[verifier::external_body]
pub(crate) fn lookup<'a>(table: &'a FxHashMap<Vec<u8>, Values>, key: &[u8]) -> (found: Option<
    &'a Values,
>)
    ensures
        match found {
            Some(values) => table_entries(*table).contains_key(key@) && values@ == table_entries(
                *table,
            )[key@],
            None => !table_entries(*table).contains_key(key@),
        },
{
    table.get(key)
}

/// `HashMap::get_mut`: the accumulator kept under `key`, if there is one,
/// to be changed in place. The table then holds under `key` what the
/// caller leaves there, and is otherwise as before.
#[verifier::external_body]
pub(crate) fn lookup_mut<'a>(table: &'a mut FxHashMap<Vec<u8>, Values>, key: &[u8]) -> (found:
    Option<&'a mut Values>)
    ensures
        match found {
            Some(values) => {
                &&& table_entries(*old(table)).contains_key(key@)
                &&& values@ == table_entries(*old(table))[key@]
                &&& table_entries(*final(table)) == table_entries(*old(table)).insert(
                    key@,
                    final(values)@,
                )
            },
            None => {
                &&& !table_entries(*old(table)).contains_key(key@)
                &&& table_entries(*final(table)) == table_entries(*old(table))
            },
        },
{
    table.get_mut(key)
}

/// `HashMap::insert`: the table then holds `values` under `key`, in place
/// of what it may have held there, and is otherwise as before.
#[verifier::external_body]
pub(crate) fn insert(table: &mut FxHashMap<Vec<u8>, Values>, key: Vec<u8>, values: Values)
    ensures
        table_entries(*final(table)) == table_entries(*old(table)).insert(key@, values@),
{
    table.insert(key, values);
}

/// `HashMap::keys`: each key of the table once, in no order that can be
/// relied on.
#[verifier::external_body]
pub(crate) fn keys(table: &FxHashMap<Vec<u8>, Values>) -> (keys: Vec<Vec<u8>>)
    ensures
        forall|i: int| 0 <= i < keys@.len() ==> table_entries(*table).contains_key(#[trigger] keys@[i]@),
        forall|key: Seq<u8>| #[trigger] table_entries(*table).contains_key(key) ==> exists|i: int| 0 <= i < keys@.len() && #[trigger] keys@[i]@ == key,
        forall|i: int, j: int| 0 <= i < j < keys@.len() ==> #[trigger] keys@[i]@ != #[trigger] keys@[j]@,
{
    table.keys().cloned().collect()
}

/// `HashMap::into_iter`: each key of the table once with what was kept
/// under it, in no order that can be relied on.
#[verifier::external_body]
pub(crate) fn into_entries(table: FxHashMap<Vec<u8>, Values>) -> (entries: Vec<(Vec<u8>, Values)>)
    ensures
        forall|i: int| 0 <= i < entries@.len() ==> table_entries(table).contains_key(#[trigger] entries@[i].0@) && table_entries(table)[entries@[i].0@] == entries@[i].1@,
        forall|key: Seq<u8>| #[trigger] table_entries(table).contains_key(key) ==> exists|i: int| 0 <= i < entries@.len() && #[trigger] entries@[i].0@ == key,
        forall|i: int, j: int| 0 <= i < j < entries@.len() ==> #[trigger] entries@[i].0@ != #[trigger] entries@[j].0@,
{
    table.into_iter().collect()
}

} // verus!
