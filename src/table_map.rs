//! The per-name store of records, kept in a `multimap::MultiMap` keyed by
//! the name's number.
use vstd::prelude::*;
use multimap::MultiMap;
use crate::record::GDPNameRecord;

verus! {

#[verifier::external_type_specification]
#[verifier::external_body]
#[verifier::reject_recursive_types(K)]
#[verifier::reject_recursive_types(V)]
#[verifier::reject_recursive_types(S)]
pub struct ExMultiMap<K, V, S>(MultiMap<K, V, S>);

/// What a multimap of records holds: for each key present, its records in
/// the order they were inserted.
pub uninterp spec fn table_contents(m: MultiMap<u32, GDPNameRecord>) -> Map<u32, Seq<GDPNameRecord>>;

/// Relies on `MultiMap::new`: the map starts with no keys.
#[verifier::external_body]
pub(crate) fn table_new() -> (r: MultiMap<u32, GDPNameRecord>)
    ensures
        table_contents(r).dom().is_empty(),
{
    MultiMap::new()
}

/// Relies on `MultiMap::insert`: the value is pushed at the end of the key's
/// vector, which is created with that one value when the key is absent.
#[verifier::external_body]
pub(crate) fn table_insert(m: &mut MultiMap<u32, GDPNameRecord>, k: u32, v: GDPNameRecord)
    ensures
        table_contents(*final(m)) == table_contents(*old(m)).insert(
            k,
            if table_contents(*old(m)).contains_key(k) {
                table_contents(*old(m))[k].push(v)
            } else {
                seq![v]
            },
        ),
{
    m.insert(k, v)
}

/// Relies on `MultiMap::insert_many`: the values are appended, in order, to
/// the key's vector, which is created (possibly empty) when the key is absent.
#[verifier::external_body]
pub(crate) fn table_insert_many(m: &mut MultiMap<u32, GDPNameRecord>, k: u32, vs: Vec<GDPNameRecord>)
    ensures
        table_contents(*final(m)) == table_contents(*old(m)).insert(
            k,
            if table_contents(*old(m)).contains_key(k) {
                table_contents(*old(m))[k] + vs@
            } else {
                vs@
            },
        ),
{
    m.insert_many(k, vs)
}

/// Relies on `MultiMap::get_vec`: the key's vector, if the key is present.
#[verifier::external_body]
pub(crate) fn table_get_vec<'a>(m: &'a MultiMap<u32, GDPNameRecord>, k: &u32) -> (r: Option<&'a Vec<GDPNameRecord>>)
    ensures
        r.is_some() == table_contents(*m).contains_key(*k),
        r.is_some() ==> r.unwrap()@ == table_contents(*m)[*k],
{
    m.get_vec(k)
}

/// Relies on `MultiMap::remove`: the key leaves the map, and its vector is
/// returned if it was present.
#[verifier::external_body]
pub(crate) fn table_remove(m: &mut MultiMap<u32, GDPNameRecord>, k: &u32) -> (r: Option<Vec<GDPNameRecord>>)
    ensures
        r.is_some() == table_contents(*old(m)).contains_key(*k),
        r.is_some() ==> r.unwrap()@ == table_contents(*old(m))[*k],
        table_contents(*final(m)) == table_contents(*old(m)).remove(*k),
{
    m.remove(k)
}

} // verus!
