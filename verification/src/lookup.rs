//! The keyed lookup over mapping rows that the translators build from a
//! mapping file, held in a `lookups::LkupHashMap`.

use vstd::prelude::*;
use lookups::lookup::hash::HashStore;
use lookups::{HashLookup, LkupHashMap, Lookup};
use crate::mapping::{row_views, rows_map, RowView};
use crate::structs::{Mapping, ValueType};
use crate::text::{lowercase, to_lowercase};

verus! {

/// The address under which the lookup indexes a mapping.
fn indexed_address(mapping: &Mapping) -> (result: String)
    ensures
        result@ == mapping.address@,
{
    mapping.address.clone()
}

/// Mapping rows keyed by field name, held in a `lookups::LkupHashMap` whose
/// secondary index is the mapping's address.
#[verifier::external_body]
pub struct MappingLookup {
    map: LkupHashMap<HashStore<String, Vec<String>>, fn(&Mapping) -> String, String, Mapping>,
}

/// The key-to-mapping contents of a lookup.
pub uninterp spec fn lookup_contents(lookup: MappingLookup) -> Map<Seq<char>, (Seq<char>, ValueType)>;

impl MappingLookup {
    /// Calls `LkupHashMap::new` with a multi-key `HashLookup` over the
    /// mapping's address; the new map holds nothing.
    #[verifier::external_body]
    pub(crate) fn new() -> (result: MappingLookup)
        ensures
            lookup_contents(result).dom() == Set::<Seq<char>>::empty(),
    {
        MappingLookup {
            map: LkupHashMap::new(
                HashLookup::with_multi_keys(),
                indexed_address as fn(&Mapping) -> String,
            ),
        }
    }

    /// Calls `LkupHashMap::insert`, which stores `mapping` under `key` in its
    /// inner `HashMap`, replacing what the key held.
    #[verifier::external_body]
    pub(crate) fn insert(&mut self, key: String, mapping: Mapping)
        ensures
            lookup_contents(*final(self)) == lookup_contents(*old(self)).insert(key@, mapping@),
    {
        self.map.insert(key, mapping);
    }

    /// Calls `HashMap::get` on the map's inner `HashMap` (through `Deref`): the
    /// mapping stored under `key`, if any.
    #[verifier::external_body]
    pub(crate) fn get(&self, key: &str) -> (result: Option<&Mapping>)
        ensures
            match result {
                Some(m) => lookup_contents(*self).contains_key(key@) && lookup_contents(*self)[key@]
                    == m@,
                None => !lookup_contents(*self).contains_key(key@),
            },
    {
        self.map.get(key)
    }
}

/// The rows with their keys lowercased.
pub open spec fn lowered_rows(rows: Seq<RowView>) -> Seq<RowView> {
    rows.map_values(|r: RowView| (lowercase(r.0), r.1))
}

/// The lookup that a mapping file's rows give: each row is stored under its
/// key lowercased, and a later row replaces an earlier one with the same
/// lowercased key.
pub(crate) fn lookup_from_rows(rows: &Vec<(String, Mapping)>) -> (result: MappingLookup)
    ensures
        lookup_contents(result) == rows_map(lowered_rows(row_views(rows@))),
{
    let ghost views = lowered_rows(row_views(rows@));
    let mut lookup = MappingLookup::new();
    assert(lookup_contents(lookup) =~= rows_map(views.take(0)));
    let n = rows.len();
    let mut i: usize = 0;
    while i < n
        invariant
            n == rows@.len(),
            views == lowered_rows(row_views(rows@)),
            i <= n,
            lookup_contents(lookup) == rows_map(views.take(i as int)),
        decreases n - i,
    {
        let row = &rows[i];
        lookup.insert(to_lowercase(row.0.as_str()), row.1.duplicate());
        assert(views.take(i + 1).drop_last() =~= views.take(i as int));
        i = i + 1;
    }
    assert(views.take(n as int) =~= views);
    lookup
}

} // verus!
