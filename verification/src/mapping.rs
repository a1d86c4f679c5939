//! The mapping table: from a field key to the mapping that says where the
//! field's value comes from.

use vstd::prelude::*;
use crate::structs::{Mapping, ValueType};
use crate::text::text_equals;

verus! {

/// The view of one table row: key, address and kind of mapping.
pub type RowView = (Seq<char>, (Seq<char>, ValueType));

/// The map that inserting `rows` one after the other into an empty table
/// gives: a later row with the same key replaces an earlier one.
pub open spec fn rows_map(rows: Seq<RowView>) -> Map<Seq<char>, (Seq<char>, ValueType)>
    decreases rows.len(),
{
    if rows.len() == 0 {
        Map::empty()
    } else {
        rows_map(rows.drop_last()).insert(rows.last().0, rows.last().1)
    }
}

/// No key occurs twice among the rows.
pub open spec fn keys_distinct(rows: Seq<RowView>) -> bool {
    forall|i: int, j: int| 0 <= i < rows.len() && 0 <= j < rows.len() && i != j ==> rows[i].0 != rows[j].0
}

/// The views of rows held as strings and mappings.
pub open spec fn row_views(rows: Seq<(String, Mapping)>) -> Seq<RowView> {
    rows.map_values(|r: (String, Mapping)| (r.0@, r.1@))
}

/// With distinct keys, each row is found again under its key, and every key
/// of the map is the key of some row.
pub proof fn lemma_rows_map_distinct(rows: Seq<RowView>)
    requires
        keys_distinct(rows),
    ensures
        forall|i: int| #![trigger rows[i]] 0 <= i < rows.len() ==> rows_map(rows).contains_key(rows[i].0)
            && rows_map(rows)[rows[i].0] == rows[i].1,
        forall|k: Seq<char>| #[trigger] rows_map(rows).contains_key(k) ==> exists|i: int|
            0 <= i < rows.len() && rows[i].0 == k,
    decreases rows.len(),
{
    if rows.len() > 0 {
        let init = rows.drop_last();
        assert(keys_distinct(init));
        lemma_rows_map_distinct(init);
        assert forall|i: int| #![trigger rows[i]] 0 <= i < rows.len() implies rows_map(rows).contains_key(rows[i].0)
            && rows_map(rows)[rows[i].0] == rows[i].1 by {
            if i < rows.len() - 1 {
                assert(init[i] == rows[i]);
            }
        }
        assert forall|k: Seq<char>| #[trigger] rows_map(rows).contains_key(k) implies exists|i: int|
            0 <= i < rows.len() && rows[i].0 == k by {
            if k != rows.last().0 {
                assert(rows_map(init).contains_key(k));
                let i = choose|i: int| 0 <= i < init.len() && init[i].0 == k;
                assert(init[i] == rows[i]);
                assert(rows[i].0 == k);
            } else {
                assert(rows[rows.len() - 1].0 == k);
            }
        }
    }
}

/// Replacing the row of a key in place has the same effect on the map as
/// inserting the key anew.
pub proof fn lemma_rows_map_update(rows: Seq<RowView>, j: int, v: (Seq<char>, ValueType))
    requires
        keys_distinct(rows),
        0 <= j < rows.len(),
    ensures
        rows_map(rows.update(j, (rows[j].0, v))) == rows_map(rows).insert(rows[j].0, v),
    decreases rows.len(),
{
    let k = rows[j].0;
    let updated = rows.update(j, (k, v));
    if j == rows.len() - 1 {
        assert(updated.drop_last() =~= rows.drop_last());
        assert(rows_map(updated) =~= rows_map(rows).insert(k, v));
    } else {
        let init = rows.drop_last();
        assert(keys_distinct(init));
        lemma_rows_map_update(init, j, v);
        assert(updated.drop_last() =~= init.update(j, (k, v)));
        assert(rows.last().0 != k);
        assert(rows_map(updated) =~= rows_map(rows).insert(k, v));
    }
}

/// A key is in the table that rows give exactly when some row has it.
pub proof fn lemma_rows_map_keys(rows: Seq<RowView>, k: Seq<char>)
    ensures
        rows_map(rows).contains_key(k) <==> exists|j: int| 0 <= j < rows.len() && #[trigger] rows[j].0 == k,
    decreases rows.len(),
{
    if rows.len() > 0 {
        let init = rows.drop_last();
        let last = rows.len() - 1;
        lemma_rows_map_keys(init, k);
        if rows_map(rows).contains_key(k) && rows[last].0 != k {
            let j = choose|j: int| 0 <= j < init.len() && #[trigger] init[j].0 == k;
            assert(rows[j] == init[j]);
        }
        if exists|j: int| 0 <= j < rows.len() && #[trigger] rows[j].0 == k {
            let j = choose|j: int| 0 <= j < rows.len() && #[trigger] rows[j].0 == k;
            if j < last {
                assert(init[j] == rows[j]);
            }
        }
    }
}

/// The table that rows give holds, for the key of row `j`, the mapping of
/// row `j` when no later row has that key: a later row replaces an earlier
/// one.
pub proof fn lemma_rows_map_last_wins(rows: Seq<RowView>, j: int)
    requires
        0 <= j < rows.len(),
        forall|m: int| j < m < rows.len() ==> #[trigger] rows[m].0 != rows[j].0,
    ensures
        rows_map(rows).contains_key(rows[j].0),
        rows_map(rows)[rows[j].0] == rows[j].1,
    decreases rows.len(),
{
    let last = rows.len() - 1;
    if j < last {
        let init = rows.drop_last();
        assert(init[j] == rows[j]);
        assert forall|m: int| j < m < init.len() implies #[trigger] init[m].0 != init[j].0 by {
            assert(init[m] == rows[m]);
        }
        lemma_rows_map_last_wins(init, j);
        assert(rows[last].0 != rows[j].0);
    }
}

/// What a read gives back of a write: after the mapping of `k` in a table
/// is set to `v` (`MappingTable::insert`), `k` has the mapping `v`, and every
/// other key keeps what it had.
pub proof fn lemma_get_after_insert(
    before: MappingTable,
    after: MappingTable,
    k: Seq<char>,
    v: (Seq<char>, ValueType),
    other: Seq<char>,
)
    requires
        after@ == before@.insert(k, v),
    ensures
        after@.contains_key(k),
        after@[k] == v,
        other != k ==> (after@.contains_key(other) == before@.contains_key(other)),
        other != k && before@.contains_key(other) ==> after@[other] == before@[other],
{
}

/// A table of mappings keyed by field name, in which no key occurs twice.
/// The rows are held in a vector: vstd specifies `HashMap` only for keys that
/// obey its key model, which it states for integer keys and not for `String`.
pub struct MappingTable {
    entries: Vec<(String, Mapping)>,
}

impl MappingTable {
    /// The rows of the table in storage order.
    pub closed spec fn rows(&self) -> Seq<RowView> {
        row_views(self.entries@)
    }

    /// The table's invariant: no key occurs twice.
    #[verifier::type_invariant]
    pub open spec fn wf(&self) -> bool {
        keys_distinct(self.rows())
    }
}

impl View for MappingTable {
    type V = Map<Seq<char>, (Seq<char>, ValueType)>;

    open spec fn view(&self) -> Map<Seq<char>, (Seq<char>, ValueType)> {
        rows_map(self.rows())
    }
}

impl MappingTable {
    /// An empty table.
    pub fn new() -> (result: MappingTable)
        ensures
            result.rows() == Seq::<RowView>::empty(),
            result@ == Map::<Seq<char>, (Seq<char>, ValueType)>::empty(),
    {
        let result = MappingTable { entries: Vec::new() };
        assert(result.rows() =~= Seq::<RowView>::empty());
        result
    }

    /// The number of rows.
    pub fn len(&self) -> (result: usize)
        ensures
            result == self.rows().len(),
    {
        self.entries.len()
    }

    /// The row at position `i`.
    pub fn entry(&self, i: usize) -> (result: (&String, &Mapping))
        requires
            i < self.rows().len(),
        ensures
            (result.0@, result.1@) == self.rows()[i as int],
    {
        let e = &self.entries[i];
        (&e.0, &e.1)
    }

    /// The position of the row with key `key`, if there is one.
    fn position(entries: &Vec<(String, Mapping)>, key: &str) -> (result: Option<usize>)
        ensures
            match result {
                Some(j) => j < entries@.len() && row_views(entries@)[j as int].0 == key@,
                None => forall|i: int| 0 <= i < entries@.len() ==> row_views(entries@)[i].0 != key@,
            },
    {
        let n = entries.len();
        let mut j: usize = 0;
        while j < n
            invariant
                n == entries@.len(),
                j <= n,
                forall|i: int| 0 <= i < j ==> row_views(entries@)[i].0 != key@,
            decreases n - j,
        {
            if text_equals(entries[j].0.as_str(), key) {
                return Some(j);
            }
            j = j + 1;
        }
        None
    }

    /// Sets the mapping of `key`, replacing the mapping it had.
    pub fn insert(&mut self, key: String, mapping: Mapping)
        ensures
            final(self)@ == old(self)@.insert(key@, mapping@),
    {
        proof {
            use_type_invariant(&*self);
        }
        let mut entries: Vec<(String, Mapping)> = Vec::new();
        std::mem::swap(&mut entries, &mut self.entries);
        let ghost before = row_views(entries@);
        assert(keys_distinct(before));
        match Self::position(&entries, key.as_str()) {
            Some(j) => {
                entries.set(j, (key, mapping));
                proof {
                    assert(row_views(entries@) =~= before.update(j as int, (before[j as int].0, mapping@)));
                    lemma_rows_map_update(before, j as int, mapping@);
                    assert(keys_distinct(row_views(entries@)));
                }
            },
            None => {
                entries.push((key, mapping));
                proof {
                    assert(row_views(entries@) =~= before.push((key@, mapping@)));
                    assert(row_views(entries@).drop_last() =~= before);
                    assert(keys_distinct(row_views(entries@)));
                }
            },
        }
        self.entries = entries;
    }

    /// The mapping of `key`, if the table has one.
    pub fn get(&self, key: &str) -> (result: Option<&Mapping>)
        ensures
            match result {
                Some(m) => self@.contains_key(key@) && self@[key@] == m@,
                None => !self@.contains_key(key@),
            },
    {
        proof {
            use_type_invariant(self);
            lemma_rows_map_distinct(self.rows());
        }
        match Self::position(&self.entries, key) {
            Some(j) => {
                let e = &self.entries[j];
                assert(self.rows()[j as int] == (e.0@, e.1@));
                Some(&e.1)
            },
            None => None,
        }
    }
}

/// What the `csv` crate reads from `data` as records without a header row,
/// each deserialized into three string fields (`None` for a record that it
/// cannot read or deserialize).
pub uninterp spec fn csv_records(data: Seq<u8>) -> Seq<Option<(Seq<char>, Seq<char>, Seq<char>)>>;

/// The views of records held as strings.
pub open spec fn record_views(records: Seq<Option<(String, String, String)>>) -> Seq<
    Option<(Seq<char>, Seq<char>, Seq<char>)>,
> {
    records.map_values(
        |r: Option<(String, String, String)>|
            match r {
                Some(t) => Some((t.0@, t.1@, t.2@)),
                None => None,
            },
    )
}

/// Reads `data` with `csv::ReaderBuilder` (no header row, `from_reader`) and
/// deserializes each record into a triple of strings through
/// `csv::Reader::deserialize`. The contract says only that the result is the
/// named record list `csv_records(data)`; what the crate does with quoting,
/// record lengths and encodings is left to it.
#[verifier::external_body]
fn read_records(data: &[u8]) -> (records: Vec<Option<(String, String, String)>>)
    ensures
        record_views(records@) == csv_records(data@),
{
    csv::ReaderBuilder::new().has_headers(false).from_reader(data).deserialize::<
        (String, String, String),
    >().map(|r| r.ok()).collect()
}

/// The kind of mapping that a name in the table's third column stands for.
pub open spec fn value_type_named(name: Seq<char>) -> Option<ValueType> {
    if name == "Simple"@ {
        Some(ValueType::Simple)
    } else if name == "Combined"@ {
        Some(ValueType::Combined)
    } else if name == "Bit"@ {
        Some(ValueType::Bit)
    } else {
        None
    }
}

/// The table row that a record describes, if it describes one.
pub open spec fn record_row(record: Option<(Seq<char>, Seq<char>, Seq<char>)>) -> Option<RowView> {
    match record {
        Some(t) => match value_type_named(t.2) {
            Some(kind) => Some((t.0, (t.1, kind))),
            None => None,
        },
        None => None,
    }
}

/// Every record describes a table row.
pub open spec fn records_valid(records: Seq<Option<(Seq<char>, Seq<char>, Seq<char>)>>) -> bool {
    forall|i: int| 0 <= i < records.len() ==> (#[trigger] record_row(records[i])) is Some
}

/// The rows that valid records describe.
pub open spec fn records_rows(records: Seq<Option<(Seq<char>, Seq<char>, Seq<char>)>>) -> Seq<RowView> {
    records.map_values(|r: Option<(Seq<char>, Seq<char>, Seq<char>)>| record_row(r)->0)
}

/// Each valid record gives one row, in order, with the record's key and
/// address exactly as written (no case is changed) and the kind its third
/// field names.
pub proof fn lemma_records_rows_verbatim(records: Seq<Option<(Seq<char>, Seq<char>, Seq<char>)>>)
    requires
        records_valid(records),
    ensures
        records_rows(records).len() == records.len(),
        forall|i: int|
            #![trigger records_rows(records)[i]]
            0 <= i < records.len() ==> (records_rows(records)[i]).0
                == (records[i]->0).0 && (records_rows(records)[i].1).0 == (records[i]->0).1 && Some(
                (records_rows(records)[i].1).1,
            ) == value_type_named((records[i]->0).2),
{
    assert forall|i: int|
        #![trigger records_rows(records)[i]]
        0 <= i < records.len() implies (records_rows(records)[i]).0 == (records[i]->0).0 && (records_rows(records)[i].1).0
        == (records[i]->0).1 && Some((records_rows(records)[i].1).1) == value_type_named(
        (records[i]->0).2,
    ) by {
        assert(record_row(records[i]) is Some);
        assert(records_rows(records)[i] == record_row(records[i])->0);
    }
}

/// The keys of the table that valid records give are exactly the keys as the
/// records write them.
pub proof fn lemma_records_table_keys(
    records: Seq<Option<(Seq<char>, Seq<char>, Seq<char>)>>,
    k: Seq<char>,
)
    requires
        records_valid(records),
    ensures
        rows_map(records_rows(records)).contains_key(k) <==> exists|i: int|
            0 <= i < records.len() && records[i] is Some && #[trigger] (records[i]->0).0 == k,
{
    let rows = records_rows(records);
    lemma_records_rows_verbatim(records);
    lemma_rows_map_keys(rows, k);
    if rows_map(rows).contains_key(k) {
        let j = choose|j: int| 0 <= j < rows.len() && #[trigger] rows[j].0 == k;
        assert((records[j]->0).0 == k);
    }
    if exists|i: int| 0 <= i < records.len() && records[i] is Some && #[trigger] (records[i]->0).0 == k {
        let i = choose|i: int| 0 <= i < records.len() && records[i] is Some && #[trigger] (records[i]->0).0 == k;
        assert(rows[i].0 == k);
    }
}

/// The kind of mapping named by `name`: `Simple`, `Combined` or `Bit`.
pub fn parse_value_type(name: &str) -> (result: Option<ValueType>)
    ensures
        result == value_type_named(name@),
{
    if text_equals(name, "Simple") {
        Some(ValueType::Simple)
    } else if text_equals(name, "Combined") {
        Some(ValueType::Combined)
    } else if text_equals(name, "Bit") {
        Some(ValueType::Bit)
    } else {
        None
    }
}

/// The rows that the records describe, or `None` when one of them does not
/// describe a row.
pub fn rows_from_records(records: &Vec<Option<(String, String, String)>>) -> (result: Option<
    Vec<(String, Mapping)>,
>)
    ensures
        result is Some <==> records_valid(record_views(records@)),
        result matches Some(v) ==> row_views(v@) == records_rows(record_views(records@)),
{
    let ghost views = record_views(records@);
    let mut rows: Vec<(String, Mapping)> = Vec::new();
    let n = records.len();
    let mut i: usize = 0;
    while i < n
        invariant
            n == records@.len(),
            views == record_views(records@),
            i <= n,
            forall|k: int| 0 <= k < i ==> (#[trigger] record_row(views[k])) is Some,
            row_views(rows@) == records_rows(views.take(i as int)),
        decreases n - i,
    {
        match &records[i] {
            Some(record) => match parse_value_type(record.2.as_str()) {
                Some(kind) => {
                    let mapping = Mapping { address: record.1.clone(), mapping_type: kind };
                    let ghost before = row_views(rows@);
                    rows.push((record.0.clone(), mapping));
                    assert(row_views(rows@) =~= before.push((record.0@, (record.1@, kind))));
                    assert(records_rows(views.take(i + 1)) =~= records_rows(views.take(i as int)).push(
                        (record.0@, (record.1@, kind)),
                    ));
                },
                None => {
                    assert(record_row(views[i as int]) is None);
                    return None;
                },
            },
            None => {
                assert(record_row(views[i as int]) is None);
                return None;
            },
        }
        i = i + 1;
    }
    assert(views.take(n as int) =~= views);
    Some(rows)
}

/// The rows of a mapping file in CSV form without a header row: each record
/// is a key, an address expression and a kind (`Simple`, `Combined` or
/// `Bit`). `None` when a record cannot be read as such a row.
pub fn mapping_rows(data: &[u8]) -> (result: Option<Vec<(String, Mapping)>>)
    ensures
        result is Some <==> records_valid(csv_records(data@)),
        result matches Some(v) ==> row_views(v@) == records_rows(csv_records(data@)),
{
    let records = read_records(data);
    rows_from_records(&records)
}

/// The table that the records describe, or `None` when one of them does not
/// describe a row.
pub fn table_from_records(records: &Vec<Option<(String, String, String)>>) -> (result: Option<MappingTable>)
    ensures
        result is Some <==> records_valid(record_views(records@)),
        result matches Some(t) ==> t@ == rows_map(records_rows(record_views(records@))),
{
    let ghost views = record_views(records@);
    let mut table = MappingTable::new();
    let n = records.len();
    let mut i: usize = 0;
    while i < n
        invariant
            n == records@.len(),
            views == record_views(records@),
            i <= n,
            forall|k: int| 0 <= k < i ==> (#[trigger] record_row(views[k])) is Some,
            table@ == rows_map(records_rows(views.take(i as int))),
        decreases n - i,
    {
        match &records[i] {
            Some(record) => match parse_value_type(record.2.as_str()) {
                Some(kind) => {
                    let mapping = Mapping { address: record.1.clone(), mapping_type: kind };
                    table.insert(record.0.clone(), mapping);
                    proof {
                        let rows = records_rows(views.take(i + 1));
                        assert(rows.drop_last() =~= records_rows(views.take(i as int)));
                    }
                },
                None => {
                    assert(record_row(views[i as int]) is None);
                    return None;
                },
            },
            None => {
                assert(record_row(views[i as int]) is None);
                return None;
            },
        }
        i = i + 1;
    }
    assert(views.take(n as int) =~= views);
    Some(table)
}

/// Reads a mapping table from CSV text without a header row: each record is
/// a key, an address expression and a kind (`Simple`, `Combined` or `Bit`).
/// A later record with the same key replaces an earlier one.
pub fn create_mapping(data: &[u8]) -> (table: MappingTable)
    requires
        records_valid(csv_records(data@)),
    ensures
        table@ == rows_map(records_rows(csv_records(data@))),
{
    let records = read_records(data);
    match table_from_records(&records) {
        Some(table) => table,
        None => {
            proof {
                assert(false);
            }
            MappingTable::new()
        },
    }
}

/// Whether every record describes a table row.
pub fn records_describe_rows(records: &Vec<Option<(String, String, String)>>) -> (result: bool)
    ensures
        result == records_valid(record_views(records@)),
{
    let ghost views = record_views(records@);
    let n = records.len();
    let mut i: usize = 0;
    while i < n
        invariant
            n == records@.len(),
            views == record_views(records@),
            i <= n,
            forall|k: int| 0 <= k < i ==> (#[trigger] record_row(views[k])) is Some,
        decreases n - i,
    {
        match &records[i] {
            Some(record) => {
                if parse_value_type(record.2.as_str()).is_none() {
                    assert(record_row(views[i as int]) is None);
                    return false;
                }
            },
            None => {
                assert(record_row(views[i as int]) is None);
                return false;
            },
        }
        i = i + 1;
    }
    true
}

/// As `create_mapping`, but `None` where a record does not describe a row.
/// The records are read once to test them and once more by `create_mapping`.
pub fn try_create_mapping(data: &[u8]) -> (result: Option<MappingTable>)
    ensures
        result is Some <==> records_valid(csv_records(data@)),
        result matches Some(t) ==> t@ == rows_map(records_rows(csv_records(data@))),
{
    let records = read_records(data);
    if records_describe_rows(&records) {
        Some(create_mapping(data))
    } else {
        None
    }
}

} // verus!
