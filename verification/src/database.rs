//! The database: an ordered index of rows under a schema, with the least and
//! the greatest timestamp seen. Inserts are checked against the schema and
//! moved past occupied timestamps.

use crate::document::{
    bson_view, clone_document, clone_element, decode_document, decoded, doc_contains_key, doc_get,
    doc_insert, doc_into_entries, doc_keys, doc_view, document_element, element_document,
    element_kind, element_text, element_views, encode_document, encoded, entry_value, entry_views,
    has_key, key_index, lemma_key_index, new_document, text_element, upsert, ElementKind, Entries,
    Value,
};
use crate::index::{
    all_records, cursor_next, cursor_rest, cursor_seek, lemma_listing_exists, lemma_taken_is_range,
    lists_between, no_rows, records_between, tree_contains, tree_cursor, tree_insert, tree_len,
    tree_lookup, tree_new, tree_remove, tree_rows, RowTree,
};
use crate::render::{csv_of, csv_text, row_views};
use crate::schema::{
    columns_of, distinct_names, law_parsed_names_differ, parse_schema, parse_schema_spec,
    SchemaError,
};
use crate::text::{
    chars_of, decimal_digits, decimal_string, lemma_decimal_injective,
    lemma_parse_decimal_round_trip, parse_u128, parse_u128_spec,
};
use vstd::prelude::*;

verus! {

/// The schema that `n` column names and types make, each column set in turn:
/// a name that comes again keeps its place and takes the later type.
pub open spec fn schema_of(columns: Seq<(Seq<char>, Seq<char>)>, n: int) -> Entries
    decreases n,
{
    if n <= 0 {
        Seq::empty()
    } else {
        upsert(schema_of(columns, n - 1), columns[n - 1].0, Value::Text(columns[n - 1].1))
    }
}

/// The entries that columns stand for in a schema: each name with the text of
/// its type.
pub open spec fn column_entries(columns: Seq<(Seq<char>, Seq<char>)>) -> Entries {
    columns.map_values(|c: (Seq<char>, Seq<char>)| (c.0, Value::Text(c.1)))
}

/// The schema of columns whose names differ from one another holds the
/// columns in their order, each name with its type.
pub proof fn law_schema_of_distinct(columns: Seq<(Seq<char>, Seq<char>)>, n: int)
    requires
        distinct_names(columns),
        0 <= n <= columns.len(),
    ensures
        schema_of(columns, n) == column_entries(columns.take(n)),
    decreases n,
{
    if n <= 0 {
        assert(schema_of(columns, n) =~= column_entries(columns.take(n)));
    } else {
        law_schema_of_distinct(columns, n - 1);
        let before = schema_of(columns, n - 1);
        let name = columns[n - 1].0;
        lemma_key_index(before, name);
        let at = key_index(before, name);
        if at >= 0 {
            assert(before[at].0 == columns[at].0);
            assert(columns[at].0 != columns[n - 1].0);
        }
        assert(schema_of(columns, n) =~= column_entries(columns.take(n)));
    }
}

/// After a schema text is loaded, the schema holds exactly the columns that
/// the text declares, in the order of their lines, each name with its type.
pub proof fn law_loaded_schema(text: Seq<char>)
    requires
        parse_schema_spec(text) is Columns,
    ensures
        fresh_state(parse_schema_spec(text)->Columns_0).schema == column_entries(
            parse_schema_spec(text)->Columns_0,
        ),
{
    let columns = parse_schema_spec(text)->Columns_0;
    law_parsed_names_differ(text);
    law_schema_of_distinct(columns, columns.len() as int);
    assert(columns.take(columns.len() as int) =~= columns);
}

/// The state of an empty database with the given columns.
pub open spec fn fresh_state(columns: Seq<(Seq<char>, Seq<char>)>) -> State {
    State {
        schema: schema_of(columns, columns.len() as int),
        rows: no_rows(),
        min_ts: u128::MAX,
        max_ts: 0,
    }
}

/// Whether every entry of `row` is named like a column of `schema`.
pub open spec fn conforms(row: Entries, schema: Entries) -> bool {
    forall|i: int| 0 <= i < row.len() ==> has_key(schema, (#[trigger] row[i]).0)
}

/// The position of the first entry among the first `n` of `row` that is not
/// named like a column of `schema`, or -1 where there is none.
pub open spec fn first_unknown(row: Entries, schema: Entries, n: int) -> int
    decreases n,
{
    if n <= 0 {
        -1
    } else {
        let before = first_unknown(row, schema, n - 1);
        if before >= 0 {
            before
        } else if !has_key(schema, row[n - 1].0) {
            n - 1
        } else {
            -1
        }
    }
}

/// The least key at or after `key` that no row occupies; one more than the
/// greatest key where every key from `key` on is occupied.
pub open spec fn first_free(rows: Map<u128, Entries>, key: u128) -> int
    decreases u128::MAX - key,
{
    if !rows.contains_key(key) {
        key as int
    } else if key == u128::MAX {
        u128::MAX + 1
    } else {
        first_free(rows, (key + 1) as u128)
    }
}

/// The entries that stand for a list of records in a result: each record
/// under the decimal form of its key, as an embedded document.
pub open spec fn record_entries(records: Seq<(u128, Entries)>) -> Entries {
    records.map_values(|r: (u128, Entries)| (decimal_digits(r.0 as nat), Value::Embedded(r.1)))
}

/// No record of an ascending list is named like the decimal form of a greater
/// key.
pub proof fn lemma_new_record_name(records: Seq<(u128, Entries)>, key: u128)
    requires
        forall|i: int| 0 <= i < records.len() ==> (#[trigger] records[i]).0 < key,
    ensures
        key_index(record_entries(records), decimal_digits(key as nat)) == -1,
{
    let entries = record_entries(records);
    let name = decimal_digits(key as nat);
    lemma_key_index(entries, name);
    let at = key_index(entries, name);
    if at >= 0 {
        assert(entries[at].0 == decimal_digits(records[at].0 as nat));
        lemma_decimal_injective(records[at].0 as nat, key as nat);
    }
}

/// The smaller of two timestamps.
pub open spec fn min_of(a: u128, b: u128) -> u128 {
    if a < b {
        a
    } else {
        b
    }
}

/// The greater of two timestamps.
pub open spec fn max_of(a: u128, b: u128) -> u128 {
    if a > b {
        a
    } else {
        b
    }
}

/// What a database holds, as a mathematical value.
pub struct State {
    /// For each column, in order, its name and the text of its type.
    pub schema: Entries,
    /// For each timestamp, the entries of its row.
    pub rows: Map<u128, Entries>,
    /// The lower bound of the timestamps inserted so far.
    pub min_ts: u128,
    /// The upper bound of the timestamps inserted so far.
    pub max_ts: u128,
}

/// The state after a row is offered at `key`: the row goes to the first free
/// timestamp from `key` on and widens the bounds to hold it. A row that does
/// not conform to the schema, or for which no timestamp is free, leaves the
/// state as it is.
pub open spec fn insert_result(s: State, key: u128, row: Entries) -> State {
    if conforms(row, s.schema) && first_free(s.rows, key) <= u128::MAX {
        let k = first_free(s.rows, key) as u128;
        State {
            schema: s.schema,
            rows: s.rows.insert(k, row),
            min_ts: min_of(s.min_ts, k),
            max_ts: max_of(s.max_ts, k),
        }
    } else {
        s
    }
}

/// The document that a snapshot of a state is: the schema, the two bounds in
/// decimal form, and the rows in ascending order of timestamp.
pub open spec fn snapshot_entries(s: State) -> Entries {
    seq![
        ("schema"@, Value::Embedded(s.schema)),
        ("min_timestamp"@, Value::Text(decimal_digits(s.min_ts as nat))),
        ("max_timestamp"@, Value::Text(decimal_digits(s.max_ts as nat))),
        ("rows"@, Value::Embedded(record_entries(all_records(s.rows)))),
    ]
}

/// Whether every entry holds a text.
pub open spec fn all_texts(entries: Entries) -> bool {
    forall|i: int| 0 <= i < entries.len() ==> (#[trigger] entries[i]).1 is Text
}

/// The state after the first `n` stored rows were offered to `s` in turn, each
/// at the timestamp that its name denotes. `None` where one of them is not a
/// document under a decimal timestamp.
pub open spec fn restore_rows(s: State, stored: Entries, n: int) -> Option<State>
    decreases n,
{
    if n <= 0 {
        Some(s)
    } else {
        match restore_rows(s, stored, n - 1) {
            None => None,
            Some(before) => match (parse_u128_spec(stored[n - 1].0), stored[n - 1].1) {
                (Some(key), Value::Embedded(row)) => Some(insert_result(before, key, row)),
                _ => None,
            },
        }
    }
}

/// The state that a snapshot document restores. `None` where the document is
/// malformed: where it lacks a schema document whose entries are texts, a
/// decimal lower or upper bound, or a document of rows under decimal
/// timestamps.
pub open spec fn restored(doc: Entries) -> Option<State> {
    match (
        entry_value(doc, "schema"@),
        entry_value(doc, "min_timestamp"@),
        entry_value(doc, "max_timestamp"@),
        entry_value(doc, "rows"@),
    ) {
        (
            Some(Value::Embedded(schema)),
            Some(Value::Text(min)),
            Some(Value::Text(max)),
            Some(Value::Embedded(stored)),
        ) => {
            if all_texts(schema) && parse_u128_spec(min) is Some && parse_u128_spec(max) is Some {
                restore_rows(
                    State {
                        schema,
                        rows: no_rows(),
                        min_ts: parse_u128_spec(min)->0,
                        max_ts: parse_u128_spec(max)->0,
                    },
                    stored,
                    stored.len() as int,
                )
            } else {
                None
            }
        },
        _ => None,
    }
}

/// Whether a state is one that a database can be in.
pub open spec fn state_wf(s: State) -> bool {
    &&& s.rows.dom().finite()
    &&& forall|k: u128| #[trigger] s.rows.contains_key(k) ==> s.min_ts <= k <= s.max_ts
    &&& forall|k: u128| #[trigger] s.rows.contains_key(k) ==> conforms(s.rows[k], s.schema)
    &&& all_texts(s.schema)
}

/// The four names of a snapshot document differ from one another.
pub proof fn lemma_snapshot_names()
    ensures
        "schema"@ != "min_timestamp"@,
        "schema"@ != "max_timestamp"@,
        "schema"@ != "rows"@,
        "min_timestamp"@ != "max_timestamp"@,
        "min_timestamp"@ != "rows"@,
        "max_timestamp"@ != "rows"@,
{
    reveal_strlit("schema");
    reveal_strlit("min_timestamp");
    reveal_strlit("max_timestamp");
    reveal_strlit("rows");
    assert("schema"@.len() == 6);
    assert("min_timestamp"@.len() == 13);
    assert("max_timestamp"@.len() == 13);
    assert("rows"@.len() == 4);
    assert("min_timestamp"@[1] != "max_timestamp"@[1]);
}

/// What each of the four names of a snapshot document leads to.
pub proof fn lemma_snapshot_lookup(s: State)
    ensures
        entry_value(snapshot_entries(s), "schema"@) == Some(Value::Embedded(s.schema)),
        entry_value(snapshot_entries(s), "min_timestamp"@) == Some(
            Value::Text(decimal_digits(s.min_ts as nat)),
        ),
        entry_value(snapshot_entries(s), "max_timestamp"@) == Some(
            Value::Text(decimal_digits(s.max_ts as nat)),
        ),
        entry_value(snapshot_entries(s), "rows"@) == Some(
            Value::Embedded(record_entries(all_records(s.rows))),
        ),
{
    lemma_snapshot_names();
    let doc = snapshot_entries(s);
    lemma_key_index(doc, "schema"@);
    lemma_key_index(doc, "min_timestamp"@);
    lemma_key_index(doc, "max_timestamp"@);
    lemma_key_index(doc, "rows"@);
    assert(doc[0].0 == "schema"@);
    assert(doc[1].0 == "min_timestamp"@);
    assert(doc[2].0 == "max_timestamp"@);
    assert(doc[3].0 == "rows"@);
}

/// The rows among the first `n` of a list of records.
pub open spec fn rows_of_first(records: Seq<(u128, Entries)>, rows: Map<u128, Entries>, n: int) -> Map<
    u128,
    Entries,
> {
    Map::new(|k: u128| exists|i: int| 0 <= i < n && (#[trigger] records[i]).0 == k, |k: u128| rows[k])
}

/// Offering the first `n` rows of a state, in ascending order, to that state
/// emptied of rows gives those rows back at their timestamps.
pub proof fn lemma_restore_rows(s: State, n: int)
    requires
        state_wf(s),
        0 <= n <= all_records(s.rows).len(),
    ensures
        restore_rows(
            State { schema: s.schema, rows: no_rows(), min_ts: s.min_ts, max_ts: s.max_ts },
            record_entries(all_records(s.rows)),
            n,
        ) == Some(
            State {
                schema: s.schema,
                rows: rows_of_first(all_records(s.rows), s.rows, n),
                min_ts: s.min_ts,
                max_ts: s.max_ts,
            },
        ),
    decreases n,
{
    let records = all_records(s.rows);
    let stored = record_entries(records);
    let init = State { schema: s.schema, rows: no_rows(), min_ts: s.min_ts, max_ts: s.max_ts };
    lemma_listing_exists(s.rows, 0, u128::MAX);
    if n <= 0 {
        assert(rows_of_first(records, s.rows, n) =~= no_rows());
    } else {
        lemma_restore_rows(s, n - 1);
        let before = State {
            schema: s.schema,
            rows: rows_of_first(records, s.rows, n - 1),
            min_ts: s.min_ts,
            max_ts: s.max_ts,
        };
        let key = records[n - 1].0;
        let row = records[n - 1].1;
        lemma_parse_decimal_round_trip(key);
        assert(stored[n - 1] == (decimal_digits(key as nat), Value::Embedded(row)));
        assert(s.rows.contains_key(key));
        assert(!before.rows.contains_key(key)) by {
            if before.rows.contains_key(key) {
                let i = choose|i: int| 0 <= i < n - 1 && (#[trigger] records[i]).0 == key;
                assert(records[i].0 < records[n - 1].0);
            }
        }
        assert(insert_result(before, key, row).rows =~= rows_of_first(records, s.rows, n)) by {
            assert forall|k: u128| rows_of_first(records, s.rows, n).contains_key(k) implies #[trigger]
                before.rows.insert(key, row).contains_key(k) by {
                let i = choose|i: int| 0 <= i < n && (#[trigger] records[i]).0 == k;
                if i < n - 1 {
                    assert(before.rows.contains_key(k));
                }
            }
        }
    }
}

/// A snapshot restores the state that it was taken of: the same schema, the
/// same rows at the same timestamps, and the same bounds.
pub proof fn law_snapshot_restores(s: State)
    requires
        state_wf(s),
    ensures
        restored(snapshot_entries(s)) == Some(s),
{
    lemma_snapshot_lookup(s);
    lemma_parse_decimal_round_trip(s.min_ts);
    lemma_parse_decimal_round_trip(s.max_ts);
    let records = all_records(s.rows);
    lemma_listing_exists(s.rows, 0, u128::MAX);
    lemma_restore_rows(s, records.len() as int);
    assert(rows_of_first(records, s.rows, records.len() as int) =~= s.rows) by {
        assert forall|k: u128| #[trigger] s.rows.contains_key(k) implies rows_of_first(
            records,
            s.rows,
            records.len() as int,
        ).contains_key(k) by {
            let i = choose|i: int| 0 <= i < records.len() && (#[trigger] records[i]).0 == k;
        }
    }
    assert(record_entries(records).len() == records.len());
}

/// The state after the row at `key` is removed. The bounds stay.
pub open spec fn remove_result(s: State, key: u128) -> State {
    State { schema: s.schema, rows: s.rows.remove(key), min_ts: s.min_ts, max_ts: s.max_ts }
}

/// The state without rows, with the bounds reset.
pub open spec fn no_rows_state(s: State) -> State {
    State { schema: s.schema, rows: no_rows(), min_ts: u128::MAX, max_ts: 0 }
}

/// The values that the records hold under `field`, in the order of the
/// records; a record without that field gives none.
pub open spec fn column_values(records: Seq<(u128, Entries)>, field: Seq<char>) -> Seq<Value>
    decreases records.len(),
{
    if records.len() == 0 {
        Seq::empty()
    } else {
        let before = column_values(records.drop_last(), field);
        match entry_value(records.last().1, field) {
            Some(v) => before.push(v),
            None => before,
        }
    }
}

/// What pins `first_free` down: every key from `key` up to it is occupied, and
/// it is free unless it lies beyond the greatest key.
pub proof fn lemma_first_free(rows: Map<u128, Entries>, key: u128)
    ensures
        key <= first_free(rows, key) <= u128::MAX + 1,
        forall|j: u128| key <= j < first_free(rows, key) ==> rows.contains_key(j),
        first_free(rows, key) <= u128::MAX ==> !rows.contains_key(first_free(rows, key) as u128),
    decreases u128::MAX - key,
{
    if rows.contains_key(key) && key < u128::MAX {
        lemma_first_free(rows, (key + 1) as u128);
    }
}

/// A conforming row offered at a free timestamp is found there afterwards,
/// the number of rows grows by one, and the bounds hold the timestamp.
pub proof fn law_insert_fresh(s: State, key: u128, row: Entries)
    requires
        state_wf(s),
        conforms(row, s.schema),
        !s.rows.contains_key(key),
    ensures
        state_wf(insert_result(s, key, row)),
        insert_result(s, key, row).rows.contains_key(key),
        insert_result(s, key, row).rows[key] == row,
        insert_result(s, key, row).rows.len() == s.rows.len() + 1,
        insert_result(s, key, row).min_ts <= key <= insert_result(s, key, row).max_ts,
{
}

/// A conforming row offered at an occupied timestamp goes to a later one: the
/// first that is free. Every timestamp from the offered one up to it is
/// occupied, so the distance between the two is the number of occupied
/// timestamps in a row from the offered one on.
pub proof fn law_insert_occupied(s: State, key: u128, row: Entries)
    requires
        state_wf(s),
        conforms(row, s.schema),
        s.rows.contains_key(key),
        first_free(s.rows, key) <= u128::MAX,
    ensures
        first_free(s.rows, key) > key,
        forall|j: u128| key <= j < first_free(s.rows, key) ==> s.rows.contains_key(j),
        !s.rows.contains_key(first_free(s.rows, key) as u128),
        insert_result(s, key, row).rows == s.rows.insert(first_free(s.rows, key) as u128, row),
        state_wf(insert_result(s, key, row)),
{
    lemma_first_free(s.rows, key);
}

/// After a removal nothing is found at the timestamp, and a second removal
/// finds nothing and changes nothing.
pub proof fn law_remove(s: State, key: u128)
    requires
        state_wf(s),
    ensures
        state_wf(remove_result(s, key)),
        !remove_result(s, key).rows.contains_key(key),
        remove_result(remove_result(s, key), key) == remove_result(s, key),
{
    assert(s.rows.remove(key).remove(key) =~= s.rows.remove(key));
}

/// The records of a range are exactly the rows whose timestamp lies in the
/// range, in strictly ascending order of timestamp.
pub proof fn law_range(s: State, lo: u128, hi: u128)
    requires
        state_wf(s),
        lo <= hi,
    ensures
        lists_between(records_between(s.rows, lo, hi), s.rows, lo, hi),
{
    lemma_listing_exists(s.rows, lo, hi);
}

/// Why a snapshot was not loaded.
#[derive(Debug)]
pub enum LoadError {
    /// The bytes do not encode a document, or the document is no snapshot.
    Malformed,
}

/// Why a row was not inserted.
#[derive(Debug)]
pub enum InsertError {
    /// The row has an entry that the schema does not name: the first such
    /// name.
    SchemaViolation(String),
    /// Every timestamp from the requested one on is occupied.
    KeysExhausted,
}

/// The store: rows by timestamp, the schema they follow, and the bounds of the
/// timestamps inserted so far.
pub struct Database {
    bptree: RowTree,
    schema: bson::Document,
    min_timestamp: u128,
    max_timestamp: u128,
}

impl Database {
    /// The rows: for each timestamp, the entries of its document.
    pub closed spec fn rows(&self) -> Map<u128, Entries> {
        tree_rows(self.bptree)
    }

    /// The schema: for each column, in order, its name and the text of its
    /// type.
    pub closed spec fn schema(&self) -> Entries {
        doc_view(self.schema)
    }

    /// The lower bound of the timestamps inserted so far.
    pub closed spec fn min_ts(&self) -> u128 {
        self.min_timestamp
    }

    /// The upper bound of the timestamps inserted so far.
    pub closed spec fn max_ts(&self) -> u128 {
        self.max_timestamp
    }

    /// What holds of every database: it has finitely many rows, each between
    /// the two bounds and made of columns of the schema, and each column's
    /// type is a text.
    pub open spec fn wf(&self) -> bool {
        state_wf(self.state())
    }

    /// What the database holds.
    pub open spec fn state(&self) -> State {
        State {
            schema: self.schema(),
            rows: self.rows(),
            min_ts: self.min_ts(),
            max_ts: self.max_ts(),
        }
    }

    /// An empty database whose schema has the given columns, each name with
    /// the type at the same position.
    pub fn new(fields: Vec<String>, types: Vec<String>) -> (db: Database)
        requires
            fields@.len() == types@.len(),
        ensures
            db.wf(),
            db.state() == fresh_state(columns_of(fields@, types@)),
    {
        let mut schema = new_document();
        assert(doc_view(schema) =~= schema_of(columns_of(fields@, types@), 0));
        let mut i: usize = 0;
        while i < fields.len()
            invariant
                i <= fields@.len(),
                fields@.len() == types@.len(),
                doc_view(schema) == schema_of(columns_of(fields@, types@), i as int),
                forall|j: int| 0 <= j < doc_view(schema).len() ==> (#[trigger] doc_view(schema)[j]).1 is Text,
            decreases fields@.len() - i,
        {
            proof {
                lemma_key_index(doc_view(schema), fields@[i as int]@);
            }
            doc_insert(&mut schema, fields[i].clone(), text_element(types[i].clone()));
            i += 1;
        }
        Database { bptree: tree_new(), schema, min_timestamp: u128::MAX, max_timestamp: 0 }
    }

    /// Inserts `val` at the first free timestamp at or after `key` and returns
    /// that timestamp. A row with an entry that the schema does not name is
    /// rejected, and so is one for which no timestamp is free; the database
    /// then stays as it is.
    pub fn insert_to_database(&mut self, key: u128, val: bson::Document) -> (r: Result<
        u128,
        InsertError,
    >)
        requires
            old(self).wf(),
        ensures
            final(self).wf(),
            final(self).schema() == old(self).schema(),
            final(self).state() == insert_result(old(self).state(), key, doc_view(val)),
            match r {
                Ok(k) => {
                    &&& conforms(doc_view(val), old(self).schema())
                    &&& k == first_free(old(self).rows(), key)
                    &&& final(self).rows() == old(self).rows().insert(k, doc_view(val))
                    &&& final(self).min_ts() == min_of(old(self).min_ts(), k)
                    &&& final(self).max_ts() == max_of(old(self).max_ts(), k)
                },
                Err(InsertError::SchemaViolation(name)) => {
                    let at = first_unknown(
                        doc_view(val),
                        old(self).schema(),
                        doc_view(val).len() as int,
                    );
                    &&& 0 <= at < doc_view(val).len()
                    &&& name@ == doc_view(val)[at].0
                    &&& final(self).rows() == old(self).rows()
                    &&& final(self).min_ts() == old(self).min_ts()
                    &&& final(self).max_ts() == old(self).max_ts()
                },
                Err(InsertError::KeysExhausted) => {
                    &&& conforms(doc_view(val), old(self).schema())
                    &&& first_free(old(self).rows(), key) > u128::MAX
                    &&& final(self).rows() == old(self).rows()
                    &&& final(self).min_ts() == old(self).min_ts()
                    &&& final(self).max_ts() == old(self).max_ts()
                },
            },
    {
        let names = doc_keys(&val);
        let mut i: usize = 0;
        while i < names.len()
            invariant
                *self == *old(self),
                old(self).wf(),
                i <= names@.len(),
                names@.len() == doc_view(val).len(),
                forall|j: int| 0 <= j < names@.len() ==> (#[trigger] names@[j])@ == doc_view(val)[j].0,
                first_unknown(doc_view(val), doc_view(self.schema), i as int) == -1,
                forall|j: int| 0 <= j < i ==> has_key(doc_view(self.schema), (#[trigger] doc_view(val)[j]).0),
            decreases names@.len() - i,
        {
            if !doc_contains_key(&self.schema, names[i].as_str()) {
                proof {
                    Self::lemma_first_unknown_stays(
                        doc_view(val),
                        doc_view(self.schema),
                        i + 1,
                        doc_view(val).len() as int,
                    );
                }
                return Err(InsertError::SchemaViolation(names[i].clone()));
            }
            i += 1;
        }
        let mut k: u128 = key;
        while tree_contains(&self.bptree, k)
            invariant
                *self == *old(self),
                old(self).wf(),
                conforms(doc_view(val), doc_view(self.schema)),
                key <= k,
                first_free(tree_rows(self.bptree), k) == first_free(tree_rows(self.bptree), key),
            decreases u128::MAX - k,
        {
            if k == u128::MAX {
                return Err(InsertError::KeysExhausted);
            }
            k += 1;
        }
        if self.min_timestamp > k {
            self.min_timestamp = k;
        }
        if self.max_timestamp < k {
            self.max_timestamp = k;
        }
        tree_insert(&mut self.bptree, k, val);
        Ok(k)
    }

    /// Once an unknown entry is found among the first entries, it stays the
    /// first one however many more are looked at.
    pub proof fn lemma_first_unknown_stays(row: Entries, schema: Entries, n: int, m: int)
        requires
            0 <= n <= m,
            first_unknown(row, schema, n) >= 0,
        ensures
            first_unknown(row, schema, m) == first_unknown(row, schema, n),
        decreases m - n,
    {
        if n < m {
            Self::lemma_first_unknown_stays(row, schema, n, m - 1);
        }
    }

    /// A copy of the row at `key`.
    pub fn get_one(&self, key: u128) -> (r: Option<bson::Document>)
        ensures
            match r {
                Some(d) => self.rows().contains_key(key) && doc_view(d) == self.rows()[key],
                None => !self.rows().contains_key(key),
            },
    {
        tree_lookup(&self.bptree, key)
    }

    /// The rows between `start_key` and `end_key`, both included, as a
    /// document: each row under the decimal form of its timestamp, in
    /// ascending order of timestamp.
    pub fn get_range(&self, start_key: u128, end_key: u128) -> (r: bson::Document)
        ensures
            doc_view(r) == record_entries(records_between(self.rows(), start_key, end_key)),
            lists_between(
                records_between(self.rows(), start_key, end_key),
                self.rows(),
                start_key,
                end_key,
            ),
    {
        let records = self.records_in(start_key, end_key);
        let ghost listed = row_views(records@);
        let mut result = new_document();
        assert(doc_view(result) =~= record_entries(listed.take(0)));
        let mut i: usize = 0;
        while i < records.len()
            invariant
                i <= records@.len(),
                listed == row_views(records@),
                lists_between(listed, self.rows(), start_key, end_key),
                doc_view(result) == record_entries(listed.take(i as int)),
            decreases records@.len() - i,
        {
            let key = records[i].0;
            proof {
                let taken = listed.take(i as int);
                assert(listed[i as int] == (key, doc_view(records@[i as int].1)));
                assert forall|j: int| 0 <= j < taken.len() implies (#[trigger] taken[j]).0 < key by {
                    assert(listed[j].0 < listed[i as int].0);
                }
                lemma_new_record_name(taken, key);
                assert(record_entries(listed.take(i + 1)) =~= record_entries(taken).push(
                    (decimal_digits(key as nat), Value::Embedded(listed[i as int].1)),
                ));
            }
            doc_insert(
                &mut result,
                decimal_string(key),
                document_element(clone_document(&records[i].1)),
            );
            i += 1;
        }
        assert(listed.take(records@.len() as int) =~= listed);
        result
    }

    /// The database as one document: the schema, the two bounds in decimal
    /// form, and the rows under the decimal forms of their timestamps.
    pub fn snapshot(&self) -> (d: bson::Document)
        ensures
            doc_view(d) == snapshot_entries(self.state()),
    {
        let mut d = new_document();
        let ghost s = self.state();
        proof {
            lemma_snapshot_names();
        }
        let ghost e0 = doc_view(d);
        doc_insert(&mut d, "schema".to_owned(), document_element(clone_document(&self.schema)));
        let ghost e1 = doc_view(d);
        proof {
            lemma_key_index(e0, "schema"@);
            lemma_key_index(e1, "min_timestamp"@);
        }
        doc_insert(
            &mut d,
            "min_timestamp".to_owned(),
            text_element(decimal_string(self.min_timestamp)),
        );
        let ghost e2 = doc_view(d);
        proof {
            lemma_key_index(e2, "max_timestamp"@);
        }
        doc_insert(
            &mut d,
            "max_timestamp".to_owned(),
            text_element(decimal_string(self.max_timestamp)),
        );
        let ghost e3 = doc_view(d);
        proof {
            lemma_key_index(e3, "rows"@);
        }
        let rows = self.get_range(0, u128::MAX);
        doc_insert(&mut d, "rows".to_owned(), document_element(rows));
        assert(doc_view(d) =~= snapshot_entries(s));
        d
    }

    /// Replaces the database by the one that a snapshot document holds: its
    /// schema, its bounds, and its rows, each offered in turn at its
    /// timestamp. A malformed document leaves the database as it is.
    #[verifier::loop_isolation(false)]
    pub fn restore(&mut self, doc: &bson::Document) -> (r: Result<(), LoadError>)
        requires
            old(self).wf(),
        ensures
            final(self).wf(),
            match r {
                Ok(_) => restored(doc_view(*doc)) == Some(final(self).state()),
                Err(_) => restored(doc_view(*doc)) is None && final(self).state() == old(self).state(),
            },
    {
        let schema_doc = match doc_get(doc, "schema") {
            Some(b) => match element_document(b) {
                Some(d) => d,
                None => {
                    return Err(LoadError::Malformed);
                },
            },
            None => {
                return Err(LoadError::Malformed);
            },
        };
        let min_text = match doc_get(doc, "min_timestamp") {
            Some(b) => match element_text(b) {
                Some(t) => t,
                None => {
                    return Err(LoadError::Malformed);
                },
            },
            None => {
                return Err(LoadError::Malformed);
            },
        };
        let max_text = match doc_get(doc, "max_timestamp") {
            Some(b) => match element_text(b) {
                Some(t) => t,
                None => {
                    return Err(LoadError::Malformed);
                },
            },
            None => {
                return Err(LoadError::Malformed);
            },
        };
        let rows_doc = match doc_get(doc, "rows") {
            Some(b) => match element_document(b) {
                Some(d) => d,
                None => {
                    return Err(LoadError::Malformed);
                },
            },
            None => {
                return Err(LoadError::Malformed);
            },
        };
        let columns = doc_into_entries(clone_document(schema_doc));
        let mut c: usize = 0;
        while c < columns.len()
            invariant
                c <= columns@.len(),
                entry_views(columns@) == doc_view(*schema_doc),
                forall|j: int| 0 <= j < c ==> (#[trigger] doc_view(*schema_doc)[j]).1 is Text,
            decreases columns@.len() - c,
        {
            assert(entry_views(columns@)[c as int].1 == bson_view(columns@[c as int].1));
            if element_kind(&columns[c].1) != ElementKind::Text {
                return Err(LoadError::Malformed);
            }
            c += 1;
        }
        assert(entry_views(columns@).len() == columns@.len());
        let min_ts = match parse_u128(&chars_of(min_text)) {
            Some(k) => k,
            None => {
                return Err(LoadError::Malformed);
            },
        };
        let max_ts = match parse_u128(&chars_of(max_text)) {
            Some(k) => k,
            None => {
                return Err(LoadError::Malformed);
            },
        };
        let stored = doc_into_entries(clone_document(rows_doc));
        let mut db = Database {
            bptree: tree_new(),
            schema: clone_document(schema_doc),
            min_timestamp: min_ts,
            max_timestamp: max_ts,
        };
        let ghost init = db.state();
        let mut i: usize = 0;
        while i < stored.len()
            invariant
                i <= stored@.len(),
                entry_views(stored@) == doc_view(*rows_doc),
                db.wf(),
                restore_rows(init, doc_view(*rows_doc), i as int) == Some(db.state()),
            decreases stored@.len() - i,
        {
            assert(entry_views(stored@)[i as int] == (
                stored@[i as int].0@,
                bson_view(stored@[i as int].1),
            ));
            let key = match parse_u128(&chars_of(stored[i].0.as_str())) {
                Some(k) => k,
                None => {
                    proof {
                        Self::lemma_restore_rows_fails(
                            init,
                            doc_view(*rows_doc),
                            i + 1,
                            stored@.len() as int,
                        );
                    }
                    return Err(LoadError::Malformed);
                },
            };
            let row = match element_document(&stored[i].1) {
                Some(d) => clone_document(d),
                None => {
                    proof {
                        Self::lemma_restore_rows_fails(
                            init,
                            doc_view(*rows_doc),
                            i + 1,
                            stored@.len() as int,
                        );
                    }
                    return Err(LoadError::Malformed);
                },
            };
            let _ = db.insert_to_database(key, row);
            i += 1;
        }
        assert(entry_views(stored@).len() == stored@.len());
        *self = db;
        Ok(())
    }

    /// Once a stored row is malformed, the rows are, however many more are
    /// looked at.
    pub proof fn lemma_restore_rows_fails(s: State, stored: Entries, n: int, m: int)
        requires
            0 <= n <= m,
            restore_rows(s, stored, n) is None,
        ensures
            restore_rows(s, stored, m) is None,
        decreases m - n,
    {
        if n < m {
            Self::lemma_restore_rows_fails(s, stored, n, m - 1);
        }
    }

    /// The bytes of a snapshot of the database, or the encoder's error.
    pub fn save_bytes(&self) -> (r: Result<Vec<u8>, bson::ser::Error>)
        ensures
            match r {
                Ok(bytes) => exists|d: bson::Document|
                    doc_view(d) == snapshot_entries(self.state()) && encoded(d) == Some(bytes@),
                Err(_) => exists|d: bson::Document|
                    doc_view(d) == snapshot_entries(self.state()) && encoded(d) is None,
            },
    {
        let d = self.snapshot();
        encode_document(&d)
    }

    /// Replaces the database by the one that the bytes of a snapshot hold.
    /// Bytes that encode no document, or a document that is no snapshot,
    /// leave the database as it is.
    pub fn load_bytes(&mut self, bytes: &[u8]) -> (r: Result<(), LoadError>)
        requires
            old(self).wf(),
        ensures
            final(self).wf(),
            match r {
                Ok(_) => decoded(bytes@) is Some && restored(decoded(bytes@)->0) == Some(
                    final(self).state(),
                ),
                Err(_) => (decoded(bytes@) is None || restored(decoded(bytes@)->0) is None)
                    && final(self).state() == old(self).state(),
            },
    {
        match decode_document(bytes) {
            Ok(doc) => self.restore(&doc),
            Err(_) => Err(LoadError::Malformed),
        }
    }

    /// The rows between `start_key` and `end_key`, both included, in ascending
    /// order of timestamp: each timestamp with a copy of its row.
    pub fn records_in(&self, start_key: u128, end_key: u128) -> (r: Vec<(u128, bson::Document)>)
        ensures
            row_views(r@) == records_between(self.rows(), start_key, end_key),
            lists_between(row_views(r@), self.rows(), start_key, end_key),
    {
        let mut result: Vec<(u128, bson::Document)> = Vec::new();
        let mut cursor = tree_cursor(&self.bptree);
        cursor_seek(&mut cursor, start_key);
        let ghost all = cursor_rest(cursor);
        assert(all =~= row_views(result@) + cursor_rest(cursor));
        loop
            invariant_except_break
                lists_between(all, tree_rows(self.bptree), start_key, u128::MAX),
                all == row_views(result@) + cursor_rest(cursor),
                forall|i: int|
                    0 <= i < result@.len() ==> (#[trigger] row_views(result@)[i]).0 <= end_key,
            ensures
                row_views(result@) == records_between(tree_rows(self.bptree), start_key, end_key),
                lists_between(row_views(result@), tree_rows(self.bptree), start_key, end_key),
            decreases cursor_rest(cursor).len(),
        {
            let ghost rest = cursor_rest(cursor);
            let ghost taken = row_views(result@);
            match cursor_next(&mut cursor) {
                Some((key, row)) => {
                    if key > end_key {
                        proof {
                            lemma_taken_is_range(
                                all,
                                taken,
                                rest,
                                tree_rows(self.bptree),
                                start_key,
                                end_key,
                            );
                        }
                        break ;
                    }
                    result.push((key, row));
                    proof {
                        assert(row_views(result@) =~= taken.push(rest[0]));
                        assert(taken.push(rest[0]) + rest.drop_first() =~= taken + rest);
                    }
                },
                None => {
                    proof {
                        lemma_taken_is_range(
                            all,
                            taken,
                            rest,
                            tree_rows(self.bptree),
                            start_key,
                            end_key,
                        );
                    }
                    break ;
                },
            }
        }
        result
    }

    /// The database as CSV text: a header line of `timestamp` and the column
    /// names, then a line for each row in ascending order of timestamp, with
    /// the row's cell under each column.
    pub fn data_to_csv(&self) -> (r: String)
        ensures
            r@ == csv_text(self.schema(), all_records(self.rows())),
    {
        let records = self.records_in(0, u128::MAX);
        csv_of(&self.schema, &records)
    }

    /// The elements that the rows hold under `field_name`, in ascending order
    /// of timestamp; a row without that field gives none.
    pub fn field_values(&self, field_name: &str) -> (r: Vec<bson::Bson>)
        ensures
            element_views(r@) == column_values(all_records(self.rows()), field_name@),
    {
        let records = self.records_in(0, u128::MAX);
        let ghost listed = row_views(records@);
        let mut result: Vec<bson::Bson> = Vec::new();
        assert(element_views(result@) =~= column_values(listed.take(0), field_name@));
        let mut i: usize = 0;
        while i < records.len()
            invariant
                i <= records@.len(),
                listed == row_views(records@),
                element_views(result@) == column_values(listed.take(i as int), field_name@),
            decreases records@.len() - i,
        {
            let ghost before = element_views(result@);
            proof {
                assert(listed[i as int].1 == doc_view(records@[i as int].1));
                assert(listed.take(i + 1).drop_last() =~= listed.take(i as int));
                assert(listed.take(i + 1).last() == listed[i as int]);
            }
            match doc_get(&records[i].1, field_name) {
                Some(b) => {
                    result.push(clone_element(b));
                    assert(element_views(result@) =~= before.push(bson_view(*b)));
                },
                None => {},
            }
            i += 1;
        }
        assert(listed.take(records@.len() as int) =~= listed);
        result
    }

    /// Replaces the database by an empty one whose schema is the one that a
    /// schema text declares. A text that is refused leaves the database as it
    /// is.
    pub fn load_schema_text(&mut self, text: &str) -> (r: Result<(), SchemaError>)
        requires
            old(self).wf(),
        ensures
            final(self).wf(),
            match r {
                Ok(_) => parse_schema_spec(text@) is Columns && final(self).state() == fresh_state(
                    parse_schema_spec(text@)->Columns_0,
                ),
                Err(e) => e.outcome() == parse_schema_spec(text@) && final(self).state() == old(self).state(),
            },
    {
        match parse_schema(text) {
            Ok(lists) => {
                *self = Database::new(lists.0, lists.1);
                Ok(())
            },
            Err(e) => Err(e),
        }
    }

    /// Removes the row at `key` and says whether there was one. The bounds of
    /// the timestamps stay as they are.
    pub fn remove(&mut self, key: u128) -> (found: bool)
        requires
            old(self).wf(),
        ensures
            final(self).wf(),
            found == old(self).rows().contains_key(key),
            final(self).rows() == old(self).rows().remove(key),
            final(self).schema() == old(self).schema(),
            final(self).min_ts() == old(self).min_ts(),
            final(self).max_ts() == old(self).max_ts(),
    {
        tree_remove(&mut self.bptree, key).is_some()
    }

    /// Removes every row and resets the bounds of the timestamps.
    pub fn clear_all(&mut self)
        requires
            old(self).wf(),
        ensures
            final(self).wf(),
            final(self).rows() == no_rows(),
            final(self).schema() == old(self).schema(),
            final(self).min_ts() == u128::MAX,
            final(self).max_ts() == 0,
    {
        self.bptree = tree_new();
        self.min_timestamp = u128::MAX;
        self.max_timestamp = 0;
    }

    /// The number of rows.
    pub fn len(&self) -> (n: usize)
        ensures
            n == self.rows().len(),
    {
        tree_len(&self.bptree)
    }

    /// The lower bound of the timestamps inserted so far.
    pub fn min_timestamp(&self) -> (t: u128)
        ensures
            t == self.min_ts(),
    {
        self.min_timestamp
    }

    /// The upper bound of the timestamps inserted so far.
    pub fn max_timestamp(&self) -> (t: u128)
        ensures
            t == self.max_ts(),
    {
        self.max_timestamp
    }

    /// The names of the columns, in order.
    pub fn column_names(&self) -> (r: Vec<String>)
        ensures
            r@.len() == self.schema().len(),
            forall|i: int| 0 <= i < r@.len() ==> (#[trigger] r@[i])@ == self.schema()[i].0,
    {
        doc_keys(&self.schema)
    }

    /// The type of the column called `name`, if there is such a column.
    pub fn column_type(&self, name: &str) -> (r: Option<String>)
        requires
            self.wf(),
        ensures
            match r {
                Some(t) => entry_value(self.schema(), name@) == Some(Value::Text(t@)),
                None => entry_value(self.schema(), name@) is None,
            },
    {
        match doc_get(&self.schema, name) {
            Some(b) => {
                proof {
                    lemma_key_index(doc_view(self.schema), name@);
                }
                match element_text(b) {
                    Some(t) => Some(t.to_owned()),
                    None => None,
                }
            },
            None => None,
        }
    }

    /// A copy of the schema document.
    pub fn schema_document(&self) -> (d: bson::Document)
        ensures
            doc_view(d) == self.schema(),
    {
        clone_document(&self.schema)
    }
}

} // verus!
