//! Text forms of rows: the cells of a row and the lines of a CSV dump.

use crate::document::{
    bson_view, doc_get, doc_keys, doc_view, double_text, element_bool, element_double_text,
    element_i32, element_i64, element_kind, element_text, entry_value, ElementKind, Entries, Value,
};
use crate::text::{
    chars_of, decimal_chars, decimal_digits, push_chars, push_str, signed_decimal,
    signed_decimal_chars, string_of,
};
use vstd::prelude::*;

verus! {

/// The text of a cell: a number as it prints, a string as it is, a boolean as
/// `true` or `false`, and `None` for a missing value and for any other kind.
pub open spec fn cell_text(v: Option<Value>) -> Seq<char> {
    match v {
        Some(Value::Double(bits)) => double_text(bits),
        Some(Value::Int32(i)) => signed_decimal(i as int),
        Some(Value::Int64(i)) => signed_decimal(i as int),
        Some(Value::Text(s)) => s,
        Some(Value::Boolean(b)) => if b {
            "true"@
        } else {
            "false"@
        },
        _ => "None"@,
    }
}

/// The value of an element that may be missing.
pub open spec fn value_of(e: Option<&bson::Bson>) -> Option<Value> {
    match e {
        Some(b) => Some(bson_view(*b)),
        None => None,
    }
}

/// The text of a cell.
pub fn cell_chars(e: Option<&bson::Bson>) -> (r: Vec<char>)
    ensures
        r@ == cell_text(value_of(e)),
{
    match e {
        None => chars_of("None"),
        Some(b) => match element_kind(b) {
            ElementKind::Double => match element_double_text(b) {
                Some(s) => chars_of(s.as_str()),
                None => chars_of("None"),
            },
            ElementKind::Int32 => match element_i32(b) {
                Some(i) => signed_decimal_chars(i as i64),
                None => chars_of("None"),
            },
            ElementKind::Int64 => match element_i64(b) {
                Some(i) => signed_decimal_chars(i),
                None => chars_of("None"),
            },
            ElementKind::Text => match element_text(b) {
                Some(s) => chars_of(s),
                None => chars_of("None"),
            },
            ElementKind::Boolean => match element_bool(b) {
                Some(v) => if v {
                    chars_of("true")
                } else {
                    chars_of("false")
                },
                None => chars_of("None"),
            },
            _ => chars_of("None"),
        },
    }
}

/// The first line of a CSV dump up to its `n`-th column: `timestamp`, then
/// each column name after a comma.
pub open spec fn csv_header(schema: Entries, n: int) -> Seq<char>
    decreases n,
{
    if n <= 0 {
        "timestamp"@
    } else {
        csv_header(schema, n - 1) + ","@ + schema[n - 1].0
    }
}

/// The cells of a row under the first `n` columns of the schema, each after a
/// comma.
pub open spec fn csv_cells(row: Entries, schema: Entries, n: int) -> Seq<char>
    decreases n,
{
    if n <= 0 {
        Seq::empty()
    } else {
        csv_cells(row, schema, n - 1) + ","@ + cell_text(entry_value(row, schema[n - 1].0))
    }
}

/// The line of a record: its timestamp, its cells, and a line feed.
pub open spec fn csv_line(record: (u128, Entries), schema: Entries) -> Seq<char> {
    decimal_digits(record.0 as nat) + csv_cells(record.1, schema, schema.len() as int) + "\n"@
}

/// The lines of the first `n` records.
pub open spec fn csv_lines(records: Seq<(u128, Entries)>, schema: Entries, n: int) -> Seq<char>
    decreases n,
{
    if n <= 0 {
        Seq::empty()
    } else {
        csv_lines(records, schema, n - 1) + csv_line(records[n - 1], schema)
    }
}

/// A CSV dump: the header line, then one line for each record.
pub open spec fn csv_text(schema: Entries, records: Seq<(u128, Entries)>) -> Seq<char> {
    csv_header(schema, schema.len() as int) + "\n"@ + csv_lines(
        records,
        schema,
        records.len() as int,
    )
}

/// What a list of timestamps with their rows stands for.
pub open spec fn row_views(records: Seq<(u128, bson::Document)>) -> Seq<(u128, Entries)> {
    records.map_values(|r: (u128, bson::Document)| (r.0, doc_view(r.1)))
}

/// The CSV dump of the records under the columns of the schema.
pub fn csv_of(schema: &bson::Document, records: &Vec<(u128, bson::Document)>) -> (r: String)
    ensures
        r@ == csv_text(doc_view(*schema), row_views(records@)),
{
    let names = doc_keys(schema);
    let ghost cols = doc_view(*schema);
    let ghost recs = row_views(records@);
    let mut out: Vec<char> = Vec::new();
    push_str(&mut out, "timestamp");
    let mut c: usize = 0;
    while c < names.len()
        invariant
            c <= names@.len(),
            names@.len() == cols.len(),
            forall|j: int| 0 <= j < names@.len() ==> (#[trigger] names@[j])@ == cols[j].0,
            out@ == csv_header(cols, c as int),
        decreases names@.len() - c,
    {
        push_str(&mut out, ",");
        push_str(&mut out, names[c].as_str());
        c += 1;
    }
    push_str(&mut out, "\n");
    let ghost head = out@;
    assert(head + csv_lines(recs, cols, 0) =~= head);
    let mut i: usize = 0;
    while i < records.len()
        invariant
            i <= records@.len(),
            recs == row_views(records@),
            cols == doc_view(*schema),
            names@.len() == cols.len(),
            forall|j: int| 0 <= j < names@.len() ==> (#[trigger] names@[j])@ == cols[j].0,
            out@ == head + csv_lines(recs, cols, i as int),
        decreases records@.len() - i,
    {
        let ghost before = out@;
        let ghost row = recs[i as int].1;
        assert(row == doc_view(records@[i as int].1));
        push_chars(&mut out, &decimal_chars(records[i].0));
        let ghost start = out@;
        assert(start + csv_cells(row, cols, 0) =~= start);
        let mut k: usize = 0;
        while k < names.len()
            invariant
                k <= names@.len(),
                i < records@.len(),
                row == doc_view(records@[i as int].1),
                names@.len() == cols.len(),
                forall|j: int| 0 <= j < names@.len() ==> (#[trigger] names@[j])@ == cols[j].0,
                out@ == start + csv_cells(row, cols, k as int),
            decreases names@.len() - k,
        {
            let ghost sofar = csv_cells(row, cols, k as int);
            push_str(&mut out, ",");
            let cell = cell_chars(doc_get(&records[i].1, names[k].as_str()));
            push_chars(&mut out, &cell);
            assert(out@ =~= start + (sofar + ","@ + cell@));
            k += 1;
        }
        push_str(&mut out, "\n");
        assert(out@ =~= before + csv_line(recs[i as int], cols));
        assert(out@ =~= head + (csv_lines(recs, cols, i as int) + csv_line(recs[i as int], cols)));
        i += 1;
    }
    string_of(&out)
}

} // verus!
