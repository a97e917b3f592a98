//! The query engine: commands of the form `TOKEN::ARG::...`, read from text,
//! run against the database, and answered by a document with the two
//! entries `labels` and `rows`. What needs the file system or floating-point
//! arithmetic is handed to the host as a request.

use crate::database::{insert_result, no_rows_state, record_entries, remove_result, Database, State};
use crate::files::{is_clean, is_plain, is_remainder, sanitize_name};
use crate::document::{
    array_element, boolean_element, bson_view, doc_insert, doc_len, doc_view, document_element,
    element_views, entry_value, int64_element, lemma_key_index, new_document, number_bits,
    parse_number, text_element, upsert, zero_number, Entries, Value,
};
use crate::index::{all_records, records_between};
use crate::text::{
    chars_of, contains, contains_spec, decimal_chars, decimal_digits, find_char, first_position,
    is_text, parse_u128, parse_u128_spec, replace, replace_spec, signed_decimal,
    lemma_decimal_injective, push_str, signed_decimal_chars, slice_chars, split, split_spec,
    string_of, trim, trim_spec, views,
};
use vstd::prelude::*;

verus! {

/// The elements that stand for a list of texts.
pub open spec fn text_values(labels: Seq<Seq<char>>) -> Seq<Value> {
    labels.map_values(|l: Seq<char>| Value::Text(l))
}

/// The texts of a list of strings.
pub open spec fn texts_of(labels: Seq<String>) -> Seq<Seq<char>> {
    labels.map_values(|l: String| l@)
}

/// A result: the column labels and the rows.
pub open spec fn page(labels: Seq<Seq<char>>, rows: Entries) -> Entries {
    seq![("labels"@, Value::Array(text_values(labels))), ("rows"@, Value::Embedded(rows))]
}

/// A result that holds one notice.
pub open spec fn notice(text: Seq<char>) -> Entries {
    page(seq!["Notice"@], seq![("Notice"@, Value::Text(text))])
}

/// The document with the one entry `key`.
pub fn single_entry(key: &str, value: bson::Bson) -> (d: bson::Document)
    ensures
        doc_view(d) == seq![(key@, bson_view(value))],
{
    let mut d = new_document();
    proof {
        lemma_key_index(doc_view(d), key@);
    }
    doc_insert(&mut d, key.to_owned(), value);
    assert(doc_view(d) =~= seq![(key@, bson_view(value))]);
    d
}

/// The result with the given labels and rows.
pub fn make_page(labels: Vec<String>, rows: bson::Document) -> (d: bson::Document)
    ensures
        doc_view(d) == page(texts_of(labels@), doc_view(rows)),
{
    let mut items: Vec<bson::Bson> = Vec::new();
    let mut i: usize = 0;
    while i < labels.len()
        invariant
            i <= labels@.len(),
            element_views(items@) == text_values(texts_of(labels@).take(i as int)),
        decreases labels@.len() - i,
    {
        let ghost before = element_views(items@);
        items.push(text_element(labels[i].clone()));
        assert(element_views(items@) =~= before.push(Value::Text(labels@[i as int]@)));
        assert(text_values(texts_of(labels@).take(i + 1)) =~= before.push(
            Value::Text(labels@[i as int]@),
        ));
        i += 1;
    }
    assert(texts_of(labels@).take(labels@.len() as int) =~= texts_of(labels@));
    let mut d = single_entry("labels", array_element(items));
    proof {
        reveal_strlit("labels");
        reveal_strlit("rows");
        assert("labels"@.len() == 6);
        assert("rows"@.len() == 4);
        lemma_key_index(doc_view(d), "rows"@);
    }
    doc_insert(&mut d, "rows".to_owned(), document_element(rows));
    assert(doc_view(d) =~= page(texts_of(labels@), doc_view(rows)));
    d
}

/// The result that holds one notice.
pub fn notice_page(text: &str) -> (d: bson::Document)
    ensures
        doc_view(d) == notice(text@),
{
    let rows = single_entry("Notice", text_element(text.to_owned()));
    let mut labels: Vec<String> = Vec::new();
    labels.push("Notice".to_owned());
    assert(texts_of(labels@) =~= seq!["Notice"@]);
    make_page(labels, rows)
}

/// What the engine answers to a query: a result, or a request to the host
/// for the part of the work that is the host's.
pub enum Outcome {
    /// The result of the query.
    Reply(bson::Document),
    /// The saved snapshots are to be listed.
    ListSaved,
    /// An aggregate is to be computed: the field, then the operation.
    Aggregate(String, String),
    /// The database is to be dumped as CSV.
    SaveCsv,
    /// A snapshot is to be saved under the given name.
    Save(String),
    /// The snapshot in the file of the given name is to be loaded.
    Load(String),
    /// The schema in the file of the given name is to be loaded.
    LoadSchema(String),
}

/// What an outcome stands for.
pub enum Answer {
    Reply(Entries),
    ListSaved,
    Aggregate(Seq<char>, Seq<char>),
    SaveCsv,
    Save(Seq<char>),
    Load(Seq<char>),
    LoadSchema(Seq<char>),
}

impl Outcome {
    /// What the outcome stands for.
    pub open spec fn answer(self) -> Answer {
        match self {
            Outcome::Reply(d) => Answer::Reply(doc_view(d)),
            Outcome::ListSaved => Answer::ListSaved,
            Outcome::Aggregate(f, o) => Answer::Aggregate(f@, o@),
            Outcome::SaveCsv => Answer::SaveCsv,
            Outcome::Save(n) => Answer::Save(n@),
            Outcome::Load(n) => Answer::Load(n@),
            Outcome::LoadSchema(n) => Answer::LoadSchema(n@),
        }
    }
}

/// The names of the columns of a schema.
pub open spec fn column_labels(schema: Entries) -> Seq<Seq<char>> {
    schema.map_values(|e: (Seq<char>, Value)| e.0)
}

/// The number of rows as a 64-bit signed integer: the greatest one where the
/// number is greater.
pub open spec fn size_of(n: nat) -> i64 {
    if n <= i64::MAX {
        n as i64
    } else {
        i64::MAX
    }
}

/// The smaller and the greater of two bounds.
pub open spec fn ordered(a: u128, b: u128) -> (u128, u128) {
    if a <= b {
        (a, b)
    } else {
        (b, a)
    }
}

/// The answer to a `LIST` command with the given arguments. `hide` says
/// whether rows are to be replaced by a notice.
pub open spec fn list_answer(s: State, options: Seq<Seq<char>>, hide: bool) -> Answer {
    if options.len() < 2 {
        Answer::Reply(notice("LIST command requires a category"@))
    } else if options[1] == "ALL"@ {
        if hide {
            Answer::Reply(notice("Success!"@))
        } else {
            Answer::Reply(page(column_labels(s.schema), record_entries(all_records(s.rows))))
        }
    } else if options[1] == "ONE"@ {
        if options.len() < 3 {
            Answer::Reply(notice("LIST::ONE requires a timestamp"@))
        } else {
            match parse_u128_spec(options[2]) {
                None => Answer::Reply(notice("Invalid timestamp format"@)),
                Some(key) => if !s.rows.contains_key(key) {
                    Answer::Reply(notice("Requested value could not be found."@))
                } else if hide {
                    Answer::Reply(notice("Requested value found."@))
                } else {
                    Answer::Reply(
                        page(
                            column_labels(s.schema),
                            seq![(options[2], Value::Embedded(s.rows[key]))],
                        ),
                    )
                },
            }
        }
    } else if options[1] == "RANGE"@ {
        if options.len() < 3 {
            Answer::Reply(notice("LIST::RANGE requires bounds in format 'lower,upper'"@))
        } else {
            let bounds = split_spec(options[2], seq![',']);
            if bounds.len() != 2 {
                Answer::Reply(notice("Invalid range format. Use 'lower,upper'"@))
            } else {
                match (parse_u128_spec(bounds[0]), parse_u128_spec(bounds[1])) {
                    (None, _) => Answer::Reply(notice("Invalid lower bound"@)),
                    (Some(_), None) => Answer::Reply(notice("Invalid upper bound"@)),
                    (Some(a), Some(b)) => if hide {
                        Answer::Reply(notice("Success!"@))
                    } else {
                        Answer::Reply(
                            page(
                                column_labels(s.schema),
                                record_entries(
                                    records_between(s.rows, ordered(a, b).0, ordered(a, b).1),
                                ),
                            ),
                        )
                    },
                }
            }
        }
    } else if options[1] == "SAVED"@ {
        Answer::ListSaved
    } else {
        Answer::Reply(
            page(
                seq!["size"@, "schema"@],
                seq![
                    ("size"@, Value::Int64(size_of(s.rows.len()))),
                    ("schema"@, Value::Embedded(s.schema)),
                ],
            ),
        )
    }
}

/// The element that a text becomes in a column of type `ty`: a boolean,
/// true for the text `true`, under `boolean` and `bool`; under `number` the
/// double that the text denotes, and zero where it denotes none; the text
/// itself under any other type.
pub open spec fn typed_value(ty: Seq<char>, text: Seq<char>) -> Value {
    if ty == "bool"@ || ty == "boolean"@ {
        Value::Boolean(text == "true"@)
    } else if ty == "number"@ {
        Value::Double(
            match number_bits(text) {
                Some(bits) => bits,
                None => 0,
            },
        )
    } else {
        Value::Text(text)
    }
}

/// The entry that a `name=text` pair stands for under a schema. `None` for a
/// pair without an equals sign and for one whose name is no column.
pub open spec fn pair_entry(schema: Entries, pair: Seq<char>) -> Option<(Seq<char>, Value)> {
    let at = first_position(pair, '=');
    if at >= pair.len() {
        None
    } else {
        let name = pair.take(at);
        let text = pair.skip(at + 1);
        match entry_value(schema, name) {
            Some(Value::Text(ty)) => Some((name, typed_value(ty, text))),
            Some(_) => Some((name, Value::Text(text))),
            None => None,
        }
    }
}

/// The row that the first `n` pairs build, each set in turn.
pub open spec fn build_row(schema: Entries, pairs: Seq<Seq<char>>, n: int) -> Entries
    decreases n,
{
    if n <= 0 {
        Seq::empty()
    } else {
        let before = build_row(schema, pairs, n - 1);
        match pair_entry(schema, pairs[n - 1]) {
            Some(e) => upsert(before, e.0, e.1),
            None => before,
        }
    }
}

/// The timestamp of an `INSERT` command: what stands after the last equals
/// sign of the third argument, where that is a number, else the present
/// time.
pub open spec fn insert_timestamp(options: Seq<Seq<char>>, now: u128) -> u128 {
    if options.len() > 2 {
        match parse_u128_spec(split_spec(options[2], seq!['=']).last()) {
            Some(t) => t,
            None => now,
        }
    } else {
        now
    }
}

/// The state after an `INSERT` command: a row with at least one entry is
/// offered at the timestamp of the command.
pub open spec fn insert_state(s: State, options: Seq<Seq<char>>, now: u128) -> State {
    if options.len() < 2 {
        s
    } else {
        let pairs = split_spec(options[1], seq![',']);
        let row = build_row(s.schema, pairs, pairs.len() as int);
        if row.len() > 0 {
            insert_result(s, insert_timestamp(options, now), row)
        } else {
            s
        }
    }
}

/// The result of an `INSERT` command.
pub open spec fn insert_reply(options: Seq<Seq<char>>) -> Entries {
    if options.len() < 2 {
        notice("INSERT command requires key-value pairs"@)
    } else {
        notice("Success!"@)
    }
}

/// The element that `text` becomes in a column of type `ty`.
pub fn typed_element(ty: &str, text: &Vec<char>) -> (r: bson::Bson)
    ensures
        bson_view(r) == typed_value(ty@, text@),
{
    let t = crate::text::chars_of(ty);
    if is_text(&t, "bool") || is_text(&t, "boolean") {
        boolean_element(is_text(text, "true"))
    } else if is_text(&t, "number") {
        let s = string_of(text);
        match parse_number(s.as_str()) {
            Some(number) => number,
            None => zero_number(),
        }
    } else {
        text_element(string_of(text))
    }
}

impl Database {
    /// Answers an `INSERT` command: builds a row from the `name=text` pairs
    /// whose name is a column, each typed as its column says, and offers it at
    /// the timestamp of the command or, without one, at `now`.
    pub fn handle_insert_query(&mut self, options: &Vec<Vec<char>>, now: u128) -> (r: bson::Document)
        requires
            old(self).wf(),
        ensures
            final(self).wf(),
            final(self).state() == insert_state(old(self).state(), views(options@), now),
            doc_view(r) == insert_reply(views(options@)),
    {
        let ghost opts = views(options@);
        if options.len() < 2 {
            return notice_page("INSERT command requires key-value pairs");
        }
        assert(opts[1] == options@[1]@);
        let comma: Vec<char> = vec![','];
        assert(comma@ =~= seq![',']);
        let pairs = split(&options[1], &comma);
        let mut row = new_document();
        assert(doc_view(row) =~= build_row(self.schema(), views(pairs@), 0));
        let mut i: usize = 0;
        while i < pairs.len()
            invariant
                *self == *old(self),
                self.wf(),
                i <= pairs@.len(),
                doc_view(row) == build_row(self.schema(), views(pairs@), i as int),
            decreases pairs@.len() - i,
        {
            assert(views(pairs@)[i as int] == pairs@[i as int]@);
            let pair = &pairs[i];
            let at = find_char(pair, '=');
            if at < pair.len() {
                let name = string_of(&slice_chars(pair, 0, at));
                let text = slice_chars(pair, at + 1, pair.len());
                assert(name@ =~= pair@.take(at as int));
                assert(text@ =~= pair@.skip(at + 1));
                match self.column_type(name.as_str()) {
                    Some(ty) => {
                        doc_insert(&mut row, name, typed_element(ty.as_str(), &text));
                    },
                    None => {},
                }
            }
            i += 1;
        }
        let mut timestamp = now;
        if options.len() > 2 {
            assert(opts[2] == options@[2]@);
            let equals: Vec<char> = vec!['='];
            assert(equals@ =~= seq!['=']);
            let pieces = split(&options[2], &equals);
            let last = pieces.len() - 1;
            assert(views(pieces@).last() == pieces@[last as int]@);
            match parse_u128(&pieces[last]) {
                Some(t) => {
                    timestamp = t;
                },
                None => {},
            }
        }
        if doc_len(&row) > 0 {
            let _ = self.insert_to_database(timestamp, row);
        }
        notice_page("Success!")
    }
}

/// The seconds between the start of 1970 and the moment that `text` gives,
/// read in the form `format` as a date and time of day in UTC. `None` where
/// the text is not of that form.
pub uninterp spec fn utc_seconds(text: Seq<char>, format: Seq<char>) -> Option<i64>;

/// `chrono::NaiveDateTime::parse_from_str`, then `and_utc` and `timestamp`:
/// the seconds since the start of 1970 of the date and time that `text`
/// gives in the form `format`.
#[verifier::external_body]
fn parse_utc_seconds(text: &str, format: &str) -> (r: Option<i64>)
    ensures
        r == utc_seconds(text@, format@),
{
    chrono::NaiveDateTime::parse_from_str(text, format).ok().map(|t| t.and_utc().timestamp())
}

/// The state after a `REMOVE` command: without the row at the timestamp
/// after the first equals sign of a third argument that holds `TIME`, for
/// `ONE`; without rows, for `ALL`.
pub open spec fn remove_state(s: State, options: Seq<Seq<char>>) -> State {
    if options.len() >= 3 && options[1] == "ONE"@ && removal_key(options[2]) is Some {
        remove_result(s, removal_key(options[2])->0)
    } else if options.len() >= 2 && options[1] == "ALL"@ {
        no_rows_state(s)
    } else {
        s
    }
}

/// The timestamp that the argument of `REMOVE::ONE` names.
pub open spec fn removal_key(arg: Seq<char>) -> Option<u128> {
    let pieces = split_spec(arg, seq!['=']);
    if contains_spec(arg, "TIME"@) && pieces.len() > 1 {
        parse_u128_spec(pieces[1])
    } else {
        None
    }
}

/// The result of a `REMOVE` command.
pub open spec fn remove_reply(s: State, options: Seq<Seq<char>>) -> Entries {
    if options.len() < 2 {
        notice("REMOVE command requires a category"@)
    } else if options[1] == "ONE"@ {
        if options.len() < 3 {
            notice("REMOVE::ONE requires timestamp parameter"@)
        } else if removal_key(options[2]) is Some && s.rows.contains_key(removal_key(options[2])->0) {
            notice("Success!"@)
        } else {
            notice("Entry not found."@)
        }
    } else if options[1] == "ALL"@ {
        notice("Success!"@)
    } else {
        notice(
            "Invalid query. Currently, only one entry can be removed at a time, by timestamp."@,
        )
    }
}

/// The answer to an `AGGREGATE` command.
pub open spec fn aggregate_answer(options: Seq<Seq<char>>) -> Answer {
    if options.len() < 3 {
        Answer::Reply(notice("AGGREGATE command requires field name and operation"@))
    } else {
        Answer::Aggregate(options[1], options[2])
    }
}

/// The result that holds one value under one label.
pub open spec fn value_page(label: Seq<char>, value: Value) -> Entries {
    page(seq![label], seq![(label, value)])
}

/// The result of a `TIME` command for the seconds that its argument gives:
/// the milliseconds in decimal form, or a notice where the argument gives
/// none or the milliseconds do not fit 64 bits.
pub open spec fn time_reply(seconds: Option<i64>) -> Entries {
    match seconds {
        Some(s) => if i64::MIN <= s * 1000 <= i64::MAX {
            value_page("time"@, Value::Text(signed_decimal(s * 1000)))
        } else {
            notice("Invalid timestamp format. Use YYYY-MM-DD HH:MM:SS"@)
        },
        None => notice("Invalid timestamp format. Use YYYY-MM-DD HH:MM:SS"@),
    }
}

/// The form in which a `TIME` command gives a date and time.
pub open spec fn time_format() -> Seq<char> {
    "%Y-%m-%d %H:%M:%S"@
}

/// The result of a `TIME` command.
pub open spec fn time_answer(options: Seq<Seq<char>>) -> Entries {
    if options.len() < 2 {
        notice("TIME command requires a timestamp string"@)
    } else {
        time_reply(
            utc_seconds(replace_spec(options[1], seq!['%', '2', '0'], seq![' ']), time_format()),
        )
    }
}

/// The result that holds one value under one label.
pub fn make_value_page(label: &str, value: bson::Bson) -> (d: bson::Document)
    ensures
        doc_view(d) == value_page(label@, bson_view(value)),
{
    let rows = single_entry(label, value);
    let mut labels: Vec<String> = Vec::new();
    labels.push(label.to_owned());
    assert(texts_of(labels@) =~= seq![label@]);
    make_page(labels, rows)
}

/// The result of a `TIME` command for the seconds that its argument gives.
pub fn time_page(seconds: Option<i64>) -> (d: bson::Document)
    ensures
        doc_view(d) == time_reply(seconds),
{
    match seconds {
        Some(s) => {
            if s > 9_223_372_036_854_775 || s < -9_223_372_036_854_775 {
                return notice_page("Invalid timestamp format. Use YYYY-MM-DD HH:MM:SS");
            }
            let millis: i64 = s * 1000;
            let text = string_of(&signed_decimal_chars(millis));
            make_value_page("time", text_element(text))
        },
        None => notice_page("Invalid timestamp format. Use YYYY-MM-DD HH:MM:SS"),
    }
}

/// The result of an aggregate: the value under the name of the operation.
pub fn aggregate_page(operation: &str, value: bson::Bson) -> (d: bson::Document)
    ensures
        doc_view(d) == value_page(operation@, bson_view(value)),
{
    make_value_page(operation, value)
}

impl Database {
    /// Answers a `REMOVE` command: removes one row, or all rows.
    pub fn handle_remove_query(&mut self, options: &Vec<Vec<char>>) -> (r: bson::Document)
        requires
            old(self).wf(),
        ensures
            final(self).wf(),
            final(self).state() == remove_state(old(self).state(), views(options@)),
            doc_view(r) == remove_reply(old(self).state(), views(options@)),
    {
        let ghost opts = views(options@);
        proof {
            reveal_strlit("ONE");
            reveal_strlit("ALL");
            assert("ONE"@[0] != "ALL"@[0]);
        }
        if options.len() < 2 {
            return notice_page("REMOVE command requires a category");
        }
        assert(opts[1] == options@[1]@);
        if is_text(&options[1], "ONE") {
            if options.len() < 3 {
                return notice_page("REMOVE::ONE requires timestamp parameter");
            }
            assert(opts[2] == options@[2]@);
            if contains(&options[2], &chars_of("TIME")) {
                let equals: Vec<char> = vec!['='];
                assert(equals@ =~= seq!['=']);
                let pieces = split(&options[2], &equals);
                if pieces.len() > 1 {
                    assert(views(pieces@)[1] == pieces@[1]@);
                    match parse_u128(&pieces[1]) {
                        Some(key) => {
                            if self.remove(key) {
                                return notice_page("Success!");
                            }
                            assert(self.rows() =~= old(self).rows());
                        },
                        None => {},
                    }
                }
            }
            notice_page("Entry not found.")
        } else if is_text(&options[1], "ALL") {
            self.clear_all();
            notice_page("Success!")
        } else {
            notice_page(
                "Invalid query. Currently, only one entry can be removed at a time, by timestamp.",
            )
        }
    }

    /// Answers an `AGGREGATE` command: asks the host for the aggregate of a
    /// field under an operation.
    pub fn handle_aggregate_query(&self, options: &Vec<Vec<char>>) -> (r: Outcome)
        ensures
            r.answer() == aggregate_answer(views(options@)),
    {
        if options.len() < 3 {
            return Outcome::Reply(
                notice_page("AGGREGATE command requires field name and operation"),
            );
        }
        assert(views(options@)[1] == options@[1]@);
        assert(views(options@)[2] == options@[2]@);
        Outcome::Aggregate(string_of(&options[1]), string_of(&options[2]))
    }

    /// Answers a `TIME` command: the milliseconds since the start of 1970 of a
    /// date and time in UTC, written `YYYY-MM-DD HH:MM:SS` with `%20` for the
    /// space.
    pub fn handle_time_query(&self, options: &Vec<Vec<char>>) -> (r: bson::Document)
        ensures
            doc_view(r) == time_answer(views(options@)),
    {
        if options.len() < 2 {
            return notice_page("TIME command requires a timestamp string");
        }
        assert(views(options@)[1] == options@[1]@);
        let escaped: Vec<char> = vec!['%', '2', '0'];
        let space: Vec<char> = vec![' '];
        assert(escaped@ =~= seq!['%', '2', '0']);
        assert(space@ =~= seq![' ']);
        let text = string_of(&replace(&options[1], &escaped, &space));
        time_page(parse_utc_seconds(text.as_str(), "%Y-%m-%d %H:%M:%S"))
    }
}

/// The rows of the list of saved snapshots: each file name under the decimal
/// form of its position.
pub open spec fn file_entries(files: Seq<Seq<char>>) -> Entries {
    Seq::new(files.len(), |i: int| (decimal_digits(i as nat), Value::Text(files[i])))
}

/// The list of saved snapshots as a result.
pub fn saved_page(files: &Vec<String>) -> (d: bson::Document)
    ensures
        doc_view(d) == page(seq!["Saved Databases"@], file_entries(texts_of(files@))),
{
    let mut rows = new_document();
    let ghost names = texts_of(files@);
    let mut i: usize = 0;
    assert(doc_view(rows) =~= file_entries(names.take(0)));
    while i < files.len()
        invariant
            i <= files@.len(),
            names == texts_of(files@),
            doc_view(rows) == file_entries(names.take(i as int)),
        decreases files@.len() - i,
    {
        let ghost before = doc_view(rows);
        let ghost key = decimal_digits(i as nat);
        proof {
            lemma_key_index(before, key);
            let at = crate::document::key_index(before, key);
            if at >= 0 {
                lemma_decimal_injective(at as nat, i as nat);
            }
        }
        doc_insert(&mut rows, string_of(&decimal_chars(i as u128)), text_element(files[i].clone()));
        assert(doc_view(rows) =~= file_entries(names.take(i + 1)));
        i += 1;
    }
    assert(names.take(files@.len() as int) =~= names);
    let mut labels: Vec<String> = Vec::new();
    labels.push("Saved Databases".to_owned());
    assert(texts_of(labels@) =~= seq!["Saved Databases"@]);
    make_page(labels, rows)
}

/// The result that tells of a schema that was not loaded.
pub fn schema_error_page(message: &str) -> (d: bson::Document)
    ensures
        doc_view(d) == notice("Error loading schema: "@ + message@),
{
    let mut text: Vec<char> = Vec::new();
    push_str(&mut text, "Error loading schema: ");
    push_str(&mut text, message);
    let whole = string_of(&text);
    assert(whole@ =~= "Error loading schema: "@ + message@);
    notice_page(whole.as_str())
}

impl Database {
    /// The result that tells of a schema that was loaded, with the schema.
    pub fn schema_loaded_page(&self) -> (d: bson::Document)
        ensures
            doc_view(d) == page(
                seq!["message"@, "schema"@],
                seq![
                    ("message"@, Value::Text("Successfully loaded schema"@)),
                    ("schema"@, Value::Embedded(self.schema())),
                ],
            ),
    {
        let mut rows = single_entry(
            "message",
            text_element("Successfully loaded schema".to_owned()),
        );
        proof {
            reveal_strlit("message");
            reveal_strlit("schema");
            assert("message"@.len() == 7);
            assert("schema"@.len() == 6);
            lemma_key_index(doc_view(rows), "schema"@);
        }
        doc_insert(&mut rows, "schema".to_owned(), document_element(self.schema_document()));
        assert(doc_view(rows) =~= seq![
            ("message"@, Value::Text("Successfully loaded schema"@)),
            ("schema"@, Value::Embedded(self.schema())),
        ]);
        let mut labels: Vec<String> = Vec::new();
        labels.push("message".to_owned());
        labels.push("schema".to_owned());
        assert(texts_of(labels@) =~= seq!["message"@, "schema"@]);
        make_page(labels, rows)
    }
}

/// Whether `a` answers a `SAVE` command: a CSV dump where the argument holds
/// `CSV`, else a snapshot under the argument cleaned to a name that a file
/// may have, which is the argument itself where that is a plain name.
pub open spec fn save_answers(options: Seq<Seq<char>>, a: Answer) -> bool {
    if options.len() < 2 {
        a == Answer::Reply(
            notice("Provide a filename to save the database. Example: 'SAVE::database_name'"@),
        )
    } else if contains_spec(options[1], "CSV"@) {
        a == Answer::SaveCsv
    } else {
        &&& a is Save
        &&& is_clean(a->Save_0)
        &&& is_remainder(a->Save_0, options[1])
        &&& is_plain(options[1]) ==> a->Save_0 == options[1]
    }
}

/// Whether `a` answers a `LOAD` command: a schema file under `SCHEMA`, else
/// a snapshot, either under the argument cleaned to a name that a file may
/// have, which is the argument itself where that is a plain name.
pub open spec fn load_answers(options: Seq<Seq<char>>, a: Answer) -> bool {
    if options.len() < 2 {
        a == Answer::Reply(
            notice(
                "Provide a filename to load. Example: 'LOAD::database_name' or 'LOAD::SCHEMA::schema_file.schema.r2d2'"@,
            ),
        )
    } else if options[1] == "SCHEMA"@ {
        if options.len() < 3 {
            a == Answer::Reply(
                notice(
                    "Provide a schema filename. Example: 'LOAD::SCHEMA::schema_file.schema.r2d2'"@,
                ),
            )
        } else {
            &&& a is LoadSchema
            &&& is_clean(a->LoadSchema_0)
            &&& is_remainder(a->LoadSchema_0, options[2])
            &&& is_plain(options[2]) ==> a->LoadSchema_0 == options[2]
        }
    } else {
        &&& a is Load
        &&& is_clean(a->Load_0)
        &&& is_remainder(a->Load_0, options[1])
        &&& is_plain(options[1]) ==> a->Load_0 == options[1]
    }
}

/// The arguments of a query: the pieces between `::` of the query without the
/// white space at its ends.
pub open spec fn arguments(query: Seq<char>) -> Seq<Seq<char>> {
    split_spec(trim_spec(query), seq![':', ':'])
}

/// Whether a query, put at the time `now` to a database in state `s`, leaves
/// it in state `after` with the answer `a`. The first argument names the
/// command; a query that holds `HIDE` gets a notice in place of rows.
pub open spec fn query_answers(s: State, query: Seq<char>, now: u128, after: State, a: Answer) -> bool {
    let options = arguments(query);
    let hide = contains_spec(query, "HIDE"@);
    if options[0] == "LIST"@ {
        after == s && a == list_answer(s, options, hide)
    } else if options[0] == "AGGREGATE"@ {
        after == s && a == aggregate_answer(options)
    } else if options[0] == "INSERT"@ {
        after == insert_state(s, options, now) && a == Answer::Reply(insert_reply(options))
    } else if options[0] == "REMOVE"@ {
        after == remove_state(s, options) && a == Answer::Reply(remove_reply(s, options))
    } else if options[0] == "TIME"@ {
        after == s && a == Answer::Reply(time_answer(options))
    } else if options[0] == "SAVE"@ {
        after == s && save_answers(options, a)
    } else if options[0] == "LOAD"@ {
        after == s && load_answers(options, a)
    } else {
        after == s && a == Answer::Reply(notice("Invalid query: "@ + query))
    }
}

impl Database {
    /// Answers a `SAVE` command: asks the host for a CSV dump or for a
    /// snapshot under the cleaned name.
    pub fn handle_save_query(&self, options: &Vec<Vec<char>>) -> (r: Outcome)
        ensures
            save_answers(views(options@), r.answer()),
    {
        if options.len() < 2 {
            return Outcome::Reply(
                notice_page(
                    "Provide a filename to save the database. Example: 'SAVE::database_name'",
                ),
            );
        }
        assert(views(options@)[1] == options@[1]@);
        if contains(&options[1], &chars_of("CSV")) {
            Outcome::SaveCsv
        } else {
            let raw = string_of(&options[1]);
            Outcome::Save(sanitize_name(raw.as_str()))
        }
    }

    /// Answers a `LOAD` command: asks the host for the schema file, under
    /// `SCHEMA`, or for the snapshot, either by its cleaned name.
    pub fn handle_load_query(&self, options: &Vec<Vec<char>>) -> (r: Outcome)
        ensures
            load_answers(views(options@), r.answer()),
    {
        if options.len() < 2 {
            return Outcome::Reply(
                notice_page(
                    "Provide a filename to load. Example: 'LOAD::database_name' or 'LOAD::SCHEMA::schema_file.schema.r2d2'",
                ),
            );
        }
        assert(views(options@)[1] == options@[1]@);
        if is_text(&options[1], "SCHEMA") {
            if options.len() < 3 {
                return Outcome::Reply(
                    notice_page(
                        "Provide a schema filename. Example: 'LOAD::SCHEMA::schema_file.schema.r2d2'",
                    ),
                );
            }
            assert(views(options@)[2] == options@[2]@);
            let raw = string_of(&options[2]);
            Outcome::LoadSchema(sanitize_name(raw.as_str()))
        } else {
            let raw = string_of(&options[1]);
            Outcome::Load(sanitize_name(raw.as_str()))
        }
    }

    /// Answers a query put at the time `now`: runs the command that its first
    /// argument names, and hands to the host what needs files or
    /// floating-point arithmetic.
    pub fn query(&mut self, query_string: &str, now: u128) -> (r: Outcome)
        requires
            old(self).wf(),
        ensures
            final(self).wf(),
            query_answers(old(self).state(), query_string@, now, final(self).state(), r.answer()),
    {
        let raw = chars_of(query_string);
        let separator: Vec<char> = vec![':', ':'];
        assert(separator@ =~= seq![':', ':']);
        let options = split(&trim(&raw), &separator);
        let hide = contains(&raw, &chars_of("HIDE"));
        assert(views(options@)[0] == options@[0]@);
        if is_text(&options[0], "LIST") {
            self.handle_list_query(&options, hide)
        } else if is_text(&options[0], "AGGREGATE") {
            self.handle_aggregate_query(&options)
        } else if is_text(&options[0], "INSERT") {
            Outcome::Reply(self.handle_insert_query(&options, now))
        } else if is_text(&options[0], "REMOVE") {
            Outcome::Reply(self.handle_remove_query(&options))
        } else if is_text(&options[0], "TIME") {
            Outcome::Reply(self.handle_time_query(&options))
        } else if is_text(&options[0], "SAVE") {
            self.handle_save_query(&options)
        } else if is_text(&options[0], "LOAD") {
            self.handle_load_query(&options)
        } else {
            let mut text: Vec<char> = Vec::new();
            push_str(&mut text, "Invalid query: ");
            push_str(&mut text, query_string);
            let message = string_of(&text);
            assert(message@ =~= "Invalid query: "@ + query_string@);
            Outcome::Reply(notice_page(message.as_str()))
        }
    }
}

impl Database {
    /// Answers a `LIST` command: all rows, one row, the rows of a range whose
    /// bounds may come in either order, the saved snapshots, or, for any other
    /// category, the number of rows and the schema.
    pub fn handle_list_query(&self, options: &Vec<Vec<char>>, hide: bool) -> (r: Outcome)
        requires
            self.wf(),
        ensures
            r.answer() == list_answer(self.state(), views(options@), hide),
    {
        let ghost opts = views(options@);
        if options.len() < 2 {
            return Outcome::Reply(notice_page("LIST command requires a category"));
        }
        assert(opts[1] == options@[1]@);
        if is_text(&options[1], "ALL") {
            if hide {
                return Outcome::Reply(notice_page("Success!"));
            }
            let rows = self.get_range(0, u128::MAX);
            let labels = self.column_names();
            assert(texts_of(labels@) =~= column_labels(self.schema()));
            Outcome::Reply(make_page(labels, rows))
        } else if is_text(&options[1], "ONE") {
            if options.len() < 3 {
                return Outcome::Reply(notice_page("LIST::ONE requires a timestamp"));
            }
            assert(opts[2] == options@[2]@);
            let key = match parse_u128(&options[2]) {
                Some(k) => k,
                None => {
                    return Outcome::Reply(notice_page("Invalid timestamp format"));
                },
            };
            match self.get_one(key) {
                Some(row) => {
                    if hide {
                        return Outcome::Reply(notice_page("Requested value found."));
                    }
                    let name = string_of(&options[2]);
                    let rows = single_entry(name.as_str(), document_element(row));
                    let labels = self.column_names();
                    assert(texts_of(labels@) =~= column_labels(self.schema()));
                    Outcome::Reply(make_page(labels, rows))
                },
                None => Outcome::Reply(notice_page("Requested value could not be found.")),
            }
        } else if is_text(&options[1], "RANGE") {
            if options.len() < 3 {
                return Outcome::Reply(
                    notice_page("LIST::RANGE requires bounds in format 'lower,upper'"),
                );
            }
            assert(opts[2] == options@[2]@);
            let comma: Vec<char> = vec![','];
            assert(comma@ =~= seq![',']);
            let bounds = split(&options[2], &comma);
            if bounds.len() != 2 {
                return Outcome::Reply(notice_page("Invalid range format. Use 'lower,upper'"));
            }
            assert(views(bounds@)[0] == bounds@[0]@);
            assert(views(bounds@)[1] == bounds@[1]@);
            let a = match parse_u128(&bounds[0]) {
                Some(b) => b,
                None => {
                    return Outcome::Reply(notice_page("Invalid lower bound"));
                },
            };
            let b = match parse_u128(&bounds[1]) {
                Some(b) => b,
                None => {
                    return Outcome::Reply(notice_page("Invalid upper bound"));
                },
            };
            let (lower, upper) = if a <= b {
                (a, b)
            } else {
                (b, a)
            };
            if hide {
                return Outcome::Reply(notice_page("Success!"));
            }
            let rows = self.get_range(lower, upper);
            let labels = self.column_names();
            assert(texts_of(labels@) =~= column_labels(self.schema()));
            Outcome::Reply(make_page(labels, rows))
        } else if is_text(&options[1], "SAVED") {
            Outcome::ListSaved
        } else {
            let n = self.len();
            let wide: u128 = n as u128;
            let size: i64 = if wide <= 0x7fff_ffff_ffff_ffff {
                wide as i64
            } else {
                0x7fff_ffff_ffff_ffff
            };
            let mut rows = single_entry("size", int64_element(size));
            proof {
                reveal_strlit("size");
                reveal_strlit("schema");
                assert("size"@.len() == 4);
                assert("schema"@.len() == 6);
                lemma_key_index(doc_view(rows), "schema"@);
            }
            doc_insert(&mut rows, "schema".to_owned(), document_element(self.schema_document()));
            assert(doc_view(rows) =~= seq![
                ("size"@, Value::Int64(size_of(self.rows().len()))),
                ("schema"@, Value::Embedded(self.schema())),
            ]);
            let mut labels: Vec<String> = Vec::new();
            labels.push("size".to_owned());
            labels.push("schema".to_owned());
            assert(texts_of(labels@) =~= seq!["size"@, "schema"@]);
            Outcome::Reply(make_page(labels, rows))
        }
    }
}

} // verus!
