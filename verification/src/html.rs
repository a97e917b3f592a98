//! The page that shows the result of a query: a table with a header row of
//! labels and one row for each entry of the result.

use crate::document::{
    bson_view, clone_document, doc_get, doc_into_entries, doc_view, element_array, element_document,
    element_text, element_views, entry_value, entry_views, Entries, Value,
};
use crate::render::{cell_chars, cell_text};
use crate::text::{
    chars_of, contains, contains_spec, decimal_chars, decimal_digits, parse_u128, parse_u128_spec,
    push_chars, push_str, split, split_spec, string_of, views,
};
use vstd::prelude::*;

verus! {

/// The cells of the first `n` items, each between an opening and a closing
/// tag.
pub open spec fn html_cells(items: Seq<Seq<char>>, open: Seq<char>, close: Seq<char>, n: int) -> Seq<char>
    decreases n,
{
    if n <= 0 {
        Seq::empty()
    } else {
        html_cells(items, open, close, n - 1) + open + items[n - 1] + close
    }
}

/// A table row of the items: header cells or data cells.
pub open spec fn html_row(items: Seq<Seq<char>>, header: bool) -> Seq<char> {
    if header {
        "<tr>"@ + html_cells(items, "<th>"@, "</th>"@, items.len() as int) + "</tr>"@
    } else {
        "<tr>"@ + html_cells(items, "<td>"@, "</td>"@, items.len() as int) + "</tr>"@
    }
}

/// The texts of a list of character vectors.
pub open spec fn item_views(items: Seq<Vec<char>>) -> Seq<Seq<char>> {
    items.map_values(|v: Vec<char>| v@)
}

/// The texts of a list of strings.
pub open spec fn string_views(items: Seq<String>) -> Seq<Seq<char>> {
    items.map_values(|v: String| v@)
}

/// A table row of the items.
pub fn row_of(items: &Vec<Vec<char>>, header: bool) -> (r: Vec<char>)
    ensures
        r@ == html_row(item_views(items@), header),
{
    let open = if header {
        chars_of("<th>")
    } else {
        chars_of("<td>")
    };
    let close = if header {
        chars_of("</th>")
    } else {
        chars_of("</td>")
    };
    let mut out = chars_of("<tr>");
    let ghost start = out@;
    let ghost texts = item_views(items@);
    assert(start + html_cells(texts, open@, close@, 0) =~= start);
    let mut i: usize = 0;
    while i < items.len()
        invariant
            i <= items@.len(),
            texts == item_views(items@),
            out@ == start + html_cells(texts, open@, close@, i as int),
        decreases items@.len() - i,
    {
        let ghost sofar = html_cells(texts, open@, close@, i as int);
        push_chars(&mut out, &open);
        push_chars(&mut out, &items[i]);
        push_chars(&mut out, &close);
        assert(texts[i as int] == items@[i as int]@);
        assert(out@ =~= start + (sofar + open@ + texts[i as int] + close@));
        i += 1;
    }
    push_str(&mut out, "</tr>");
    out
}

/// A table row of the strings: header cells where `header` is set, else data
/// cells.
pub fn vec_string_to_html_row(v: Vec<String>, header: bool) -> (r: String)
    ensures
        r@ == html_row(string_views(v@), header),
{
    let mut items: Vec<Vec<char>> = Vec::new();
    let mut i: usize = 0;
    while i < v.len()
        invariant
            i <= v@.len(),
            item_views(items@) == string_views(v@).take(i as int),
        decreases v@.len() - i,
    {
        let ghost before = item_views(items@);
        items.push(chars_of(v[i].as_str()));
        assert(item_views(items@) =~= before.push(v@[i as int]@));
        assert(string_views(v@).take(i + 1) =~= before.push(v@[i as int]@));
        i += 1;
    }
    assert(string_views(v@).take(v@.len() as int) =~= string_views(v@));
    string_of(&row_of(&items, header))
}

/// The cells of a row: the text of each of its entries, in order.
pub open spec fn row_cells(row: Entries) -> Seq<Seq<char>> {
    row.map_values(|e: (Seq<char>, Value)| cell_text(Some(e.1)))
}

/// The table row of a record: its timestamp, then the cells of its row.
pub open spec fn record_row(row: Entries, time: u128) -> Seq<char> {
    html_row(seq![decimal_digits(time as nat)] + row_cells(row), false)
}

/// The table row of a record as characters.
pub fn record_row_chars(doc: &bson::Document, time: u128) -> (r: Vec<char>)
    ensures
        r@ == record_row(doc_view(*doc), time),
{
    let entries = doc_into_entries(clone_document(doc));
    let mut items: Vec<Vec<char>> = Vec::new();
    items.push(decimal_chars(time));
    let ghost row = doc_view(*doc);
    let ghost first = seq![decimal_digits(time as nat)];
    assert(item_views(items@) =~= first + row_cells(row).take(0));
    let mut i: usize = 0;
    while i < entries.len()
        invariant
            i <= entries@.len(),
            entry_views(entries@) == row,
            item_views(items@) == first + row_cells(row).take(i as int),
        decreases entries@.len() - i,
    {
        let ghost before = item_views(items@);
        assert(entry_views(entries@)[i as int].1 == bson_view(entries@[i as int].1));
        let cell = cell_chars(Some(&entries[i].1));
        items.push(cell);
        assert(item_views(items@) =~= before.push(cell@));
        assert(row_cells(row).take(i + 1) =~= row_cells(row).take(i as int).push(cell@));
        assert(first + row_cells(row).take(i as int).push(cell@) =~= (first + row_cells(row).take(
            i as int,
        )).push(cell@));
        i += 1;
    }
    assert(entry_views(entries@).len() == entries@.len());
    assert(row_cells(row).take(row.len() as int) =~= row_cells(row));
    row_of(&items, false)
}

/// The table row of a record: its timestamp, then the cell of each entry of
/// its row.
pub fn document_to_html_row(doc: &bson::Document, time: u128) -> (r: String)
    ensures
        r@ == record_row(doc_view(*doc), time),
{
    string_of(&record_row_chars(doc, time))
}

/// The start of every page, up to the heading.
pub open spec fn page_head() -> Seq<char> {
    "\n        <!DOCTYPE html>\n        <html lang=\"en\">\n            <head>\n                <meta charset=\"UTF-8\">\n                <link rel=\"icon\" href=\"data:,\">\n                <meta name=\"viewport\" content=\"width=device-width, initial-scale=1.0\">\n                <title>R2D2</title>\n\n                <style>\n                table { border: 2px black solid; width: 80%; }\n                th { border: 1px black solid; }\n                td { border: 1px black solid; }\n                </style>\n            </head>\n            <body>\n                <h1>"@
}

/// What follows the heading on every page.
pub open spec fn page_nav() -> Seq<char> {
    "</h1>\n        <nav> Quick Actions :\n            <a href=\"/LIST::ALL\">List All</a> |\n            <a href=\"/LIST::SAVED\">List Saved Databases</a>\n        </nav>\n    </body>"@
}

/// The texts among the first `n` labels.
pub open spec fn label_texts(labels: Seq<Value>, n: int) -> Seq<Seq<char>>
    decreases n,
{
    if n <= 0 {
        Seq::empty()
    } else {
        match labels[n - 1] {
            Value::Text(t) => label_texts(labels, n - 1).push(t),
            _ => label_texts(labels, n - 1),
        }
    }
}

/// Whether the table of a request starts with a column of timestamps.
pub open spec fn wants_timestamp(request: Seq<char>) -> bool {
    (contains_spec(request, "LIST"@) || contains_spec(request, "INSERT"@)) && !contains_spec(
        request,
        "SAVED"@,
    )
}

/// The labels of the header row of a result.
pub open spec fn header_labels(request: Seq<char>, result: Entries) -> Seq<Seq<char>> {
    let texts = match entry_value(result, "labels"@) {
        Some(Value::Array(items)) => label_texts(items, items.len() as int),
        _ => Seq::empty(),
    };
    if wants_timestamp(request) {
        seq!["Timestamp"@] + texts
    } else {
        texts
    }
}

/// The text of a value that stands alone in a row: a string in double
/// quotes, `null` for the null element, else the text of its cell.
pub open spec fn plain_text(v: Value) -> Seq<char> {
    match v {
        Value::Text(t) => "\""@ + t + "\""@,
        Value::Null => "null"@,
        _ => cell_text(Some(v)),
    }
}

/// The table row of an entry of a result: the row of a record for a
/// document, under the timestamp that the name of the entry denotes or
/// zero; else one cell with the text of the value.
pub open spec fn body_row(e: (Seq<char>, Value)) -> Seq<char> {
    match e.1 {
        Value::Embedded(row) => record_row(
            row,
            match parse_u128_spec(e.0) {
                Some(k) => k,
                None => 0,
            },
        ),
        v => "<tr><td>"@ + plain_text(v) + "</td></tr>"@,
    }
}

/// The table rows of the first `n` entries.
pub open spec fn body_rows(rows: Entries, n: int) -> Seq<char>
    decreases n,
{
    if n <= 0 {
        Seq::empty()
    } else {
        body_rows(rows, n - 1) + body_row(rows[n - 1])
    }
}

/// The table of a result: the header row, then the rows of the entries under
/// `rows`.
pub open spec fn table_html(request: Seq<char>, result: Entries) -> Seq<char> {
    "<table>"@ + html_row(header_labels(request, result), true) + match entry_value(
        result,
        "rows"@,
    ) {
        Some(Value::Embedded(rows)) => body_rows(rows, rows.len() as int),
        _ => Seq::empty(),
    } + "</table>"@
}

/// The page for a request and its result. A request that holds `::HIDE` is
/// shown the word `Success` in place of the table.
pub open spec fn page_html(request: Seq<char>, result: Entries) -> Seq<char> {
    page_head() + request + page_nav() + if contains_spec(request, "::HIDE"@) {
        "Success"@
    } else {
        table_html(request, result)
    } + "</html>"@
}

/// The response to a request: the status line, an empty line, and the page.
pub open spec fn response_text(request: Seq<char>, result: Entries) -> Seq<char> {
    "HTTP/1.1 200 OK\r\n\r\n"@ + page_html(request, result)
}

/// The text of a value that stands alone in a row.
pub fn plain_chars(b: &bson::Bson) -> (r: Vec<char>)
    ensures
        r@ == plain_text(bson_view(*b)),
{
    match element_text(b) {
        Some(t) => {
            let mut out = chars_of("\"");
            push_str(&mut out, t);
            push_str(&mut out, "\"");
            out
        },
        None => {
            if crate::document::element_kind(b) == crate::document::ElementKind::Null {
                chars_of("null")
            } else {
                cell_chars(Some(b))
            }
        },
    }
}

/// The table of a result.
pub fn table_chars(request: &Vec<char>, result: &bson::Document) -> (r: Vec<char>)
    ensures
        r@ == table_html(request@, doc_view(*result)),
{
    let mut labels: Vec<Vec<char>> = Vec::new();
    if (contains(request, &chars_of("LIST")) || contains(request, &chars_of("INSERT"))) && !contains(
        request,
        &chars_of("SAVED"),
    ) {
        labels.push(chars_of("Timestamp"));
    }
    let ghost first = item_views(labels@);
    match doc_get(result, "labels") {
        Some(b) => match element_array(b) {
            Some(items) => {
                let ghost values = element_views(items@);
                assert(item_views(labels@) =~= first + label_texts(values, 0));
                let mut i: usize = 0;
                while i < items.len()
                    invariant
                        i <= items@.len(),
                        values == element_views(items@),
                        item_views(labels@) == first + label_texts(values, i as int),
                    decreases items@.len() - i,
                {
                    let ghost before = item_views(labels@);
                    assert(values[i as int] == bson_view(items@[i as int]));
                    match element_text(&items[i]) {
                        Some(t) => {
                            labels.push(chars_of(t));
                            assert(item_views(labels@) =~= before.push(t@));
                            assert(first + label_texts(values, i as int).push(t@) =~= (first
                                + label_texts(values, i as int)).push(t@));
                        },
                        None => {},
                    }
                    i += 1;
                }
                assert(values.len() == items@.len());
            },
            None => {
                assert(item_views(labels@) =~= first + Seq::<Seq<char>>::empty());
            },
        },
        None => {
            assert(item_views(labels@) =~= first + Seq::<Seq<char>>::empty());
        },
    }
    assert(item_views(labels@) =~= header_labels(request@, doc_view(*result)));
    let mut out = chars_of("<table>");
    push_chars(&mut out, &row_of(&labels, true));
    let ghost start = out@;
    match doc_get(result, "rows") {
        Some(b) => match element_document(b) {
            Some(body) => {
                let entries = doc_into_entries(clone_document(body));
                let ghost rows = doc_view(*body);
                assert(start + body_rows(rows, 0) =~= start);
                let mut i: usize = 0;
                while i < entries.len()
                    invariant
                        i <= entries@.len(),
                        entry_views(entries@) == rows,
                        out@ == start + body_rows(rows, i as int),
                    decreases entries@.len() - i,
                {
                    let ghost sofar = body_rows(rows, i as int);
                    assert(entry_views(entries@)[i as int] == (
                        entries@[i as int].0@,
                        bson_view(entries@[i as int].1),
                    ));
                    match element_document(&entries[i].1) {
                        Some(row) => {
                            let time = match parse_u128(&chars_of(entries[i].0.as_str())) {
                                Some(k) => k,
                                None => 0,
                            };
                            push_chars(&mut out, &record_row_chars(row, time));
                        },
                        None => {
                            push_str(&mut out, "<tr><td>");
                            push_chars(&mut out, &plain_chars(&entries[i].1));
                            push_str(&mut out, "</td></tr>");
                        },
                    }
                    assert(out@ =~= start + (sofar + body_row(rows[i as int])));
                    i += 1;
                }
                assert(entry_views(entries@).len() == entries@.len());
            },
            None => {
                assert(out@ =~= start + Seq::<char>::empty());
            },
        },
        None => {
            assert(out@ =~= start + Seq::<char>::empty());
        },
    }
    push_str(&mut out, "</table>");
    out
}

/// The response to a request whose result is `result`: the status line, an
/// empty line, and the page.
pub fn handle_request(request: &str, result: &bson::Document) -> (r: String)
    ensures
        r@ == response_text(request@, doc_view(*result)),
{
    let req = chars_of(request);
    let mut out = chars_of("HTTP/1.1 200 OK\r\n\r\n");
    push_str(
        &mut out,
        "\n        <!DOCTYPE html>\n        <html lang=\"en\">\n            <head>\n                <meta charset=\"UTF-8\">\n                <link rel=\"icon\" href=\"data:,\">\n                <meta name=\"viewport\" content=\"width=device-width, initial-scale=1.0\">\n                <title>R2D2</title>\n\n                <style>\n                table { border: 2px black solid; width: 80%; }\n                th { border: 1px black solid; }\n                td { border: 1px black solid; }\n                </style>\n            </head>\n            <body>\n                <h1>",
    );
    push_chars(&mut out, &req);
    push_str(
        &mut out,
        "</h1>\n        <nav> Quick Actions :\n            <a href=\"/LIST::ALL\">List All</a> |\n            <a href=\"/LIST::SAVED\">List Saved Databases</a>\n        </nav>\n    </body>",
    );
    if contains(&req, &chars_of("::HIDE")) {
        push_str(&mut out, "Success");
    } else {
        push_chars(&mut out, &table_chars(&req, result));
    }
    push_str(&mut out, "</html>");
    assert(out@ =~= response_text(request@, doc_view(*result)));
    string_of(&out)
}

/// The query that a request line asks for: of the second of its words, what
/// stands between the first slash and the next. `None` for a line of one
/// word and for a second word without a slash.
pub open spec fn requested_spec(line: Seq<char>) -> Option<Seq<char>> {
    let words = split_spec(line, seq![' ']);
    if words.len() < 2 {
        None
    } else {
        let parts = split_spec(words[1], seq!['/']);
        if parts.len() < 2 {
            None
        } else {
            Some(parts[1])
        }
    }
}

/// The query that a request line asks for.
pub fn requested_resource(line: &str) -> (r: Option<String>)
    ensures
        match r {
            Some(q) => requested_spec(line@) == Some(q@),
            None => requested_spec(line@) is None,
        },
{
    let space: Vec<char> = vec![' '];
    let slash: Vec<char> = vec!['/'];
    assert(space@ =~= seq![' ']);
    assert(slash@ =~= seq!['/']);
    let words = split(&chars_of(line), &space);
    if words.len() < 2 {
        return None;
    }
    assert(views(words@)[1] == words@[1]@);
    let parts = split(&words[1], &slash);
    if parts.len() < 2 {
        return None;
    }
    assert(views(parts@)[1] == parts@[1]@);
    Some(string_of(&parts[1]))
}

} // verus!
