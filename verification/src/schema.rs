//! Schema files: text with one `name,type` pair on a line, blank lines and
//! lines that start with `#` left out. A type is one of `string`, `number`
//! and `boolean`.

use crate::document::ElementKind;
use crate::text::{
    chars_of, decimal_chars, decimal_digits, is_text, push_chars, push_str, same_chars, slice_chars,
    split, split_spec, string_of, trim, trim_spec, views,
};
use vstd::prelude::*;

verus! {

/// The greatest number of lines that a schema file may have.
pub const SCHEMA_MAX_NUM_COLUMNS: usize = 50000;

/// The greatest number of characters of a column name; what follows them is
/// cut off.
pub const SCHEMA_MAX_COLUMN_LABEL_LEN: usize = 128;

/// Why a schema text was refused.
#[derive(Debug)]
pub enum SchemaError {
    /// The text has more lines than a schema may have: their number.
    TooLarge(usize),
    /// A line is not of the form `name,type`: its number and its text.
    InvalidFormat(usize, String),
    /// A column is named twice: the name and the number of the second line.
    DuplicateColumn(String, usize),
    /// A type is none of the three: the type and the number of its line.
    InvalidType(String, usize),
    /// The text names no column.
    Empty,
}

/// What a schema text holds, as a mathematical value: the columns, each a
/// name and a type, or the first fault.
pub enum SchemaOutcome {
    Columns(Seq<(Seq<char>, Seq<char>)>),
    TooLarge(int),
    InvalidFormat(int, Seq<char>),
    DuplicateColumn(Seq<char>, int),
    InvalidType(Seq<char>, int),
    Empty,
}

/// The lines of a text: the pieces between line feeds, without the piece
/// after the last line feed where that piece is empty.
pub open spec fn lines_spec(text: Seq<char>) -> Seq<Seq<char>> {
    let pieces = split_spec(text, seq!['\n']);
    if pieces.len() > 0 && pieces.last().len() == 0 {
        pieces.drop_last()
    } else {
        pieces
    }
}

/// Whether `t` is one of the three types.
pub open spec fn valid_type(t: Seq<char>) -> bool {
    t == "string"@ || t == "number"@ || t == "boolean"@
}

/// The kind of element that a column of type `t` stores.
pub open spec fn kind_for_type_spec(t: Seq<char>) -> Option<ElementKind> {
    if t == "string"@ {
        Some(ElementKind::Text)
    } else if t == "number"@ {
        Some(ElementKind::Double)
    } else if t == "boolean"@ {
        Some(ElementKind::Boolean)
    } else {
        None
    }
}

/// The name of a column as it is kept: its first 128 characters.
pub open spec fn column_name(raw: Seq<char>) -> Seq<char> {
    if raw.len() <= SCHEMA_MAX_COLUMN_LABEL_LEN {
        raw
    } else {
        raw.take(SCHEMA_MAX_COLUMN_LABEL_LEN as int)
    }
}

/// Whether a column of `cols` is named `name`.
pub open spec fn has_column(cols: Seq<(Seq<char>, Seq<char>)>, name: Seq<char>) -> bool {
    exists|i: int| 0 <= i < cols.len() && (#[trigger] cols[i]).0 == name
}

/// The columns after the line numbered `number` is read, or the fault of that
/// line. A blank line and a comment change nothing.
pub open spec fn scan_line(cols: Seq<(Seq<char>, Seq<char>)>, line: Seq<char>, number: int) -> SchemaOutcome {
    let t = trim_spec(line);
    if t.len() == 0 || t[0] == '#' {
        SchemaOutcome::Columns(cols)
    } else {
        let parts = split_spec(t, seq![',']);
        if parts.len() != 2 {
            SchemaOutcome::InvalidFormat(number, t)
        } else {
            let name = column_name(trim_spec(parts[0]));
            let ty = trim_spec(parts[1]);
            if has_column(cols, name) {
                SchemaOutcome::DuplicateColumn(name, number)
            } else if !valid_type(ty) {
                SchemaOutcome::InvalidType(ty, number)
            } else {
                SchemaOutcome::Columns(cols.push((name, ty)))
            }
        }
    }
}

/// The columns that the first `n` lines declare, or their first fault.
pub open spec fn scan_lines(lines: Seq<Seq<char>>, n: int) -> SchemaOutcome
    decreases n,
{
    if n <= 0 {
        SchemaOutcome::Columns(Seq::empty())
    } else {
        match scan_lines(lines, n - 1) {
            SchemaOutcome::Columns(cols) => scan_line(cols, lines[n - 1], n),
            fault => fault,
        }
    }
}

/// What a schema text holds: its columns in the order of their lines, or the
/// reason for which it is refused.
pub open spec fn parse_schema_spec(text: Seq<char>) -> SchemaOutcome {
    let lines = lines_spec(text);
    if lines.len() > SCHEMA_MAX_NUM_COLUMNS {
        SchemaOutcome::TooLarge(lines.len() as int)
    } else {
        match scan_lines(lines, lines.len() as int) {
            SchemaOutcome::Columns(cols) => if cols.len() == 0 {
                SchemaOutcome::Empty
            } else {
                SchemaOutcome::Columns(cols)
            },
            fault => fault,
        }
    }
}

/// The columns that two lists of equal length stand for: each name with the
/// type at its position.
pub open spec fn columns_of(fields: Seq<String>, types: Seq<String>) -> Seq<(Seq<char>, Seq<char>)> {
    Seq::new(fields.len(), |i: int| (fields[i]@, types[i]@))
}

/// What the result of parsing stands for.
pub open spec fn outcome_of(r: Result<(Vec<String>, Vec<String>), SchemaError>) -> SchemaOutcome {
    match r {
        Ok(lists) => SchemaOutcome::Columns(columns_of(lists.0@, lists.1@)),
        Err(SchemaError::TooLarge(n)) => SchemaOutcome::TooLarge(n as int),
        Err(SchemaError::InvalidFormat(n, t)) => SchemaOutcome::InvalidFormat(n as int, t@),
        Err(SchemaError::DuplicateColumn(name, n)) => SchemaOutcome::DuplicateColumn(name@, n as int),
        Err(SchemaError::InvalidType(t, n)) => SchemaOutcome::InvalidType(t@, n as int),
        Err(SchemaError::Empty) => SchemaOutcome::Empty,
    }
}

/// The sentence that tells of a fault in the schema file called `filename`.
pub open spec fn message_spec(fault: SchemaOutcome, filename: Seq<char>) -> Seq<char> {
    match fault {
        SchemaOutcome::Columns(_) => Seq::empty(),
        SchemaOutcome::TooLarge(n) => "Schema file '"@ + filename
            + "' is too long; this database supports a maximum of "@ + decimal_digits(
            SCHEMA_MAX_NUM_COLUMNS as nat,
        ) + " columns, the loaded schema contains "@ + decimal_digits(n as nat),
        SchemaOutcome::InvalidFormat(n, t) => "Invalid format on line "@ + decimal_digits(n as nat)
            + ": expected 'column,type', got '"@ + t + "'"@,
        SchemaOutcome::DuplicateColumn(name, n) => "Column "@ + name
            + " defined more than once (new value on line "@ + decimal_digits(n as nat) + ")"@,
        SchemaOutcome::InvalidType(t, n) => "Invalid column type '"@ + t + "' on line "@
            + decimal_digits(n as nat) + ": must be 'string', 'number', or 'boolean'"@,
        SchemaOutcome::Empty => "Schema file contains no valid column definitions"@,
    }
}

impl SchemaError {
    /// What the error stands for.
    pub open spec fn outcome(self) -> SchemaOutcome {
        outcome_of(Err(self))
    }

    /// The sentence that tells of this error in the schema file called
    /// `filename`.
    pub fn message(&self, filename: &str) -> (m: String)
        ensures
            m@ == message_spec(self.outcome(), filename@),
    {
        let mut out: Vec<char> = Vec::new();
        match self {
            SchemaError::TooLarge(n) => {
                push_str(&mut out, "Schema file '");
                push_str(&mut out, filename);
                push_str(&mut out, "' is too long; this database supports a maximum of ");
                push_chars(&mut out, &decimal_chars(SCHEMA_MAX_NUM_COLUMNS as u128));
                push_str(&mut out, " columns, the loaded schema contains ");
                push_chars(&mut out, &decimal_chars(*n as u128));
            },
            SchemaError::InvalidFormat(n, t) => {
                push_str(&mut out, "Invalid format on line ");
                push_chars(&mut out, &decimal_chars(*n as u128));
                push_str(&mut out, ": expected 'column,type', got '");
                push_str(&mut out, t.as_str());
                push_str(&mut out, "'");
            },
            SchemaError::DuplicateColumn(name, n) => {
                push_str(&mut out, "Column ");
                push_str(&mut out, name.as_str());
                push_str(&mut out, " defined more than once (new value on line ");
                push_chars(&mut out, &decimal_chars(*n as u128));
                push_str(&mut out, ")");
            },
            SchemaError::InvalidType(t, n) => {
                push_str(&mut out, "Invalid column type '");
                push_str(&mut out, t.as_str());
                push_str(&mut out, "' on line ");
                push_chars(&mut out, &decimal_chars(*n as u128));
                push_str(&mut out, ": must be 'string', 'number', or 'boolean'");
            },
            SchemaError::Empty => {
                push_str(&mut out, "Schema file contains no valid column definitions");
            },
        }
        assert(out@ =~= message_spec(self.outcome(), filename@));
        string_of(&out)
    }
}

/// Whether a line is left out: blank, or a comment.
pub open spec fn is_skipped(line: Seq<char>) -> bool {
    trim_spec(line).len() == 0 || trim_spec(line)[0] == '#'
}

/// The column that a line of the form `name,type` declares.
pub open spec fn line_column(line: Seq<char>) -> (Seq<char>, Seq<char>) {
    let parts = split_spec(trim_spec(line), seq![',']);
    (column_name(trim_spec(parts[0])), trim_spec(parts[1]))
}

/// Whether a line declares a column: it has one comma and one of the three
/// types after it.
pub open spec fn is_declaration(line: Seq<char>) -> bool {
    &&& !is_skipped(line)
    &&& split_spec(trim_spec(line), seq![',']).len() == 2
    &&& valid_type(line_column(line).1)
}

/// The columns that the first `n` lines declare, in the order of the lines.
pub open spec fn declared(lines: Seq<Seq<char>>, n: int) -> Seq<(Seq<char>, Seq<char>)>
    decreases n,
{
    if n <= 0 {
        Seq::empty()
    } else if is_skipped(lines[n - 1]) {
        declared(lines, n - 1)
    } else {
        declared(lines, n - 1).push(line_column(lines[n - 1]))
    }
}

/// Whether every line is blank, a comment or a declaration, and no
/// declaration names a column that an earlier line has declared.
pub open spec fn all_lines_valid(lines: Seq<Seq<char>>) -> bool {
    forall|i: int|
        0 <= i < lines.len() ==> is_skipped(#[trigger] lines[i]) || (is_declaration(lines[i])
            && !has_column(declared(lines, i), line_column(lines[i]).0))
}

/// Lines that are all valid give the columns that they declare.
pub proof fn lemma_valid_lines_scan(lines: Seq<Seq<char>>, n: int)
    requires
        all_lines_valid(lines),
        0 <= n <= lines.len(),
    ensures
        scan_lines(lines, n) == SchemaOutcome::Columns(declared(lines, n)),
    decreases n,
{
    if n > 0 {
        lemma_valid_lines_scan(lines, n - 1);
        assert(is_skipped(lines[n - 1]) || is_declaration(lines[n - 1]));
    }
}

/// A schema text is accepted where it has no more lines than allowed, each
/// of them blank, a comment or the declaration of a new column with one of
/// the three types, and at least one a declaration. Its columns are the
/// declared ones, in the order of their lines.
pub proof fn law_valid_text_parses(text: Seq<char>)
    requires
        lines_spec(text).len() <= SCHEMA_MAX_NUM_COLUMNS,
        all_lines_valid(lines_spec(text)),
        declared(lines_spec(text), lines_spec(text).len() as int).len() > 0,
    ensures
        parse_schema_spec(text) == SchemaOutcome::Columns(
            declared(lines_spec(text), lines_spec(text).len() as int),
        ),
{
    lemma_valid_lines_scan(lines_spec(text), lines_spec(text).len() as int);
}

/// Whether no two columns have the same name.
pub open spec fn distinct_names(cols: Seq<(Seq<char>, Seq<char>)>) -> bool {
    forall|i: int, j: int| 0 <= i < j < cols.len() ==> cols[i].0 != cols[j].0
}

/// The columns that lines give have names that differ from one another.
pub proof fn lemma_scanned_names_differ(lines: Seq<Seq<char>>, n: int)
    requires
        0 <= n <= lines.len(),
        scan_lines(lines, n) is Columns,
    ensures
        distinct_names(scan_lines(lines, n)->Columns_0),
    decreases n,
{
    if n > 0 {
        if scan_lines(lines, n - 1) is Columns {
            lemma_scanned_names_differ(lines, n - 1);
            let before = scan_lines(lines, n - 1)->Columns_0;
            let after = scan_lines(lines, n)->Columns_0;
            assert forall|i: int, j: int| 0 <= i < j < after.len() implies after[i].0 != after[j].0 by {
                if after != before {
                    if j == before.len() {
                        assert(before[i] == after[i]);
                    } else {
                        assert(before[i].0 != before[j].0);
                    }
                }
            }
        }
    }
}

/// The columns of an accepted schema text have names that differ from one
/// another.
pub proof fn law_parsed_names_differ(text: Seq<char>)
    requires
        parse_schema_spec(text) is Columns,
    ensures
        distinct_names(parse_schema_spec(text)->Columns_0),
{
    let lines = lines_spec(text);
    lemma_scanned_names_differ(lines, lines.len() as int);
}

/// Once a line is at fault, the fault stays however many more lines are
/// read.
pub proof fn lemma_fault_stays(lines: Seq<Seq<char>>, n: int, m: int)
    requires
        0 <= n <= m,
        !(scan_lines(lines, n) is Columns),
    ensures
        scan_lines(lines, m) == scan_lines(lines, n),
    decreases m - n,
{
    if n < m {
        lemma_fault_stays(lines, n, m - 1);
    }
}

/// The kind of element that a column of the given type stores: a string for
/// `string`, a double for `number`, a boolean for `boolean`.
pub fn kind_for_type(t: &str) -> (r: Option<ElementKind>)
    ensures
        r == kind_for_type_spec(t@),
        r is Some == valid_type(t@),
{
    let chars = chars_of(t);
    if is_text(&chars, "string") {
        Some(ElementKind::Text)
    } else if is_text(&chars, "number") {
        Some(ElementKind::Double)
    } else if is_text(&chars, "boolean") {
        Some(ElementKind::Boolean)
    } else {
        None
    }
}

/// The lines of a text.
pub fn lines(text: &Vec<char>) -> (r: Vec<Vec<char>>)
    ensures
        views(r@) == lines_spec(text@),
{
    let sep: Vec<char> = vec!['\n'];
    let mut r = split(text, &sep);
    assert(sep@ =~= seq!['\n']);
    let n = r.len();
    if n > 0 && r[n - 1].len() == 0 {
        let ghost before = views(r@);
        r.pop();
        assert(views(r@) =~= before.drop_last());
    }
    r
}

/// Whether one of the names is `name`.
fn names_contain(names: &Vec<String>, types: &Vec<String>, name: &Vec<char>) -> (r: bool)
    requires
        names@.len() == types@.len(),
    ensures
        r == has_column(columns_of(names@, types@), name@),
{
    let mut i: usize = 0;
    while i < names.len()
        invariant
            i <= names@.len(),
            names@.len() == types@.len(),
            forall|j: int| 0 <= j < i ==> (#[trigger] columns_of(names@, types@)[j]).0 != name@,
        decreases names@.len() - i,
    {
        let existing = chars_of(names[i].as_str());
        if same_chars(&existing, name) {
            assert(columns_of(names@, types@)[i as int].0 == name@);
            return true;
        }
        i += 1;
    }
    false
}

/// Reads a schema text: the names of its columns and, at the same positions,
/// their types, or the reason for which the text is refused.
pub fn parse_schema(text: &str) -> (r: Result<(Vec<String>, Vec<String>), SchemaError>)
    ensures
        outcome_of(r) == parse_schema_spec(text@),
        r is Ok ==> r->Ok_0.0@.len() == r->Ok_0.1@.len() && r->Ok_0.0@.len() > 0,
{
    let chars = chars_of(text);
    let all = lines(&chars);
    if all.len() > SCHEMA_MAX_NUM_COLUMNS {
        return Err(SchemaError::TooLarge(all.len()));
    }
    let comma: Vec<char> = vec![','];
    assert(comma@ =~= seq![',']);
    let mut fields: Vec<String> = Vec::new();
    let mut types: Vec<String> = Vec::new();
    assert(columns_of(fields@, types@) =~= Seq::empty());
    let mut n: usize = 0;
    while n < all.len()
        invariant
            n <= all@.len(),
            all@.len() <= SCHEMA_MAX_NUM_COLUMNS,
            views(all@) == lines_spec(text@),
            comma@ == seq![','],
            fields@.len() == types@.len(),
            scan_lines(views(all@), n as int) == SchemaOutcome::Columns(columns_of(fields@, types@)),
        decreases all@.len() - n,
    {
        let ghost cols = columns_of(fields@, types@);
        let ghost line = views(all@)[n as int];
        assert(line == all@[n as int]@);
        let t = trim(&all[n]);
        if t.len() == 0 || t[0] == '#' {
            n += 1;
            continue ;
        }
        let parts = split(&t, &comma);
        if parts.len() != 2 {
            proof {
                lemma_fault_stays(views(all@), n + 1, all@.len() as int);
            }
            return Err(SchemaError::InvalidFormat(n + 1, string_of(&t)));
        }
        assert(views(parts@)[0] == parts@[0]@);
        assert(views(parts@)[1] == parts@[1]@);
        let raw = trim(&parts[0]);
        let name = if raw.len() <= SCHEMA_MAX_COLUMN_LABEL_LEN {
            raw
        } else {
            slice_chars(&raw, 0, SCHEMA_MAX_COLUMN_LABEL_LEN)
        };
        let ty = trim(&parts[1]);
        if names_contain(&fields, &types, &name) {
            proof {
                lemma_fault_stays(views(all@), n + 1, all@.len() as int);
            }
            return Err(SchemaError::DuplicateColumn(string_of(&name), n + 1));
        }
        if !(is_text(&ty, "string") || is_text(&ty, "number") || is_text(&ty, "boolean")) {
            proof {
                lemma_fault_stays(views(all@), n + 1, all@.len() as int);
            }
            return Err(SchemaError::InvalidType(string_of(&ty), n + 1));
        }
        fields.push(string_of(&name));
        types.push(string_of(&ty));
        assert(columns_of(fields@, types@) =~= cols.push((name@, ty@)));
        n += 1;
    }
    if fields.len() == 0 {
        return Err(SchemaError::Empty);
    }
    Ok((fields, types))
}

} // verus!
