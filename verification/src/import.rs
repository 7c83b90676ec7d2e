//! Reading a table from CSV, PSV or JSON, optionally encrypted.
use vstd::prelude::*;
use crate::crypto::{age_plaintext, decrypt, decrypt_answer, decrypt_result, law_decrypt_encrypt, sealed, utf8_string};
use crate::error::Error;
use crate::export::{column_names, exported_as, psv_lines, psv_text, texts_of, ExportFormat};
use crate::table::{cell_label, type_accepts, type_label, ColumnDef, ColumnType, TableData, TableSchema};
use crate::text::{chars_of, first_index, is_ws, join, lemma_join_free, lemma_split_fold_append_plain, lemma_split_fold_push_delim, lemma_split_join, split_fold, trim_end, trim_start, position_of, push_piece, slice_chars, split_chars, split_on, string_of, trim, trim_chars};
use crate::types::{cell_text, Cell, Value};
use vstd::utf8::{decode_utf8, encode_utf8, valid_utf8};

verus! {

// ---------------------------------------------------------------------------
// What a read gives
// ---------------------------------------------------------------------------

/// What reading a table gives.
pub enum Loaded {
    /// The column names (all text columns) and the rows.
    Table(Seq<Seq<char>>, Seq<Seq<Cell>>),
    /// The column names, their types and the rows.
    Typed(Seq<Seq<char>>, Seq<ColumnType>, Seq<Seq<Cell>>),
    /// `InvalidInput` with this message.
    Invalid(Seq<char>),
    /// `TypeMismatch` of this column, expected type and actual kind.
    Mismatch(Seq<char>, Seq<char>, Seq<char>),
    /// The CSV reader refused the data.
    CsvRefused,
    /// The JSON reader refused the data.
    JsonRefused,
}

/// Whether `r` is the table named `name`, or the error, that `l` describes.
pub open spec fn loaded_as(r: Result<TableData, Error>, name: Seq<char>, l: Loaded) -> bool {
    match l {
        Loaded::Table(cols, rows) => r matches Ok(t) && t.schema.name@ == name && t.schema.columns@.map_values(
            |c: ColumnDef| c.name@,
        ) == cols && (forall|i: int| 0 <= i < t.schema.columns@.len() ==> (#[trigger] t.schema.columns@[i]).col_type
            == ColumnType::Text) && t.rows.deep_view() == rows,
        Loaded::Typed(cols, types, rows) => r matches Ok(t) && t.schema.name@ == name
            && t.schema.columns@.map_values(|c: ColumnDef| c.name@) == cols && t.schema.columns@.map_values(
            |c: ColumnDef| c.col_type,
        ) == types && t.rows.deep_view() == rows,
        Loaded::Invalid(m) => r matches Err(Error::InvalidInput(x)) && x@ == m,
        Loaded::Mismatch(c, e, a) => r matches Err(Error::TypeMismatch { column, expected, actual }) && column@ == c
            && expected@ == e && actual@ == a,
        Loaded::CsvRefused => r matches Err(Error::Csv(_)),
        Loaded::JsonRefused => r matches Err(Error::Json(_)),
    }
}

/// Text columns with the given names.
fn text_columns(names: &Vec<String>) -> (r: Vec<ColumnDef>)
    ensures
        r@.map_values(|c: ColumnDef| c.name@) == names.deep_view(),
        forall|i: int| 0 <= i < r@.len() ==> (#[trigger] r@[i]).col_type == ColumnType::Text,
{
    let mut cols: Vec<ColumnDef> = Vec::new();
    let mut i: usize = 0;
    while i < names.len()
        invariant
            i <= names@.len(),
            cols@.map_values(|c: ColumnDef| c.name@) == names.deep_view().take(i as int),
            forall|k: int| 0 <= k < cols@.len() ==> (#[trigger] cols@[k]).col_type == ColumnType::Text,
        decreases names@.len() - i,
    {
        let ghost before = cols@;
        cols.push(ColumnDef { name: names[i].clone(), col_type: ColumnType::Text });
        proof {
            assert(names.deep_view()[i as int] == names@[i as int]@);
            assert(cols@.map_values(|c: ColumnDef| c.name@) =~= before.map_values(|c: ColumnDef| c.name@).push(
                names@[i as int]@,
            ));
        }
        i = i + 1;
    }
    proof {
        assert(names.deep_view().take(names@.len() as int) =~= names.deep_view());
    }
    cols
}

/// Text cells of the given texts.
pub open spec fn text_cells(fields: Seq<Seq<char>>) -> Seq<Cell> {
    fields.map_values(|f: Seq<char>| Cell::Text(f))
}

/// The index of the first row whose length differs from `n`.
pub open spec fn first_bad_width(rows: Seq<Seq<Seq<char>>>, n: nat) -> Option<int> {
    if exists|i: int| 0 <= i < rows.len() && #[trigger] rows[i].len() != n {
        Some(choose|i: int| 0 <= i < rows.len() && #[trigger] rows[i].len() != n && forall|j: int| 0 <= j < i ==> rows[j].len() == n)
    } else {
        None
    }
}

/// A table of text columns `names` whose rows are `rows`, each checked to
/// have one field per column; the first that has not is the error.
pub open spec fn text_table(names: Seq<Seq<char>>, rows: Seq<Seq<Seq<char>>>) -> Loaded {
    match first_bad_width(rows, names.len()) {
        Some(i) => Loaded::Invalid(crate::table::count_message(names.len(), rows[i].len())),
        None => Loaded::Table(names, rows.map_values(|r: Seq<Seq<char>>| text_cells(r))),
    }
}

proof fn lemma_first_bad_width_at(rows: Seq<Seq<Seq<char>>>, n: nat, w: int)
    requires
        0 <= w < rows.len(),
        rows[w].len() != n,
        forall|j: int| 0 <= j < w ==> (#[trigger] rows[j]).len() == n,
    ensures
        first_bad_width(rows, n) == Some(w),
{
    let c = choose|i: int| 0 <= i < rows.len() && #[trigger] rows[i].len() != n && forall|j: int| 0 <= j < i ==> rows[j].len() == n;
    if c < w {
        assert(rows[c].len() == n);
    }
    if c > w {
        assert(rows[w].len() == n);
    }
}

/// Builds the table `name` of text columns `names` from `records`, each
/// checked against the schema.
fn build_text_table(name: &str, names: &Vec<String>, records: &Vec<Vec<String>>) -> (r: Result<TableData, Error>)
    ensures
        loaded_as(r, name@, text_table(names.deep_view(), records.deep_view())),
{
    let cols = text_columns(names);
    let schema = TableSchema::new(name.to_string(), cols);
    let ghost rv = records.deep_view();
    let ghost n = names.deep_view().len();
    proof {
        assert(n == names@.len());
        assert(schema.columns@.len() == names@.len()) by {
            assert(schema.columns@.map_values(|c: ColumnDef| c.name@).len() == schema.columns@.len());
        }
    }
    let mut rows: Vec<Vec<Value>> = Vec::new();
    let mut i: usize = 0;
    while i < records.len()
        invariant
            i <= records@.len(),
            rv == records.deep_view(),
            n == names.deep_view().len(),
            schema.columns@.len() == n,
            schema.name@ == name@,
            schema.columns@.map_values(|c: ColumnDef| c.name@) == names.deep_view(),
            forall|k: int| 0 <= k < schema.columns@.len() ==> (#[trigger] schema.columns@[k]).col_type == ColumnType::Text,
            forall|j: int| 0 <= j < i ==> (#[trigger] rv[j]).len() == n,
            rows.deep_view() == rv.take(i as int).map_values(|r: Seq<Seq<char>>| text_cells(r)),
        decreases records@.len() - i,
    {
        let rec = &records[i];
        let mut row: Vec<Value> = Vec::new();
        let mut k: usize = 0;
        while k < rec.len()
            invariant
                k <= rec@.len(),
                row.deep_view() == text_cells(rec.deep_view().take(k as int)),
            decreases rec@.len() - k,
        {
            let ghost before = row.deep_view();
            crate::types::push_value(&mut row, Value::Text(rec[k].clone()));
            proof {
                assert(rec.deep_view()[k as int] == rec@[k as int]@);
                assert(text_cells(rec.deep_view().take(k + 1)) =~= before.push(Cell::Text(rec@[k as int]@)));
            }
            k = k + 1;
        }
        proof {
            assert(rec.deep_view().take(rec@.len() as int) =~= rec.deep_view());
            assert(rv[i as int] == rec.deep_view());
            assert(rec.deep_view().len() == rec@.len());
        }
        match schema.validate_row(row.as_slice()) {
            Ok(()) => {},
            Err(e) => {
                proof {
                    lemma_first_bad_width_at(rv, n, i as int);
                }
                return Err(e);
            },
        }
        let ghost before = rows.deep_view();
        crate::types::push_row(&mut rows, row);
        proof {
            assert(rv.take(i + 1).map_values(|r: Seq<Seq<char>>| text_cells(r)) =~= before.push(text_cells(rv[i as int])));
        }
        i = i + 1;
    }
    proof {
        assert(rv.take(records@.len() as int) =~= rv);
        assert(!exists|j: int| 0 <= j < rv.len() && #[trigger] rv[j].len() != n);
    }
    Ok(TableData { schema, rows })
}


// ---------------------------------------------------------------------------
// Lines
// ---------------------------------------------------------------------------

/// `l` without one trailing `\r`.
pub open spec fn strip_cr(l: Seq<char>) -> Seq<char> {
    if l.len() > 0 && l.last() == '\r' {
        l.drop_last()
    } else {
        l
    }
}

/// The lines of `s` (`str::lines`): each piece that a `\n` ends, without
/// the `\n` and a `\r` just before it, then the rest when it is not empty.
pub open spec fn lines_of(s: Seq<char>) -> Seq<Seq<char>> {
    let p = split_on(s, '\n');
    let ended = p.drop_last().map_values(|l: Seq<char>| strip_cr(l));
    if p.last().len() == 0 {
        ended
    } else {
        ended.push(p.last())
    }
}

/// The lines of `s`.
pub fn lines(s: &[char]) -> (r: Vec<Vec<char>>)
    ensures
        r.deep_view() == lines_of(s@),
{
    let pieces = split_chars(s, '\n');
    let ghost p = split_on(s@, '\n');
    assert(pieces.deep_view().len() == pieces@.len());
    let last = pieces.len() - 1;
    let mut out: Vec<Vec<char>> = Vec::new();
    let mut i: usize = 0;
    while i < last
        invariant
            i <= last,
            last + 1 == pieces@.len(),
            pieces.deep_view() == p,
            out.deep_view() == p.drop_last().take(i as int).map_values(|l: Seq<char>| strip_cr(l)),
        decreases last - i,
    {
        let piece = &pieces[i];
        let n = piece.len();
        let line = if n > 0 && piece[n - 1] == '\r' {
            slice_chars(piece.as_slice(), 0, n - 1)
        } else {
            slice_chars(piece.as_slice(), 0, n)
        };
        proof {
            assert(p[i as int] == piece@);
            assert(line@ =~= strip_cr(piece@));
            assert(p.drop_last().take(i + 1).map_values(|l: Seq<char>| strip_cr(l)) =~= p.drop_last().take(
                i as int,
            ).map_values(|l: Seq<char>| strip_cr(l)).push(strip_cr(p[i as int])));
        }
        push_piece(&mut out, line);
        i = i + 1;
    }
    proof {
        assert(p.drop_last().take(last as int) =~= p.drop_last());
        assert(p.last() == pieces@[last as int]@);
    }
    if pieces[last].len() > 0 {
        let rest = slice_chars(pieces[last].as_slice(), 0, pieces[last].len());
        assert(rest@ =~= p.last());
        push_piece(&mut out, rest);
    }
    out
}

// ---------------------------------------------------------------------------
// PSV
// ---------------------------------------------------------------------------

/// The fields of a PSV line: split at `|`, each trimmed.
pub open spec fn fields_of(line: Seq<char>) -> Seq<Seq<char>> {
    split_on(line, '|').map_values(|f: Seq<char>| trim(f))
}

/// The fields of a PSV line.
fn fields(line: &[char]) -> (r: Vec<String>)
    ensures
        r.deep_view() == fields_of(line@),
{
    let parts = split_chars(line, '|');
    let mut out: Vec<String> = Vec::new();
    let mut i: usize = 0;
    while i < parts.len()
        invariant
            i <= parts@.len(),
            out.deep_view() == parts.deep_view().take(i as int).map_values(|f: Seq<char>| trim(f)),
        decreases parts@.len() - i,
    {
        let t = trim_chars(parts[i].as_slice());
        let ts = string_of(t.as_slice());
        proof {
            assert(parts.deep_view()[i as int] == parts@[i as int]@);
            assert(parts.deep_view().take(i + 1).map_values(|f: Seq<char>| trim(f)) =~= parts.deep_view().take(
                i as int,
            ).map_values(|f: Seq<char>| trim(f)).push(trim(parts@[i as int]@)));
        }
        crate::text::push_string(&mut out, ts);
        i = i + 1;
    }
    proof {
        assert(parts.deep_view().take(parts@.len() as int) =~= parts.deep_view());
    }
    out
}

/// What reading PSV bytes gives: the first line names the columns and each
/// further line is a row.
pub open spec fn psv_loaded(data: Seq<u8>) -> Loaded {
    if !valid_utf8(data) {
        Loaded::Invalid("Invalid UTF-8"@)
    } else {
        let ls = lines_of(decode_utf8(data));
        if ls.len() == 0 {
            Loaded::Invalid("Empty PSV data"@)
        } else {
            text_table(fields_of(ls[0]), ls.drop_first().map_values(|l: Seq<char>| fields_of(l)))
        }
    }
}

/// The fields of every line but the first.
fn psv_records(ls: &Vec<Vec<char>>) -> (r: Vec<Vec<String>>)
    requires
        ls@.len() >= 1,
    ensures
        r.deep_view() == ls.deep_view().drop_first().map_values(|l: Seq<char>| fields_of(l)),
{
    let ghost lv = ls.deep_view();
    let mut records: Vec<Vec<String>> = Vec::new();
    let mut i: usize = 1;
    while i < ls.len()
        invariant
            1 <= i <= ls@.len(),
            lv == ls.deep_view(),
            records.deep_view() == lv.drop_first().take(i - 1).map_values(|l: Seq<char>| fields_of(l)),
        decreases ls@.len() - i,
    {
        let f = fields(ls[i].as_slice());
        proof {
            assert(lv[i as int] == ls@[i as int]@);
            assert(lv.drop_first().take(i as int).map_values(|l: Seq<char>| fields_of(l)) =~= lv.drop_first().take(
                i - 1,
            ).map_values(|l: Seq<char>| fields_of(l)).push(fields_of(lv[i as int])));
        }
        let ghost before = records.deep_view();
        records.push(f);
        proof {
            assert(records.deep_view() =~= before.push(fields_of(lv[i as int])));
        }
        i = i + 1;
    }
    proof {
        assert(lv.drop_first().take(ls@.len() - 1) =~= lv.drop_first());
    }
    records
}

/// Reads the table `name` from PSV bytes; every column is text.
pub fn from_psv(name: &str, data: &[u8]) -> (r: Result<TableData, Error>)
    ensures
        loaded_as(r, name@, psv_loaded(data@)),
{
    let text = match utf8_string(vstd::slice::slice_to_vec(data)) {
        Some(t) => t,
        None => {
            return Err(Error::InvalidInput("Invalid UTF-8".to_string()));
        },
    };
    let cs = chars_of(text.as_str());
    let ls = lines(cs.as_slice());
    if ls.len() == 0 {
        return Err(Error::InvalidInput("Empty PSV data".to_string()));
    }
    let headers = fields(ls[0].as_slice());
    let records = psv_records(&ls);
    proof {
        assert(ls.deep_view()[0] == ls@[0]@);
    }
    build_text_table(name, &headers, &records)
}


// ---------------------------------------------------------------------------
// CSV
// ---------------------------------------------------------------------------

/// What `csv::Reader` with its default settings reads from `data`: the
/// header record, the records after it up to the first one it cannot read,
/// and whether it met such a record; `None` when the header record itself
/// cannot be read.
pub uninterp spec fn csv_document(data: Seq<u8>) -> Option<(Seq<Seq<char>>, Seq<Seq<Seq<char>>>, bool)>;

/// Reads `data` with `csv::Reader::from_reader`: the header record, then
/// the records until the first error, whose message comes last. What is
/// read is the one named by `csv_document`; the messages are not stated.
#[verifier::external_body]
fn csv_read(data: &[u8]) -> (r: Result<(Vec<String>, Vec<Vec<String>>, Option<String>), String>)
    ensures
        r matches Ok(t) ==> csv_document(data@) == Some((t.0.deep_view(), t.1.deep_view(), t.2 is Some)),
        r is Err ==> csv_document(data@) is None,
{
    let mut rdr = csv::Reader::from_reader(data);
    let headers: Vec<String> = rdr.headers().map_err(|e| e.to_string())?.iter().map(|h| h.to_string()).collect();
    let mut records: Vec<Vec<String>> = Vec::new();
    for result in rdr.records() {
        match result {
            Ok(rec) => records.push(rec.iter().map(|f| f.to_string()).collect()),
            Err(e) => return Ok((headers, records, Some(e.to_string()))),
        }
    }
    Ok((headers, records, None))
}

/// What reading CSV gives from the header, the records read and whether the
/// reader then failed: a row of the wrong width is reported first.
pub open spec fn csv_loaded(headers: Seq<Seq<char>>, records: Seq<Seq<Seq<char>>>, failed: bool) -> Loaded {
    match text_table(headers, records) {
        Loaded::Table(c, rows) => if failed {
            Loaded::CsvRefused
        } else {
            Loaded::Table(c, rows)
        },
        other => other,
    }
}

/// What reading the CSV document `doc` gives.
pub open spec fn csv_outcome(doc: Option<(Seq<Seq<char>>, Seq<Seq<Seq<char>>>, bool)>) -> Loaded {
    match doc {
        Some((h, recs, failed)) => csv_loaded(h, recs, failed),
        None => Loaded::CsvRefused,
    }
}

/// Builds the table `name` from what the CSV reader read: every column is
/// text; `failure` is the reader's message when it stopped at a record it
/// could not read.
pub fn csv_table(name: &str, headers: &Vec<String>, records: &Vec<Vec<String>>, failure: Option<String>) -> (r: Result<
    TableData,
    Error,
>)
    ensures
        loaded_as(r, name@, csv_loaded(headers.deep_view(), records.deep_view(), failure is Some)),
        r matches Err(Error::Csv(m)) ==> failure matches Some(f) && m@ == f@,
{
    let t = build_text_table(name, headers, records);
    match failure {
        Some(f) => match t {
            Ok(_) => Err(Error::Csv(f)),
            Err(e) => Err(e),
        },
        None => t,
    }
}

/// Reads the table `name` from CSV bytes whose first record names the
/// columns; every column is text.
pub fn from_csv(name: &str, data: &[u8]) -> (r: Result<TableData, Error>)
    ensures
        loaded_as(r, name@, csv_outcome(csv_document(data@))),
{
    match csv_read(data) {
        Ok((headers, records, failure)) => csv_table(name, &headers, &records, failure),
        Err(m) => Err(Error::Csv(m)),
    }
}


// ---------------------------------------------------------------------------
// JSON
// ---------------------------------------------------------------------------

/// A value of a JSON object, as far as reading a row looks into it.
pub enum JsonScalar {
    /// A string.
    Str(String),
    /// A number, with its value when that is an `i64`; every other number
    /// `serde_json` holds is a float.
    Number(Option<i64>),
    /// `true` or `false`.
    Bool(bool),
    /// `null`.
    Null,
    /// An array or an object.
    Nested,
}

/// The content of a [`JsonScalar`].
pub enum JsonField {
    Str(Seq<char>),
    Number(Option<i64>),
    Bool(bool),
    Null,
    Nested,
}

impl View for JsonScalar {
    type V = JsonField;

    open spec fn view(&self) -> JsonField {
        match self {
            JsonScalar::Str(s) => JsonField::Str(s@),
            JsonScalar::Number(n) => JsonField::Number(*n),
            JsonScalar::Bool(b) => JsonField::Bool(*b),
            JsonScalar::Null => JsonField::Null,
            JsonScalar::Nested => JsonField::Nested,
        }
    }
}

/// An element of the top-level JSON array.
pub enum JsonItem {
    /// An object: its members in the order `serde_json` keeps them.
    Object(Vec<(String, JsonScalar)>),
    /// Anything but an object.
    Other,
}

/// The content of a [`JsonItem`].
pub enum JsonEntry {
    Object(Seq<(Seq<char>, JsonField)>),
    Other,
}

/// The contents of object members.
pub open spec fn members_of(m: Seq<(String, JsonScalar)>) -> Seq<(Seq<char>, JsonField)> {
    m.map_values(|p: (String, JsonScalar)| (p.0@, p.1@))
}

impl View for JsonItem {
    type V = JsonEntry;

    open spec fn view(&self) -> JsonEntry {
        match self {
            JsonItem::Object(m) => JsonEntry::Object(members_of(m@)),
            JsonItem::Other => JsonEntry::Other,
        }
    }
}

/// The contents of JSON items.
pub open spec fn entries_of(items: Seq<JsonItem>) -> Seq<JsonEntry> {
    items.map_values(|i: JsonItem| i@)
}

/// What `serde_json::from_slice` reads from `data` as an array of values:
/// for each element, whether it is an object and, if so, its members in
/// the map's order; `None` when `data` is not such an array.
pub uninterp spec fn json_document(data: Seq<u8>) -> Option<Seq<JsonEntry>>;

/// Reads `data` with `serde_json::from_slice` as an array and keeps what a
/// row needs of each element. What is read is the one named by
/// `json_document`; the error's message is not stated.
#[verifier::external_body]
fn json_read(data: &[u8]) -> (r: Result<Vec<JsonItem>, String>)
    ensures
        r matches Ok(items) ==> json_document(data@) == Some(entries_of(items@)),
        r is Err ==> json_document(data@) is None,
{
    let items: Vec<serde_json::Value> = serde_json::from_slice(data).map_err(|e| e.to_string())?;
    Ok(items.iter().map(|item| match item {
        serde_json::Value::Object(m) => JsonItem::Object(m.iter().map(|(k, v)| (k.clone(), match v {
            serde_json::Value::String(s) => JsonScalar::Str(s.clone()),
            serde_json::Value::Number(n) => JsonScalar::Number(n.as_i64()),
            serde_json::Value::Bool(b) => JsonScalar::Bool(*b),
            serde_json::Value::Null => JsonScalar::Null,
            _ => JsonScalar::Nested,
        })).collect()),
        _ => JsonItem::Other,
    }).collect())
}

/// The member names of an object.
pub open spec fn member_names(m: Seq<(Seq<char>, JsonField)>) -> Seq<Seq<char>> {
    m.map_values(|p: (Seq<char>, JsonField)| p.0)
}

/// The value of the member `key` of `m`, if it has one.
pub open spec fn member(m: Seq<(Seq<char>, JsonField)>, key: Seq<char>) -> Option<JsonField> {
    match first_index(member_names(m), key) {
        Some(i) => Some(m[i].1),
        None => None,
    }
}

/// The kind of value a column reads from an object: a string, or else the
/// kind that a type error names (a missing member reads as null).
pub open spec fn json_kind(f: Option<JsonField>) -> Seq<char> {
    match f {
        Some(JsonField::Str(_)) => "TEXT"@,
        Some(JsonField::Number(Some(_))) => "INT"@,
        Some(JsonField::Number(None)) => "FLOAT"@,
        Some(JsonField::Bool(_)) => "BOOL"@,
        _ => "NULL"@,
    }
}

/// The type of a column whose value in the first object is `f`: integer,
/// float or boolean for those values, text for anything else.
pub open spec fn json_column_type(f: JsonField) -> ColumnType {
    match f {
        JsonField::Number(Some(_)) => ColumnType::Int,
        JsonField::Number(None) => ColumnType::Float,
        JsonField::Bool(_) => ColumnType::Bool,
        _ => ColumnType::Text,
    }
}

/// The column types that the first object's values set.
pub open spec fn member_types(m: Seq<(Seq<char>, JsonField)>) -> Seq<ColumnType> {
    m.map_values(|p: (Seq<char>, JsonField)| json_column_type(p.1))
}

/// The cell that a value reads as; `None` for a float, which no cell holds
/// (a missing member, null, an array or an object read as null).
pub open spec fn json_cell(f: Option<JsonField>) -> Option<Cell> {
    match f {
        Some(JsonField::Str(s)) => Some(Cell::Text(s)),
        Some(JsonField::Number(Some(i))) => Some(Cell::Int(i)),
        Some(JsonField::Number(None)) => None,
        Some(JsonField::Bool(b)) => Some(Cell::Bool(b)),
        _ => Some(Cell::Null),
    }
}

/// Whether the value read for column `c` of `m` fits a column of type `t`.
pub open spec fn column_reads(m: Seq<(Seq<char>, JsonField)>, c: Seq<char>, t: ColumnType) -> bool {
    json_cell(member(m, c)) matches Some(x) && type_accepts(t, x)
}

/// Whether the element `e` reads as a row under the columns `cols` of the
/// types `types`.
pub open spec fn entry_fits(cols: Seq<Seq<char>>, types: Seq<ColumnType>, e: JsonEntry) -> bool {
    e matches JsonEntry::Object(m) && forall|j: int| 0 <= j < cols.len() ==> #[trigger] column_reads(m, cols[j], types[j])
}

proof fn lemma_fits_reads(cols: Seq<Seq<char>>, types: Seq<ColumnType>, m: Seq<(Seq<char>, JsonField)>, j: int)
    requires
        entry_fits(cols, types, JsonEntry::Object(m)),
        0 <= j < cols.len(),
    ensures
        column_reads(m, cols[j], types[j]),
{
    let e = JsonEntry::Object(m);
    assert(e matches JsonEntry::Object(mm) && mm == m);
    assert(forall|i: int| 0 <= i < cols.len() ==> #[trigger] column_reads(m, cols[i], types[i]));
}

/// The least `i` below `n` at which `ok` fails.
pub open spec fn first_failing(n: int, ok: spec_fn(int) -> bool) -> Option<int> {
    if exists|i: int| 0 <= i < n && !#[trigger] ok(i) {
        Some(choose|i: int| 0 <= i < n && !#[trigger] ok(i) && forall|j: int| 0 <= j < i ==> #[trigger] ok(j))
    } else {
        None
    }
}

proof fn lemma_first_failing_at(n: int, ok: spec_fn(int) -> bool, w: int)
    requires
        0 <= w < n,
        !ok(w),
        forall|j: int| 0 <= j < w ==> #[trigger] ok(j),
    ensures
        first_failing(n, ok) == Some(w),
{
    assert(0 <= w < n && !ok(w) && forall|j: int| 0 <= j < w ==> #[trigger] ok(j));
    let c = choose|i: int| 0 <= i < n && !#[trigger] ok(i) && forall|j: int| 0 <= j < i ==> #[trigger] ok(j);
    if c < w {
        assert(ok(c));
    }
    if c > w {
        assert(ok(w));
    }
}

proof fn lemma_first_failing_some(n: int, ok: spec_fn(int) -> bool)
    requires
        first_failing(n, ok) is Some,
    ensures
        0 <= first_failing(n, ok)->0 < n,
        !ok(first_failing(n, ok)->0),
        forall|j: int| 0 <= j < first_failing(n, ok)->0 ==> #[trigger] ok(j),
{
    let k = choose|i: int| 0 <= i < n && !#[trigger] ok(i);
    lemma_minimal_failing(n, ok, k);
}

proof fn lemma_minimal_failing(n: int, ok: spec_fn(int) -> bool, k: int)
    requires
        0 <= k < n,
        !ok(k),
    ensures
        exists|i: int| 0 <= i < n && !#[trigger] ok(i) && forall|j: int| 0 <= j < i ==> #[trigger] ok(j),
    decreases k,
{
    if exists|j: int| 0 <= j < k && !#[trigger] ok(j) {
        let j = choose|j: int| 0 <= j < k && !#[trigger] ok(j);
        lemma_minimal_failing(n, ok, j);
    } else {
        assert(0 <= k < n && !ok(k) && forall|j: int| 0 <= j < k ==> #[trigger] ok(j));
    }
}

/// The row a fitting element reads as.
pub open spec fn entry_row(cols: Seq<Seq<char>>, e: JsonEntry) -> Seq<Cell> {
    match e {
        JsonEntry::Object(m) => cols.map_values(|c: Seq<char>| json_cell(member(m, c))->0),
        JsonEntry::Other => Seq::empty(),
    }
}

/// What reading the elements of a JSON array gives: the first element's
/// members name the columns and their values give the columns' types;
/// each element is a row of them.
pub open spec fn json_loaded(items: Seq<JsonEntry>) -> Loaded {
    if items.len() == 0 {
        Loaded::Invalid("Empty JSON array"@)
    } else {
        match items[0] {
            JsonEntry::Object(first) => {
                let cols = member_names(first);
                let types = member_types(first);
                match first_failing(items.len() as int, |k: int| entry_fits(cols, types, items[k])) {
                    None => Loaded::Typed(cols, types, items.map_values(|e: JsonEntry| entry_row(cols, e))),
                    Some(k) => match items[k] {
                        JsonEntry::Object(m) => {
                            let j = first_failing(cols.len() as int, |j: int| column_reads(m, cols[j], types[j]))->0;
                            Loaded::Mismatch(cols[j], type_label(types[j]), json_kind(member(m, cols[j])))
                        },
                        JsonEntry::Other => Loaded::Invalid("JSON must be array of objects"@),
                    },
                }
            },
            JsonEntry::Other => Loaded::Invalid("JSON must be array of objects"@),
        }
    }
}

/// What reading the JSON document `doc` gives.
pub open spec fn json_outcome(doc: Option<Seq<JsonEntry>>) -> Loaded {
    match doc {
        Some(items) => json_loaded(items),
        None => Loaded::JsonRefused,
    }
}


/// The member names of an object.
fn member_keys(m: &Vec<(String, JsonScalar)>) -> (r: Vec<String>)
    ensures
        r.deep_view() == member_names(members_of(m@)),
{
    let mut keys: Vec<String> = Vec::new();
    let mut i: usize = 0;
    while i < m.len()
        invariant
            i <= m@.len(),
            keys.deep_view() == member_names(members_of(m@)).take(i as int),
        decreases m@.len() - i,
    {
        let ghost before = keys.deep_view();
        crate::text::push_string(&mut keys, m[i].0.clone());
        proof {
            assert(member_names(members_of(m@)).take(i + 1) =~= before.push(m@[i as int].0@));
        }
        i = i + 1;
    }
    proof {
        assert(member_names(members_of(m@)).take(m@.len() as int) =~= member_names(members_of(m@)));
    }
    keys
}

/// The kind of value read from `f`, as [`json_kind`] names it.
fn json_kind_label(f: Option<&JsonScalar>) -> (r: &'static str)
    ensures
        r@ == json_kind(match f {
            Some(x) => Some(x@),
            None => None,
        }),
{
    proof {
        reveal_strlit("TEXT");
        reveal_strlit("INT");
        reveal_strlit("FLOAT");
        reveal_strlit("BOOL");
        reveal_strlit("NULL");
    }
    match f {
        Some(JsonScalar::Str(_)) => "TEXT",
        Some(JsonScalar::Number(Some(_))) => "INT",
        Some(JsonScalar::Number(None)) => "FLOAT",
        Some(JsonScalar::Bool(_)) => "BOOL",
        _ => "NULL",
    }
}

/// The type of a column whose first value is `x`.
fn scalar_type(x: &JsonScalar) -> (r: ColumnType)
    ensures
        r == json_column_type(x@),
{
    match x {
        JsonScalar::Number(Some(_)) => ColumnType::Int,
        JsonScalar::Number(None) => ColumnType::Float,
        JsonScalar::Bool(_) => ColumnType::Bool,
        _ => ColumnType::Text,
    }
}

/// The cell that the value `f` reads as, if any.
fn scalar_cell(f: Option<&JsonScalar>) -> (r: Option<Value>)
    ensures
        match r {
            Some(v) => json_cell(match f {
                Some(x) => Some(x@),
                None => None,
            }) == Some(v@),
            None => json_cell(match f {
                Some(x) => Some(x@),
                None => None,
            }) is None,
        },
{
    match f {
        Some(JsonScalar::Str(s)) => Some(Value::Text(s.clone())),
        Some(JsonScalar::Number(Some(i))) => Some(Value::Int(*i)),
        Some(JsonScalar::Number(None)) => None,
        Some(JsonScalar::Bool(b)) => Some(Value::Bool(*b)),
        _ => Some(Value::Null),
    }
}

/// The columns that the first object sets: its member names, typed by
/// their values.
fn typed_columns(m: &Vec<(String, JsonScalar)>) -> (r: Vec<ColumnDef>)
    ensures
        r@.map_values(|c: ColumnDef| c.name@) == member_names(members_of(m@)),
        r@.map_values(|c: ColumnDef| c.col_type) == member_types(members_of(m@)),
{
    let ghost mv = members_of(m@);
    let mut cols: Vec<ColumnDef> = Vec::new();
    let mut i: usize = 0;
    while i < m.len()
        invariant
            i <= m@.len(),
            mv == members_of(m@),
            cols@.map_values(|c: ColumnDef| c.name@) == member_names(mv).take(i as int),
            cols@.map_values(|c: ColumnDef| c.col_type) == member_types(mv).take(i as int),
        decreases m@.len() - i,
    {
        let ghost before = cols@;
        let t = scalar_type(&m[i].1);
        cols.push(ColumnDef { name: m[i].0.clone(), col_type: t });
        proof {
            assert(cols@.map_values(|c: ColumnDef| c.name@) =~= before.map_values(|c: ColumnDef| c.name@).push(
                m@[i as int].0@,
            ));
            assert(cols@.map_values(|c: ColumnDef| c.col_type) =~= before.map_values(|c: ColumnDef| c.col_type).push(t));
            assert(member_names(mv).take(i + 1) =~= member_names(mv).take(i as int).push(m@[i as int].0@));
            assert(member_types(mv).take(i + 1) =~= member_types(mv).take(i as int).push(t));
        }
        i = i + 1;
    }
    proof {
        assert(member_names(mv).take(m@.len() as int) =~= member_names(mv));
        assert(member_types(mv).take(m@.len() as int) =~= member_types(mv));
    }
    cols
}

/// The cell that the member `key` of `m` reads as, `keys` being the
/// member names of `m`.
fn member_cell(keys: &Vec<String>, m: &Vec<(String, JsonScalar)>, key: &str) -> (r: Option<Value>)
    requires
        keys.deep_view() == member_names(members_of(m@)),
    ensures
        match r {
            Some(v) => json_cell(member(members_of(m@), key@)) == Some(v@),
            None => json_cell(member(members_of(m@), key@)) is None,
        },
{
    proof {
        assert(keys.deep_view().len() == keys@.len());
    }
    let found = position_of(keys, key);
    let value = match found {
        Some(i) => Some(&m[i].1),
        None => None,
    };
    proof {
        assert(member(members_of(m@), key@) == match value {
            Some(x) => Some(x@),
            None => None,
        });
    }
    scalar_cell(value)
}

/// The row that the object `m` reads as under the columns `cols`, or the
/// first column whose value does not fit its type.
#[verifier::rlimit(40)]
fn json_row(cols: &Vec<ColumnDef>, m: &Vec<(String, JsonScalar)>) -> (r: Result<Vec<Value>, usize>)
    ensures
        r matches Ok(row) ==> entry_fits(
            cols@.map_values(|c: ColumnDef| c.name@),
            cols@.map_values(|c: ColumnDef| c.col_type),
            JsonEntry::Object(members_of(m@)),
        ) && row.deep_view() == entry_row(cols@.map_values(|c: ColumnDef| c.name@), JsonEntry::Object(members_of(m@))),
        r matches Err(j) ==> j < cols@.len() && !column_reads(members_of(m@), cols@[j as int].name@, cols@[j as int].col_type)
            && forall|i: int| 0 <= i < j ==> #[trigger] column_reads(members_of(m@), cols@[i].name@, cols@[i].col_type),
{
    let ghost mv = members_of(m@);
    let ghost cv = cols@.map_values(|c: ColumnDef| c.name@);
    let ghost tv = cols@.map_values(|c: ColumnDef| c.col_type);
    let keys = member_keys(m);
    let mut row: Vec<Value> = Vec::new();
    let mut j: usize = 0;
    while j < cols.len()
        invariant
            j <= cols@.len(),
            cv == cols@.map_values(|c: ColumnDef| c.name@),
            tv == cols@.map_values(|c: ColumnDef| c.col_type),
            mv == members_of(m@),
            keys.deep_view() == member_names(mv),
            forall|i: int| 0 <= i < j ==> #[trigger] column_reads(mv, cv[i], tv[i]),
            row.deep_view() == cv.take(j as int).map_values(|c: Seq<char>| json_cell(member(mv, c))->0),
        decreases cols@.len() - j,
    {
        proof {
            assert(cv[j as int] == cols@[j as int].name@);
            assert(tv[j as int] == cols@[j as int].col_type);
        }
        let cell = member_cell(&keys, m, cols[j].name.as_str());
        let fits = match &cell {
            Some(v) => cols[j].col_type.validate(v),
            None => false,
        };
        if !fits {
            proof {
                assert(!column_reads(mv, cv[j as int], tv[j as int]));
                assert forall|i: int| 0 <= i < j implies #[trigger] column_reads(mv, cols@[i].name@, cols@[i].col_type) by {
                    assert(column_reads(mv, cv[i], tv[i]));
                }
            }
            return Err(j);
        }
        match cell {
            Some(v) => {
                let ghost before = row.deep_view();
                let ghost vv = v@;
                proof {
                    assert(cv.take(j + 1).map_values(|c: Seq<char>| json_cell(member(mv, c))->0) =~= before.push(vv));
                }
                crate::types::push_value(&mut row, v);
            },
            None => {
                return Err(j);
            },
        }
        j = j + 1;
    }
    proof {
        assert(cv.take(cols@.len() as int) =~= cv);
    }
    Ok(row)
}

/// Where reading stops when the `j`-th column of the `k`-th element does not
/// fit, all earlier columns and elements having fitted.
proof fn lemma_row_mismatch(
    ev: Seq<JsonEntry>,
    cv: Seq<Seq<char>>,
    tv: Seq<ColumnType>,
    mv: Seq<(Seq<char>, JsonField)>,
    k: int,
    j: int,
)
    requires
        0 <= k < ev.len(),
        ev[k] == JsonEntry::Object(mv),
        0 <= j < cv.len(),
        !column_reads(mv, cv[j], tv[j]),
        forall|i: int| 0 <= i < j ==> #[trigger] column_reads(mv, cv[i], tv[i]),
        forall|i: int| 0 <= i < k ==> #[trigger] entry_fits(cv, tv, ev[i]),
    ensures
        first_failing(ev.len() as int, |i: int| entry_fits(cv, tv, ev[i])) == Some(k),
        first_failing(cv.len() as int, |i: int| column_reads(mv, cv[i], tv[i])) == Some(j),
{
    if entry_fits(cv, tv, ev[k]) {
        lemma_fits_reads(cv, tv, mv, j);
    }
    lemma_first_failing_at(ev.len() as int, |i: int| entry_fits(cv, tv, ev[i]), k);
    lemma_first_failing_at(cv.len() as int, |i: int| column_reads(mv, cv[i], tv[i]), j);
}

/// The error for an object `m` whose value for the column `col` does not
/// fit its type.
fn mismatch_error(col: &ColumnDef, m: &Vec<(String, JsonScalar)>) -> (r: Error)
    ensures
        r matches Error::TypeMismatch { column, expected, actual } && column@ == col.name@ && expected@ == type_label(
            col.col_type,
        ) && actual@ == json_kind(member(members_of(m@), col.name@)),
{
    let keys = member_keys(m);
    proof {
        assert(keys.deep_view().len() == keys@.len());
    }
    let found = position_of(&keys, col.name.as_str());
    let value = match found {
        Some(i) => Some(&m[i].1),
        None => None,
    };
    proof {
        assert(member(members_of(m@), col.name@) == match value {
            Some(x) => Some(x@),
            None => None,
        });
    }
    let actual = json_kind_label(value).to_string();
    let expected = col.col_type.name().to_string();
    Error::TypeMismatch { column: col.name.clone(), expected, actual }
}

/// Builds the table `name` from the elements of a JSON array: the first
/// element's members name the columns and its values give their types
/// (integer, float, boolean, else text), and every element must be an
/// object whose value for each column fits that column's type.
#[verifier::rlimit(40)]
pub fn json_table(name: &str, items: &Vec<JsonItem>) -> (r: Result<TableData, Error>)
    ensures
        loaded_as(r, name@, json_loaded(entries_of(items@))),
{
    let ghost ev = entries_of(items@);
    if items.len() == 0 {
        return Err(Error::InvalidInput("Empty JSON array".to_string()));
    }
    let first = match &items[0] {
        JsonItem::Object(m) => m,
        JsonItem::Other => {
            return Err(Error::InvalidInput("JSON must be array of objects".to_string()));
        },
    };
    let cols = typed_columns(first);
    let ghost cv = cols@.map_values(|c: ColumnDef| c.name@);
    let ghost tv = cols@.map_values(|c: ColumnDef| c.col_type);
    let schema = TableSchema::new(name.to_string(), cols);
    let mut rows: Vec<Vec<Value>> = Vec::new();
    let mut k: usize = 0;
    while k < items.len()
        invariant
            k <= items@.len(),
            ev == entries_of(items@),
            ev[0] == JsonEntry::Object(members_of(first@)),
            cv == schema.columns@.map_values(|c: ColumnDef| c.name@),
            tv == schema.columns@.map_values(|c: ColumnDef| c.col_type),
            cv == member_names(members_of(first@)),
            tv == member_types(members_of(first@)),
            schema.name@ == name@,
            forall|i: int| 0 <= i < k ==> #[trigger] entry_fits(cv, tv, ev[i]),
            rows.deep_view() == ev.take(k as int).map_values(|e: JsonEntry| entry_row(cv, e)),
        decreases items@.len() - k,
    {
        proof {
            assert(ev[k as int] == items@[k as int]@);
        }
        let m = match &items[k] {
            JsonItem::Object(m) => m,
            JsonItem::Other => {
                proof {
                    lemma_first_failing_at(items@.len() as int, |i: int| entry_fits(cv, tv, ev[i]), k as int);
                }
                return Err(Error::InvalidInput("JSON must be array of objects".to_string()));
            },
        };
        match json_row(&schema.columns, m) {
            Ok(row) => {
                let ghost before = rows.deep_view();
                crate::types::push_row(&mut rows, row);
                proof {
                    assert(ev.take(k + 1).map_values(|e: JsonEntry| entry_row(cv, e)) =~= before.push(
                        entry_row(cv, ev[k as int]),
                    ));
                }
            },
            Err(j) => {
                proof {
                    assert(cv[j as int] == schema.columns@[j as int].name@);
                    assert(tv[j as int] == schema.columns@[j as int].col_type);
                    assert forall|i: int| 0 <= i < j implies #[trigger] column_reads(members_of(m@), cv[i], tv[i]) by {
                        assert(column_reads(members_of(m@), schema.columns@[i].name@, schema.columns@[i].col_type));
                    }
                    lemma_row_mismatch(ev, cv, tv, members_of(m@), k as int, j as int);
                }
                return Err(mismatch_error(&schema.columns[j], m));
            },
        }
        k = k + 1;
    }
    proof {
        assert(ev.take(items@.len() as int) =~= ev);
        assert(!exists|i: int| 0 <= i < items@.len() && !#[trigger] entry_fits(cv, tv, ev[i]));
        assert(ev.len() == items@.len());
    }
    Ok(TableData { schema, rows })
}

/// Reads the table `name` from a JSON array of objects; the first
/// object's values type the columns.
pub fn from_json(name: &str, data: &[u8]) -> (r: Result<TableData, Error>)
    ensures
        loaded_as(r, name@, json_outcome(json_document(data@))),
        r matches Err(Error::Json(_)) <==> json_document(data@) is None,
{
    match json_read(data) {
        Ok(items) => json_table(name, &items),
        Err(m) => Err(Error::Json(m)),
    }
}


// ---------------------------------------------------------------------------
// Import
// ---------------------------------------------------------------------------

/// What reading the bytes `raw` in `format` gives.
pub open spec fn import_outcome(format: ExportFormat, raw: Seq<u8>) -> Loaded {
    match format {
        ExportFormat::Csv => csv_outcome(csv_document(raw)),
        ExportFormat::Psv => psv_loaded(raw),
        ExportFormat::Json => json_outcome(json_document(raw)),
        _ => Loaded::Invalid("Unsupported import format"@),
    }
}

/// Reads the table `name` from plain bytes in `format`.
pub fn read_format(name: &str, raw: &[u8], format: ExportFormat) -> (r: Result<TableData, Error>)
    ensures
        loaded_as(r, name@, import_outcome(format, raw@)),
{
    match format {
        ExportFormat::Csv => from_csv(name, raw),
        ExportFormat::Psv => from_psv(name, raw),
        ExportFormat::Json => from_json(name, raw),
        _ => Err(Error::InvalidInput("Unsupported import format".to_string())),
    }
}

/// Reads the table `name` from `data` in `format`; when `encrypted` is set
/// the data is first decrypted with the passphrase, which must be given.
pub fn import_table(
    name: &str,
    data: &[u8],
    format: ExportFormat,
    encrypted: bool,
    passphrase: Option<&str>,
) -> (r: Result<TableData, Error>)
    ensures
        !encrypted ==> loaded_as(r, name@, import_outcome(format, data@)),
        encrypted && passphrase is None ==> (r matches Err(Error::InvalidInput(m)) && m@
            == "Passphrase required for decryption"@),
        encrypted && passphrase is Some && r is Ok ==> (decrypt_result(data@, passphrase->0@) matches Some(plain)
            && loaded_as(r, name@, import_outcome(format, encode_utf8(plain)))),
        encrypted && passphrase is Some ==> exists|d: Result<String, Error>|
            #[trigger] decrypt_answer(data@, passphrase->0@, d) && match d {
                Err(e) => r == Err::<TableData, Error>(e),
                Ok(s) => loaded_as(r, name@, import_outcome(format, encode_utf8(s@))),
            },
{
    if encrypted {
        let pass = match passphrase {
            Some(p) => p,
            None => {
                return Err(Error::InvalidInput("Passphrase required for decryption".to_string()));
            },
        };
        let d = decrypt(data, pass);
        let ghost dg = d;
        match d {
            Ok(plain) => {
                let r = read_format(name, plain.as_str().as_bytes(), format);
                proof {
                    assert(decrypt_answer(data@, pass@, dg));
                }
                r
            },
            Err(e) => {
                proof {
                    assert(decrypt_answer(data@, pass@, dg));
                }
                Err(e)
            },
        }
    } else {
        read_format(name, data, format)
    }
}


// ---------------------------------------------------------------------------
// Reading back what was written
// ---------------------------------------------------------------------------

/// Each of `ls` followed by a `\n`.
pub open spec fn terminated(ls: Seq<Seq<char>>) -> Seq<char>
    decreases ls.len(),
{
    if ls.len() == 0 {
        Seq::empty()
    } else {
        terminated(ls.drop_last()) + ls.last() + seq!['\n']
    }
}

proof fn lemma_split_terminated(ls: Seq<Seq<char>>)
    requires
        forall|i: int| 0 <= i < ls.len() ==> !(#[trigger] ls[i]).contains('\n'),
    ensures
        split_fold(terminated(ls), '\n') == (ls, Seq::<char>::empty()),
    decreases ls.len(),
{
    if ls.len() > 0 {
        let front = ls.drop_last();
        assert forall|i: int| 0 <= i < front.len() implies !(#[trigger] front[i]).contains('\n') by {
            assert(front[i] == ls[i]);
        }
        lemma_split_terminated(front);
        assert(!ls.last().contains('\n')) by {
            assert(ls[ls.len() - 1] == ls.last());
        }
        let t = terminated(front);
        lemma_split_fold_append_plain(t, ls.last(), '\n');
        assert(terminated(ls) =~= (t + ls.last()).push('\n'));
        lemma_split_fold_push_delim(t + ls.last(), '\n');
        assert(Seq::<char>::empty() + ls.last() =~= ls.last());
        assert(front.push(ls.last()) =~= ls);
    } else {
        assert(terminated(ls) =~= Seq::<char>::empty());
    }
}

/// The lines of `\n`-terminated lines are those lines, when none holds a
/// `\n` or ends with `\r`.
pub proof fn lemma_lines_terminated(ls: Seq<Seq<char>>)
    requires
        forall|i: int| 0 <= i < ls.len() ==> !(#[trigger] ls[i]).contains('\n'),
        forall|i: int| 0 <= i < ls.len() ==> (#[trigger] ls[i]).len() > 0 ==> ls[i].last() != '\r',
    ensures
        lines_of(terminated(ls)) == ls,
{
    lemma_split_terminated(ls);
    let p = split_on(terminated(ls), '\n');
    assert(p =~= ls.push(Seq::<char>::empty()));
    assert(p.drop_last() =~= ls);
    assert(ls.map_values(|l: Seq<char>| strip_cr(l)) =~= ls);
}

/// Whether `s` reads back unchanged as a PSV field: it holds no `|` and no
/// line break, and neither begins nor ends with whitespace.
pub open spec fn plain_field(s: Seq<char>) -> bool {
    &&& !s.contains('|')
    &&& !s.contains('\n')
    &&& s.len() > 0 ==> !is_ws(s[0]) && !is_ws(s.last())
}

proof fn lemma_plain_trim(s: Seq<char>)
    requires
        plain_field(s),
    ensures
        trim(s) == s,
{
    assert(trim_start(s) == s);
    assert(trim_end(s) == s);
}

proof fn lemma_plain_line(parts: Seq<Seq<char>>)
    requires
        parts.len() >= 1,
        forall|i: int| 0 <= i < parts.len() ==> plain_field(#[trigger] parts[i]),
    ensures
        fields_of(join(parts, "|"@)) == parts,
        !join(parts, "|"@).contains('\n'),
        join(parts, "|"@).len() > 0 ==> join(parts, "|"@).last() != '\r',
    decreases parts.len(),
{
    reveal_strlit("|");
    assert("|"@ =~= seq!['|']);
    assert forall|i: int| 0 <= i < parts.len() implies !(#[trigger] parts[i]).contains('|') by {
        assert(plain_field(parts[i]));
    }
    lemma_split_join(parts, '|');
    assert forall|i: int| 0 <= i < parts.len() implies trim(#[trigger] parts[i]) == parts[i] by {
        lemma_plain_trim(parts[i]);
    }
    assert(parts.map_values(|f: Seq<char>| trim(f)) =~= parts);
    assert forall|i: int| 0 <= i < parts.len() implies !(#[trigger] parts[i]).contains('\n') by {
        assert(plain_field(parts[i]));
    }
    assert(!seq!['|'].contains('\n')) by {
        if seq!['|'].contains('\n') {
            let k = choose|k: int| 0 <= k < 1 && seq!['|'][k] == '\n';
        }
    }
    lemma_join_free(parts, seq!['|'], '\n');
    let j = join(parts, seq!['|']);
    if j.len() > 0 {
        let l = parts.last();
        assert(plain_field(parts[parts.len() - 1]));
        if parts.len() == 1 {
        } else if l.len() > 0 {
            assert(j =~= join(parts.drop_last(), seq!['|']) + seq!['|'] + l);
            assert(j.last() == l.last());
        } else {
            assert(j =~= join(parts.drop_last(), seq!['|']) + seq!['|'] + l);
            assert(j.last() == '|');
        }
    }
}

proof fn lemma_psv_terminated(names: Seq<Seq<char>>, rows: Seq<Seq<Cell>>)
    ensures
        join(names, "|"@) + "\n"@ + psv_lines(rows) == terminated(
            seq![join(names, "|"@)] + rows.map_values(|r: Seq<Cell>| join(texts_of(r), "|"@)),
        ),
    decreases rows.len(),
{
    reveal_strlit("\n");
    let h = join(names, "|"@);
    let f = |r: Seq<Cell>| join(texts_of(r), "|"@);
    if rows.len() == 0 {
        assert(seq![h] + rows.map_values(f) =~= seq![h]);
        assert(seq![h].drop_last() =~= Seq::<Seq<char>>::empty());
        assert(terminated(Seq::<Seq<char>>::empty()) =~= Seq::<char>::empty());
        assert(h + "\n"@ + psv_lines(rows) =~= terminated(seq![h]));
    } else {
        lemma_psv_terminated(names, rows.drop_last());
        let ls = seq![h] + rows.map_values(f);
        assert(ls.drop_last() =~= seq![h] + rows.drop_last().map_values(f));
        assert(ls.last() == f(rows.last()));
        assert(h + "\n"@ + psv_lines(rows) =~= terminated(ls));
    }
}

/// Importing the PSV that [`crate::export::export_table`] writes gives back
/// the table's column names and the text of every cell, all as text, when
/// there is at least one column and every name and cell text is a
/// [`plain_field`].
pub proof fn law_import_psv_export(t: TableData)
    requires
        t.well_formed(),
        t.schema.columns@.len() >= 1,
        forall|i: int| 0 <= i < t.schema.columns@.len() ==> plain_field(#[trigger] t.schema.columns@[i].name@),
        forall|i: int, j: int|
            0 <= i < t.rows@.len() && 0 <= j < t.rows@[i]@.len() ==> plain_field(
                #[trigger] cell_text(t.rows@[i]@[j]@),
            ),
    ensures
        exported_as(t, ExportFormat::Psv, encode_utf8(psv_text(t))),
        import_outcome(ExportFormat::Psv, encode_utf8(psv_text(t))) == Loaded::Table(
            column_names(t.schema.columns@),
            t.rows.deep_view().map_values(|r: Seq<Cell>| text_cells(texts_of(r))),
        ),
{
    let names = column_names(t.schema.columns@);
    let rows = t.rows.deep_view();
    let f = |r: Seq<Cell>| join(texts_of(r), "|"@);
    let ls = seq![join(names, "|"@)] + rows.map_values(f);
    vstd::utf8::encode_utf8_valid_utf8(psv_text(t));
    vstd::utf8::encode_utf8_decode_utf8(psv_text(t));
    lemma_psv_terminated(names, rows);
    assert forall|i: int| 0 <= i < names.len() implies plain_field(#[trigger] names[i]) by {
        assert(names[i] == t.schema.columns@[i].name@);
    }
    lemma_plain_line(names);
    assert forall|i: int| 0 <= i < rows.len() implies fields_of(#[trigger] f(rows[i])) == texts_of(rows[i])
        && !f(rows[i]).contains('\n') && (f(rows[i]).len() > 0 ==> f(rows[i]).last() != '\r')
        && texts_of(rows[i]).len() == names.len() by {
        assert(rows[i] == t.rows@[i].deep_view());
        assert(t.rows@[i]@.len() == t.schema.columns@.len());
        assert forall|j: int| 0 <= j < texts_of(rows[i]).len() implies plain_field(#[trigger] texts_of(rows[i])[j]) by {
            assert(rows[i][j] == t.rows@[i]@[j]@);
        }
        lemma_plain_line(texts_of(rows[i]));
    }
    assert forall|i: int| 0 <= i < ls.len() implies !(#[trigger] ls[i]).contains('\n') && (ls[i].len() > 0
        ==> ls[i].last() != '\r') by {
        if i > 0 {
            assert(ls[i] == f(rows[i - 1]));
        }
    }
    lemma_lines_terminated(ls);
    let lines = lines_of(decode_utf8(encode_utf8(psv_text(t))));
    assert(lines == ls);
    assert(fields_of(lines[0]) == names);
    let recs = lines.drop_first().map_values(|l: Seq<char>| fields_of(l));
    assert(recs =~= rows.map_values(|r: Seq<Cell>| texts_of(r))) by {
        assert forall|i: int| 0 <= i < recs.len() implies recs[i] == texts_of(rows[i]) by {
            assert(lines.drop_first()[i] == f(rows[i]));
        }
    }
    assert(forall|i: int| 0 <= i < recs.len() ==> #[trigger] recs[i].len() == names.len());
    assert(first_bad_width(recs, names.len()) is None);
    assert(recs.map_values(|r: Seq<Seq<char>>| text_cells(r)) =~= rows.map_values(
        |r: Seq<Cell>| text_cells(texts_of(r)),
    ));
}


/// Importing an encrypted export with its passphrase reads the same bytes
/// as the plain export: the ciphertext that [`crate::export::export_table`]
/// makes of the text `raw` decrypts to `raw` again.
pub proof fn law_import_encrypted_export(raw: Seq<u8>, passphrase: Seq<char>, ciphertext: Seq<u8>)
    requires
        valid_utf8(raw),
        age_plaintext(ciphertext, passphrase) == Some(encode_utf8(sealed(decode_utf8(raw)))),
    ensures
        decrypt_result(ciphertext, passphrase) matches Some(plain) && encode_utf8(plain) == raw,
{
    law_decrypt_encrypt(decode_utf8(raw), passphrase, ciphertext);
    vstd::utf8::decode_utf8_encode_utf8(raw);
}

} // verus!
