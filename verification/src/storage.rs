//! The tables of a data directory as the delimited-file engine keeps them:
//! each a schema (column names and types) and its rows. Moving bytes to and
//! from the disk is the caller's part; this module holds the tables, the
//! rules on table names, and the bytes of a table file read and written.
use vstd::prelude::*;
use crate::error::Error;
use crate::text::{
    is_ascii_alnum, ascii_alnum, chars_of, lemma_str_lt_irreflexive, lemma_str_lt_total,
    lemma_str_lt_transitive, parse_i64, str_less, str_lt,
};
use crate::types::{cell_text, copy_row, Cell, ColumnType, Row, Schema, Value};

verus! {

// ---------------------------------------------------------------------------
// Table names
// ---------------------------------------------------------------------------

/// Whether `name` can name a table: non-empty, ASCII letters, digits and
/// underscores only.
pub open spec fn valid_table_name(name: Seq<char>) -> bool {
    name.len() > 0 && forall|i: int| 0 <= i < name.len() ==> is_ascii_alnum(#[trigger] name[i]) || name[i] == '_'
}

/// The message for a name that cannot name a table.
pub open spec fn invalid_name_msg() -> Seq<char> {
    "Invalid table name"@
}

/// Checks that `name` can name a table.
pub fn sanitize(name: &str) -> (r: Result<(), Error>)
    ensures
        r is Ok <==> valid_table_name(name@),
        r matches Err(e) ==> (e matches Error::InvalidInput(m) && m@ == invalid_name_msg()),
{
    let cs = chars_of(name);
    if cs.len() == 0 {
        return Err(Error::InvalidInput("Invalid table name".to_string()));
    }
    let mut i: usize = 0;
    while i < cs.len()
        invariant
            i <= cs.len(),
            cs@ == name@,
            forall|j: int| 0 <= j < i ==> is_ascii_alnum(#[trigger] name@[j]) || name@[j] == '_',
        decreases cs.len() - i,
    {
        if !ascii_alnum(cs[i]) && cs[i] != '_' {
            return Err(Error::InvalidInput("Invalid table name".to_string()));
        }
        i = i + 1;
    }
    Ok(())
}

// ---------------------------------------------------------------------------
// Fields of a row as the files hold them
// ---------------------------------------------------------------------------

/// The cell that `field` of a column of type `t` is read as: an integer
/// column reads a signed decimal as an integer, anything else as text.
pub open spec fn field_cell(field: Seq<char>, t: Option<ColumnType>) -> Cell {
    match t {
        Some(ColumnType::Int) => match parse_i64(field) {
            Some(i) => Cell::Int(i),
            None => Cell::Text(field),
        },
        _ => Cell::Text(field),
    }
}

/// The row that the fields of one record are read as, by column type.
pub fn row_from_fields(fields: &Vec<String>, types: &Vec<ColumnType>) -> (r: Row)
    ensures
        r@.len() == fields@.len(),
        forall|i: int| 0 <= i < fields@.len() ==> (#[trigger] r@[i])@ == field_cell(
            fields@[i]@,
            if i < types@.len() {
                Some(types@[i])
            } else {
                None
            },
        ),
{
    let mut row: Row = Vec::new();
    let mut i: usize = 0;
    while i < fields.len()
        invariant
            i <= fields.len(),
            row@.len() == i,
            forall|j: int| 0 <= j < i ==> (#[trigger] row@[j])@ == field_cell(
                fields@[j]@,
                if j < types@.len() {
                    Some(types@[j])
                } else {
                    None
                },
            ),
        decreases fields.len() - i,
    {
        let is_int = i < types.len() && types[i] == ColumnType::Int;
        let v = if is_int {
            Value::from_literal(fields[i].as_str())
        } else {
            Value::Text(fields[i].clone())
        };
        row.push(v);
        i = i + 1;
    }
    row
}

/// The fields that a row is written as: the text form of each value.
pub fn row_fields(row: &[Value]) -> (r: Vec<String>)
    ensures
        r@.len() == row@.len(),
        forall|i: int| 0 <= i < row@.len() ==> (#[trigger] r@[i])@ == cell_text(row@[i]@),
{
    let mut out: Vec<String> = Vec::new();
    let mut i: usize = 0;
    while i < row.len()
        invariant
            i <= row.len(),
            out@.len() == i,
            forall|j: int| 0 <= j < i ==> (#[trigger] out@[j])@ == cell_text(row@[j]@),
        decreases row.len() - i,
    {
        out.push(row[i].to_string_cmp());
        i = i + 1;
    }
    out
}

// ---------------------------------------------------------------------------
// Table files
// ---------------------------------------------------------------------------

/// What a `csv::Reader` built with `delimiter` and a header record reads
/// from `data`: the header record and every record after it; `None` when
/// the header or some record cannot be read (bad UTF-8, or a record whose
/// width differs from the first one's).
pub uninterp spec fn table_file_document(data: Seq<u8>, delimiter: u8) -> Option<(Seq<Seq<char>>, Seq<Seq<Seq<char>>>)>;

/// Reads `data` with `csv::ReaderBuilder` (the given delimiter, a header
/// record): the header record, then every record. What is read is the one
/// named by `table_file_document`; on the first error the whole read
/// fails, with a message that is not stated.
#[verifier::external_body]
fn table_csv_read(data: &[u8], delimiter: u8) -> (r: Result<(Vec<String>, Vec<Vec<String>>), String>)
    ensures
        r matches Ok(t) ==> table_file_document(data@, delimiter) == Some((t.0.deep_view(), t.1.deep_view())),
        r is Err ==> table_file_document(data@, delimiter) is None,
{
    let mut rdr = csv::ReaderBuilder::new().delimiter(delimiter).has_headers(true).from_reader(data);
    let headers: Vec<String> = rdr.headers().map_err(|e| e.to_string())?.iter().map(|h| h.to_string()).collect();
    let mut records: Vec<Vec<String>> = Vec::new();
    for result in rdr.records() {
        records.push(result.map_err(|e| e.to_string())?.iter().map(|f| f.to_string()).collect());
    }
    Ok((headers, records))
}

/// The bytes that a `csv::Writer` built with `delimiter` writes for these
/// records (quoting fields that need it, `\n` endings).
pub uninterp spec fn table_file_encoding(records: Seq<Seq<Seq<char>>>, delimiter: u8) -> Seq<u8>;

/// `csv::WriterBuilder` with the given delimiter over a `Vec`,
/// `write_record` for each record, `into_inner`: on success the bytes are
/// those named by `table_file_encoding`. The writer refuses a record whose
/// number of fields differs from the first record's (it is not flexible);
/// writing into memory fails in no other way. A failure is reported by its
/// message.
#[verifier::external_body]
fn table_csv_write(records: &Vec<Vec<String>>, delimiter: u8) -> (r: Result<Vec<u8>, String>)
    ensures
        r matches Ok(b) ==> b@ == table_file_encoding(records.deep_view(), delimiter),
        (forall|i: int| 0 <= i < records@.len() ==> (#[trigger] records@[i])@.len() == records@[0]@.len())
            ==> r is Ok,
{
    let mut wtr = csv::WriterBuilder::new().delimiter(delimiter).from_writer(Vec::new());
    for rec in records.iter() {
        if let Err(e) = wtr.write_record(rec) {
            return Err(e.to_string());
        }
    }
    wtr.into_inner().map_err(|e| e.to_string())
}

/// The row that the fields of one record read as under the column types.
pub open spec fn fields_row(fields: Seq<Seq<char>>, types: Seq<ColumnType>) -> Seq<Cell> {
    Seq::new(
        fields.len(),
        |i: int|
            field_cell(
                fields[i],
                if i < types.len() {
                    Some(types[i])
                } else {
                    None
                },
            ),
    )
}

/// The fields that a row is written as.
pub open spec fn row_texts(row: Seq<Cell>) -> Seq<Seq<char>> {
    row.map_values(|c: Cell| cell_text(c))
}

/// The records of a table file: the header, then each row's fields.
pub open spec fn table_file_records(headers: Seq<Seq<char>>, rows: Seq<Seq<Cell>>) -> Seq<Seq<Seq<char>>> {
    seq![headers] + rows.map_values(|row: Seq<Cell>| row_texts(row))
}

/// Whether `r` is what reading a table file whose records are `doc` gives
/// under `schema`: the schema (the given one, else all-text columns named
/// by the header), the header, and each record read as a row under the
/// schema's types; a file that cannot be read is a CSV error.
pub open spec fn table_file_read(
    doc: Option<(Seq<Seq<char>>, Seq<Seq<Seq<char>>>)>,
    schema: Option<Schema>,
    r: Result<(Schema, Vec<String>, Vec<Row>), Error>,
) -> bool {
    match doc {
        None => r matches Err(Error::Csv(_)),
        Some((headers, records)) => r matches Ok((s, h, rows)) && h.deep_view() == headers && (match schema {
            Some(given) => s.columns.deep_view() == given.columns.deep_view() && s.types@ == given.types@,
            None => s.columns.deep_view() == headers && s.types@ == Seq::new(
                headers.len(),
                |i: int| ColumnType::Text,
            ),
        }) && rows.deep_view() == records.map_values(|f: Seq<Seq<char>>| fields_row(f, s.types@)),
    }
}

/// A copy of a list of strings.
fn copy_strings(v: &Vec<String>) -> (r: Vec<String>)
    ensures
        r.deep_view() == v.deep_view(),
{
    let mut out: Vec<String> = Vec::new();
    let mut i: usize = 0;
    while i < v.len()
        invariant
            i <= v@.len(),
            out.deep_view() == v.deep_view().take(i as int),
        decreases v@.len() - i,
    {
        let ghost before = out.deep_view();
        crate::text::push_string(&mut out, v[i].clone());
        proof {
            assert(v.deep_view().take(i + 1) =~= before.push(v@[i as int]@));
        }
        i = i + 1;
    }
    proof {
        assert(v.deep_view().take(v@.len() as int) =~= v.deep_view());
    }
    out
}

/// Reads a table file (`|`-delimited, with a header record) under its
/// schema, or, where the table has no schema yet, under all-text columns
/// named by the header.
pub fn read_table_file(data: &[u8], schema: Option<Schema>) -> (r: Result<(Schema, Vec<String>, Vec<Row>), Error>)
    ensures
        table_file_read(table_file_document(data@, crate::config::DELIMITER), schema, r),
{
    let (headers, records) = match table_csv_read(data, crate::config::DELIMITER) {
        Ok(t) => t,
        Err(m) => {
            return Err(Error::Csv(m));
        },
    };
    let ghost given = schema;
    let s = match schema {
        Some(s) => s,
        None => {
            let s = Schema::new(copy_strings(&headers));
            proof {
                assert(s.types@ =~= Seq::new(headers.deep_view().len(), |i: int| ColumnType::Text));
            }
            s
        },
    };
    let ghost rec = records.deep_view();
    let mut rows: Vec<Row> = Vec::new();
    let mut k: usize = 0;
    while k < records.len()
        invariant
            k <= records@.len(),
            rec == records.deep_view(),
            rows.deep_view() == rec.take(k as int).map_values(|f: Seq<Seq<char>>| fields_row(f, s.types@)),
        decreases records@.len() - k,
    {
        let row = row_from_fields(&records[k], &s.types);
        let ghost before = rows.deep_view();
        let ghost rv = row.deep_view();
        crate::types::push_row(&mut rows, row);
        proof {
            assert(rec[k as int] == records@[k as int].deep_view());
            assert(rv =~= fields_row(rec[k as int], s.types@));
            assert(rec.take(k + 1).map_values(|f: Seq<Seq<char>>| fields_row(f, s.types@)) =~= rec.take(
                k as int,
            ).map_values(|f: Seq<Seq<char>>| fields_row(f, s.types@)).push(fields_row(rec[k as int], s.types@)));
        }
        k = k + 1;
    }
    proof {
        assert(rec.take(records@.len() as int) =~= rec);
    }
    Ok((s, headers, rows))
}

/// Writes a table file: the header record, then each row's fields,
/// `|`-delimited. It is written whenever every row has one cell per
/// header.
pub fn write_table_file(headers: &Vec<String>, rows: &Vec<Row>) -> (r: Result<Vec<u8>, Error>)
    ensures
        r matches Ok(b) ==> b@ == table_file_encoding(
            table_file_records(headers.deep_view(), rows.deep_view()),
            crate::config::DELIMITER,
        ),
        r matches Err(e) ==> e is Csv,
        (forall|i: int| 0 <= i < rows@.len() ==> (#[trigger] rows@[i])@.len() == headers@.len()) ==> r is Ok,
{
    let mut records: Vec<Vec<String>> = Vec::new();
    records.push(copy_strings(headers));
    let ghost rv = rows.deep_view();
    let ghost hv = headers.deep_view();
    let mut k: usize = 0;
    while k < rows.len()
        invariant
            k <= rows@.len(),
            rv == rows.deep_view(),
            hv == headers.deep_view(),
            records.deep_view() == seq![hv] + rv.take(k as int).map_values(|row: Seq<Cell>| row_texts(row)),
        decreases rows@.len() - k,
    {
        let fields = row_fields(rows[k].as_slice());
        let ghost before = records.deep_view();
        let ghost fv = fields.deep_view();
        records.push(fields);
        proof {
            assert(rv[k as int] == rows@[k as int].deep_view());
            assert(fv =~= row_texts(rv[k as int]));
            assert(records.deep_view() =~= before.push(fv));
            assert(rv.take(k + 1).map_values(|row: Seq<Cell>| row_texts(row)) =~= rv.take(k as int).map_values(
                |row: Seq<Cell>| row_texts(row),
            ).push(row_texts(rv[k as int])));
        }
        k = k + 1;
    }
    proof {
        assert(rv.take(rows@.len() as int) =~= rv);
        if forall|i: int| 0 <= i < rows@.len() ==> (#[trigger] rows@[i])@.len() == headers@.len() {
            let dv = records.deep_view();
            assert forall|i: int| 0 <= i < records@.len() implies (#[trigger] records@[i])@.len() == records@[0]@.len() by {
                assert(dv[i] == records@[i].deep_view());
                assert(dv[0] == records@[0].deep_view());
                assert(dv[0].len() == headers@.len());
                if i > 0 {
                    assert(dv[i] == row_texts(rv[i - 1]));
                    assert(rv[i - 1] == rows@[i - 1].deep_view());
                }
            }
        }
    }
    match table_csv_write(&records, crate::config::DELIMITER) {
        Ok(b) => Ok(b),
        Err(m) => Err(Error::Csv(m)),
    }
}

/// A table file read back under the schema it was written with gives the
/// header, and each written row as it reads back from its text
/// (`stored_row`), wherever the CSV reader gives back the records that the
/// writer wrote.
pub proof fn law_table_file_round_trip(
    headers: Seq<Seq<char>>,
    rows: Seq<Seq<Cell>>,
    schema: Schema,
    data: Seq<u8>,
    r: Result<(Schema, Vec<String>, Vec<Row>), Error>,
)
    requires
        data == table_file_encoding(table_file_records(headers, rows), crate::config::DELIMITER),
        table_file_document(data, crate::config::DELIMITER) == Some(
            (headers, rows.map_values(|row: Seq<Cell>| row_texts(row))),
        ),
        table_file_read(table_file_document(data, crate::config::DELIMITER), Some(schema), r),
    ensures
        r matches Ok(t) && t.1.deep_view() == headers && t.2.deep_view() == rows.map_values(
            |row: Seq<Cell>| stored_row(row, schema.types@),
        ),
{
    let t = r->Ok_0;
    let texts = rows.map_values(|row: Seq<Cell>| row_texts(row));
    assert(t.0.types@ == schema.types@);
    assert(texts.map_values(|f: Seq<Seq<char>>| fields_row(f, schema.types@)) =~= rows.map_values(
        |row: Seq<Cell>| stored_row(row, schema.types@),
    )) by {
        assert forall|i: int| 0 <= i < rows.len() implies #[trigger] fields_row(texts[i], schema.types@) == stored_row(
            rows[i],
            schema.types@,
        ) by {
            assert(fields_row(texts[i], schema.types@) =~= stored_row(rows[i], schema.types@));
        }
    }
}

// ---------------------------------------------------------------------------
// The store
// ---------------------------------------------------------------------------

/// A table: its name, schema and rows.
pub struct StoredTable {
    pub name: String,
    pub schema: Schema,
    pub rows: Vec<Row>,
}

/// What a table holds.
pub struct TableContent {
    pub columns: Seq<Seq<char>>,
    pub types: Seq<ColumnType>,
    pub rows: Seq<Seq<Cell>>,
}

/// The content of a stored table.
pub open spec fn content_of(t: StoredTable) -> TableContent {
    TableContent {
        columns: t.schema.columns.deep_view(),
        types: t.schema.types@,
        rows: t.rows.deep_view(),
    }
}

/// Whether every row has one cell per column.
pub open spec fn content_fits(c: TableContent) -> bool {
    &&& forall|i: int| 0 <= i < c.rows.len() ==> (#[trigger] c.rows[i]).len() == c.columns.len()
    &&& settled(c)
}

/// Whether every row of `c` reads back as itself once written.
pub open spec fn settled(c: TableContent) -> bool {
    forall|i: int| 0 <= i < c.rows.len() ==> stored_row(#[trigger] c.rows[i], c.types) == c.rows[i]
}

/// Whether the tables are in strictly increasing order of name.
pub open spec fn store_sorted(ts: Seq<StoredTable>) -> bool {
    forall|i: int, j: int| 0 <= i < j < ts.len() ==> str_lt(#[trigger] ts[i].name@, #[trigger] ts[j].name@)
}

/// Whether table `i` is named `n`.
pub open spec fn has_name(ts: Seq<StoredTable>, n: Seq<char>, i: int) -> bool {
    0 <= i < ts.len() && ts[i].name@ == n
}

/// The tables by name.
pub open spec fn map_of(ts: Seq<StoredTable>) -> Map<Seq<char>, TableContent> {
    Map::new(
        |n: Seq<char>| exists|i: int| #[trigger] has_name(ts, n, i),
        |n: Seq<char>| content_of(ts[choose|i: int| #[trigger] has_name(ts, n, i)]),
    )
}

pub proof fn lemma_map_of_at(ts: Seq<StoredTable>, k: int)
    requires
        store_sorted(ts),
        0 <= k < ts.len(),
    ensures
        map_of(ts).contains_key(ts[k].name@),
        map_of(ts)[ts[k].name@] == content_of(ts[k]),
        forall|i: int| #[trigger] has_name(ts, ts[k].name@, i) ==> i == k,
{
    let n = ts[k].name@;
    assert(has_name(ts, n, k));
    assert forall|i: int| #[trigger] has_name(ts, n, i) implies i == k by {
        if i != k {
            lemma_str_lt_irreflexive(n);
            if i < k {
                assert(str_lt(ts[i].name@, ts[k].name@));
            } else {
                assert(str_lt(ts[k].name@, ts[i].name@));
            }
        }
    }
    let c = choose|i: int| #[trigger] has_name(ts, n, i);
    assert(has_name(ts, n, c));
}

proof fn lemma_map_of_insert(ts: Seq<StoredTable>, p: int, t: StoredTable)
    requires
        store_sorted(ts),
        store_sorted(ts.insert(p, t)),
        0 <= p <= ts.len(),
        !map_of(ts).contains_key(t.name@),
    ensures
        map_of(ts.insert(p, t)) == map_of(ts).insert(t.name@, content_of(t)),
{
    let u = ts.insert(p, t);
    let a = map_of(u);
    let b = map_of(ts).insert(t.name@, content_of(t));
    assert forall|n: Seq<char>| a.contains_key(n) <==> b.contains_key(n) by {
        if a.contains_key(n) {
            let i = choose|i: int| #[trigger] has_name(u, n, i);
            if i < p {
                assert(has_name(ts, n, i));
            } else if i > p {
                assert(has_name(ts, n, i - 1));
            }
        }
        if b.contains_key(n) {
            if n == t.name@ {
                assert(has_name(u, n, p));
            } else {
                let j = choose|j: int| #[trigger] has_name(ts, n, j);
                if j < p {
                    assert(has_name(u, n, j));
                } else {
                    assert(has_name(u, n, j + 1));
                }
            }
        }
    }
    assert forall|n: Seq<char>| a.contains_key(n) implies a[n] == b[n] by {
        let i = choose|i: int| #[trigger] has_name(u, n, i);
        assert(has_name(u, n, i));
        lemma_map_of_at(u, i);
        if i == p {
        } else {
            let j = if i < p { i } else { i - 1 };
            assert(u[i] == ts[j]);
            lemma_map_of_at(ts, j);
        }
    }
    assert(a =~= b);
}

proof fn lemma_map_of_remove(ts: Seq<StoredTable>, k: int)
    requires
        store_sorted(ts),
        0 <= k < ts.len(),
    ensures
        store_sorted(ts.remove(k)),
        map_of(ts.remove(k)) == map_of(ts).remove(ts[k].name@),
{
    let u = ts.remove(k);
    assert forall|i: int, j: int| 0 <= i < j < u.len() implies str_lt(
        #[trigger] u[i].name@,
        #[trigger] u[j].name@,
    ) by {
        let a = if i < k { i } else { i + 1 };
        let b = if j < k { j } else { j + 1 };
        assert(u[i] == ts[a]);
        assert(u[j] == ts[b]);
    }
    lemma_map_of_at(ts, k);
    let a = map_of(u);
    let b = map_of(ts).remove(ts[k].name@);
    assert forall|n: Seq<char>| a.contains_key(n) <==> b.contains_key(n) by {
        if a.contains_key(n) {
            let i = choose|i: int| #[trigger] has_name(u, n, i);
            let j = if i < k { i } else { i + 1 };
            assert(u[i] == ts[j]);
            assert(has_name(ts, n, j));
            assert(j != k);
        }
        if b.contains_key(n) {
            let j = choose|j: int| #[trigger] has_name(ts, n, j);
            assert(j != k);
            if j < k {
                assert(has_name(u, n, j));
            } else {
                assert(has_name(u, n, j - 1));
            }
        }
    }
    assert forall|n: Seq<char>| a.contains_key(n) implies a[n] == b[n] by {
        let i = choose|i: int| #[trigger] has_name(u, n, i);
        assert(has_name(u, n, i));
        lemma_map_of_at(u, i);
        let j = if i < k { i } else { i + 1 };
        assert(u[i] == ts[j]);
        lemma_map_of_at(ts, j);
    }
    assert(a =~= b);
}

proof fn lemma_map_of_update(ts: Seq<StoredTable>, k: int, t: StoredTable)
    requires
        store_sorted(ts),
        0 <= k < ts.len(),
        t.name@ == ts[k].name@,
    ensures
        store_sorted(ts.update(k, t)),
        map_of(ts.update(k, t)) == map_of(ts).insert(t.name@, content_of(t)),
{
    let u = ts.update(k, t);
    assert forall|i: int, j: int| 0 <= i < j < u.len() implies str_lt(
        #[trigger] u[i].name@,
        #[trigger] u[j].name@,
    ) by {
        assert(u[i].name@ == ts[i].name@);
        assert(u[j].name@ == ts[j].name@);
    }
    lemma_map_of_at(ts, k);
    let a = map_of(u);
    let b = map_of(ts).insert(t.name@, content_of(t));
    assert forall|n: Seq<char>| a.contains_key(n) <==> b.contains_key(n) by {
        if a.contains_key(n) {
            let i = choose|i: int| #[trigger] has_name(u, n, i);
            assert(has_name(ts, n, i));
        }
        if b.contains_key(n) {
            if n == t.name@ {
                assert(has_name(u, n, k));
            } else {
                let j = choose|j: int| #[trigger] has_name(ts, n, j);
                assert(has_name(u, n, j));
            }
        }
    }
    assert forall|n: Seq<char>| a.contains_key(n) implies a[n] == b[n] by {
        let i = choose|i: int| #[trigger] has_name(u, n, i);
        assert(has_name(u, n, i));
        lemma_map_of_at(u, i);
        if i != k {
            lemma_map_of_at(ts, i);
        }
    }
    assert(a =~= b);
}

/// The tables of a data directory, in increasing order of name.
pub struct TableStore {
    tables: Vec<StoredTable>,
}

impl View for TableStore {
    type V = Map<Seq<char>, TableContent>;

    closed spec fn view(&self) -> Map<Seq<char>, TableContent> {
        map_of(self.tables@)
    }
}

/// Whether `names` lists the tables of `db`, each once, in increasing order.
pub open spec fn listing(db: Map<Seq<char>, TableContent>, names: Seq<Seq<char>>) -> bool {
    &&& forall|i: int, j: int| 0 <= i < j < names.len() ==> str_lt(#[trigger] names[i], #[trigger] names[j])
    &&& forall|i: int| 0 <= i < names.len() ==> db.contains_key(#[trigger] names[i])
    &&& forall|n: Seq<char>| #[trigger] db.contains_key(n) ==> exists|i: int| 0 <= i < names.len() && names[i] == n
}

/// What a row reads back as once written to the table's file: each value
/// written in its text form, then read by its column's type.
pub open spec fn stored_row(row: Seq<Cell>, types: Seq<ColumnType>) -> Seq<Cell> {
    Seq::new(
        row.len(),
        |i: int|
            field_cell(
                cell_text(row[i]),
                if i < types.len() {
                    Some(types[i])
                } else {
                    None
                },
            ),
    )
}

/// A row read back reads back as itself: writing it again changes nothing.
pub proof fn lemma_stored_row_settles(row: Seq<Cell>, types: Seq<ColumnType>)
    ensures
        stored_row(stored_row(row, types), types) == stored_row(row, types),
{
    let s = stored_row(row, types);
    assert forall|i: int| 0 <= i < s.len() implies #[trigger] stored_row(s, types)[i] == s[i] by {
        let t = if i < types.len() {
            Some(types[i])
        } else {
            None
        };
        let x = cell_text(row[i]);
        if let Some(ColumnType::Int) = t {
            if let Some(v) = parse_i64(x) {
                crate::text::lemma_parse_int_text(v);
            }
        }
    }
    assert(stored_row(s, types) =~= s);
}

/// The content `t` once `rows` are written to its file and read back.
pub open spec fn written(t: TableContent, rows: Seq<Seq<Cell>>) -> TableContent {
    TableContent {
        columns: t.columns,
        types: t.types,
        rows: rows.map_values(|row: Seq<Cell>| stored_row(row, t.types)),
    }
}

/// The row that `row` reads back as once written.
pub fn stored_form(row: &[Value], types: &Vec<ColumnType>) -> (r: Row)
    ensures
        r.deep_view() == stored_row(row.deep_view(), types@),
{
    let fields = row_fields(row);
    let r = row_from_fields(&fields, types);
    proof {
        assert(r.deep_view() =~= stored_row(row.deep_view(), types@)) by {
            assert forall|i: int| 0 <= i < r@.len() implies r.deep_view()[i] == stored_row(row.deep_view(), types@)[i] by {
                assert(r.deep_view()[i] == r@[i]@);
                assert(row.deep_view()[i] == row@[i]@);
            }
        }
    }
    r
}

/// The rows that `rows` read back as once written under `types`.
fn stored_rows(rows: &Vec<Row>, types: &Vec<ColumnType>) -> (r: Vec<Row>)
    ensures
        r.deep_view() == rows.deep_view().map_values(|row: Seq<Cell>| stored_row(row, types@)),
{
    let ghost rv = rows.deep_view();
    let mut stored: Vec<Row> = Vec::new();
    let mut i: usize = 0;
    while i < rows.len()
        invariant
            i <= rows@.len(),
            rv == rows.deep_view(),
            stored.deep_view() == rv.take(i as int).map_values(|row: Seq<Cell>| stored_row(row, types@)),
        decreases rows@.len() - i,
    {
        let r = stored_form(rows[i].as_slice(), types);
        let ghost before = stored.deep_view();
        crate::types::push_row(&mut stored, r);
        proof {
            assert(rv[i as int] == rows@[i as int].deep_view());
            assert(rv.take(i + 1).map_values(|row: Seq<Cell>| stored_row(row, types@)) =~= before.push(
                stored_row(rv[i as int], types@),
            ));
        }
        i = i + 1;
    }
    proof {
        assert(rv.take(rows@.len() as int) =~= rv);
    }
    stored
}

/// The content of a new table with the given columns, all text, no rows.
pub open spec fn new_content(columns: Seq<Seq<char>>) -> TableContent {
    TableContent {
        columns,
        types: Seq::new(columns.len(), |i: int| ColumnType::Text),
        rows: Seq::empty(),
    }
}

impl TableStore {
    #[verifier::type_invariant]
    spec fn inv(self) -> bool {
        &&& store_sorted(self.tables@)
        &&& forall|i: int| 0 <= i < self.tables@.len() ==> content_fits(#[trigger] content_of(self.tables@[i]))
    }

    /// An empty directory.
    pub fn new() -> (r: TableStore)
        ensures
            r@ == Map::<Seq<char>, TableContent>::empty(),
    {
        let r = TableStore { tables: Vec::new() };
        assert(r@ =~= Map::<Seq<char>, TableContent>::empty());
        r
    }

    /// The index of the table named `name`.
    fn find(&self, name: &str) -> (r: Option<usize>)
        ensures
            r matches Some(k) ==> k < self.tables@.len() && self.tables@[k as int].name@ == name@,
            r is None <==> !self@.contains_key(name@),
    {
        proof {
            use_type_invariant(self);
        }
        let mut i: usize = 0;
        while i < self.tables.len()
            invariant
                i <= self.tables@.len(),
                forall|j: int| 0 <= j < i ==> self.tables@[j].name@ != name@,
            decreases self.tables@.len() - i,
        {
            if crate::text::str_eq(self.tables[i].name.as_str(), name) {
                proof {
                    assert(has_name(self.tables@, name@, i as int));
                }
                return Some(i);
            }
            i = i + 1;
        }
        proof {
            assert forall|j: int| !has_name(self.tables@, name@, j) by {
                if 0 <= j < self.tables@.len() {
                    assert(self.tables@[j].name@ != name@);
                }
            }
        }
        None
    }

    /// Where a table named `name`, which is not there, goes in the order.
    fn insert_position(&self, name: &str) -> (p: usize)
        requires
            !self@.contains_key(name@),
        ensures
            p <= self.tables@.len(),
            forall|i: int| 0 <= i < p ==> str_lt(#[trigger] self.tables@[i].name@, name@),
            forall|j: int| p <= j < self.tables@.len() ==> str_lt(name@, #[trigger] self.tables@[j].name@),
    {
        proof {
            use_type_invariant(self);
        }
        let nc = chars_of(name);
        let mut p: usize = 0;
        while p < self.tables.len()
            invariant
                p <= self.tables@.len(),
                nc@ == name@,
                store_sorted(self.tables@),
                !map_of(self.tables@).contains_key(name@),
                forall|i: int| 0 <= i < p ==> str_lt(#[trigger] self.tables@[i].name@, name@),
            decreases self.tables@.len() - p,
        {
            let tc = chars_of(self.tables[p].name.as_str());
            if str_less(nc.as_slice(), tc.as_slice()) {
                assert forall|j: int| p <= j < self.tables@.len() implies str_lt(
                    name@,
                    #[trigger] self.tables@[j].name@,
                ) by {
                    if j > p {
                        lemma_str_lt_transitive(name@, self.tables@[p as int].name@, self.tables@[j].name@);
                    }
                }
                return p;
            }
            proof {
                assert(!has_name(self.tables@, name@, p as int));
                lemma_str_lt_total(self.tables@[p as int].name@, name@);
            }
            p = p + 1;
        }
        p
    }

    /// The names of the tables, in increasing order.
    pub fn list_tables(&self) -> (r: Vec<String>)
        ensures
            listing(self@, r.deep_view()),
    {
        proof {
            use_type_invariant(self);
        }
        let mut names: Vec<String> = Vec::new();
        let mut i: usize = 0;
        while i < self.tables.len()
            invariant
                i <= self.tables@.len(),
                names@.len() == i,
                forall|j: int| 0 <= j < i ==> (#[trigger] names@[j])@ == self.tables@[j].name@,
            decreases self.tables@.len() - i,
        {
            names.push(self.tables[i].name.clone());
            i = i + 1;
        }
        proof {
            let nv = names.deep_view();
            assert forall|a: int| 0 <= a < nv.len() implies #[trigger] nv[a] == self.tables@[a].name@ by {
                assert(nv[a] == names@[a]@);
            }
            assert forall|a: int, b: int| 0 <= a < b < nv.len() implies str_lt(#[trigger] nv[a], #[trigger] nv[b]) by {
                assert(nv[a] == self.tables@[a].name@);
                assert(nv[b] == self.tables@[b].name@);
            }
            assert forall|a: int| 0 <= a < nv.len() implies self@.contains_key(#[trigger] nv[a]) by {
                lemma_map_of_at(self.tables@, a);
            }
            assert forall|n: Seq<char>| #[trigger] self@.contains_key(n) implies exists|a: int|
                0 <= a < nv.len() && nv[a] == n by {
                let k = choose|k: int| #[trigger] has_name(self.tables@, n, k);
                assert(nv[k] == n);
            }
        }
        names
    }

    /// The schema, the column names and the rows of table `name`.
    pub fn read_only(&self, name: &str) -> (r: Result<(Schema, Vec<String>, Vec<Row>), Error>)
        ensures
            !valid_table_name(name@) ==> (r matches Err(Error::InvalidInput(m)) && m@
                == invalid_name_msg()),
            valid_table_name(name@) && !self@.contains_key(name@) ==> (r matches Err(
                Error::TableNotFound(n),
            ) && n@ == name@),
            valid_table_name(name@) && self@.contains_key(name@) ==> (r matches Ok(
                (schema, headers, rows),
            ) && schema.columns.deep_view() == self@[name@].columns && schema.types@
                == self@[name@].types && headers.deep_view() == self@[name@].columns
                && rows.deep_view() == self@[name@].rows && content_fits(self@[name@])),
    {
        proof {
            use_type_invariant(self);
        }
        match sanitize(name) {
            Ok(()) => {},
            Err(e) => {
                return Err(e);
            },
        }
        let k = match self.find(name) {
            Some(k) => k,
            None => {
                return Err(Error::TableNotFound(name.to_string()));
            },
        };
        proof {
            lemma_map_of_at(self.tables@, k as int);
        }
        let t = &self.tables[k];
        let mut columns: Vec<String> = Vec::new();
        let mut headers: Vec<String> = Vec::new();
        let mut i: usize = 0;
        while i < t.schema.columns.len()
            invariant
                i <= t.schema.columns@.len(),
                columns@.len() == i,
                headers@.len() == i,
                forall|j: int| 0 <= j < i ==> (#[trigger] columns@[j])@ == t.schema.columns@[j]@,
                forall|j: int| 0 <= j < i ==> (#[trigger] headers@[j])@ == t.schema.columns@[j]@,
            decreases t.schema.columns@.len() - i,
        {
            columns.push(t.schema.columns[i].clone());
            headers.push(t.schema.columns[i].clone());
            i = i + 1;
        }
        let mut types: Vec<ColumnType> = Vec::new();
        let mut i: usize = 0;
        while i < t.schema.types.len()
            invariant
                i <= t.schema.types@.len(),
                types@ == t.schema.types@.take(i as int),
            decreases t.schema.types@.len() - i,
        {
            types.push(t.schema.types[i]);
            assert(t.schema.types@.take(i + 1) =~= t.schema.types@.take(i as int).push(t.schema.types@[i as int]));
            i = i + 1;
        }
        assert(t.schema.types@.take(t.schema.types@.len() as int) =~= t.schema.types@);
        let mut rows: Vec<Row> = Vec::new();
        let mut i: usize = 0;
        while i < t.rows.len()
            invariant
                i <= t.rows@.len(),
                rows.deep_view() == t.rows.deep_view().take(i as int),
            decreases t.rows@.len() - i,
        {
            let copy = copy_row(t.rows[i].as_slice());
            let ghost before = rows.deep_view();
            rows.push(copy);
            proof {
                assert(t.rows.deep_view()[i as int] == t.rows@[i as int].deep_view());
                assert(rows.deep_view() =~= before.push(copy.deep_view()));
                assert(t.rows.deep_view().take(i + 1) =~= t.rows.deep_view().take(i as int).push(
                    t.rows.deep_view()[i as int],
                ));
            }
            i = i + 1;
        }
        proof {
            assert(t.rows.deep_view().take(t.rows@.len() as int) =~= t.rows.deep_view());
            assert(columns.deep_view() =~= t.schema.columns.deep_view());
            assert(headers.deep_view() =~= t.schema.columns.deep_view());
        }
        Ok((Schema { columns, types }, headers, rows))
    }

    /// Adds an empty table `name` with the given columns, all of type text.
    pub fn create_table(&mut self, name: &str, columns: Vec<String>) -> (r: Result<(), Error>)
        ensures
            !valid_table_name(name@) ==> (r matches Err(Error::InvalidInput(m)) && m@
                == invalid_name_msg()),
            valid_table_name(name@) && old(self)@.contains_key(name@) ==> (r matches Err(
                Error::TableExists(n),
            ) && n@ == name@),
            r is Ok <==> valid_table_name(name@) && !old(self)@.contains_key(name@),
            r is Ok ==> final(self)@ == old(self)@.insert(name@, new_content(columns.deep_view())),
            r is Err ==> final(self)@ == old(self)@,
    {
        proof {
            use_type_invariant(&*self);
        }
        match sanitize(name) {
            Ok(()) => {},
            Err(e) => {
                return Err(e);
            },
        }
        if self.find(name).is_some() {
            return Err(Error::TableExists(name.to_string()));
        }
        let ghost cols = columns.deep_view();
        let p = self.insert_position(name);
        let schema = Schema::new(columns);
        let t = StoredTable { name: name.to_string(), schema, rows: Vec::new() };
        let ghost tv = t;
        proof {
            assert(content_of(tv) == new_content(cols)) by {
                assert(tv.schema.types@ =~= Seq::new(cols.len(), |i: int| ColumnType::Text));
                assert(tv.rows.deep_view() =~= Seq::<Seq<Cell>>::empty());
            }
        }
        let mut tables: Vec<StoredTable> = Vec::new();
        std::mem::swap(&mut tables, &mut self.tables);
        tables.insert(p, t);
        proof {
            let old_ts = old(self).tables@;
            assert(tables@ == old_ts.insert(p as int, tv));
            assert forall|i: int, j: int| 0 <= i < j < tables@.len() implies str_lt(
                #[trigger] tables@[i].name@,
                #[trigger] tables@[j].name@,
            ) by {
                if j < p {
                } else if j == p {
                } else if i < p {
                    lemma_str_lt_transitive(old_ts[i].name@, name@, old_ts[j - 1].name@);
                } else if i == p {
                } else {
                }
            }
            lemma_map_of_insert(old_ts, p as int, tv);
            assert forall|i: int| 0 <= i < tables@.len() implies content_fits(#[trigger] content_of(tables@[i])) by {
                if i < p {
                    assert(tables@[i] == old_ts[i]);
                } else if i > p {
                    assert(tables@[i] == old_ts[i - 1]);
                }
            }
        }
        self.tables = tables;
        Ok(())
    }

    /// Removes table `name` if it is there.
    pub fn drop_table(&mut self, name: &str) -> (r: Result<(), Error>)
        ensures
            !valid_table_name(name@) ==> (r matches Err(Error::InvalidInput(m)) && m@
                == invalid_name_msg()),
            r is Ok <==> valid_table_name(name@),
            r is Ok ==> final(self)@ == old(self)@.remove(name@),
            r is Err ==> final(self)@ == old(self)@,
    {
        proof {
            use_type_invariant(&*self);
        }
        match sanitize(name) {
            Ok(()) => {},
            Err(e) => {
                return Err(e);
            },
        }
        match self.find(name) {
            None => {
                assert(old(self)@.remove(name@) =~= old(self)@);
                Ok(())
            },
            Some(k) => {
                let mut tables: Vec<StoredTable> = Vec::new();
                std::mem::swap(&mut tables, &mut self.tables);
                let _gone = tables.remove(k);
                proof {
                    lemma_map_of_remove(old(self).tables@, k as int);
                    assert forall|i: int| 0 <= i < tables@.len() implies content_fits(#[trigger] content_of(tables@[i])) by {
                        if i < k {
                            assert(tables@[i] == old(self).tables@[i]);
                        } else {
                            assert(tables@[i] == old(self).tables@[i + 1]);
                        }
                    }
                }
                self.tables = tables;
                Ok(())
            },
        }
    }

    /// Replaces the rows of table `name` with `rows`, as they read back
    /// once written.
    pub fn put_rows(&mut self, name: &str, rows: Vec<Row>)
        requires
            old(self)@.contains_key(name@),
            forall|i: int| 0 <= i < rows@.len() ==> (#[trigger] rows@[i])@.len() == old(self)@[name@].columns.len(),
        ensures
            final(self)@ == old(self)@.insert(name@, written(old(self)@[name@], rows.deep_view())),
    {
        proof {
            use_type_invariant(&*self);
        }
        let k = match self.find(name) {
            Some(k) => k,
            None => {
                return;
            },
        };
        proof {
            lemma_map_of_at(self.tables@, k as int);
        }
        let mut tables: Vec<StoredTable> = Vec::new();
        std::mem::swap(&mut tables, &mut self.tables);
        let old_t = tables.remove(k);
        let ghost types = old_t.schema.types@;
        let ghost rv = rows.deep_view();
        let stored = stored_rows(&rows, &old_t.schema.types);
        let t = StoredTable { name: old_t.name, schema: old_t.schema, rows: stored };
        let ghost tv = t;
        tables.insert(k, t);
        proof {
            let old_ts = old(self).tables@;
            assert(tables@ =~= old_ts.update(k as int, tv));
            lemma_map_of_update(old_ts, k as int, tv);
            assert(content_of(tv) == written(old(self)@[name@], rows.deep_view()));
            assert forall|i: int| 0 <= i < tables@.len() implies content_fits(#[trigger] content_of(tables@[i])) by {
                if i != k {
                    assert(tables@[i] == old_ts[i]);
                } else {
                    assert forall|j: int| 0 <= j < tv.rows.deep_view().len() implies (#[trigger] tv.rows.deep_view()[j]).len() == tv.schema.columns.deep_view().len() by {
                        assert(tv.rows.deep_view()[j] == stored_row(rv[j], types));
                        assert(rv[j] == rows@[j].deep_view());
                    }
                    assert forall|j: int| 0 <= j < tv.rows.deep_view().len() implies stored_row(#[trigger] tv.rows.deep_view()[j], types) == tv.rows.deep_view()[j] by {
                        lemma_stored_row_settles(rv[j], types);
                    }
                }
            }
        }
        self.tables = tables;
    }

    /// Adds a table read from the directory: `name` must name a table not
    /// yet there, and every row must have one cell per column. The rows are
    /// kept as they read back from the table's file.
    pub fn load_table(&mut self, name: String, schema: Schema, rows: Vec<Row>) -> (r: Result<(), Error>)
        ensures
            r is Ok <==> valid_table_name(name@) && !old(self)@.contains_key(name@) && forall|i: int|
                0 <= i < rows@.len() ==> (#[trigger] rows@[i])@.len() == schema.columns@.len(),
            r is Ok ==> final(self)@ == old(self)@.insert(
                name@,
                TableContent {
                    columns: schema.columns.deep_view(),
                    types: schema.types@,
                    rows: rows.deep_view().map_values(|row: Seq<Cell>| stored_row(row, schema.types@)),
                },
            ),
            r is Err ==> final(self)@ == old(self)@,
    {
        proof {
            use_type_invariant(&*self);
        }
        match sanitize(name.as_str()) {
            Ok(()) => {},
            Err(e) => {
                return Err(e);
            },
        }
        if self.find(name.as_str()).is_some() {
            return Err(Error::TableExists(name));
        }
        let mut i: usize = 0;
        while i < rows.len()
            invariant
                i <= rows@.len(),
                forall|j: int| 0 <= j < i ==> (#[trigger] rows@[j])@.len() == schema.columns@.len(),
            decreases rows@.len() - i,
        {
            if rows[i].len() != schema.columns.len() {
                return Err(Error::InvalidInput("Row width does not match the columns".to_string()));
            }
            i = i + 1;
        }
        let p = self.insert_position(name.as_str());
        let ghost nm = name@;
        let ghost rv = rows.deep_view();
        let ghost types = schema.types@;
        let stored = stored_rows(&rows, &schema.types);
        let t = StoredTable { name, schema, rows: stored };
        let ghost tv = t;
        let mut tables: Vec<StoredTable> = Vec::new();
        std::mem::swap(&mut tables, &mut self.tables);
        tables.insert(p, t);
        proof {
            let old_ts = old(self).tables@;
            assert(tables@ == old_ts.insert(p as int, tv));
            assert forall|i: int, j: int| 0 <= i < j < tables@.len() implies str_lt(
                #[trigger] tables@[i].name@,
                #[trigger] tables@[j].name@,
            ) by {
                if j < p {
                } else if j == p {
                } else if i < p {
                    lemma_str_lt_transitive(old_ts[i].name@, nm, old_ts[j - 1].name@);
                } else if i == p {
                } else {
                }
            }
            lemma_map_of_insert(old_ts, p as int, tv);
            assert forall|i: int| 0 <= i < tables@.len() implies content_fits(#[trigger] content_of(tables@[i])) by {
                if i < p {
                    assert(tables@[i] == old_ts[i]);
                } else if i > p {
                    assert(tables@[i] == old_ts[i - 1]);
                } else {
                    assert forall|j: int| 0 <= j < tv.rows.deep_view().len() implies (#[trigger] tv.rows.deep_view()[j]).len() == tv.schema.columns.deep_view().len() by {
                        assert(tv.rows.deep_view()[j] == stored_row(rv[j], types));
                        assert(rv[j] == rows@[j].deep_view());
                    }
                    assert forall|j: int| 0 <= j < tv.rows.deep_view().len() implies stored_row(#[trigger] tv.rows.deep_view()[j], types) == tv.rows.deep_view()[j] by {
                        lemma_stored_row_settles(rv[j], types);
                    }
                }
            }
        }
        self.tables = tables;
        Ok(())
    }
}

} // verus!
