//! Writing a table out as CSV, PSV, JSON, HTML, Markdown or an SQL dump,
//! optionally encrypted.
use vstd::prelude::*;
use crate::crypto::{age_plaintext, decrypt_answer, encrypt, law_decrypt_answers_plaintext, sealed, utf8_string};
use crate::error::Error;
use crate::table::{ColumnDef, ColumnType, TableData};
use crate::text::{chars_of, decimal, extend_chars, extend_str, i64_chars, join, string_of};
use crate::types::{cell_text, Cell, Value};
use vstd::utf8::{decode_utf8, encode_utf8, valid_utf8};

verus! {

/// The formats a table can be written in.
#[derive(Debug, Clone, Copy, PartialEq, Eq, Structural)]
pub enum ExportFormat {
    Csv,
    Psv,
    Json,
    Html,
    Markdown,
    SqliteDump,
}

// ---------------------------------------------------------------------------
// Text building blocks
// ---------------------------------------------------------------------------

/// The parts one after the other.
pub open spec fn cat(parts: Seq<Seq<char>>) -> Seq<char>
    decreases parts.len(),
{
    if parts.len() == 0 {
        Seq::empty()
    } else {
        cat(parts.drop_last()) + parts.last()
    }
}

/// The HTML entity for `c`, or `c` itself.
pub open spec fn html_char(c: char) -> Seq<char> {
    if c == '&' {
        "&amp;"@
    } else if c == '<' {
        "&lt;"@
    } else if c == '>' {
        "&gt;"@
    } else if c == '"' {
        "&quot;"@
    } else if c == '\'' {
        "&#39;"@
    } else {
        seq![c]
    }
}

/// `s` with `& < > " '` written as HTML entities.
pub open spec fn html_escaped(s: Seq<char>) -> Seq<char>
    decreases s.len(),
{
    if s.len() == 0 {
        Seq::empty()
    } else {
        html_escaped(s.drop_last()) + html_char(s.last())
    }
}

/// Writes `s` with `& < > " '` as HTML entities.
pub fn escape_html(s: &str) -> (r: String)
    ensures
        r@ == html_escaped(s@),
{
    let cs = chars_of(s);
    let mut out: Vec<char> = Vec::new();
    let mut i: usize = 0;
    while i < cs.len()
        invariant
            i <= cs@.len(),
            cs@ == s@,
            out@ == html_escaped(s@.take(i as int)),
        decreases cs@.len() - i,
    {
        let c = cs[i];
        if c == '&' {
            extend_str(&mut out, "&amp;");
        } else if c == '<' {
            extend_str(&mut out, "&lt;");
        } else if c == '>' {
            extend_str(&mut out, "&gt;");
        } else if c == '"' {
            extend_str(&mut out, "&quot;");
        } else if c == '\'' {
            extend_str(&mut out, "&#39;");
        } else {
            out.push(c);
        }
        proof {
            assert(s@.take(i + 1).drop_last() =~= s@.take(i as int));
            assert(s@.take(i + 1).last() == c);
        }
        i = i + 1;
    }
    proof {
        assert(s@.take(cs@.len() as int) =~= s@);
    }
    string_of(out.as_slice())
}

/// `s` with each single quote doubled.
pub open spec fn quotes_doubled(s: Seq<char>) -> Seq<char>
    decreases s.len(),
{
    if s.len() == 0 {
        Seq::empty()
    } else {
        quotes_doubled(s.drop_last()) + if s.last() == '\'' {
            seq!['\'', '\'']
        } else {
            seq![s.last()]
        }
    }
}

fn push_quotes_doubled(out: &mut Vec<char>, s: &str)
    ensures
        final(out)@ == old(out)@ + quotes_doubled(s@),
{
    let cs = chars_of(s);
    let ghost start = out@;
    let mut i: usize = 0;
    while i < cs.len()
        invariant
            i <= cs@.len(),
            cs@ == s@,
            out@ == start + quotes_doubled(s@.take(i as int)),
        decreases cs@.len() - i,
    {
        let c = cs[i];
        out.push(c);
        if c == '\'' {
            out.push('\'');
        }
        proof {
            assert(s@.take(i + 1).drop_last() =~= s@.take(i as int));
            assert(s@.take(i + 1).last() == c);
        }
        i = i + 1;
    }
    proof {
        assert(s@.take(cs@.len() as int) =~= s@);
    }
}

/// `s` with each non-overlapping occurrence of `pat`, read from the left,
/// replaced by `with`.
pub open spec fn replaced(s: Seq<char>, pat: Seq<char>, with: Seq<char>) -> Seq<char>
    decreases s.len(),
{
    if s.len() == 0 {
        s
    } else if 0 < pat.len() <= s.len() && s.take(pat.len() as int) == pat {
        with + replaced(s.skip(pat.len() as int), pat, with)
    } else {
        seq![s[0]] + replaced(s.skip(1), pat, with)
    }
}

/// Whether `pat` occurs in `s` at index `i`.
fn occurs_at(s: &Vec<char>, i: usize, pat: &Vec<char>) -> (r: bool)
    requires
        i <= s@.len(),
    ensures
        r == (pat@.len() <= s@.len() - i && s@.skip(i as int).take(pat@.len() as int) == pat@),
{
    if pat.len() > s.len() - i {
        return false;
    }
    let mut k: usize = 0;
    while k < pat.len()
        invariant
            i <= s@.len(),
            k <= pat@.len() <= s@.len() - i,
            forall|j: int| 0 <= j < k ==> s@[i + j] == pat@[j],
        decreases pat@.len() - k,
    {
        assert(i + k < s.len());
        if s[i + k] != pat[k] {
            proof {
                assert(s@.skip(i as int).take(pat@.len() as int)[k as int] != pat@[k as int]);
            }
            return false;
        }
        k = k + 1;
    }
    proof {
        assert(s@.skip(i as int).take(pat@.len() as int) =~= pat@);
    }
    true
}

/// `s` with every occurrence of the non-empty `pat` replaced by `with`
/// (`str::replace`).
pub fn replace_all(s: &str, pat: &str, with: &str) -> (r: String)
    requires
        pat@.len() > 0,
    ensures
        r@ == replaced(s@, pat@, with@),
{
    let cs = chars_of(s);
    let pc = chars_of(pat);
    let mut out: Vec<char> = Vec::new();
    let mut i: usize = 0;
    proof {
        assert(s@.skip(0) =~= s@);
    }
    while i < cs.len()
        invariant
            i <= cs@.len(),
            cs@ == s@,
            pc@ == pat@,
            pat@.len() > 0,
            replaced(s@, pat@, with@) == out@ + replaced(s@.skip(i as int), pat@, with@),
        decreases cs@.len() - i,
    {
        let ghost rest = s@.skip(i as int);
        if occurs_at(&cs, i, &pc) {
            extend_str(&mut out, with);
            proof {
                assert(rest.skip(pat@.len() as int) =~= s@.skip(i + pat@.len()));
                assert(out@ + replaced(s@.skip(i + pat@.len()), pat@, with@) =~= (out@.subrange(0, out@.len() - with@.len()) + (with@ + replaced(rest.skip(pat@.len() as int), pat@, with@))));
            }
            i = i + pc.len();
        } else {
            out.push(cs[i]);
            proof {
                assert(rest.skip(1) =~= s@.skip(i + 1));
                assert(rest[0] == s@[i as int]);
                assert(out@ + replaced(s@.skip(i + 1), pat@, with@) =~= (out@.drop_last() + (seq![rest[0]] + replaced(rest.skip(1), pat@, with@))));
            }
            i = i + 1;
        }
    }
    proof {
        assert(s@.skip(cs@.len() as int) =~= Seq::<char>::empty());
        assert(out@ + Seq::<char>::empty() =~= out@);
    }
    string_of(out.as_slice())
}

/// The names of the columns.
pub open spec fn column_names(cols: Seq<ColumnDef>) -> Seq<Seq<char>> {
    cols.map_values(|c: ColumnDef| c.name@)
}

/// The text forms of the cells of a row.
pub open spec fn texts_of(row: Seq<Cell>) -> Seq<Seq<char>> {
    row.map_values(|c: Cell| cell_text(c))
}

/// The bytes of a text.
fn text_bytes(out: &Vec<char>) -> (r: Vec<u8>)
    ensures
        r@ == encode_utf8(out@),
{
    let s = string_of(out.as_slice());
    vstd::slice::slice_to_vec(s.as_str().as_bytes())
}

fn column_name_list(table: &TableData) -> (r: Vec<String>)
    ensures
        r.deep_view() == column_names(table.schema.columns@),
{
    let mut names: Vec<String> = Vec::new();
    let mut i: usize = 0;
    while i < table.schema.columns.len()
        invariant
            i <= table.schema.columns@.len(),
            names.deep_view() == column_names(table.schema.columns@).take(i as int),
        decreases table.schema.columns@.len() - i,
    {
        let ghost before = names.deep_view();
        crate::text::push_string(&mut names, table.schema.columns[i].name.clone());
        proof {
            assert(column_names(table.schema.columns@).take(i + 1) =~= before.push(table.schema.columns@[i as int].name@));
        }
        i = i + 1;
    }
    proof {
        assert(column_names(table.schema.columns@).take(table.schema.columns@.len() as int) =~= column_names(table.schema.columns@));
    }
    names
}

// ---------------------------------------------------------------------------
// Delimited and Markdown text
// ---------------------------------------------------------------------------

/// A line per row after the header line, fields separated by `|`.
pub open spec fn psv_lines(rows: Seq<Seq<Cell>>) -> Seq<char>
    decreases rows.len(),
{
    if rows.len() == 0 {
        Seq::empty()
    } else {
        psv_lines(rows.drop_last()) + join(texts_of(rows.last()), "|"@) + "\n"@
    }
}

/// The table as pipe-separated text: the column names, then the rows.
pub open spec fn psv_text(t: TableData) -> Seq<char> {
    join(column_names(t.schema.columns@), "|"@) + "\n"@ + psv_lines(t.rows.deep_view())
}

/// Writes the table as pipe-separated text.
pub fn to_psv(table: &TableData) -> (r: Result<Vec<u8>, Error>)
    ensures
        r matches Ok(b) && b@ == encode_utf8(psv_text(*table)),
{
    let names = column_name_list(table);
    let header = crate::text::join_strings(&names, "|");
    let mut out: Vec<char> = Vec::new();
    extend_str(&mut out, header.as_str());
    out.push('\n');
    proof {
        reveal_strlit("\n");
        assert(out@ =~= join(column_names(table.schema.columns@), "|"@) + "\n"@);
    }
    let ghost head = out@;
    let ghost rv = table.rows.deep_view();
    let mut k: usize = 0;
    while k < table.rows.len()
        invariant
            k <= table.rows@.len(),
            rv == table.rows.deep_view(),
            out@ == head + psv_lines(rv.take(k as int)),
        decreases table.rows@.len() - k,
    {
        let fields = crate::storage::row_fields(table.rows[k].as_slice());
        let line = crate::text::join_strings(&fields, "|");
        extend_str(&mut out, line.as_str());
        out.push('\n');
        proof {
            assert(rv.take(k + 1).drop_last() =~= rv.take(k as int));
            assert(rv[k as int] == table.rows@[k as int].deep_view());
            assert(fields.deep_view() =~= texts_of(rv[k as int]));
            reveal_strlit("\n");
        }
        k = k + 1;
    }
    proof {
        assert(rv.take(table.rows@.len() as int) =~= rv);
    }
    proof {
        assert(out@ == psv_text(*table));
    }
    Ok(text_bytes(&out))
}

/// A Markdown line per row.
pub open spec fn markdown_lines(rows: Seq<Seq<Cell>>) -> Seq<char>
    decreases rows.len(),
{
    if rows.len() == 0 {
        Seq::empty()
    } else {
        markdown_lines(rows.drop_last()) + "| "@ + join(texts_of(rows.last()), " | "@) + " |\n"@
    }
}

/// `n` header separator cells.
pub open spec fn rule_cells(n: nat) -> Seq<char>
    decreases n,
{
    if n == 0 {
        Seq::empty()
    } else {
        rule_cells((n - 1) as nat) + " --- |"@
    }
}

/// The table as a Markdown table.
pub open spec fn markdown_text(t: TableData) -> Seq<char> {
    let names = column_names(t.schema.columns@);
    "| "@ + join(names, " | "@) + " |\n|"@ + rule_cells(names.len()) + "\n"@ + markdown_lines(t.rows.deep_view())
}

/// Writes the table as a Markdown table.
pub fn to_markdown(table: &TableData) -> (r: Result<Vec<u8>, Error>)
    ensures
        r matches Ok(b) && b@ == encode_utf8(markdown_text(*table)),
{
    let names = column_name_list(table);
    let mut out: Vec<char> = Vec::new();
    extend_str(&mut out, "| ");
    let header = crate::text::join_strings(&names, " | ");
    extend_str(&mut out, header.as_str());
    extend_str(&mut out, " |\n|");
    let ghost before_rule = out@;
    let mut i: usize = 0;
    while i < names.len()
        invariant
            i <= names@.len(),
            out@ == before_rule + rule_cells(i as nat),
        decreases names@.len() - i,
    {
        extend_str(&mut out, " --- |");
        i = i + 1;
    }
    out.push('\n');
    proof {
        reveal_strlit("\n");
        assert(names.deep_view().len() == names@.len());
        assert(out@ =~= "| "@ + join(column_names(table.schema.columns@), " | "@) + " |\n|"@ + rule_cells(
            column_names(table.schema.columns@).len(),
        ) + "\n"@);
    }
    let ghost head = out@;
    let ghost rv = table.rows.deep_view();
    let mut k: usize = 0;
    while k < table.rows.len()
        invariant
            k <= table.rows@.len(),
            rv == table.rows.deep_view(),
            out@ == head + markdown_lines(rv.take(k as int)),
        decreases table.rows@.len() - k,
    {
        let fields = crate::storage::row_fields(table.rows[k].as_slice());
        extend_str(&mut out, "| ");
        let line = crate::text::join_strings(&fields, " | ");
        extend_str(&mut out, line.as_str());
        extend_str(&mut out, " |\n");
        proof {
            assert(rv.take(k + 1).drop_last() =~= rv.take(k as int));
            assert(rv[k as int] == table.rows@[k as int].deep_view());
            assert(fields.deep_view() =~= texts_of(rv[k as int]));
        }
        k = k + 1;
    }
    proof {
        assert(rv.take(table.rows@.len() as int) =~= rv);
    }
    Ok(text_bytes(&out))
}


// ---------------------------------------------------------------------------
// SQL dump
// ---------------------------------------------------------------------------

/// The SQL type a column type is dumped as.
pub open spec fn sql_type(t: ColumnType) -> Seq<char> {
    match t {
        ColumnType::Int => "INTEGER"@,
        ColumnType::Text => "TEXT"@,
        ColumnType::Bool => "INTEGER"@,
        ColumnType::Float => "REAL"@,
    }
}

fn sql_type_name(t: ColumnType) -> (r: &'static str)
    ensures
        r@ == sql_type(t),
{
    match t {
        ColumnType::Int => "INTEGER",
        ColumnType::Text => "TEXT",
        ColumnType::Bool => "INTEGER",
        ColumnType::Float => "REAL",
    }
}

/// A column definition of the dump: the quoted name and the SQL type.
pub open spec fn column_sql(c: ColumnDef) -> Seq<char> {
    "\""@ + c.name@ + "\" "@ + sql_type(c.col_type)
}

/// A value as an SQL literal.
pub open spec fn sql_literal(v: Cell) -> Seq<char> {
    match v {
        Cell::Null => "NULL"@,
        Cell::Int(i) => crate::text::int_text(i as int),
        Cell::Bool(b) => if b {
            "1"@
        } else {
            "0"@
        },
        Cell::Text(s) => "'"@ + quotes_doubled(s) + "'"@,
    }
}

/// In the SQL dump a boolean is written as the integer literal of 1 for
/// true and 0 for false: the literal of `Bool(b)` is that of the integer,
/// and read back as an integer it gives 1 exactly when `b` holds.
pub proof fn law_sql_bool_literal(b: bool)
    ensures
        sql_literal(Cell::Bool(b)) == sql_literal(Cell::Int(if b { 1 } else { 0 })),
        crate::text::parse_i64(sql_literal(Cell::Bool(b))) == Some(if b { 1i64 } else { 0i64 }),
{
    reveal_strlit("1");
    reveal_strlit("0");
    assert(crate::text::int_text(1) =~= "1"@);
    assert(crate::text::int_text(0) =~= "0"@);
    crate::text::lemma_parse_int_text(1);
    crate::text::lemma_parse_int_text(0);
}

/// In the SQL dump an integer is written so that reading the literal back
/// as an integer gives the same integer.
pub proof fn law_sql_int_literal(i: i64)
    ensures
        crate::text::parse_i64(sql_literal(Cell::Int(i))) == Some(i),
{
    crate::text::lemma_parse_int_text(i);
}

fn push_sql_literal(out: &mut Vec<char>, v: &Value)
    ensures
        final(out)@ == old(out)@ + sql_literal(v@),
{
    match v {
        Value::Null => extend_str(out, "NULL"),
        Value::Int(i) => {
            let d = i64_chars(*i);
            extend_chars(out, d.as_slice());
        },
        Value::Bool(b) => {
            if *b {
                extend_str(out, "1");
            } else {
                extend_str(out, "0");
            }
        },
        Value::Text(s) => {
            let ghost start = out@;
            extend_str(out, "'");
            push_quotes_doubled(out, s.as_str());
            extend_str(out, "'");
            proof {
                assert(out@ =~= start + ("'"@ + quotes_doubled(s@) + "'"@));
            }
        },
    }
}

/// The INSERT statements of the dump, one per row.
pub open spec fn insert_statements(name: Seq<char>, rows: Seq<Seq<Cell>>) -> Seq<char>
    decreases rows.len(),
{
    if rows.len() == 0 {
        Seq::empty()
    } else {
        insert_statements(name, rows.drop_last()) + "INSERT INTO \""@ + name + "\" VALUES ("@ + join(
            rows.last().map_values(|v: Cell| sql_literal(v)),
            ", "@,
        ) + ");\n"@
    }
}

/// The table as SQL: a CREATE TABLE statement, then one INSERT per row.
pub open spec fn sqlite_text(t: TableData) -> Seq<char> {
    let name = t.schema.name@;
    "CREATE TABLE \""@ + name + "\" ("@ + join(t.schema.columns@.map_values(|c: ColumnDef| column_sql(c)), ", "@)
        + ");\n"@ + insert_statements(name, t.rows.deep_view())
}

/// Appends `parts` built by `part`, `sep` between neighbours.
fn push_joined_literals(out: &mut Vec<char>, row: &[Value])
    ensures
        final(out)@ == old(out)@ + join(row.deep_view().map_values(|v: Cell| sql_literal(v)), ", "@),
{
    let ghost start = out@;
    let ghost parts = row.deep_view().map_values(|v: Cell| sql_literal(v));
    let mut i: usize = 0;
    while i < row.len()
        invariant
            i <= row@.len(),
            parts == row.deep_view().map_values(|v: Cell| sql_literal(v)),
            out@ == start + join(parts.take(i as int), ", "@),
        decreases row@.len() - i,
    {
        if i > 0 {
            extend_str(out, ", ");
        }
        push_sql_literal(out, &row[i]);
        proof {
            assert(parts.take(i + 1).drop_last() =~= parts.take(i as int));
            assert(row.deep_view()[i as int] == row@[i as int]@);
            assert(parts.take(i + 1).last() == sql_literal(row@[i as int]@));
            if i == 0 {
                assert(join(parts.take(1), ", "@) == parts.take(1)[0]);
            }
        }
        i = i + 1;
    }
    proof {
        assert(parts.take(row@.len() as int) =~= parts);
    }
}

/// Writes the table as SQL statements that recreate it.
pub fn to_sqlite_dump(table: &TableData) -> (r: Result<Vec<u8>, Error>)
    ensures
        r matches Ok(b) && b@ == encode_utf8(sqlite_text(*table)),
{
    let mut out: Vec<char> = Vec::new();
    let name = table.schema.name.as_str();
    extend_str(&mut out, "CREATE TABLE \"");
    extend_str(&mut out, name);
    extend_str(&mut out, "\" (");
    let ghost start = out@;
    let ghost defs = table.schema.columns@.map_values(|c: ColumnDef| column_sql(c));
    let mut i: usize = 0;
    while i < table.schema.columns.len()
        invariant
            i <= table.schema.columns@.len(),
            defs == table.schema.columns@.map_values(|c: ColumnDef| column_sql(c)),
            out@ == start + join(defs.take(i as int), ", "@),
        decreases table.schema.columns@.len() - i,
    {
        if i > 0 {
            extend_str(&mut out, ", ");
        }
        let c = &table.schema.columns[i];
        let ghost before = out@;
        extend_str(&mut out, "\"");
        extend_str(&mut out, c.name.as_str());
        extend_str(&mut out, "\" ");
        extend_str(&mut out, sql_type_name(c.col_type));
        proof {
            assert(out@ =~= before + column_sql(*c));
            assert(defs.take(i + 1).drop_last() =~= defs.take(i as int));
            assert(defs.take(i + 1).last() == column_sql(table.schema.columns@[i as int]));
            if i == 0 {
                assert(join(defs.take(1), ", "@) == defs.take(1)[0]);
            }
        }
        i = i + 1;
    }
    proof {
        assert(defs.take(table.schema.columns@.len() as int) =~= defs);
    }
    extend_str(&mut out, ");\n");
    let ghost head = out@;
    let ghost rv = table.rows.deep_view();
    let mut k: usize = 0;
    while k < table.rows.len()
        invariant
            k <= table.rows@.len(),
            rv == table.rows.deep_view(),
            name@ == table.schema.name@,
            out@ == head + insert_statements(table.schema.name@, rv.take(k as int)),
        decreases table.rows@.len() - k,
    {
        let ghost before = out@;
        extend_str(&mut out, "INSERT INTO \"");
        extend_str(&mut out, name);
        extend_str(&mut out, "\" VALUES (");
        push_joined_literals(&mut out, table.rows[k].as_slice());
        extend_str(&mut out, ");\n");
        proof {
            assert(rv.take(k + 1).drop_last() =~= rv.take(k as int));
            assert(rv[k as int] == table.rows@[k as int].deep_view());
        }
        k = k + 1;
    }
    proof {
        assert(rv.take(table.rows@.len() as int) =~= rv);
    }
    Ok(text_bytes(&out))
}

// ---------------------------------------------------------------------------
// HTML
// ---------------------------------------------------------------------------

/// The page that the HTML export fills in: `{{table_name}}` stands for the
/// escaped table name, `{{table_content}}` for the table.
pub const HTML_TEMPLATE: &'static str = "<!DOCTYPE html>\n<html>\n<head>\n<meta charset=\"utf-8\">\n<title>{{table_name}}</title>\n</head>\n<body>\n<h1>{{table_name}}</h1>\n{{table_content}}\n</body>\n</html>\n";

/// A header cell per column.
pub open spec fn header_cells(cols: Seq<ColumnDef>) -> Seq<char>
    decreases cols.len(),
{
    if cols.len() == 0 {
        Seq::empty()
    } else {
        header_cells(cols.drop_last()) + "<th>"@ + html_escaped(cols.last().name@) + "</th>"@
    }
}

/// A data cell per value.
pub open spec fn data_cells(row: Seq<Cell>) -> Seq<char>
    decreases row.len(),
{
    if row.len() == 0 {
        Seq::empty()
    } else {
        data_cells(row.drop_last()) + "<td>"@ + html_escaped(cell_text(row.last())) + "</td>"@
    }
}

/// A table row per row.
pub open spec fn html_rows(rows: Seq<Seq<Cell>>) -> Seq<char>
    decreases rows.len(),
{
    if rows.len() == 0 {
        Seq::empty()
    } else {
        html_rows(rows.drop_last()) + "<tr>"@ + data_cells(rows.last()) + "</tr>\n"@
    }
}

/// The HTML table element.
pub open spec fn html_table(t: TableData) -> Seq<char> {
    "<table>\n<thead>\n<tr>"@ + header_cells(t.schema.columns@) + "</tr>\n</thead>\n<tbody>\n"@ + html_rows(
        t.rows.deep_view(),
    ) + "</tbody>\n</table>"@
}

/// The page: the template with the table's escaped name and the table.
pub open spec fn html_text(t: TableData) -> Seq<char> {
    replaced(
        replaced(HTML_TEMPLATE@, "{{table_name}}"@, html_escaped(t.schema.name@)),
        "{{table_content}}"@,
        html_table(t),
    )
}

fn push_data_cells(out: &mut Vec<char>, row: &[Value])
    ensures
        final(out)@ == old(out)@ + data_cells(row.deep_view()),
{
    let ghost start = out@;
    let mut i: usize = 0;
    while i < row.len()
        invariant
            i <= row@.len(),
            out@ == start + data_cells(row.deep_view().take(i as int)),
        decreases row@.len() - i,
    {
        extend_str(out, "<td>");
        let t = string_of(row[i].text_chars().as_slice());
        let e = escape_html(t.as_str());
        extend_str(out, e.as_str());
        extend_str(out, "</td>");
        proof {
            assert(row.deep_view().take(i + 1).drop_last() =~= row.deep_view().take(i as int));
            assert(row.deep_view()[i as int] == row@[i as int]@);
        }
        i = i + 1;
    }
    proof {
        assert(row.deep_view().take(row@.len() as int) =~= row.deep_view());
    }
}

/// Writes the table as an HTML page.
pub fn to_html(table: &TableData) -> (r: Result<Vec<u8>, Error>)
    ensures
        r matches Ok(b) && b@ == encode_utf8(html_text(*table)),
{
    let mut out: Vec<char> = Vec::new();
    extend_str(&mut out, "<table>\n<thead>\n<tr>");
    let ghost start = out@;
    let mut i: usize = 0;
    while i < table.schema.columns.len()
        invariant
            i <= table.schema.columns@.len(),
            out@ == start + header_cells(table.schema.columns@.take(i as int)),
        decreases table.schema.columns@.len() - i,
    {
        extend_str(&mut out, "<th>");
        let e = escape_html(table.schema.columns[i].name.as_str());
        extend_str(&mut out, e.as_str());
        extend_str(&mut out, "</th>");
        proof {
            assert(table.schema.columns@.take(i + 1).drop_last() =~= table.schema.columns@.take(i as int));
        }
        i = i + 1;
    }
    proof {
        assert(table.schema.columns@.take(table.schema.columns@.len() as int) =~= table.schema.columns@);
    }
    extend_str(&mut out, "</tr>\n</thead>\n<tbody>\n");
    let ghost mid = out@;
    let ghost rv = table.rows.deep_view();
    let mut k: usize = 0;
    while k < table.rows.len()
        invariant
            k <= table.rows@.len(),
            rv == table.rows.deep_view(),
            out@ == mid + html_rows(rv.take(k as int)),
        decreases table.rows@.len() - k,
    {
        extend_str(&mut out, "<tr>");
        push_data_cells(&mut out, table.rows[k].as_slice());
        extend_str(&mut out, "</tr>\n");
        proof {
            assert(rv.take(k + 1).drop_last() =~= rv.take(k as int));
            assert(rv[k as int] == table.rows@[k as int].deep_view());
        }
        k = k + 1;
    }
    proof {
        assert(rv.take(table.rows@.len() as int) =~= rv);
    }
    extend_str(&mut out, "</tbody>\n</table>");
    let table_html = string_of(out.as_slice());
    let name = escape_html(table.schema.name.as_str());
    proof {
        reveal_strlit("{{table_name}}");
        reveal_strlit("{{table_content}}");
    }
    let page = replace_all(HTML_TEMPLATE, "{{table_name}}", name.as_str());
    let full = replace_all(page.as_str(), "{{table_content}}", table_html.as_str());
    Ok(vstd::slice::slice_to_vec(full.as_str().as_bytes()))
}

// ---------------------------------------------------------------------------
// CSV and JSON
// ---------------------------------------------------------------------------

/// The bytes that `csv::Writer` writes for these records with its default
/// settings (comma separated, quoting fields that need it, `\n` endings).
pub uninterp spec fn csv_encoding(records: Seq<Seq<Seq<char>>>) -> Seq<u8>;

/// `csv::Writer::from_writer` over a `Vec`, `write_record` for each record,
/// `into_inner`: on success the bytes are those named by `csv_encoding`.
/// The writer refuses a record whose number of fields differs from the
/// first record's (it is not flexible); writing into memory fails in no
/// other way. A failure is reported by its message.
#[verifier::external_body]
fn csv_write(records: &Vec<Vec<String>>) -> (r: Result<Vec<u8>, String>)
    ensures
        r matches Ok(b) ==> b@ == csv_encoding(records.deep_view()),
        (forall|i: int| 0 <= i < records@.len() ==> (#[trigger] records@[i])@.len() == records@[0]@.len())
            ==> r is Ok,
{
    let mut wtr = csv::Writer::from_writer(Vec::new());
    for rec in records.iter() {
        if let Err(e) = wtr.write_record(rec) {
            return Err(e.to_string());
        }
    }
    wtr.into_inner().map_err(|e| e.to_string())
}

/// The records of the CSV form: the column names, then each row's text.
pub open spec fn csv_records(t: TableData) -> Seq<Seq<Seq<char>>> {
    seq![column_names(t.schema.columns@)] + t.rows.deep_view().map_values(|row: Seq<Cell>| texts_of(row))
}

/// Writes the table as CSV.
pub fn to_csv(table: &TableData) -> (r: Result<Vec<u8>, Error>)
    ensures
        r matches Ok(b) ==> b@ == csv_encoding(csv_records(*table)),
        r matches Err(e) ==> e is Csv,
        table.well_formed() ==> r is Ok,
{
    let mut records: Vec<Vec<String>> = Vec::new();
    let names = column_name_list(table);
    records.push(names);
    let ghost rv = table.rows.deep_view();
    let mut k: usize = 0;
    while k < table.rows.len()
        invariant
            k <= table.rows@.len(),
            rv == table.rows.deep_view(),
            records.deep_view() == seq![column_names(table.schema.columns@)] + rv.take(k as int).map_values(
                |row: Seq<Cell>| texts_of(row),
            ),
        decreases table.rows@.len() - k,
    {
        let fields = crate::storage::row_fields(table.rows[k].as_slice());
        let ghost before = records.deep_view();
        let ghost fv = fields.deep_view();
        records.push(fields);
        proof {
            assert(rv[k as int] == table.rows@[k as int].deep_view());
            assert(fv =~= texts_of(rv[k as int]));
            assert(records.deep_view() =~= before.push(fv));
            assert(rv.take(k + 1).map_values(|row: Seq<Cell>| texts_of(row)) =~= rv.take(k as int).map_values(
                |row: Seq<Cell>| texts_of(row),
            ).push(texts_of(rv[k as int])));
        }
        k = k + 1;
    }
    proof {
        assert(rv.take(table.rows@.len() as int) =~= rv);
        if table.well_formed() {
            let dv = records.deep_view();
            assert forall|i: int| 0 <= i < records@.len() implies (#[trigger] records@[i])@.len() == records@[0]@.len() by {
                assert(dv[i] == records@[i].deep_view());
                assert(dv[0] == records@[0].deep_view());
                assert(dv[0].len() == table.schema.columns@.len());
                if i > 0 {
                    assert(dv[i] == texts_of(rv[i - 1]));
                    assert(rv[i - 1] == table.rows@[i - 1].deep_view());
                    assert(table.rows@[i - 1]@.len() == table.schema.columns@.len());
                }
            }
        }
    }
    match csv_write(&records) {
        Ok(b) => Ok(b),
        Err(m) => Err(Error::Csv(m)),
    }
}

/// The text that `serde_json::to_string_pretty` writes for an array with one
/// object per row, each mapping a column's name to the row's value
/// (integers as numbers, text as strings, booleans, null).
pub uninterp spec fn json_encoding(rows: Seq<Seq<(Seq<char>, Cell)>>) -> Seq<char>;

/// The view of the named values of each row.
pub open spec fn pairs_view(rows: Seq<Vec<(String, Value)>>) -> Seq<Seq<(Seq<char>, Cell)>> {
    rows.map_values(|row: Vec<(String, Value)>| row@.map_values(|p: (String, Value)| (p.0@, p.1@)))
}

/// Builds the `serde_json` array of objects from the named values and
/// writes it with `serde_json::to_string_pretty`: the text is the one named
/// by `json_encoding`. Writing fails only for a value whose serializer
/// fails or for a map with keys that are not strings, neither of which
/// these values hold, so it succeeds.
#[verifier::external_body]
fn json_write(rows: &Vec<Vec<(String, Value)>>) -> (r: Result<String, String>)
    ensures
        r is Ok,
        r matches Ok(s) ==> s@ == json_encoding(pairs_view(rows@)),
{
    let items: Vec<serde_json::Value> = rows.iter().map(|row| {
        serde_json::Value::Object(row.iter().map(|(k, v)| (k.clone(), match v {
            Value::Int(i) => serde_json::Value::Number((*i).into()),
            Value::Text(s) => serde_json::Value::String(s.clone()),
            Value::Bool(b) => serde_json::Value::Bool(*b),
            Value::Null => serde_json::Value::Null,
        })).collect())
    }).collect();
    serde_json::to_string_pretty(&items).map_err(|e| e.to_string())
}

/// Each row's values named by their columns.
pub open spec fn json_rows(t: TableData) -> Seq<Seq<(Seq<char>, Cell)>> {
    t.rows.deep_view().map_values(
        |row: Seq<Cell>| Seq::new(row.len(), |i: int| (t.schema.columns@[i].name@, row[i])),
    )
}

/// Whether no row has more cells than the table has columns (a cell
/// beyond the columns has no name to be written under).
pub open spec fn rows_within_columns(t: TableData) -> bool {
    forall|i: int| 0 <= i < t.rows@.len() ==> (#[trigger] t.rows@[i])@.len() <= t.schema.columns@.len()
}

/// Writes the table as a JSON array with one object per row; a row with
/// fewer cells than columns has members for its cells only.
pub fn to_json(table: &TableData) -> (r: Result<Vec<u8>, Error>)
    requires
        rows_within_columns(*table),
    ensures
        r matches Ok(b) && b@ == encode_utf8(json_encoding(json_rows(*table))),
{
    let mut rows: Vec<Vec<(String, Value)>> = Vec::new();
    let mut k: usize = 0;
    while k < table.rows.len()
        invariant
            k <= table.rows@.len(),
            rows_within_columns(*table),
            pairs_view(rows@) == json_rows(*table).take(k as int),
        decreases table.rows@.len() - k,
    {
        let row = &table.rows[k];
        let mut obj: Vec<(String, Value)> = Vec::new();
        let mut i: usize = 0;
        while i < row.len()
            invariant
                i <= row@.len(),
                k < table.rows@.len(),
                row == table.rows@[k as int],
                row@.len() <= table.schema.columns@.len(),
                obj@.map_values(|p: (String, Value)| (p.0@, p.1@)) == Seq::new(
                    i as nat,
                    |j: int| (table.schema.columns@[j].name@, row@[j]@),
                ),
            decreases row@.len() - i,
        {
            let key = table.schema.columns[i].name.clone();
            let v = row[i].duplicate();
            let ghost before = obj@;
            let ghost kv = key@;
            let ghost vv = v@;
            obj.push((key, v));
            proof {
                assert(obj@.map_values(|p: (String, Value)| (p.0@, p.1@)) =~= before.map_values(
                    |p: (String, Value)| (p.0@, p.1@),
                ).push((kv, vv)));
                assert(obj@.map_values(|p: (String, Value)| (p.0@, p.1@)) =~= Seq::new(
                    (i + 1) as nat,
                    |j: int| (table.schema.columns@[j].name@, row@[j]@),
                ));
            }
            i = i + 1;
        }
        let ghost before = rows@;
        let ghost ov = obj@.map_values(|p: (String, Value)| (p.0@, p.1@));
        rows.push(obj);
        proof {
            let rv = table.rows.deep_view();
            assert(pairs_view(rows@) =~= pairs_view(before).push(ov));
            assert(rv[k as int] == row.deep_view());
            assert(Seq::new(row@.len() as nat, |j: int| (table.schema.columns@[j].name@, row@[j]@)) =~= Seq::new(
                rv[k as int].len(),
                |j: int| (table.schema.columns@[j].name@, rv[k as int][j]),
            ));
            assert(pairs_view(rows@) =~= json_rows(*table).take(k + 1));
        }
        k = k + 1;
    }
    proof {
        assert(json_rows(*table).take(table.rows@.len() as int) =~= json_rows(*table));
    }
    match json_write(&rows) {
        Ok(s) => Ok(vstd::slice::slice_to_vec(s.as_str().as_bytes())),
        Err(m) => Err(Error::Json(m)),
    }
}


// ---------------------------------------------------------------------------
// Export
// ---------------------------------------------------------------------------

/// Whether `b` are the bytes of the table in `format`.
pub open spec fn exported_as(t: TableData, format: ExportFormat, b: Seq<u8>) -> bool {
    match format {
        ExportFormat::Csv => b == csv_encoding(csv_records(t)),
        ExportFormat::Psv => b == encode_utf8(psv_text(t)),
        ExportFormat::Json => b == encode_utf8(json_encoding(json_rows(t))),
        ExportFormat::Html => b == encode_utf8(html_text(t)),
        ExportFormat::Markdown => b == encode_utf8(markdown_text(t)),
        ExportFormat::SqliteDump => b == encode_utf8(sqlite_text(t)),
    }
}

/// Whether writing the table in `format` surely succeeds: every format but
/// CSV always does, and CSV when every row has one cell per column (the
/// CSV writer refuses records of different widths).
pub open spec fn plain_export_succeeds(t: TableData, format: ExportFormat) -> bool {
    !(format is Csv) || t.well_formed()
}

/// Writes the table in `format`; when `encrypt` is set the text is sealed
/// and encrypted with the passphrase, which must then be given.
pub fn export_table(
    table: &TableData,
    format: ExportFormat,
    encrypt: bool,
    passphrase: Option<&str>,
) -> (r: Result<Vec<u8>, Error>)
    requires
        format is Json ==> rows_within_columns(*table),
    ensures
        r matches Err(Error::Csv(_)) ==> format is Csv && !table.well_formed(),
        !encrypt ==> (r matches Ok(b) ==> exported_as(*table, format, b@)),
        !encrypt ==> (r is Err ==> r matches Err(Error::Csv(_))),
        !encrypt && plain_export_succeeds(*table, format) ==> r is Ok,
        encrypt ==> (r matches Ok(c) ==> exists|raw: Seq<u8>|
            #[trigger] exported_as(*table, format, raw) && valid_utf8(raw) && age_plaintext(
                c@,
                passphrase->0@,
            ) == Some(encode_utf8(sealed(decode_utf8(raw))))),
        encrypt && passphrase is None && plain_export_succeeds(*table, format) ==> (r matches Err(
            Error::InvalidInput(m),
        ) && m@ == "Passphrase required for encryption"@),
        encrypt && passphrase is Some ==> (r matches Err(e) ==> (e is Crypto || e is Csv || (e matches Error::InvalidInput(m)
            && m@ == "Export produced non-UTF8 data"@ && exists|raw: Seq<u8>|
            #[trigger] exported_as(*table, format, raw) && !valid_utf8(raw)))),
{
    let raw = match format {
        ExportFormat::Csv => to_csv(table),
        ExportFormat::Psv => to_psv(table),
        ExportFormat::Json => to_json(table),
        ExportFormat::Html => to_html(table),
        ExportFormat::Markdown => to_markdown(table),
        ExportFormat::SqliteDump => to_sqlite_dump(table),
    };
    let raw = match raw {
        Ok(b) => b,
        Err(e) => {
            return Err(e);
        },
    };
    if encrypt {
        let pass = match passphrase {
            Some(p) => p,
            None => {
                return Err(Error::InvalidInput("Passphrase required for encryption".to_string()));
            },
        };
        let ghost rb = raw@;
        let raw_str = match utf8_string(raw) {
            Some(s) => s,
            None => {
                proof {
                    assert(exported_as(*table, format, rb));
                }
                return Err(Error::InvalidInput("Export produced non-UTF8 data".to_string()));
            },
        };
        let r = crate::crypto::encrypt(raw_str.as_str(), pass);
        proof {
            assert(exported_as(*table, format, rb));
        }
        r
    } else {
        Ok(raw)
    }
}

/// An encrypted export, decrypted with the passphrase it was made with,
/// gives the text of the plain export of the same table in the same format,
/// unless age refuses, which is answered with `InvalidPassword`.
pub proof fn law_decrypt_export(
    table: TableData,
    format: ExportFormat,
    passphrase: Seq<char>,
    ciphertext: Seq<u8>,
    r: Result<String, Error>,
)
    requires
        exists|raw: Seq<u8>|
            #[trigger] exported_as(table, format, raw) && valid_utf8(raw) && age_plaintext(ciphertext, passphrase)
                == Some(encode_utf8(sealed(decode_utf8(raw)))),
        decrypt_answer(ciphertext, passphrase, r),
    ensures
        (r matches Err(Error::InvalidPassword)) || exists|raw: Seq<u8>|
            #[trigger] exported_as(table, format, raw) && (r matches Ok(s) && s@ == decode_utf8(raw)),
{
    let raw = choose|raw: Seq<u8>|
        #[trigger] exported_as(table, format, raw) && valid_utf8(raw) && age_plaintext(ciphertext, passphrase)
            == Some(encode_utf8(sealed(decode_utf8(raw))));
    law_decrypt_answers_plaintext(decode_utf8(raw), passphrase, ciphertext, r);
}

} // verus!
