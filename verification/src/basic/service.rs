//! The services of the line-command engine. Each answers with the text it
//! reports; the caller prints it and writes the changed table back.
use vstd::prelude::*;
use crate::basic::compiler::{command_spec, parse};
use crate::data::{count_true, keep_rows, lemma_keep_rows_step, negate, project, update_flagged};
use crate::engine::compiler::{outcome_is, Outcome};
use crate::engine::service::{
    column_indices, equal_flags, filter_project, lookup_error, reachable, selected_names,
    selection_names, update_matching, with_rows,
};
use crate::engine::syntax::{Statement, StatementModel};
use crate::error::Error;
use crate::storage::{content_fits, invalid_name_msg, new_content, valid_table_name, TableContent, TableStore};
use crate::text::{
    chars_of, concat_str, debug_str, debug_text, decimal, extend_chars, extend_str, find_char,
    first_index, join, position_of, push_string, seq_find, slice_chars, string_of, trim, trim_chars,
    usize_chars,
};
use crate::types::{cell_text, copy_row, push_row, value_eq, Cell, Row, Value};

verus! {

/// Every cell as the text it is written as, which is how this engine reads
/// a table back.
pub open spec fn text_row(row: Seq<Cell>) -> Seq<Cell> {
    row.map_values(|c: Cell| Cell::Text(cell_text(c)))
}

/// The rows as this engine reads them.
pub open spec fn text_rows(rows: Seq<Seq<Cell>>) -> Seq<Seq<Cell>> {
    rows.map_values(|row: Seq<Cell>| text_row(row))
}

/// The column names and the rows of `name`, every cell read as text.
pub fn read_table(store: &TableStore, name: &str) -> (r: Result<(Vec<String>, Vec<Row>), Error>)
    ensures
        !reachable(store@, name@) ==> lookup_error(name@, r),
        reachable(store@, name@) ==> (r matches Ok((h, rows)) && h.deep_view() == store@[name@].columns
            && rows.deep_view() == text_rows(store@[name@].rows) && forall|i: int|
            0 <= i < rows@.len() ==> (#[trigger] rows@[i])@.len() == h@.len()),
{
    let (_schema, headers, rows) = match store.read_only(name) {
        Ok(x) => x,
        Err(e) => {
            return Err(e);
        },
    };
    let ghost rv = rows.deep_view();
    let mut out: Vec<Row> = Vec::new();
    let mut i: usize = 0;
    while i < rows.len()
        invariant
            i <= rows@.len(),
            rv == rows.deep_view(),
            content_fits(store@[name@]),
            rv == store@[name@].rows,
            headers.deep_view() == store@[name@].columns,
            out.deep_view() == text_rows(rv.take(i as int)),
            forall|k: int| 0 <= k < out@.len() ==> (#[trigger] out@[k])@.len() == headers@.len(),
        decreases rows@.len() - i,
    {
        let fields = crate::storage::row_fields(rows[i].as_slice());
        let mut row: Row = Vec::new();
        let mut k: usize = 0;
        while k < fields.len()
            invariant
                k <= fields@.len(),
                row@.len() == k,
                forall|j: int| 0 <= j < k ==> (#[trigger] row@[j])@ == Cell::Text(fields@[j]@),
            decreases fields@.len() - k,
        {
            row.push(Value::Text(fields[k].clone()));
            k = k + 1;
        }
        let ghost before = out.deep_view();
        proof {
            assert(rv[i as int] == rows@[i as int].deep_view());
            assert(row.deep_view() =~= text_row(rv[i as int]));
            assert(rv[i as int].len() == headers.deep_view().len());
            assert(headers.deep_view().len() == headers@.len());
        }
        push_row(&mut out, row);
        proof {
            assert(text_rows(rv.take(i + 1)) =~= before.push(text_row(rv[i as int])));
        }
        i = i + 1;
    }
    proof {
        assert(rv.take(rows@.len() as int) =~= rv);
    }
    Ok((headers, out))
}

/// What `{:?}` writes for a list of names.
pub open spec fn names_debug(cols: Seq<Seq<char>>) -> Seq<char> {
    "["@ + join(cols.map_values(|c: Seq<char>| debug_text(c)), ", "@) + "]"@
}

/// The message for a new table.
pub open spec fn created_msg(name: Seq<char>, cols: Seq<Seq<char>>) -> Seq<char> {
    "Table '"@ + name + "' created with columns: "@ + names_debug(cols)
}

/// The message naming a new table and its columns.
fn created_message(name: &str, columns: &[String]) -> (r: String)
    ensures
        r@ == created_msg(name@, columns.deep_view()),
{
    let mut items: Vec<String> = Vec::new();
    let mut i: usize = 0;
    while i < columns.len()
        invariant
            i <= columns@.len(),
            items.deep_view() == columns.deep_view().take(i as int).map_values(|c: Seq<char>| debug_text(c)),
        decreases columns@.len() - i,
    {
        let d = debug_str(columns[i].as_str());
        let ghost before = items.deep_view();
        push_string(&mut items, d);
        proof {
            assert(columns.deep_view()[i as int] == columns@[i as int]@);
            assert(columns.deep_view().take(i + 1).map_values(|c: Seq<char>| debug_text(c)) =~= before.push(
                debug_text(columns@[i as int]@),
            ));
        }
        i = i + 1;
    }
    proof {
        assert(columns.deep_view().take(columns@.len() as int) =~= columns.deep_view());
    }
    let list = crate::text::join_strings(&items, ", ");
    let mut out: Vec<char> = Vec::new();
    extend_str(&mut out, "Table '");
    extend_str(&mut out, name);
    extend_str(&mut out, "' created with columns: [");
    extend_str(&mut out, list.as_str());
    extend_str(&mut out, "]");
    proof {
        reveal_strlit("' created with columns: [");
        reveal_strlit("' created with columns: ");
        reveal_strlit("[");
        assert("' created with columns: ["@ =~= "' created with columns: "@ + "["@);
    }
    string_of(out.as_slice())
}

/// What [`create`] leaves and answers.
pub open spec fn create_answer(before: Map<Seq<char>, TableContent>, after: Map<Seq<char>, TableContent>, name: Seq<char>, cols: Seq<Seq<char>>, r: Result<String, Error>) -> bool {
    &&& (!valid_table_name(name) ==> (r matches Err(Error::InvalidInput(m)) && m@ == invalid_name_msg()))
    &&& (valid_table_name(name) && before.contains_key(name) ==> (r matches Err(Error::TableExists(n)) && n@ == name))
    &&& (r is Ok <==> valid_table_name(name) && !before.contains_key(name))
    &&& (r matches Ok(m) ==> m@ == created_msg(name, cols) && after == before.insert(
            name,
            new_content(cols),
        ))
    &&& (r is Err ==> after == before)
}

/// Adds an empty table with the given columns; answers with the message
/// naming them.
pub fn create_table(store: &mut TableStore, name: &str, columns: &[String]) -> (r: Result<String, Error>)
    ensures
        create_answer(old(store)@, final(store)@, name@, columns.deep_view(), r),
{
    match crate::engine::service::create_table(store, name, columns) {
        Err(e) => Err(e),
        Ok(()) => Ok(created_message(name, columns)),
    }
}

/// The message for an inserted row.
pub open spec fn inserted_msg(table: Seq<char>) -> Seq<char> {
    "1 row inserted into '"@ + table + "'"@
}

/// What [`insert`] leaves and answers.
pub open spec fn insert_answer(before: Map<Seq<char>, TableContent>, after: Map<Seq<char>, TableContent>, table: Seq<char>, values: Seq<Cell>, r: Result<String, Error>) -> bool {
    &&& (!reachable(before, table) ==> lookup_error(table, r) && after == before)
    &&& (reachable(before, table) ==> {
            let t = before[table];
            if values.len() != t.columns.len() {
                &&& r matches Err(Error::ValueCountMismatch { expected, actual }) && expected == t.columns.len()
                    && actual == values.len()
                &&& after == before
            } else {
                &&& r matches Ok(m) && m@ == inserted_msg(table)
                &&& after == before.insert(
                    table,
                    with_rows(t, text_rows(t.rows).push(values)),
                )
            }
        })
}

/// Adds a row after checking its number of values; the table is written
/// back as text.
pub fn insert_row(store: &mut TableStore, table: &str, values: Vec<Value>) -> (r: Result<String, Error>)
    ensures
        insert_answer(old(store)@, final(store)@, table@, values.deep_view(), r),
{
    let (headers, mut rows) = match read_table(store, table) {
        Ok(x) => x,
        Err(e) => {
            return Err(e);
        },
    };
    proof {
        assert(headers.deep_view().len() == headers@.len());
    }
    if values.len() != headers.len() {
        return Err(Error::ValueCountMismatch { expected: headers.len(), actual: values.len() });
    }
    let ghost before = rows.deep_view();
    let ghost vv = values.deep_view();
    rows.push(values);
    proof {
        assert(rows.deep_view() =~= before.push(vv));
        assert forall|k: int| 0 <= k < rows@.len() implies (#[trigger] rows@[k])@.len() == store@[table@].columns.len() by {
            if k < before.len() {
            }
        }
    }
    store.put_rows(table, rows);
    Ok(concat_str(concat_str("1 row inserted into '", table).as_str(), "'"))
}

/// The message for deleted rows.
pub open spec fn deleted_msg(n: nat, table: Seq<char>) -> Seq<char> {
    decimal(n) + " row(s) deleted from '"@ + table + "'"@
}

/// What [`delete`] leaves and answers.
pub open spec fn delete_answer(before: Map<Seq<char>, TableContent>, after: Map<Seq<char>, TableContent>, table: Seq<char>, condition: (Seq<char>, Cell), r: Result<String, Error>) -> bool {
    &&& (!reachable(before, table) ==> lookup_error(table, r) && after == before)
    &&& (reachable(before, table) ==> {
            let t = before[table];
            let rows = text_rows(t.rows);
            match first_index(t.columns, condition.0) {
                None => r matches Err(Error::ColumnNotInTable(x, y)) && x@ == condition.0 && y@ == table
                    && after == before,
                Some(ci) => {
                    let flags = equal_flags(rows, ci, condition.1);
                    &&& r matches Ok(m) && m@ == deleted_msg(count_true(flags), table)
                    &&& count_true(flags) > 0 ==> after == before.insert(
                        table,
                        with_rows(t, keep_rows(rows, negate(flags))),
                    )
                    &&& count_true(flags) == 0 ==> after == before
                },
            }
        })
}

/// Removes the rows whose column `condition.0` holds `condition.1`; the
/// table is written back, as text, only when some were removed.
pub fn delete_rows(store: &mut TableStore, table: &str, condition: &(String, Value)) -> (r: Result<String, Error>)
    ensures
        delete_answer(old(store)@, final(store)@, table@, (condition.0@, condition.1@), r),
{
    let (headers, rows) = match read_table(store, table) {
        Ok(x) => x,
        Err(e) => {
            return Err(e);
        },
    };
    let ci = match position_of(&headers, condition.0.as_str()) {
        Some(i) => i,
        None => {
            return Err(Error::ColumnNotInTable(condition.0.clone(), table.to_string()));
        },
    };
    let ghost rv = rows.deep_view();
    let ghost flags = equal_flags(rv, ci as int, condition.1@);
    let ghost keep = negate(flags);
    let mut kept: Vec<Row> = Vec::new();
    let mut deleted: usize = 0;
    let mut i: usize = 0;
    while i < rows.len()
        invariant
            i <= rows@.len(),
            deleted <= i,
            ci < headers@.len(),
            rv == rows.deep_view(),
            forall|k: int| 0 <= k < rows@.len() ==> (#[trigger] rows@[k])@.len() == headers@.len(),
            flags == equal_flags(rv, ci as int, condition.1@),
            keep == negate(flags),
            deleted == count_true(flags.take(i as int)),
            kept.deep_view() == keep_rows(rv.take(i as int), keep.take(i as int)),
            forall|k: int| 0 <= k < kept@.len() ==> (#[trigger] kept@[k])@.len() == headers@.len(),
        decreases rows@.len() - i,
    {
        proof {
            assert(rv[i as int] == rows@[i as int].deep_view());
            assert(rows@[i as int].deep_view()[ci as int] == rows@[i as int]@[ci as int]@);
        }
        let hit = value_eq(&rows[i][ci], &condition.1);
        proof {
            assert(flags.take(i + 1) =~= flags.take(i as int).push(hit));
            assert(flags.take(i + 1).drop_last() =~= flags.take(i as int));
            assert(keep.take(i + 1) =~= keep.take(i as int).push(!hit));
            lemma_keep_rows_step(rv, keep.take(i as int), i as int, !hit);
        }
        if hit {
            deleted = deleted + 1;
        } else {
            let copy = copy_row(rows[i].as_slice());
            push_row(&mut kept, copy);
        }
        i = i + 1;
    }
    proof {
        assert(rv.take(rows@.len() as int) =~= rv);
        assert(keep.take(rows@.len() as int) =~= keep);
        assert(flags.take(rows@.len() as int) =~= flags);
        assert(headers.deep_view().len() == headers@.len());
    }
    if deleted > 0 {
        store.put_rows(table, kept);
    }
    let c = usize_chars(deleted);
    let mut out: Vec<char> = Vec::new();
    extend_chars(&mut out, c.as_slice());
    extend_str(&mut out, " row(s) deleted from '");
    extend_str(&mut out, table);
    extend_str(&mut out, "'");
    Ok(string_of(out.as_slice()))
}

/// The message for updated rows.
pub open spec fn updated_msg(n: nat, table: Seq<char>) -> Seq<char> {
    decimal(n) + " row(s) updated in '"@ + table + "'"@
}

/// What [`update`] leaves and answers.
pub open spec fn update_answer(before: Map<Seq<char>, TableContent>, after: Map<Seq<char>, TableContent>, table: Seq<char>, set_col: Seq<char>, set_val: Cell, condition: (Seq<char>, Cell), r: Result<String, Error>) -> bool {
    &&& (!reachable(before, table) ==> lookup_error(table, r) && after == before)
    &&& (reachable(before, table) ==> {
            let t = before[table];
            let rows = text_rows(t.rows);
            match first_index(t.columns, set_col) {
                None => r matches Err(Error::ColumnNotInTable(x, y)) && x@ == set_col && y@ == table
                    && after == before,
                Some(si) => match first_index(t.columns, condition.0) {
                    None => r matches Err(Error::ColumnNotInTable(x, y)) && x@ == condition.0 && y@ == table
                        && after == before,
                    Some(ci) => {
                        let flags = equal_flags(rows, ci, condition.1);
                        &&& r matches Ok(m) && m@ == updated_msg(count_true(flags), table)
                        &&& count_true(flags) > 0 ==> after == before.insert(
                            table,
                            with_rows(t, update_flagged(rows, flags, si, set_val)),
                        )
                        &&& count_true(flags) == 0 ==> after == before
                    },
                },
            }
        })
}

/// Sets `set_col` to `set_val` in the rows whose column `condition.0`
/// holds `condition.1`; the table is written back, as text, only when some
/// row changed.
pub fn update_rows(
    store: &mut TableStore,
    table: &str,
    set_col: &str,
    set_val: Value,
    condition: &(String, Value),
) -> (r: Result<String, Error>)
    ensures
        update_answer(old(store)@, final(store)@, table@, set_col@, set_val@, (condition.0@, condition.1@), r),
{
    let (headers, rows) = match read_table(store, table) {
        Ok(x) => x,
        Err(e) => {
            return Err(e);
        },
    };
    let si = match position_of(&headers, set_col) {
        Some(i) => i,
        None => {
            return Err(Error::ColumnNotInTable(set_col.to_string(), table.to_string()));
        },
    };
    let ci = match position_of(&headers, condition.0.as_str()) {
        Some(i) => i,
        None => {
            return Err(Error::ColumnNotInTable(condition.0.clone(), table.to_string()));
        },
    };
    let (new_rows, updated) = update_matching(&rows, headers.len(), si, ci, &condition.1, &set_val);
    proof {
        assert(headers.deep_view().len() == headers@.len());
    }
    if updated > 0 {
        store.put_rows(table, new_rows);
    }
    let c = usize_chars(updated);
    let mut out: Vec<char> = Vec::new();
    extend_chars(&mut out, c.as_slice());
    extend_str(&mut out, " row(s) updated in '");
    extend_str(&mut out, table);
    extend_str(&mut out, "'");
    Ok(string_of(out.as_slice()))
}


/// Cells as written, separated by the field delimiter.
pub open spec fn delimited(cells: Seq<Seq<char>>) -> Seq<char> {
    join(cells, seq![crate::config::DELIMITER_CHAR])
}

/// One delimited line per row, each ended by a newline.
pub open spec fn delimited_lines(rows: Seq<Seq<Cell>>) -> Seq<char>
    decreases rows.len(),
{
    if rows.len() == 0 {
        Seq::empty()
    } else {
        delimited_lines(rows.drop_last()) + delimited(rows.last().map_values(|c: Cell| cell_text(c))) + "\n"@
    }
}

/// What a selection reports for the rows it found: a line per row, or
/// `No rows found`.
pub open spec fn found_text(rows: Seq<Seq<Cell>>) -> Seq<char> {
    if rows.len() == 0 {
        "No rows found\n"@
    } else {
        delimited_lines(rows)
    }
}

/// The lines that a selection writes for the rows it found.
fn found_lines(found: &Vec<Row>) -> (r: Vec<char>)
    ensures
        r@ == found_text(found.deep_view()),
{
    let mut out: Vec<char> = Vec::new();
    let delim: [char; 1] = [crate::config::DELIMITER_CHAR];
    if found.len() == 0 {
        extend_str(&mut out, "No rows found\n");
    } else {
        let mut k: usize = 0;
        while k < found.len()
            invariant
                k <= found@.len(),
                delim@ == seq![crate::config::DELIMITER_CHAR],
                out@ == delimited_lines(found.deep_view().take(k as int)),
            decreases found@.len() - k,
        {
            let fields = crate::storage::row_fields(found[k].as_slice());
            let line = crate::text::join_strings(&fields, string_of(&delim).as_str());
            extend_str(&mut out, line.as_str());
            out.push('\n');
            proof {
                let fv = found.deep_view();
                assert(fv.take(k + 1).drop_last() =~= fv.take(k as int));
                assert(fv[k as int] == found@[k as int].deep_view());
                assert(fields.deep_view() =~= fv[k as int].map_values(|c: Cell| cell_text(c)));
                reveal_strlit("\n");
            }
            k = k + 1;
        }
        proof {
            assert(found.deep_view().take(found@.len() as int) =~= found.deep_view());
        }
    }
    out
}

/// What [`select`] leaves and answers.
pub open spec fn select_answer(db: Map<Seq<char>, TableContent>, table: Seq<char>, columns: Seq<Seq<char>>, condition: Option<(Seq<char>, Cell)>, out: Seq<char>, res: Result<(), Error>) -> bool {
    &&& (!reachable(db, table) ==> out == Seq::<char>::empty() && lookup_error(table, res))
    &&& (reachable(db, table) ==> {
            let t = db[table];
            let names = selected_names(t.columns, columns);
            let rows = text_rows(t.rows);
            match crate::executor::resolve(t.columns, names) {
                Err(c) => out == Seq::<char>::empty() && (res matches Err(Error::ColumnNotInTable(x, y)) && x@ == c
                    && y@ == table),
                Ok(ix) => match condition {
                    None => out == delimited(names) + "\n"@ + found_text(
                        rows.map_values(|row: Seq<Cell>| project(row, ix)),
                    ) && res is Ok,
                    Some(cond) => match first_index(t.columns, cond.0) {
                        None => out == delimited(names) + "\n"@ && (res matches Err(Error::ColumnNotInTable(x, y))
                            && x@ == cond.0 && y@ == table),
                        Some(ci) => out == delimited(names) + "\n"@ + found_text(
                            keep_rows(rows, equal_flags(rows, ci, cond.1)).map_values(
                                |row: Seq<Cell>| project(row, ix),
                            ),
                        ) && res is Ok,
                    },
                },
            }
        })
}

/// Writes the selected columns of the rows whose column `condition.0`
/// holds `condition.1` (all rows without a condition), the header line
/// first. Answers with the text written and the outcome: an error after
/// the header line leaves that line written.
pub fn select_rows(
    store: &TableStore,
    table: &str,
    columns: &[String],
    condition: Option<&(String, Value)>,
) -> (r: (String, Result<(), Error>))
    ensures
        select_answer(store@, table@, columns.deep_view(), match condition { Some(c) => Some((c.0@, c.1@)), None => None }, r.0@, r.1),
{
    let (headers, rows) = match read_table(store, table) {
        Ok(x) => x,
        Err(e) => {
            return (String::new(), Err(e));
        },
    };
    let selected = selection_names(&headers, columns);
    let ix = match column_indices(&headers, &selected, table) {
        Ok(v) => v,
        Err(e) => {
            return (String::new(), Err(e));
        },
    };
    let mut out: Vec<char> = Vec::new();
    let mut sep = String::new();
    crate::text::push_char(&mut sep, crate::config::DELIMITER_CHAR);
    let head = crate::text::join_strings(&selected, sep.as_str());
    extend_str(&mut out, head.as_str());
    out.push('\n');
    proof {
        assert(sep@ =~= seq![crate::config::DELIMITER_CHAR]);
        assert(head@ == delimited(selected.deep_view()));
        reveal_strlit("\n");
        assert(out@ =~= head@ + "\n"@);
    }
    let ghost head_text = out@;
    let target: Option<(usize, &Value)> = match condition {
        None => None,
        Some(cond) => match position_of(&headers, cond.0.as_str()) {
            Some(ci) => Some((ci, &cond.1)),
            None => {
                return (string_of(out.as_slice()), Err(Error::ColumnNotInTable(cond.0.clone(), table.to_string())));
            },
        },
    };
    proof {
        assert(headers.deep_view().len() == headers@.len());
    }
    let found = filter_project(&rows, headers.len(), &ix, target);
    let body = found_lines(&found);
    extend_chars(&mut out, body.as_slice());
    proof {
        if target is None {
            crate::executor::lemma_keep_all(rows.deep_view(), Seq::new(rows@.len() as nat, |i: int| true));
        }
    }
    (string_of(out.as_slice()), Ok(()))
}

/// A condition `column=value`: `None` for blank text; the value is the
/// trimmed text after the first `=`, without enclosing quotes. The outer
/// `None` is a lone quote, on which slicing panics.
pub open spec fn condition_spec(cond: Seq<char>) -> Option<Result<Option<(Seq<char>, Cell)>, Seq<char>>> {
    let t = trim(cond);
    if t.len() == 0 {
        Some(Ok(None))
    } else {
        match seq_find(t, '=') {
            None => Some(Err("Missing '=' in condition"@)),
            Some(e) => {
                let raw = trim(t.skip(e + 1));
                if raw.len() > 0 && raw[0] == '\'' && raw[raw.len() - 1] == '\'' {
                    if raw.len() < 2 {
                        None
                    } else {
                        Some(Ok(Some((t.take(e), Cell::Text(raw.subrange(1, raw.len() - 1))))))
                    }
                } else {
                    Some(Ok(Some((t.take(e), Cell::Text(raw)))))
                }
            },
        }
    }
}

/// Reads an optional `column=value` condition.
pub fn parse_condition(cond: &str) -> (r: Result<Option<(String, Value)>, Error>)
    requires
        condition_spec(cond@) is Some,
    ensures
        match condition_spec(cond@)->0 {
            Ok(None) => r matches Ok(None),
            Ok(Some((c, v))) => r matches Ok(Some((x, y))) && x@ == c && y@ == v,
            Err(m) => r matches Err(Error::Parse(e)) && e@ == m,
        },
{
    let cs = chars_of(cond);
    let t = trim_chars(cs.as_slice());
    if t.len() == 0 {
        return Ok(None);
    }
    let eq = match find_char(t.as_slice(), '=') {
        Some(e) => e,
        None => {
            return Err(Error::Parse("Missing '=' in condition".to_string()));
        },
    };
    let col = slice_chars(t.as_slice(), 0, eq);
    let rest = slice_chars(t.as_slice(), eq + 1, t.len());
    let raw = trim_chars(rest.as_slice());
    proof {
        assert(rest@ =~= t@.skip(eq + 1));
        assert(col@ =~= t@.take(eq as int));
    }
    let n = raw.len();
    let val = if n > 0 && raw[0] == '\'' && raw[n - 1] == '\'' {
        slice_chars(raw.as_slice(), 1, n - 1)
    } else {
        raw
    };
    Ok(Some((string_of(col.as_slice()), Value::Text(string_of(val.as_slice())))))
}


/// Whether the text written and the outcome are what reporting the
/// service's answer `r` gives: its message on a line, or nothing and the
/// error.
pub open spec fn reported(r: Result<String, Error>, out: Seq<char>, res: Result<(), Error>) -> bool {
    match r {
        Ok(m) => out == m@ + "\n"@ && res is Ok,
        Err(e) => out == Seq::<char>::empty() && res == Err::<(), Error>(e),
    }
}

/// What running `sql` writes and gives, and the tables it leaves.
pub open spec fn query_answer(
    sql: Seq<char>,
    before: Map<Seq<char>, TableContent>,
    after: Map<Seq<char>, TableContent>,
    out: Seq<char>,
    res: Result<(), Error>,
) -> bool {
    match command_spec(sql) {
        Outcome::Refused(m) => out == Seq::<char>::empty() && (res matches Err(Error::Parse(e)) && e@ == m)
            && after == before,
        Outcome::Panics => false,
        Outcome::Done(stmt) => match stmt {
            StatementModel::CreateTable { name, columns } => exists|r: Result<String, Error>|
                create_answer(before, after, name, columns, r) && #[trigger] reported(r, out, res),
            StatementModel::Insert { table, values } => exists|r: Result<String, Error>|
                insert_answer(before, after, table, values, r) && #[trigger] reported(r, out, res),
            StatementModel::Select { columns, table, condition } => after == before && select_answer(
                before,
                table,
                columns,
                condition,
                out,
                res,
            ),
            StatementModel::Update { table, set_col, set_val, condition } => exists|r: Result<String, Error>|
                update_answer(before, after, table, set_col, set_val, condition, r) && #[trigger] reported(r, out, res),
            StatementModel::Delete { table, condition } => exists|r: Result<String, Error>|
                delete_answer(before, after, table, condition, r) && #[trigger] reported(r, out, res),
        },
    }
}

fn report(r: Result<String, Error>) -> (x: (String, Result<(), Error>))
    ensures
        reported(r, x.0@, x.1),
{
    match r {
        Ok(m) => {
            let mut out: Vec<char> = Vec::new();
            extend_str(&mut out, m.as_str());
            out.push('\n');
            proof {
                reveal_strlit("\n");
                assert(out@ =~= m@ + "\n"@);
            }
            (string_of(out.as_slice()), Ok(()))
        },
        Err(e) => (String::new(), Err(e)),
    }
}

/// A command that does not parse is answered with its parse error, prints
/// nothing and changes no table.
pub proof fn law_query_refused(
    sql: Seq<char>,
    before: Map<Seq<char>, TableContent>,
    after: Map<Seq<char>, TableContent>,
    out: Seq<char>,
    res: Result<(), Error>,
)
    requires
        command_spec(sql) is Refused,
        query_answer(sql, before, after, out, res),
    ensures
        after == before,
        out.len() == 0,
        res matches Err(Error::Parse(e)) && command_spec(sql) == Outcome::<StatementModel>::Refused(e@),
{
}

/// Runs one command; answers with the text it writes and its outcome.
pub fn execute_query(store: &mut TableStore, sql: &str) -> (r: (String, Result<(), Error>))
    requires
        !(command_spec(sql@) is Panics),
    ensures
        query_answer(sql@, old(store)@, final(store)@, r.0@, r.1),
{
    let stmt = match parse(sql) {
        Ok(s) => s,
        Err(e) => {
            return (String::new(), Err(e));
        },
    };
    match stmt {
        Statement::CreateTable { name, columns } => {
            let r = create_table(store, name.as_str(), columns.as_slice());
            report(r)
        },
        Statement::Insert { table, values } => {
            let r = insert_row(store, table.as_str(), values);
            report(r)
        },
        Statement::Select { columns, table, condition } => select_rows(
            store,
            table.as_str(),
            columns.as_slice(),
            condition.as_ref(),
        ),
        Statement::Update { table, set_col, set_val, condition } => {
            let r = update_rows(store, table.as_str(), set_col.as_str(), set_val, &condition);
            report(r)
        },
        Statement::Delete { table, condition } => {
            let r = delete_rows(store, table.as_str(), &condition);
            report(r)
        },
    }
}


/// After [`insert_row`] added `values` to `table`, selecting `*` without a
/// condition writes the header line, the lines the table had, then the
/// line of `values`: `*` stands for every column in order when the column
/// names are distinct, and every row, the new one too, reads back from the
/// file as the text it was written as.
pub proof fn law_select_all_after_insert(
    before: Map<Seq<char>, TableContent>,
    after: Map<Seq<char>, TableContent>,
    table: Seq<char>,
    values: Seq<Cell>,
    r: Result<String, Error>,
    out: Seq<char>,
    res: Result<(), Error>,
)
    requires
        insert_answer(before, after, table, values, r),
        r is Ok,
        content_fits(before[table]),
        before[table].columns.no_duplicates(),
        forall|i: int|
            0 <= i < before[table].rows.len() ==> crate::storage::stored_row(
                text_row(#[trigger] before[table].rows[i]),
                before[table].types,
            ) == text_row(before[table].rows[i]),
        crate::storage::stored_row(text_row(values), before[table].types) == text_row(values),
        select_answer(after, table, seq!["*"@], None, out, res),
    ensures
        res is Ok,
        out == delimited(before[table].columns) + "\n"@ + delimited_lines(text_rows(before[table].rows))
            + delimited(values.map_values(|c: Cell| cell_text(c))) + "\n"@,
{
    let t = before[table];
    let cols = t.columns;
    let types = t.types;
    assert(reachable(before, table));
    let written = text_rows(t.rows).push(values);
    let a = after[table];
    assert(a.columns == cols);
    assert(a.rows == written.map_values(|row: Seq<Cell>| crate::storage::stored_row(row, types)));
    let read = text_rows(t.rows).push(text_row(values));
    assert(text_rows(a.rows) =~= read) by {
        assert forall|i: int| 0 <= i < read.len() implies text_rows(a.rows)[i] == read[i] by {
            if i < t.rows.len() {
                let x = text_row(t.rows[i]);
                assert(written[i] == x);
                assert(crate::storage::stored_row(x, types) == x);
                assert(text_row(x) =~= x);
            } else {
                assert(written[i] == values);
                assert(crate::storage::stored_row(values, types) =~= crate::storage::stored_row(text_row(values), types));
                assert(text_row(text_row(values)) =~= text_row(values));
            }
        }
    }
    crate::engine::service::lemma_resolve_own(cols, cols.len() as int);
    assert(cols.take(cols.len() as int) =~= cols);
    let ix = Seq::new(cols.len(), |i: int| i);
    assert(selected_names(cols, seq!["*"@]) == cols);
    assert forall|i: int| 0 <= i < read.len() implies #[trigger] project(read[i], ix) == read[i] by {
        if i < t.rows.len() {
            assert(t.rows[i].len() == cols.len());
        }
        assert(project(read[i], ix) =~= read[i]);
    }
    assert(read.map_values(|row: Seq<Cell>| project(row, ix)) =~= read);
    assert(read.drop_last() =~= text_rows(t.rows));
    assert(text_row(values).map_values(|c: Cell| cell_text(c)) =~= values.map_values(|c: Cell| cell_text(c)));
}

} // verus!
