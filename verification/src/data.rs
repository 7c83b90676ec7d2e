//! Row operations on one table: insert, select, update and delete.
use vstd::prelude::*;
use crate::error::Error;
use crate::log::{entry_is, LogEntry};
use crate::table::{
    cell_label, col_position, find_column, row_fits, type_accepts, type_label,
    validate_row_result, ColumnDef, TableData,
};
use crate::text::{concat_str, decimal, extend_chars, extend_str, string_of, usize_chars};
use crate::types::{
    cell_debug, copy_row, debug_row, debug_value, push_row, push_value, row_debug, Cell, Value,
};

verus! {

/// The rows of `rows` whose flag is set, in order.
pub open spec fn keep_rows(rows: Seq<Seq<Cell>>, keep: Seq<bool>) -> Seq<Seq<Cell>>
    decreases rows.len(),
{
    if rows.len() == 0 || keep.len() == 0 {
        Seq::empty()
    } else {
        let prev = keep_rows(rows.drop_last(), keep.drop_last());
        if keep.last() {
            prev.push(rows.last())
        } else {
            prev
        }
    }
}

/// The number of set flags.
pub open spec fn count_true(flags: Seq<bool>) -> nat
    decreases flags.len(),
{
    if flags.len() == 0 {
        0
    } else {
        count_true(flags.drop_last()) + if flags.last() {
            1nat
        } else {
            0nat
        }
    }
}

/// The flags negated.
pub open spec fn negate(flags: Seq<bool>) -> Seq<bool> {
    Seq::new(flags.len(), |i: int| !flags[i])
}

/// `flags[i]` is an answer that `filter` may give for the `i`-th row.
pub open spec fn filter_answers<F: Fn(&Vec<Value>) -> bool>(filter: F, rows: Seq<Vec<Value>>, flags: Seq<bool>) -> bool {
    &&& flags.len() <= rows.len()
    &&& forall|i: int| 0 <= i < flags.len() ==> call_ensures(filter, (&rows[i],), #[trigger] flags[i])
}

/// `flags` are the answers of the optional `filter` for the first
/// `flags.len()` rows; without a filter every row is taken.
pub open spec fn optional_answers<F: Fn(&Vec<Value>) -> bool>(filter: Option<&F>, rows: Seq<Vec<Value>>, flags: Seq<bool>) -> bool {
    match filter {
        Some(f) => filter_answers(*f, rows, flags),
        None => flags.len() <= rows.len() && forall|i: int| 0 <= i < flags.len() ==> #[trigger] flags[i],
    }
}

/// The rows after setting cell `idx` to `v` in every flagged row.
pub open spec fn update_flagged(rows: Seq<Seq<Cell>>, flags: Seq<bool>, idx: int, v: Cell) -> Seq<Seq<Cell>> {
    Seq::new(rows.len(), |i: int| if flags[i] { rows[i].update(idx, v) } else { rows[i] })
}

/// The cells of `row` at the indices `idx`, in that order.
pub open spec fn project(row: Seq<Cell>, idx: Seq<int>) -> Seq<Cell> {
    Seq::new(idx.len(), |k: int| row[idx[k]])
}

/// The first name in `names` that no column has.
pub open spec fn first_missing(cols: Seq<ColumnDef>, names: Seq<Seq<char>>) -> Option<Seq<char>>
    decreases names.len(),
{
    if names.len() == 0 {
        None
    } else if col_position(cols, names[0]) is None {
        Some(names[0])
    } else {
        first_missing(cols, names.drop_first())
    }
}

/// The index of each name's column.
pub open spec fn positions(cols: Seq<ColumnDef>, names: Seq<Seq<char>>) -> Seq<int> {
    names.map_values(|n: Seq<char>| col_position(cols, n)->0)
}

/// The characters of each name.
pub open spec fn names_view(names: Seq<&str>) -> Seq<Seq<char>> {
    names.map_values(|n: &str| n@)
}

/// The characters of the requested column names, if any.
pub open spec fn opt_names_view(columns: Option<Vec<&str>>) -> Option<Seq<Seq<char>>> {
    match columns {
        Some(c) => Some(names_view(c@)),
        None => None,
    }
}

/// `flags` are the filter's answers and `r` is what [`select`] returns
/// for them.
pub open spec fn select_answer<F: Fn(&Vec<Value>) -> bool>(
    filter: Option<&F>,
    table: TableData,
    columns: Option<Vec<&str>>,
    flags: Seq<bool>,
    r: Result<Vec<Vec<Value>>, Error>,
) -> bool {
    optional_answers(filter, table.rows@, flags) && select_outcome(
        table.schema.columns@,
        table.rows.deep_view(),
        opt_names_view(columns),
        flags,
        r,
    )
}

/// What [`select`] returns, given the filter's answers `flags`.
pub open spec fn select_outcome(
    cols: Seq<ColumnDef>,
    rows: Seq<Seq<Cell>>,
    names: Option<Seq<Seq<char>>>,
    flags: Seq<bool>,
    r: Result<Vec<Vec<Value>>, Error>,
) -> bool {
    match names {
        None => flags.len() == rows.len() && (r matches Ok(out) && out.deep_view() == keep_rows(
            rows,
            flags,
        )),
        Some(ns) => match first_missing(cols, ns) {
            None => flags.len() == rows.len() && (r matches Ok(out) && out.deep_view()
                == keep_rows(rows, flags).map_values(|row: Seq<Cell>| project(row, positions(cols, ns)))),
            Some(m) => if count_true(flags) == 0 {
                flags.len() == rows.len() && (r matches Ok(out) && out@.len() == 0)
            } else {
                &&& flags.len() > 0
                &&& flags.last()
                &&& count_true(flags) == 1
                &&& r matches Err(Error::ColumnNotFound(c)) && c@ == m
            },
        },
    }
}

pub proof fn lemma_keep_rows_step(rows: Seq<Seq<Cell>>, flags: Seq<bool>, i: int, b: bool)
    requires
        0 <= i < rows.len(),
        flags.len() == i,
    ensures
        keep_rows(rows.take(i + 1), flags.push(b)) == if b {
            keep_rows(rows.take(i), flags).push(rows[i])
        } else {
            keep_rows(rows.take(i), flags)
        },
        count_true(flags.push(b)) == count_true(flags) + if b {
            1nat
        } else {
            0nat
        },
{
    assert(rows.take(i + 1).drop_last() =~= rows.take(i));
    assert(flags.push(b).drop_last() =~= flags);
}

pub proof fn lemma_keep_rows_len(rows: Seq<Seq<Cell>>, flags: Seq<bool>)
    requires
        flags.len() == rows.len(),
    ensures
        keep_rows(rows, flags).len() == count_true(flags),
        count_true(flags) <= flags.len(),
    decreases rows.len(),
{
    if rows.len() > 0 {
        lemma_keep_rows_len(rows.drop_last(), flags.drop_last());
    }
}

/// Adds `row` to `table` after checking it against the schema, and records
/// the insertion in `logs`.
pub fn insert(table: &mut TableData, row: Vec<Value>, logs: &mut Vec<LogEntry>) -> (r: Result<(), Error>)
    ensures
        validate_row_result(old(table).schema.columns@, row.deep_view(), r),
        r is Ok <==> row_fits(old(table).schema.columns@, row.deep_view()),
        r is Ok ==> {
            &&& final(table).schema == old(table).schema
            &&& final(table).rows.deep_view() == old(table).rows.deep_view().push(row.deep_view())
            &&& final(logs)@.len() == old(logs)@.len() + 1
            &&& final(logs)@.drop_last() == old(logs)@
            &&& entry_is(
                final(logs)@.last(),
                "INSERT"@,
                old(table).schema.name@,
                Some(row_debug(row.deep_view())),
            )
        },
        r is Err ==> *final(table) == *old(table) && final(logs)@ == old(logs)@,
        old(table).well_formed() ==> final(table).well_formed(),
{
    let checked = table.schema.validate_row(row.as_slice());
    match checked {
        Err(e) => {
            return Err(e);
        },
        Ok(()) => {},
    }
    let details = debug_row(row.as_slice());
    let ghost rv = row.deep_view();
    push_row(&mut table.rows, row);
    assert(table.rows@.len() == old(table).rows@.len() + 1);
    assert(forall|i: int| 0 <= i < old(table).rows@.len() ==> table.rows@[i] == old(table).rows@[i]);
    assert(table.rows.deep_view().last() == table.rows@.last().deep_view());
    assert(table.rows@.last()@.len() == rv.len());
    let entry = LogEntry::new("INSERT", table.schema.name.as_str(), Some(details));
    logs.push(entry);
    assert(logs@.drop_last() =~= old(logs)@);
    Ok(())
}

/// Whether a row of `len` cells has a cell at each of the positions.
pub open spec fn row_reaches(len: int, pos: Seq<int>) -> bool {
    forall|k: int| 0 <= k < pos.len() ==> #[trigger] pos[k] < len
}

/// Whether projecting the rows that the optional filter accepts onto the
/// columns `names` reads only cells that those rows have: when every name
/// is a column, a row too short for one of their positions is one that the
/// filter rejects (without a filter, every row is taken).
pub open spec fn projection_in_rows<F: Fn(&Vec<Value>) -> bool>(
    filter: Option<&F>,
    table: TableData,
    names: Seq<Seq<char>>,
) -> bool {
    first_missing(table.schema.columns@, names) is None ==> forall|i: int|
        0 <= i < table.rows@.len() && !row_reaches(
            (#[trigger] table.rows@[i])@.len() as int,
            positions(table.schema.columns@, names),
        ) ==> (filter matches Some(f) && filter_rejects(*f, &table.rows@[i]))
}

/// When every name is a column, their positions are indices of the columns.
pub proof fn lemma_positions_in_range(cols: Seq<ColumnDef>, names: Seq<Seq<char>>)
    ensures
        first_missing(cols, names) is None ==> forall|k: int|
            0 <= k < names.len() ==> 0 <= #[trigger] positions(cols, names)[k] < cols.len(),
    decreases names.len(),
{
    if names.len() > 0 {
        lemma_positions_in_range(cols, names.drop_first());
        crate::table::lemma_col_position_in_range(cols, names[0]);
        if first_missing(cols, names) is None {
            assert forall|k: int| 0 <= k < names.len() implies 0 <= #[trigger] positions(cols, names)[k] < cols.len() by {
                if k > 0 {
                    assert(positions(cols, names)[k] == positions(cols, names.drop_first())[k - 1]);
                }
            }
        }
    }
}

/// Every row of a well-formed table has the cells that any projection
/// reads.
pub proof fn lemma_well_formed_projection<F: Fn(&Vec<Value>) -> bool>(
    filter: Option<&F>,
    table: TableData,
    names: Seq<Seq<char>>,
)
    requires
        table.well_formed(),
    ensures
        projection_in_rows(filter, table, names),
{
    lemma_positions_in_range(table.schema.columns@, names);
    if first_missing(table.schema.columns@, names) is None {
        assert forall|i: int| 0 <= i < table.rows@.len() implies row_reaches(
            (#[trigger] table.rows@[i])@.len() as int,
            positions(table.schema.columns@, names),
        ) by {
            assert(table.rows@[i]@.len() == table.schema.columns@.len());
        }
    }
}

/// The rows of `table` for which `filter` holds (all rows without a
/// filter), reduced to `columns` when they are given.
pub fn select<F: Fn(&Vec<Value>) -> bool>(
    table: &TableData,
    columns: Option<Vec<&str>>,
    filter: Option<&F>,
) -> (r: Result<Vec<Vec<Value>>, Error>)
    requires
        columns matches Some(c) ==> projection_in_rows(filter, *table, names_view(c@)),
        filter matches Some(f) ==> forall|row: &Vec<Value>| call_requires(*f, (row,)),
    ensures
        exists|flags: Seq<bool>| #[trigger] select_answer(filter, *table, columns, flags, r),
{
    let ghost names: Option<Seq<Seq<char>>> = opt_names_view(columns);
    let ghost rows = table.rows.deep_view();
    let ghost cols = table.schema.columns@;
    let mut result: Vec<Vec<Value>> = Vec::new();
    let mut indices: Option<Vec<usize>> = None;
    let ghost mut flags: Seq<bool> = Seq::empty();
    let mut i: usize = 0;
    while i < table.rows.len()
        invariant
            i <= table.rows.len(),
            columns matches Some(c) ==> projection_in_rows(filter, *table, names_view(c@)),
            rows == table.rows.deep_view(),
            cols == table.schema.columns@,
            filter matches Some(f) ==> forall|row: &Vec<Value>| call_requires(*f, (row,)),
            flags.len() == i,
            optional_answers(filter, table.rows@, flags),
            names == opt_names_view(columns),
            columns is None ==> result.deep_view() == keep_rows(rows.take(i as int), flags),
            columns is None ==> indices is None,
            columns matches Some(c) ==> (indices is None <==> count_true(flags) == 0),
            columns matches Some(c) ==> (indices matches Some(ix) ==> first_missing(cols, names_view(c@)) is None && ix@.len() == c@.len() && forall|k: int| 0 <= k < ix@.len() ==> ix@[k] == positions(cols, names_view(c@))[k] && 0 <= ix@[k] < cols.len()),
            columns matches Some(c) ==> result.deep_view() == keep_rows(rows.take(i as int), flags).map_values(|row: Seq<Cell>| project(row, positions(cols, names_view(c@)))),
        decreases table.rows.len() - i,
    {
        let hit = match filter {
            Some(pred) => pred(&table.rows[i]),
            None => true,
        };
        let ghost prev_flags = flags;
        proof {
            lemma_keep_rows_step(rows, flags, i as int, hit);
            flags = flags.push(hit);
            assert(table.rows.deep_view()[i as int] == table.rows@[i as int].deep_view());
        }
        if hit {
            match &columns {
                None => {
                    let copy = copy_row(table.rows[i].as_slice());
                    push_row(&mut result, copy);
                },
                Some(cols_req) => {
                    if indices.is_none() {
                        match self::resolve_columns(&table.schema.columns, cols_req) {
                            Ok(ix) => {
                                indices = Some(ix);
                            },
                            Err(e) => {
                                let r: Result<Vec<Vec<Value>>, Error> = Err(e);
                                proof {
                                    assert(flags.last());
                                    assert(select_outcome(cols, rows, names, flags, r));
                                    assert(select_answer(filter, *table, columns, flags, r));
                                }
                                return r;
                            },
                        }
                    }
                    let ix = indices.as_ref().unwrap();
                    proof {
                        let pos = positions(cols, names_view(cols_req@));
                        if !row_reaches(table.rows@[i as int]@.len() as int, pos) {
                            match filter {
                                Some(f) => {
                                    assert(filter_rejects(*f, &table.rows@[i as int]));
                                    assert(call_ensures(*f, (&table.rows@[i as int],), hit));
                                },
                                None => {},
                            }
                        }
                        assert forall|k: int| 0 <= k < ix@.len() implies 0 <= #[trigger] ix@[k] < table.rows@[i as int]@.len() by {
                            assert(ix@[k] == pos[k]);
                        }
                    }
                    let projected = self::project_row(table.rows[i].as_slice(), ix, table.rows[i].len());
                    push_row(&mut result, projected);
                    proof {
                        let pos = positions(cols, names_view(cols_req@));
                        assert(ix@.map_values(|k: usize| k as int) =~= pos);
                        assert(keep_rows(rows.take(i + 1), flags).map_values(
                            |row: Seq<Cell>| project(row, pos),
                        ) =~= keep_rows(rows.take(i as int), prev_flags).map_values(
                            |row: Seq<Cell>| project(row, pos),
                        ).push(project(rows[i as int], pos)));
                    }
                },
            }
        }
        proof {
            assert(optional_answers(filter, table.rows@, flags));
        }
        i = i + 1;
    }
    assert(rows.take(table.rows.len() as int) =~= rows);
    proof {
        lemma_keep_rows_len(rows, flags);
    }
    let r: Result<Vec<Vec<Value>>, Error> = Ok(result);
    assert(select_outcome(cols, rows, names, flags, r));
    assert(select_answer(filter, *table, columns, flags, r));
    r
}

/// The index of each named column; the first name that no column has is
/// an error.
#[verifier::rlimit(30)]
fn resolve_columns(cols: &Vec<ColumnDef>, names: &Vec<&str>) -> (r: Result<Vec<usize>, Error>)
    ensures
        r matches Ok(ix) ==> first_missing(cols@, names_view(names@)) is None && ix@.len() == names@.len()
            && forall|k: int| 0 <= k < ix@.len() ==> ix@[k] == positions(cols@, names_view(names@))[k] && 0 <= ix@[k] < cols@.len(),
        r matches Err(e) ==> first_missing(cols@, names_view(names@)) matches Some(m) && e matches Error::ColumnNotFound(c) && c@ == m,
        r is Err <==> first_missing(cols@, names_view(names@)) is Some,
{
    let mut ix: Vec<usize> = Vec::new();
    let mut k: usize = 0;
    let ghost ns = names_view(names@);
    assert(ns.skip(0) =~= ns);
    while k < names.len()
        invariant
            k <= names.len(),
            ns == names_view(names@),
            ix@.len() == k,
            forall|j: int| 0 <= j < k ==> ix@[j] == positions(cols@, ns)[j] && 0 <= ix@[j] < cols@.len(),
            first_missing(cols@, ns) == first_missing(cols@, ns.skip(k as int)),
        decreases names.len() - k,
    {
        assert(ns.skip(k as int)[0] == names@[k as int]@);
        assert(ns.skip(k as int).drop_first() =~= ns.skip(k + 1));
        match find_column(cols, names[k]) {
            Some(p) => {
                ix.push(p);
            },
            None => {
                return Err(Error::ColumnNotFound(names[k].to_string()));
            },
        }
        k = k + 1;
    }
    assert(ns.skip(k as int).len() == 0);
    Ok(ix)
}

/// The cells of `row` at the indices `ix`.
pub fn project_row(row: &[Value], ix: &Vec<usize>, width: usize) -> (r: Vec<Value>)
    requires
        forall|k: int| 0 <= k < ix@.len() ==> 0 <= #[trigger] ix@[k] < width,
        row@.len() >= width,
    ensures
        r.deep_view() == project(row.deep_view(), ix@.map_values(|i: usize| i as int)),
{
    let mut r: Vec<Value> = Vec::new();
    let mut k: usize = 0;
    while k < ix.len()
        invariant
            k <= ix.len(),
            forall|j: int| 0 <= j < ix@.len() ==> 0 <= #[trigger] ix@[j] < width,
            row@.len() >= width,
            r.deep_view() == project(row.deep_view(), ix@.map_values(|i: usize| i as int)).take(k as int),
        decreases ix.len() - k,
    {
        let v = row[ix[k]].duplicate();
        push_value(&mut r, v);
        assert(row.deep_view()[ix@[k as int] as int] == row@[ix@[k as int] as int]@);
        assert(r.deep_view() =~= project(row.deep_view(), ix@.map_values(|i: usize| i as int)).take(k + 1));
        k = k + 1;
    }
    assert(project(row.deep_view(), ix@.map_values(|i: usize| i as int)).take(ix.len() as int) =~= project(row.deep_view(), ix@.map_values(|i: usize| i as int)));
    r
}


/// The log text of an update that set `col` to `v` in `n` rows.
pub open spec fn update_details(col: Seq<char>, v: Cell, n: nat) -> Seq<char> {
    "Set "@ + col + " = "@ + cell_debug(v) + " on "@ + decimal(n) + " rows"@
}

/// The log text of a deletion of `n` rows.
pub open spec fn delete_details(n: nat) -> Seq<char> {
    "Removed "@ + decimal(n) + " rows"@
}

/// `logs` after recording `action` on `table` when `n > 0`.
pub open spec fn logged_if_changed(
    before: Seq<LogEntry>,
    after: Seq<LogEntry>,
    n: nat,
    action: Seq<char>,
    table: Seq<char>,
    details: Seq<char>,
) -> bool {
    if n > 0 {
        &&& after.len() == before.len() + 1
        &&& after.drop_last() == before
        &&& entry_is(after.last(), action, table, Some(details))
    } else {
        after == before
    }
}

/// `flags` are the filter's answers for the rows of `before`, and `after`,
/// `logs` and `r` are what [`update`] leaves and returns for them.
pub open spec fn update_answer<F: Fn(&Vec<Value>) -> bool>(
    filter: F,
    before: TableData,
    after: TableData,
    k: int,
    col: Seq<char>,
    v: Cell,
    logs_before: Seq<LogEntry>,
    logs_after: Seq<LogEntry>,
    r: Result<usize, Error>,
    flags: Seq<bool>,
) -> bool {
    &&& filter_answers(filter, before.rows@, flags)
    &&& flags.len() == before.rows@.len()
    &&& update_flagged(before.rows.deep_view(), flags, k, v) == after.rows.deep_view()
    &&& r matches Ok(n) && n == count_true(flags) && logged_if_changed(
        logs_before,
        logs_after,
        n as nat,
        "UPDATE"@,
        before.schema.name@,
        update_details(col, v, n as nat),
    )
}

/// `flags` are the filter's answers for the rows of `before`, and `after`,
/// `logs` and `r` are what [`delete`] leaves and returns for them.
pub open spec fn delete_answer<F: Fn(&Vec<Value>) -> bool>(
    filter: F,
    before: TableData,
    after: TableData,
    logs_before: Seq<LogEntry>,
    logs_after: Seq<LogEntry>,
    r: Result<usize, Error>,
    flags: Seq<bool>,
) -> bool {
    &&& filter_answers(filter, before.rows@, flags)
    &&& flags.len() == before.rows@.len()
    &&& keep_rows(before.rows.deep_view(), negate(flags)) == after.rows.deep_view()
    &&& r matches Ok(n) && n == count_true(flags) && logged_if_changed(
        logs_before,
        logs_after,
        n as nat,
        "DELETE"@,
        before.schema.name@,
        delete_details(n as nat),
    )
}

/// Whether `filter` can only answer no for `row`.
pub open spec fn filter_rejects<F: Fn(&Vec<Value>) -> bool>(filter: F, row: &Vec<Value>) -> bool {
    forall|b: bool| #[trigger] call_ensures(filter, (row,), b) ==> !b
}

/// Sets column `set_col` to `new_val` in every row for which `filter`
/// holds, and records the change in `logs` when some row changed. Returns
/// the number of rows changed.
pub fn update<F: Fn(&Vec<Value>) -> bool>(
    table: &mut TableData,
    filter: &F,
    set_col: &str,
    new_val: Value,
    logs: &mut Vec<LogEntry>,
) -> (r: Result<usize, Error>)
    requires
        col_position(old(table).schema.columns@, set_col@) matches Some(k) ==> (type_accepts(
            old(table).schema.columns@[k].col_type,
            new_val@,
        ) ==> forall|i: int|
            0 <= i < old(table).rows@.len() && (#[trigger] old(table).rows@[i])@.len() <= k ==> filter_rejects(
                *filter,
                &old(table).rows@[i],
            )),
        forall|row: &Vec<Value>| call_requires(*filter, (row,)),
    ensures
        final(table).schema == old(table).schema,
        old(table).well_formed() ==> final(table).well_formed(),
        col_position(old(table).schema.columns@, set_col@) is None ==> (r matches Err(
            Error::ColumnNotFound(c),
        ) && c@ == set_col@),
        col_position(old(table).schema.columns@, set_col@) matches Some(k) ==> (!type_accepts(
            old(table).schema.columns@[k].col_type,
            new_val@,
        ) ==> (r matches Err(Error::TypeMismatch { column, expected, actual }) && column@ == set_col@
            && expected@ == type_label(old(table).schema.columns@[k].col_type) && actual@ == cell_label(
            new_val@,
        ))),
        r is Err ==> *final(table) == *old(table) && final(logs)@ == old(logs)@,
        col_position(old(table).schema.columns@, set_col@) matches Some(k) ==> (type_accepts(
            old(table).schema.columns@[k].col_type,
            new_val@,
        ) ==> r is Ok),
        r is Ok ==> (col_position(old(table).schema.columns@, set_col@) matches Some(k) && type_accepts(
            old(table).schema.columns@[k].col_type,
            new_val@,
        ) && exists|flags: Seq<bool>|
            #[trigger] update_answer(
                *filter,
                *old(table),
                *final(table),
                k,
                set_col@,
                new_val@,
                old(logs)@,
                final(logs)@,
                r,
                flags,
            )),
{
    let col_idx = match find_column(&table.schema.columns, set_col) {
        Some(k) => k,
        None => {
            return Err(Error::ColumnNotFound(set_col.to_string()));
        },
    };
    let col_type = table.schema.columns[col_idx].col_type;
    if !col_type.validate(&new_val) {
        return Err(
            Error::TypeMismatch {
                column: set_col.to_string(),
                expected: col_type.name().to_string(),
                actual: crate::table::value_label(&new_val).to_string(),
            },
        );
    }
    let ghost rows = old(table).rows.deep_view();
    let ghost width = table.schema.columns@.len();
    let mut new_rows: Vec<Vec<Value>> = Vec::new();
    let mut count: usize = 0;
    let ghost mut flags: Seq<bool> = Seq::empty();
    let mut i: usize = 0;
    while i < table.rows.len()
        invariant
            i <= table.rows.len(),
            *table == *old(table),
            forall|j: int|
                0 <= j < table.rows@.len() && (#[trigger] table.rows@[j])@.len() <= col_idx ==> filter_rejects(
                    *filter,
                    &table.rows@[j],
                ),
            rows == table.rows.deep_view(),
            width == table.schema.columns@.len(),
            col_idx < width,
            forall|row: &Vec<Value>| call_requires(*filter, (row,)),
            flags.len() == i,
            filter_answers(*filter, table.rows@, flags),
            count == count_true(flags),
            count <= i,
            new_rows.deep_view() == update_flagged(rows.take(i as int), flags, col_idx as int, new_val@),
            new_rows@.len() == i,
            forall|j: int| 0 <= j < new_rows@.len() ==> (#[trigger] new_rows@[j])@.len() == table.rows@[j]@.len(),
        decreases table.rows.len() - i,
    {
        let hit = filter(&table.rows[i]);
        let mut row = copy_row(table.rows[i].as_slice());
        assert(table.rows.deep_view()[i as int] == table.rows@[i as int].deep_view());
        if hit {
            proof {
                if table.rows@[i as int]@.len() <= col_idx {
                    assert(filter_rejects(*filter, &table.rows@[i as int]));
                    assert(call_ensures(*filter, (&table.rows@[i as int],), hit));
                }
            }
            let v = new_val.duplicate();
            let ghost before = row@;
            row.set(col_idx, v);
            assert(row.deep_view() =~= rows[i as int].update(col_idx as int, new_val@));
            count = count + 1;
        }
        let ghost prev_flags = flags;
        proof {
            flags = flags.push(hit);
            assert(flags.drop_last() =~= prev_flags);
        }
        push_row(&mut new_rows, row);
        assert(new_rows.deep_view() =~= update_flagged(rows.take(i + 1), flags, col_idx as int, new_val@));
        i = i + 1;
    }
    assert(rows.take(table.rows.len() as int) =~= rows);
    table.rows = new_rows;
    if count > 0 {
        let c = usize_chars(count);
        let mut d: Vec<char> = Vec::new();
        extend_str(&mut d, "Set ");
        extend_str(&mut d, set_col);
        extend_str(&mut d, " = ");
        let vd = debug_value(&new_val);
        extend_chars(&mut d, vd.as_slice());
        extend_str(&mut d, " on ");
        extend_chars(&mut d, c.as_slice());
        extend_str(&mut d, " rows");
        let entry = LogEntry::new("UPDATE", table.schema.name.as_str(), Some(string_of(d.as_slice())));
        logs.push(entry);
        assert(logs@.drop_last() =~= old(logs)@);
    }
    let r: Result<usize, Error> = Ok(count);
    assert(update_answer(*filter, *old(table), *table, col_idx as int, set_col@, new_val@, old(logs)@, logs@, r, flags));
    r
}

/// Removes every row for which `filter` holds, and records the deletion in
/// `logs` when some row was removed. Returns the number of rows removed.
pub fn delete<F: Fn(&Vec<Value>) -> bool>(
    table: &mut TableData,
    filter: &F,
    logs: &mut Vec<LogEntry>,
) -> (r: Result<usize, Error>)
    requires
        forall|row: &Vec<Value>| call_requires(*filter, (row,)),
    ensures
        final(table).schema == old(table).schema,
        old(table).well_formed() ==> final(table).well_formed(),
        r is Ok,
        exists|flags: Seq<bool>|
            #[trigger] delete_answer(*filter, *old(table), *final(table), old(logs)@, final(logs)@, r, flags),
{
    let ghost rows = old(table).rows.deep_view();
    let ghost width = table.schema.columns@.len();
    let mut kept: Vec<Vec<Value>> = Vec::new();
    let mut removed: usize = 0;
    let ghost mut flags: Seq<bool> = Seq::empty();
    let ghost mut keep: Seq<bool> = Seq::empty();
    let mut i: usize = 0;
    while i < table.rows.len()
        invariant
            i <= table.rows.len(),
            *table == *old(table),
            rows == table.rows.deep_view(),
            width == table.schema.columns@.len(),
            forall|row: &Vec<Value>| call_requires(*filter, (row,)),
            flags.len() == i,
            keep == negate(flags),
            filter_answers(*filter, table.rows@, flags),
            removed == count_true(flags),
            removed <= i,
            kept.deep_view() == keep_rows(rows.take(i as int), keep),
            table.well_formed() ==> forall|j: int| 0 <= j < kept@.len() ==> (#[trigger] kept@[j])@.len() == width,
        decreases table.rows.len() - i,
    {
        let hit = filter(&table.rows[i]);
        proof {
            lemma_keep_rows_step(rows, keep, i as int, !hit);
            assert(flags.push(hit).drop_last() =~= flags);
            flags = flags.push(hit);
            keep = keep.push(!hit);
            assert(keep =~= negate(flags));
        }
        if hit {
            removed = removed + 1;
        } else {
            let row = copy_row(table.rows[i].as_slice());
            assert(table.rows.deep_view()[i as int] == table.rows@[i as int].deep_view());
            assert(table.well_formed() ==> table.rows@[i as int]@.len() == width);
            assert(row@.len() == table.rows@[i as int]@.len());
            push_row(&mut kept, row);
        }
        i = i + 1;
    }
    assert(rows.take(table.rows.len() as int) =~= rows);
    table.rows = kept;
    if removed > 0 {
        let c = usize_chars(removed);
        let mut d: Vec<char> = Vec::new();
        extend_str(&mut d, "Removed ");
        extend_chars(&mut d, c.as_slice());
        extend_str(&mut d, " rows");
        let entry = LogEntry::new("DELETE", table.schema.name.as_str(), Some(string_of(d.as_slice())));
        logs.push(entry);
        assert(logs@.drop_last() =~= old(logs)@);
    }
    let r: Result<usize, Error> = Ok(removed);
    assert(delete_answer(*filter, *old(table), *table, old(logs)@, logs@, r, flags));
    r
}

proof fn lemma_count_zero(flags: Seq<bool>)
    requires
        count_true(flags) == 0,
    ensures
        forall|i: int| 0 <= i < flags.len() ==> !#[trigger] flags[i],
    decreases flags.len(),
{
    if flags.len() > 0 {
        lemma_count_zero(flags.drop_last());
        assert forall|i: int| 0 <= i < flags.len() implies !#[trigger] flags[i] by {
            if i < flags.len() - 1 {
                assert(flags[i] == flags.drop_last()[i]);
            }
        }
    }
}

/// A delete that removes nothing leaves the rows and the log as they were.
pub proof fn law_delete_removes_nothing<F: Fn(&Vec<Value>) -> bool>(
    filter: F,
    before: TableData,
    after: TableData,
    logs_before: Seq<LogEntry>,
    logs_after: Seq<LogEntry>,
    r: Result<usize, Error>,
)
    requires
        exists|flags: Seq<bool>| #[trigger] delete_answer(filter, before, after, logs_before, logs_after, r, flags),
        r matches Ok(n) && n == 0,
    ensures
        after.rows.deep_view() == before.rows.deep_view(),
        logs_after == logs_before,
{
    let flags = choose|flags: Seq<bool>| #[trigger] delete_answer(filter, before, after, logs_before, logs_after, r, flags);
    lemma_count_zero(flags);
    crate::executor::lemma_keep_all(before.rows.deep_view(), negate(flags));
}

/// Whether the filter's answer depends on a row's cells alone.
pub open spec fn filter_is_pure<F: Fn(&Vec<Value>) -> bool>(filter: F) -> bool {
    forall|a: &Vec<Value>, b: &Vec<Value>, x: bool, y: bool|
        a.deep_view() == b.deep_view() && #[trigger] call_ensures(filter, (a,), x) && #[trigger] call_ensures(
            filter,
            (b,),
            y,
        ) ==> x == y
}

proof fn lemma_count_none(flags: Seq<bool>)
    requires
        forall|i: int| 0 <= i < flags.len() ==> !#[trigger] flags[i],
    ensures
        count_true(flags) == 0,
    decreases flags.len(),
{
    if flags.len() > 0 {
        lemma_count_none(flags.drop_last());
    }
}

/// Deleting a second time with a filter whose answer depends on the row
/// alone removes nothing: the second delete answers 0 and leaves the rows
/// and the log as the first left them.
pub proof fn law_delete_twice<F: Fn(&Vec<Value>) -> bool>(
    filter: F,
    t0: TableData,
    t1: TableData,
    t2: TableData,
    l0: Seq<LogEntry>,
    l1: Seq<LogEntry>,
    l2: Seq<LogEntry>,
    r1: Result<usize, Error>,
    r2: Result<usize, Error>,
)
    requires
        filter_is_pure(filter),
        exists|flags: Seq<bool>| #[trigger] delete_answer(filter, t0, t1, l0, l1, r1, flags),
        exists|flags: Seq<bool>| #[trigger] delete_answer(filter, t1, t2, l1, l2, r2, flags),
    ensures
        r2 matches Ok(n) && n == 0,
        t2.rows.deep_view() == t1.rows.deep_view(),
        l2 == l1,
{
    let f1 = choose|flags: Seq<bool>| #[trigger] delete_answer(filter, t0, t1, l0, l1, r1, flags);
    let f2 = choose|flags: Seq<bool>| #[trigger] delete_answer(filter, t1, t2, l1, l2, r2, flags);
    let rows0 = t0.rows.deep_view();
    let keep = negate(f1);
    let rows1 = t1.rows.deep_view();
    assert(rows1 == keep_rows(rows0, keep));
    crate::executor::lemma_keep_rows_members(rows0, keep);
    assert forall|i: int| 0 <= i < f2.len() implies !#[trigger] f2[i] by {
        assert(crate::executor::flagged_row(rows0, keep, keep_rows(rows0, keep)[i]));
        let j = choose|j: int| 0 <= j < rows0.len() && keep[j] && rows0[j] == keep_rows(rows0, keep)[i];
        assert(t0.rows@[j].deep_view() == rows0[j]);
        assert(t1.rows@[i].deep_view() == rows1[i]);
        assert(call_ensures(filter, (&t0.rows@[j],), f1[j]));
        assert(call_ensures(filter, (&t1.rows@[i],), f2[i]));
    }
    lemma_count_none(f2);
    crate::executor::lemma_keep_all(rows1, negate(f2));
}

} // verus!
