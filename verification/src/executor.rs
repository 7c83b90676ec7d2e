//! Runs parsed commands against the tables of a data directory.
use vstd::prelude::*;
use crate::data::{count_true, keep_rows, lemma_keep_rows_len, lemma_keep_rows_step, negate, project, update_flagged};
use crate::database::byte_len;
use crate::error::Error;
use crate::storage::{content_fits, listing, stored_row, new_content, row_fields, valid_table_name, invalid_name_msg, TableContent, TableStore};
use crate::syntax::{Expr, ExprModel, Statement, StatementModel};
use crate::text::{
    chars_of, concat_str, decimal, extend_chars, extend_str, first_index, join, join_strings,
    lemma_first_index,
    position_of, str_lt, string_of, usize_chars,
};
use crate::types::{cell_lt, cell_text, copy_row, push_row, value_eq, value_lt, Cell, Row, Schema, Value};

verus! {

// ---------------------------------------------------------------------------
// Patterns
// ---------------------------------------------------------------------------

/// The byte of `%`, which matches any run of bytes in a pattern.
pub const ANY_RUN: u8 = 0x25;

/// The byte of `_`, which matches any one byte in a pattern.
pub const ANY_BYTE: u8 = 0x5F;

/// Whether the bytes `s` match the pattern `p`, where `%` stands for any
/// run of bytes and `_` for any one byte.
pub open spec fn like(s: Seq<u8>, p: Seq<u8>) -> bool
    decreases s.len() + p.len(),
{
    if p.len() == 0 {
        s.len() == 0
    } else if p.last() == ANY_RUN {
        like(s, p.drop_last()) || (s.len() > 0 && like(s.drop_last(), p))
    } else {
        s.len() > 0 && (p.last() == ANY_BYTE || p.last() == s.last()) && like(s.drop_last(), p.drop_last())
    }
}

/// Whether `s` matches the pattern `p` byte by byte, `%` matching any run
/// and `_` any single byte.
pub fn like_match(s: &str, p: &str) -> (r: bool)
    ensures
        r == like(vstd::utf8::encode_utf8(s@), vstd::utf8::encode_utf8(p@)),
{
    let sb = s.as_bytes();
    let pb = p.as_bytes();
    let n = sb.len();
    let m = pb.len();
    let ghost sv = sb@;
    let ghost pv = pb@;
    let mut prev: Vec<bool> = Vec::new();
    prev.push(true);
    proof {
        assert(sv.take(0).len() == 0);
        assert(pv.take(0).len() == 0);
    }
    let mut j: usize = 0;
    while j < m
        invariant
            j <= m,
            m == pb@.len(),
            pv == pb@,
            prev@.len() == j + 1,
            forall|k: int| 0 <= k <= j ==> prev@[k] == like(sv.take(0), #[trigger] pv.take(k)),
        decreases m - j,
    {
        let v = pb[j] == ANY_RUN && prev[j];
        proof {
            assert(pv.take(j + 1).drop_last() =~= pv.take(j as int));
            assert(pv.take(j + 1).last() == pv[j as int]);
        }
        prev.push(v);
        j = j + 1;
    }
    let mut i: usize = 0;
    while i < n
        invariant
            i <= n,
            n == sb@.len(),
            m == pb@.len(),
            sv == sb@,
            pv == pb@,
            prev@.len() == m + 1,
            forall|k: int| 0 <= k <= m ==> prev@[k] == like(sv.take(i as int), #[trigger] pv.take(k)),
        decreases n - i,
    {
        let mut cur: Vec<bool> = Vec::new();
        cur.push(false);
        proof {
            assert(pv.take(0).len() == 0);
        }
        let mut j: usize = 0;
        while j < m
            invariant
                i < n,
                j <= m,
                n == sb@.len(),
                m == pb@.len(),
                sv == sb@,
                pv == pb@,
                prev@.len() == m + 1,
                forall|k: int| 0 <= k <= m ==> prev@[k] == like(sv.take(i as int), #[trigger] pv.take(k)),
                cur@.len() == j + 1,
                forall|k: int| 0 <= k <= j ==> cur@[k] == like(sv.take(i + 1), #[trigger] pv.take(k)),
            decreases m - j,
        {
            let c = pb[j];
            let v = if c == ANY_RUN {
                cur[j] || prev[j + 1]
            } else if c == ANY_BYTE || c == sb[i] {
                prev[j]
            } else {
                false
            };
            proof {
                assert(pv.take(j + 1).drop_last() =~= pv.take(j as int));
                assert(pv.take(j + 1).last() == pv[j as int]);
                assert(sv.take(i + 1).drop_last() =~= sv.take(i as int));
                assert(sv.take(i + 1).last() == sv[i as int]);
                assert(prev@[j + 1] == like(sv.take(i as int), pv.take(j + 1)));
                assert(prev@[j as int] == like(sv.take(i as int), pv.take(j as int)));
            }
            cur.push(v);
            j = j + 1;
        }
        prev = cur;
        i = i + 1;
    }
    proof {
        assert(sv.take(n as int) =~= sv);
        assert(pv.take(m as int) =~= pv);
        assert(prev@[m as int] == like(sv.take(n as int), pv.take(m as int)));
    }
    prev[m]
}

// ---------------------------------------------------------------------------
// Filters
// ---------------------------------------------------------------------------

/// The cell of `row` under the first column named `col`.
pub open spec fn cell_at(row: Seq<Cell>, headers: Seq<Seq<char>>, col: Seq<char>) -> Option<Cell> {
    match first_index(headers, col) {
        Some(i) => if i < row.len() {
            Some(row[i])
        } else {
            None
        },
        None => None,
    }
}

/// The bytes of the text form of a cell.
pub open spec fn text_bytes(c: Cell) -> Seq<u8> {
    vstd::utf8::encode_utf8(cell_text(c))
}

/// Whether the filter `e` holds of `row`; a comparison with a column that
/// is not there does not hold.
pub open spec fn holds(row: Seq<Cell>, headers: Seq<Seq<char>>, e: ExprModel) -> bool
    decreases e,
{
    match e {
        ExprModel::True => true,
        ExprModel::Eq(c, v) => match cell_at(row, headers, c) {
            Some(x) => x == v,
            None => false,
        },
        ExprModel::Ne(c, v) => match cell_at(row, headers, c) {
            Some(x) => x != v,
            None => false,
        },
        ExprModel::Gt(c, v) => match cell_at(row, headers, c) {
            Some(x) => cell_lt(v, x),
            None => false,
        },
        ExprModel::Ge(c, v) => match cell_at(row, headers, c) {
            Some(x) => !cell_lt(x, v),
            None => false,
        },
        ExprModel::Lt(c, v) => match cell_at(row, headers, c) {
            Some(x) => cell_lt(x, v),
            None => false,
        },
        ExprModel::Le(c, v) => match cell_at(row, headers, c) {
            Some(x) => !cell_lt(v, x),
            None => false,
        },
        ExprModel::Like(c, v) => match cell_at(row, headers, c) {
            Some(x) => like(text_bytes(x), text_bytes(v)),
            None => false,
        },
        ExprModel::And(a, b) => holds(row, headers, *a) && holds(row, headers, *b),
        ExprModel::Or(a, b) => holds(row, headers, *a) || holds(row, headers, *b),
    }
}

/// The cell of `row` under the first column named `col`, if the row has it.
fn get_value<'a>(row: &'a [Value], headers: &Vec<String>, col: &str) -> (r: Option<&'a Value>)
    ensures
        match cell_at(row.deep_view(), headers.deep_view(), col@) {
            Some(c) => r matches Some(v) && v@ == c,
            None => r is None,
        },
{
    match position_of(headers, col) {
        Some(i) => {
            if i < row.len() {
                proof {
                    assert(row.deep_view()[i as int] == row@[i as int]@);
                }
                Some(&row[i])
            } else {
                None
            }
        },
        None => None,
    }
}

/// The comparisons a filter can make.
enum Comparison {
    Eq,
    Ne,
    Gt,
    Ge,
    Lt,
    Le,
}

/// Whether `a` stands in relation `op` to `b`.
spec fn compares(op: Comparison, a: Cell, b: Cell) -> bool {
    match op {
        Comparison::Eq => a == b,
        Comparison::Ne => a != b,
        Comparison::Gt => cell_lt(b, a),
        Comparison::Ge => !cell_lt(a, b),
        Comparison::Lt => cell_lt(a, b),
        Comparison::Le => !cell_lt(b, a),
    }
}

/// Compares the cell of `row` under `col` with `val`; false when the row
/// has no such cell.
fn compare(row: &[Value], headers: &Vec<String>, col: &str, val: &Value, op: Comparison) -> (r: bool)
    ensures
        r == match cell_at(row.deep_view(), headers.deep_view(), col@) {
            Some(x) => compares(op, x, val@),
            None => false,
        },
{
    match get_value(row, headers, col) {
        Some(cell) => match op {
            Comparison::Eq => value_eq(cell, val),
            Comparison::Ne => !value_eq(cell, val),
            Comparison::Gt => value_lt(val, cell),
            Comparison::Ge => !value_lt(cell, val),
            Comparison::Lt => value_lt(cell, val),
            Comparison::Le => !value_lt(val, cell),
        },
        None => false,
    }
}

/// How the comparison filters of one column and one value relate on any
/// row: `<` is strict (it never holds together with `=` or `>`), exactly
/// one of `<`, `=`, `>` holds when the row has the column, `<=` is "not
/// `>`", `>=` is "not `<`", `!=` is "not `=`", and none holds without the
/// column. On integers they compare the numbers, on texts the characters.
pub proof fn law_filter_comparisons(row: Seq<Cell>, headers: Seq<Seq<char>>, c: Seq<char>, v: Cell)
    ensures
        holds(row, headers, ExprModel::Lt(c, v)) ==> !holds(row, headers, ExprModel::Eq(c, v)) && !holds(
            row,
            headers,
            ExprModel::Gt(c, v),
        ),
        holds(row, headers, ExprModel::Gt(c, v)) ==> !holds(row, headers, ExprModel::Eq(c, v)),
        cell_at(row, headers, c) is Some ==> holds(row, headers, ExprModel::Lt(c, v)) || holds(
            row,
            headers,
            ExprModel::Eq(c, v),
        ) || holds(row, headers, ExprModel::Gt(c, v)),
        holds(row, headers, ExprModel::Le(c, v)) <==> cell_at(row, headers, c) is Some && !holds(
            row,
            headers,
            ExprModel::Gt(c, v),
        ),
        holds(row, headers, ExprModel::Ge(c, v)) <==> cell_at(row, headers, c) is Some && !holds(
            row,
            headers,
            ExprModel::Lt(c, v),
        ),
        holds(row, headers, ExprModel::Ne(c, v)) <==> cell_at(row, headers, c) is Some && !holds(
            row,
            headers,
            ExprModel::Eq(c, v),
        ),
        holds(row, headers, ExprModel::Eq(c, v)) ==> cell_at(row, headers, c) == Some(v),
        cell_at(row, headers, c) matches Some(Cell::Int(x)) ==> v matches Cell::Int(y) ==> ((holds(
            row,
            headers,
            ExprModel::Lt(c, v),
        ) <==> x < y) && (holds(row, headers, ExprModel::Gt(c, v)) <==> x > y)),
        cell_at(row, headers, c) matches Some(Cell::Text(x)) ==> v matches Cell::Text(y) ==> ((holds(
            row,
            headers,
            ExprModel::Lt(c, v),
        ) <==> str_lt(x, y)) && (holds(row, headers, ExprModel::Gt(c, v)) <==> str_lt(y, x))),
{
    match cell_at(row, headers, c) {
        Some(x) => {
            crate::types::law_cell_order(x, v, x);
            crate::types::law_cell_order(v, x, v);
        },
        None => {},
    }
}

/// Whether the filter `expr` holds of `row`.
pub fn eval_expr(row: &[Value], headers: &Vec<String>, expr: &Expr) -> (r: bool)
    ensures
        r == holds(row.deep_view(), headers.deep_view(), expr@),
    decreases expr,
{
    match expr {
        Expr::True => true,
        Expr::Eq(col, val) => compare(row, headers, col.as_str(), val, Comparison::Eq),
        Expr::Ne(col, val) => compare(row, headers, col.as_str(), val, Comparison::Ne),
        Expr::Gt(col, val) => compare(row, headers, col.as_str(), val, Comparison::Gt),
        Expr::Ge(col, val) => compare(row, headers, col.as_str(), val, Comparison::Ge),
        Expr::Lt(col, val) => compare(row, headers, col.as_str(), val, Comparison::Lt),
        Expr::Le(col, val) => compare(row, headers, col.as_str(), val, Comparison::Le),
        Expr::Like(col, val) => match get_value(row, headers, col.as_str()) {
            Some(cell) => {
                let a = cell.to_string_cmp();
                let b = val.to_string_cmp();
                like_match(a.as_str(), b.as_str())
            },
            None => false,
        },
        Expr::And(a, b) => eval_expr(row, headers, a) && eval_expr(row, headers, b),
        Expr::Or(a, b) => eval_expr(row, headers, a) || eval_expr(row, headers, b),
    }
}


// ---------------------------------------------------------------------------
// Projection and display
// ---------------------------------------------------------------------------

/// The index of each of `cols` among `headers`; the first name that no
/// header has is the error.
pub open spec fn resolve(headers: Seq<Seq<char>>, cols: Seq<Seq<char>>) -> Result<Seq<int>, Seq<char>>
    decreases cols.len(),
{
    if cols.len() == 0 {
        Ok(Seq::empty())
    } else {
        match resolve(headers, cols.drop_last()) {
            Err(c) => Err(c),
            Ok(ix) => match first_index(headers, cols.last()) {
                Some(i) => Ok(ix.push(i)),
                None => Err(cols.last()),
            },
        }
    }
}

/// The columns that `cols` selects: all of them for `*` alone.
pub open spec fn selection(headers: Seq<Seq<char>>, cols: Seq<Seq<char>>) -> Result<Seq<int>, Seq<char>> {
    if cols.len() == 1 && cols[0] == "*"@ {
        Ok(Seq::new(headers.len(), |i: int| i))
    } else {
        resolve(headers, cols)
    }
}

pub proof fn lemma_resolve_prefix_err(headers: Seq<Seq<char>>, cols: Seq<Seq<char>>, j: int)
    requires
        0 <= j <= cols.len(),
        resolve(headers, cols.take(j)) is Err,
    ensures
        resolve(headers, cols) == resolve(headers, cols.take(j)),
    decreases cols.len() - j,
{
    if j == cols.len() {
        assert(cols.take(j) =~= cols);
    } else {
        assert(cols.take(j + 1).drop_last() =~= cols.take(j));
        lemma_resolve_prefix_err(headers, cols, j + 1);
    }
}

proof fn lemma_resolve_bounds(headers: Seq<Seq<char>>, cols: Seq<Seq<char>>)
    ensures
        resolve(headers, cols) matches Ok(ix) ==> ix.len() == cols.len() && forall|k: int|
            0 <= k < ix.len() ==> 0 <= #[trigger] ix[k] < headers.len(),
    decreases cols.len(),
{
    if cols.len() > 0 {
        lemma_resolve_bounds(headers, cols.drop_last());
        lemma_first_index(headers, cols.last());
    }
}

/// The columns of `headers` and `rows` that `cols` selects, in that order.
fn project_rows(
    _schema: &Schema,
    headers: Vec<String>,
    rows: Vec<Row>,
    cols: Vec<String>,
) -> (r: Result<(Vec<String>, Vec<Row>), Error>)
    requires
        forall|i: int| 0 <= i < rows@.len() ==> (#[trigger] rows@[i])@.len() == headers@.len(),
    ensures
        match selection(headers.deep_view(), cols.deep_view()) {
            Err(c) => r matches Err(Error::ColumnNotFound(x)) && x@ == c,
            Ok(ix) => r matches Ok((h, rs)) && h.deep_view() == ix.map_values(
                |k: int| headers.deep_view()[k],
            ) && rs.deep_view() == rows.deep_view().map_values(|row: Seq<Cell>| project(row, ix)),
        },
{
    let ghost hv = headers.deep_view();
    let ghost cv = cols.deep_view();
    let mut indices: Vec<usize> = Vec::new();
    let star = cols.len() == 1 && crate::text::str_eq(cols[0].as_str(), "*");
    proof {
        if cols.len() == 1 {
            assert(cv[0] == cols@[0]@);
        }
    }
    if star {
        let mut i: usize = 0;
        while i < headers.len()
            invariant
                i <= headers@.len(),
                indices@.len() == i,
                forall|k: int| 0 <= k < i ==> (#[trigger] indices@[k]) as int == k,
            decreases headers@.len() - i,
        {
            indices.push(i);
            i = i + 1;
        }
        proof {
            assert(indices@.map_values(|k: usize| k as int) =~= Seq::new(hv.len(), |i: int| i));
        }
    } else {
        let mut k: usize = 0;
        proof {
            assert(cv.take(0) =~= Seq::<Seq<char>>::empty());
            assert(indices@.map_values(|x: usize| x as int) =~= Seq::<int>::empty());
        }
        while k < cols.len()
            invariant
                k <= cols@.len(),
                cv == cols.deep_view(),
                hv == headers.deep_view(),
                selection(hv, cv) == resolve(hv, cv),
                resolve(hv, cv.take(k as int)) == Ok::<Seq<int>, Seq<char>>(indices@.map_values(|x: usize| x as int)),
            decreases cols@.len() - k,
        {
            proof {
                assert(cv.take(k + 1).drop_last() =~= cv.take(k as int));
                assert(cv.take(k + 1).last() == cv[k as int]);
                assert(cv[k as int] == cols@[k as int]@);
            }
            match position_of(&headers, cols[k].as_str()) {
                Some(p) => {
                    let ghost before = indices@;
                    indices.push(p);
                    proof {
                        assert(indices@.map_values(|x: usize| x as int) =~= before.map_values(
                            |x: usize| x as int,
                        ).push(p as int));
                    }
                },
                None => {
                    proof {
                        assert(resolve(hv, cv.take(k + 1)) == Err::<Seq<int>, Seq<char>>(cv[k as int]));
                        lemma_resolve_prefix_err(hv, cv, k + 1);
                        assert(selection(hv, cv) == resolve(hv, cv));
                    }
                    return Err(Error::ColumnNotFound(cols[k].clone()));
                },
            }
            k = k + 1;
        }
        proof {
            assert(cv.take(cols@.len() as int) =~= cv);
            lemma_resolve_bounds(hv, cv);
        }
    }
    let ghost ix = indices@.map_values(|x: usize| x as int);
    assert(selection(hv, cv) == Ok::<Seq<int>, Seq<char>>(ix));
    assert(forall|k: int| 0 <= k < indices@.len() ==> 0 <= #[trigger] indices@[k] < headers@.len()) by {
        assert forall|k: int| 0 <= k < indices@.len() implies 0 <= #[trigger] indices@[k] < headers@.len() by {
            assert(ix[k] == indices@[k] as int);
        }
    }
    let mut new_headers: Vec<String> = Vec::new();
    let mut k: usize = 0;
    while k < indices.len()
        invariant
            k <= indices@.len(),
            hv == headers.deep_view(),
            ix == indices@.map_values(|x: usize| x as int),
            forall|j: int| 0 <= j < indices@.len() ==> 0 <= #[trigger] indices@[j] < headers@.len(),
            new_headers@.len() == k,
            forall|j: int| 0 <= j < k ==> (#[trigger] new_headers@[j])@ == hv[ix[j]],
        decreases indices@.len() - k,
    {
        proof {
            assert(hv[indices@[k as int] as int] == headers@[indices@[k as int] as int]@);
        }
        new_headers.push(headers[indices[k]].clone());
        k = k + 1;
    }
    let mut new_rows: Vec<Row> = Vec::new();
    let mut i: usize = 0;
    while i < rows.len()
        invariant
            i <= rows@.len(),
            ix == indices@.map_values(|x: usize| x as int),
            forall|j: int| 0 <= j < indices@.len() ==> 0 <= #[trigger] indices@[j] < headers@.len(),
            forall|j: int| 0 <= j < rows@.len() ==> (#[trigger] rows@[j])@.len() == headers@.len(),
            new_rows.deep_view() == rows.deep_view().take(i as int).map_values(|row: Seq<Cell>| project(row, ix)),
        decreases rows@.len() - i,
    {
        let pr = crate::data::project_row(rows[i].as_slice(), &indices, headers.len());
        let ghost before = new_rows.deep_view();
        new_rows.push(pr);
        proof {
            assert(rows.deep_view()[i as int] == rows@[i as int].deep_view());
            assert(new_rows.deep_view() =~= before.push(pr.deep_view()));
            assert(rows.deep_view().take(i + 1).map_values(|row: Seq<Cell>| project(row, ix))
                =~= rows.deep_view().take(i as int).map_values(|row: Seq<Cell>| project(row, ix)).push(
                project(rows.deep_view()[i as int], ix),
            ));
        }
        i = i + 1;
    }
    proof {
        assert(rows.deep_view().take(rows@.len() as int) =~= rows.deep_view());
        assert(new_headers.deep_view() =~= ix.map_values(|k: int| hv[k]));
    }
    Ok((new_headers, new_rows))
}


/// A row as one line of text: the text of each cell, `" | "` between.
pub open spec fn row_line(row: Seq<Cell>) -> Seq<char> {
    join(row.map_values(|c: Cell| cell_text(c)), " | "@)
}

/// One line per row, each ended by a newline.
pub open spec fn body_lines(rows: Seq<Seq<Cell>>) -> Seq<char>
    decreases rows.len(),
{
    if rows.len() == 0 {
        Seq::empty()
    } else {
        body_lines(rows.drop_last()) + row_line(rows.last()) + "\n"@
    }
}

/// `n` dashes.
pub open spec fn dashes(n: nat) -> Seq<char> {
    Seq::new(n, |i: int| '-')
}

/// A result table as text: the header line, a line of as many dashes as
/// the header line has bytes, then a line per row, or `(0 rows)`.
pub open spec fn table_text(headers: Seq<Seq<char>>, rows: Seq<Seq<Cell>>) -> Seq<char> {
    let head = join(headers, " | "@);
    head + "\n"@ + dashes(byte_len(head)) + "\n"@ + if rows.len() == 0 {
        "(0 rows)\n"@
    } else {
        body_lines(rows)
    }
}

/// Writes a result table as text.
pub fn format_table(headers: &Vec<String>, rows: &Vec<Row>) -> (r: String)
    ensures
        r@ == table_text(headers.deep_view(), rows.deep_view()),
{
    let mut out: Vec<char> = Vec::new();
    let head = join_strings(headers, " | ");
    extend_str(&mut out, head.as_str());
    out.push('\n');
    let n = head.as_str().len();
    let ghost before_dashes = out@;
    let mut i: usize = 0;
    while i < n
        invariant
            i <= n,
            out@ == before_dashes + dashes(i as nat),
        decreases n - i,
    {
        out.push('-');
        proof {
            assert(dashes((i + 1) as nat) =~= dashes(i as nat).push('-'));
        }
        i = i + 1;
    }
    out.push('\n');
    let ghost prefix = out@;
    proof {
        assert(n as nat == byte_len(head@));
        assert(prefix =~= join(headers.deep_view(), " | "@) + "\n"@ + dashes(byte_len(head@)) + "\n"@) by {
            reveal_strlit("\n");
        }
    }
    if rows.len() == 0 {
        extend_str(&mut out, "(0 rows)\n");
    } else {
        let mut k: usize = 0;
        while k < rows.len()
            invariant
                k <= rows@.len(),
                out@ == prefix + body_lines(rows.deep_view().take(k as int)),
            decreases rows@.len() - k,
        {
            let fields = row_fields(rows[k].as_slice());
            let line = join_strings(&fields, " | ");
            let ghost before = out@;
            extend_str(&mut out, line.as_str());
            out.push('\n');
            proof {
                let rv = rows.deep_view();
                assert(rv.take(k + 1).drop_last() =~= rv.take(k as int));
                assert(rv[k as int] == rows@[k as int].deep_view());
                assert(fields.deep_view() =~= rv[k as int].map_values(|c: Cell| cell_text(c)));
                reveal_strlit("\n");
                assert(out@ =~= before + row_line(rv[k as int]) + "\n"@);
            }
            k = k + 1;
        }
        proof {
            assert(rows.deep_view().take(rows@.len() as int) =~= rows.deep_view());
        }
    }
    string_of(out.as_slice())
}


// ---------------------------------------------------------------------------
// Running a command
// ---------------------------------------------------------------------------

/// Whether the filter holds, row by row.
pub open spec fn filter_flags(rows: Seq<Seq<Cell>>, headers: Seq<Seq<char>>, e: ExprModel) -> Seq<bool> {
    Seq::new(rows.len(), |i: int| holds(rows[i], headers, e))
}

/// Whether `r` is the text `m`.
pub open spec fn answers(r: Result<String, Error>, m: Seq<char>) -> bool {
    r matches Ok(x) && x@ == m
}

/// Whether `r` is the error that reaching table `name` gives when it
/// cannot be reached: a bad name, or no such table.
pub open spec fn lookup_refused(name: Seq<char>, r: Result<String, Error>) -> bool {
    if !valid_table_name(name) {
        r matches Err(Error::InvalidInput(m)) && m@ == invalid_name_msg()
    } else {
        r matches Err(Error::TableNotFound(n)) && n@ == name
    }
}

/// Whether table `name` can be reached in `db`.
pub open spec fn reachable(db: Map<Seq<char>, TableContent>, name: Seq<char>) -> bool {
    valid_table_name(name) && db.contains_key(name)
}

/// The message for a new table.
pub open spec fn created_msg(name: Seq<char>) -> Seq<char> {
    "Table '"@ + name + "' created."@
}

/// The message for a dropped table.
pub open spec fn dropped_msg(name: Seq<char>) -> Seq<char> {
    "Table '"@ + name + "' dropped."@
}

/// The listing of table names.
pub open spec fn listing_text(names: Seq<Seq<char>>) -> Seq<char> {
    if names.len() == 0 {
        "No tables found."@
    } else {
        join(names, "\n"@)
    }
}

/// The message for a row with the wrong number of values.
pub open spec fn mismatch_msg(expected: nat, got: nat) -> Seq<char> {
    "Column count mismatch: expected "@ + decimal(expected) + ", got "@ + decimal(got)
}

/// The message for a command that the executor does not run.
pub open spec fn unsupported_msg() -> Seq<char> {
    "Unsupported statement"@
}

/// The content `t` once its rows are `rows`, written and read back.
pub open spec fn with_rows(t: TableContent, rows: Seq<Seq<Cell>>) -> TableContent {
    crate::storage::written(t, rows)
}

/// Whether running `stmt` on the tables `before` leaves `after` and
/// answers `r`.
pub open spec fn executed(
    stmt: StatementModel,
    before: Map<Seq<char>, TableContent>,
    after: Map<Seq<char>, TableContent>,
    r: Result<String, Error>,
) -> bool {
    match stmt {
        StatementModel::CreateTable { name, columns } => if !valid_table_name(name) {
            after == before && lookup_refused(name, r)
        } else if before.contains_key(name) {
            after == before && (r matches Err(Error::TableExists(n)) && n@ == name)
        } else {
            after == before.insert(name, new_content(columns)) && answers(r, created_msg(name))
        },
        StatementModel::DropTable(name) => if !valid_table_name(name) {
            after == before && lookup_refused(name, r)
        } else {
            after == before.remove(name) && answers(r, dropped_msg(name))
        },
        StatementModel::ShowTables => after == before && exists|names: Seq<Seq<char>>|
            listing(before, names) && #[trigger] answers(r, listing_text(names)),
        StatementModel::Insert { table, values } => if !reachable(before, table) {
            after == before && lookup_refused(table, r)
        } else if values.len() != before[table].columns.len() {
            after == before && (r matches Err(Error::InvalidInput(m)) && m@ == mismatch_msg(
                before[table].columns.len(),
                values.len(),
            ))
        } else {
            after == before.insert(table, with_rows(before[table], before[table].rows.push(values)))
                && answers(r, "1 row inserted."@)
        },
        StatementModel::Select { columns, table, filter } => after == before && if !reachable(
            before,
            table,
        ) {
            lookup_refused(table, r)
        } else {
            let t = before[table];
            let e = match filter {
                Some(f) => f,
                None => ExprModel::True,
            };
            let kept = keep_rows(t.rows, filter_flags(t.rows, t.columns, e));
            match selection(t.columns, columns) {
                Err(c) => r matches Err(Error::ColumnNotFound(x)) && x@ == c,
                Ok(ix) => answers(
                    r,
                    table_text(
                        ix.map_values(|k: int| t.columns[k]),
                        kept.map_values(|row: Seq<Cell>| project(row, ix)),
                    ),
                ),
            }
        },
        StatementModel::Update { table, set_col, set_val, filter } => if !reachable(before, table) {
            after == before && lookup_refused(table, r)
        } else {
            let t = before[table];
            match first_index(t.columns, set_col) {
                None => after == before && (r matches Err(Error::ColumnNotFound(x)) && x@ == set_col),
                Some(ci) => {
                    let flags = filter_flags(t.rows, t.columns, filter);
                    after == before.insert(table, with_rows(t, update_flagged(t.rows, flags, ci, set_val)))
                        && answers(r, decimal(count_true(flags)) + " rows updated."@)
                },
            }
        },
        StatementModel::Delete { table, filter } => if !reachable(before, table) {
            after == before && lookup_refused(table, r)
        } else {
            let t = before[table];
            let flags = filter_flags(t.rows, t.columns, filter);
            after == before.insert(table, with_rows(t, keep_rows(t.rows, negate(flags))))
                && answers(r, decimal(count_true(flags)) + " rows deleted."@)
        },
        _ => after == before && (r matches Err(Error::InvalidInput(m)) && m@ == unsupported_msg()),
    }
}

/// The rows of `rows` for which `e` holds.
fn filter_rows(rows: &Vec<Row>, headers: &Vec<String>, e: &Expr) -> (r: Vec<Row>)
    requires
        forall|i: int| 0 <= i < rows@.len() ==> (#[trigger] rows@[i])@.len() == headers@.len(),
    ensures
        r.deep_view() == keep_rows(rows.deep_view(), filter_flags(rows.deep_view(), headers.deep_view(), e@)),
        forall|i: int| 0 <= i < r@.len() ==> (#[trigger] r@[i])@.len() == headers@.len(),
{
    let ghost rv = rows.deep_view();
    let ghost flags = filter_flags(rv, headers.deep_view(), e@);
    let mut kept: Vec<Row> = Vec::new();
    let mut i: usize = 0;
    while i < rows.len()
        invariant
            i <= rows@.len(),
            rv == rows.deep_view(),
            flags == filter_flags(rv, headers.deep_view(), e@),
            kept.deep_view() == keep_rows(rv.take(i as int), flags.take(i as int)),
            forall|j: int| 0 <= j < rows@.len() ==> (#[trigger] rows@[j])@.len() == headers@.len(),
            forall|j: int| 0 <= j < kept@.len() ==> (#[trigger] kept@[j])@.len() == headers@.len(),
        decreases rows@.len() - i,
    {
        let hit = eval_expr(rows[i].as_slice(), headers, e);
        proof {
            assert(rv[i as int] == rows@[i as int].deep_view());
            assert(flags.take(i + 1) =~= flags.take(i as int).push(hit));
            lemma_keep_rows_step(rv, flags.take(i as int), i as int, hit);
        }
        if hit {
            let copy = copy_row(rows[i].as_slice());
            push_row(&mut kept, copy);
        }
        i = i + 1;
    }
    proof {
        assert(rv.take(rows@.len() as int) =~= rv);
        assert(flags.take(rows@.len() as int) =~= flags);
    }
    kept
}

/// `INSERT`: appends a row after checking its number of values.
fn execute_insert(table: String, values: Vec<Value>, store: &mut TableStore) -> (r: Result<String, Error>)
    ensures
        executed(StatementModel::Insert { table: table@, values: values.deep_view() }, old(store)@, final(store)@, r),
{
        let (schema, _headers, mut rows) = match store.read_only(table.as_str()) {
            Ok(x) => x,
            Err(e) => {
                return Err(e);
            },
        };
        if values.len() != schema.columns.len() {
            let e1 = usize_chars(schema.columns.len());
            let e2 = usize_chars(values.len());
            let m1 = concat_str("Column count mismatch: expected ", string_of(e1.as_slice()).as_str());
            let m2 = concat_str(m1.as_str(), ", got ");
            let m3 = concat_str(m2.as_str(), string_of(e2.as_slice()).as_str());
            return Err(Error::InvalidInput(m3));
        }
        let ghost before_rows = rows.deep_view();
        let ghost vv = values.deep_view();
        rows.push(values);
        proof {
            assert(rows.deep_view() =~= before_rows.push(vv));
            assert forall|i: int| 0 <= i < rows@.len() implies (#[trigger] rows@[i])@.len()
                == store@[table@].columns.len() by {
                assert(rows.deep_view()[i] == rows@[i].deep_view());
            }
        }
        store.put_rows(table.as_str(), rows);
        Ok("1 row inserted.".to_string())
}

/// `SELECT`: the rows that the filter keeps, reduced to the columns named.
fn execute_select(columns: Vec<String>, table: String, filter: Option<Expr>, store: &TableStore) -> (r: Result<String, Error>)
    ensures
        executed(
            StatementModel::Select { columns: columns.deep_view(), table: table@, filter: crate::syntax::opt_expr_view(filter) },
            store@,
            store@,
            r,
        ),
{
        let (schema, headers, rows) = match store.read_only(table.as_str()) {
            Ok(x) => x,
            Err(e) => {
                return Err(e);
            },
        };
        let everything = Expr::True;
        let f: &Expr = match &filter {
            Some(x) => x,
            None => &everything,
        };
        proof {
            assert forall|i: int| 0 <= i < rows@.len() implies (#[trigger] rows@[i])@.len()
                == headers@.len() by {
                assert(rows.deep_view()[i] == rows@[i].deep_view());
            }
        }
        let kept = filter_rows(&rows, &headers, f);
        match project_rows(&schema, headers, kept, columns) {
            Err(e) => Err(e),
            Ok((h, rs)) => Ok(format_table(&h, &rs)),
        }
}

/// `UPDATE`: sets one column in every row that the filter keeps.
fn execute_update(table: String, set_col: String, set_val: Value, filter: Expr, store: &mut TableStore) -> (r: Result<String, Error>)
    ensures
        executed(
            StatementModel::Update { table: table@, set_col: set_col@, set_val: set_val@, filter: filter@ },
            old(store)@,
            final(store)@,
            r,
        ),
{
        let (schema, _headers, rows) = match store.read_only(table.as_str()) {
            Ok(x) => x,
            Err(e) => {
                return Err(e);
            },
        };
        let col_idx = match position_of(&schema.columns, set_col.as_str()) {
            Some(i) => i,
            None => {
                return Err(Error::ColumnNotFound(set_col.clone()));
            },
        };
        let ghost t = store@[table@];
        let ghost flags = filter_flags(t.rows, t.columns, filter@);
        let mut new_rows: Vec<Row> = Vec::new();
        let mut count: usize = 0;
        let mut i: usize = 0;
        while i < rows.len()
            invariant
                i <= rows@.len(),
                count <= i,
                col_idx < schema.columns@.len(),
                t.rows == rows.deep_view(),
                t.columns == schema.columns.deep_view(),
                content_fits(t),
                flags == filter_flags(t.rows, t.columns, filter@),
                count == count_true(flags.take(i as int)),
                new_rows.deep_view() == update_flagged(t.rows, flags, col_idx as int, set_val@).take(i as int),
                forall|j: int| 0 <= j < new_rows@.len() ==> (#[trigger] new_rows@[j])@.len() == schema.columns@.len(),
            decreases rows@.len() - i,
        {
            let mut row = copy_row(rows[i].as_slice());
            proof {
                assert(t.rows[i as int] == rows@[i as int].deep_view());
                assert(t.rows[i as int].len() == t.columns.len());
                assert(flags.take(i + 1) =~= flags.take(i as int).push(flags[i as int]));
                assert(flags.take(i + 1).drop_last() =~= flags.take(i as int));
            }
            let hit = eval_expr(row.as_slice(), &schema.columns, &filter);
            let ghost before_row = row.deep_view();
            if hit {
                let v = set_val.duplicate();
                row.set(col_idx, v);
                count = count + 1;
                proof {
                    assert(row.deep_view() =~= before_row.update(col_idx as int, set_val@));
                }
            }
            let ghost prev = new_rows.deep_view();
            new_rows.push(row);
            proof {
                assert(new_rows.deep_view() =~= prev.push(row.deep_view()));
                assert(update_flagged(t.rows, flags, col_idx as int, set_val@).take(i + 1)
                    =~= update_flagged(t.rows, flags, col_idx as int, set_val@).take(i as int).push(
                    row.deep_view(),
                ));
            }
            i = i + 1;
        }
        proof {
            assert(update_flagged(t.rows, flags, col_idx as int, set_val@).take(rows@.len() as int)
                =~= update_flagged(t.rows, flags, col_idx as int, set_val@));
            assert(flags.take(rows@.len() as int) =~= flags);
            assert forall|j: int| 0 <= j < new_rows@.len() implies (#[trigger] new_rows@[j])@.len()
                == store@[table@].columns.len() by {
                assert(new_rows@[j]@.len() == schema.columns@.len());
            }
        }
        store.put_rows(table.as_str(), new_rows);
        let c = usize_chars(count);
        let mut out: Vec<char> = Vec::new();
        extend_chars(&mut out, c.as_slice());
        extend_str(&mut out, " rows updated.");
        Ok(string_of(out.as_slice()))
}

/// `DELETE`: removes every row that the filter keeps.
fn execute_delete(table: String, filter: Expr, store: &mut TableStore) -> (r: Result<String, Error>)
    ensures
        executed(StatementModel::Delete { table: table@, filter: filter@ }, old(store)@, final(store)@, r),
{
        let (schema, _headers, rows) = match store.read_only(table.as_str()) {
            Ok(x) => x,
            Err(e) => {
                return Err(e);
            },
        };
        let ghost t = store@[table@];
        let ghost flags = filter_flags(t.rows, t.columns, filter@);
        let ghost keep = negate(flags);
        let mut kept: Vec<Row> = Vec::new();
        let mut removed: usize = 0;
        let mut i: usize = 0;
        while i < rows.len()
            invariant
                i <= rows@.len(),
                removed <= i,
                t.rows == rows.deep_view(),
                t.columns == schema.columns.deep_view(),
                content_fits(t),
                flags == filter_flags(t.rows, t.columns, filter@),
                keep == negate(flags),
                removed == count_true(flags.take(i as int)),
                kept.deep_view() == keep_rows(t.rows.take(i as int), keep.take(i as int)),
                forall|j: int| 0 <= j < kept@.len() ==> (#[trigger] kept@[j])@.len() == schema.columns@.len(),
            decreases rows@.len() - i,
        {
            let hit = eval_expr(rows[i].as_slice(), &schema.columns, &filter);
            proof {
                assert(t.rows[i as int] == rows@[i as int].deep_view());
                assert(t.rows[i as int].len() == t.columns.len());
                assert(flags.take(i + 1) =~= flags.take(i as int).push(hit));
                assert(flags.take(i + 1).drop_last() =~= flags.take(i as int));
                assert(keep.take(i + 1) =~= keep.take(i as int).push(!hit));
                lemma_keep_rows_step(t.rows, keep.take(i as int), i as int, !hit);
            }
            if hit {
                removed = removed + 1;
            } else {
                let copy = copy_row(rows[i].as_slice());
                push_row(&mut kept, copy);
            }
            i = i + 1;
        }
        proof {
            assert(t.rows.take(rows@.len() as int) =~= t.rows);
            assert(keep.take(rows@.len() as int) =~= keep);
            assert(flags.take(rows@.len() as int) =~= flags);
            assert forall|j: int| 0 <= j < kept@.len() implies (#[trigger] kept@[j])@.len()
                == store@[table@].columns.len() by {
                assert(kept@[j]@.len() == schema.columns@.len());
            }
        }
        store.put_rows(table.as_str(), kept);
        let c = usize_chars(removed);
        let mut out: Vec<char> = Vec::new();
        extend_chars(&mut out, c.as_slice());
        extend_str(&mut out, " rows deleted.");
        Ok(string_of(out.as_slice()))
}

/// Runs one command against the tables of `store`.
pub fn execute(stmt: Statement, store: &mut TableStore) -> (r: Result<String, Error>)
    ensures
        executed(stmt@, old(store)@, final(store)@, r),
{
    match stmt {
        Statement::CreateTable { name, columns } => {
            match store.create_table(name.as_str(), columns) {
                Err(e) => Err(e),
                Ok(()) => {
                    let m1 = concat_str("Table '", name.as_str());
                    Ok(concat_str(m1.as_str(), "' created."))
                },
            }
        },
        Statement::DropTable(name) => {
            match store.drop_table(name.as_str()) {
                Err(e) => Err(e),
                Ok(()) => {
                    let m1 = concat_str("Table '", name.as_str());
                    Ok(concat_str(m1.as_str(), "' dropped."))
                },
            }
        },
        Statement::ShowTables => {
            let tables = store.list_tables();
            let out = if tables.len() == 0 {
                "No tables found.".to_string()
            } else {
                join_strings(&tables, "\n")
            };
            proof {
                assert(listing(store@, tables.deep_view()));
                assert(answers(Ok::<String, Error>(out), listing_text(tables.deep_view())));
            }
            Ok(out)
        },
        Statement::Insert { table, values } => execute_insert(table, values, store),
        Statement::Select { columns, table, filter } => execute_select(columns, table, filter, store),
        Statement::Update { table, set_col, set_val, filter } => execute_update(table, set_col, set_val, filter, store),
        Statement::Delete { table, filter } => execute_delete(table, filter, store),
        _ => Err(Error::InvalidInput("Unsupported statement".to_string())),
    }
}


// ---------------------------------------------------------------------------
// Laws
// ---------------------------------------------------------------------------

pub proof fn lemma_keep_all(rows: Seq<Seq<Cell>>, flags: Seq<bool>)
    requires
        flags.len() == rows.len(),
        forall|i: int| 0 <= i < flags.len() ==> #[trigger] flags[i],
    ensures
        keep_rows(rows, flags) == rows,
    decreases rows.len(),
{
    if rows.len() > 0 {
        lemma_keep_all(rows.drop_last(), flags.drop_last());
        assert(rows.drop_last().push(rows.last()) =~= rows);
    }
}

/// Whether `row` is a flagged row of `rows`.
pub open spec fn flagged_row(rows: Seq<Seq<Cell>>, flags: Seq<bool>, row: Seq<Cell>) -> bool {
    exists|i: int| 0 <= i < rows.len() && flags[i] && rows[i] == row
}

pub proof fn lemma_keep_rows_members(rows: Seq<Seq<Cell>>, flags: Seq<bool>)
    requires
        flags.len() == rows.len(),
    ensures
        forall|j: int| 0 <= j < keep_rows(rows, flags).len() ==> flagged_row(rows, flags, #[trigger] keep_rows(rows, flags)[j]),
    decreases rows.len(),
{
    if rows.len() > 0 {
        lemma_keep_rows_members(rows.drop_last(), flags.drop_last());
        let prev = keep_rows(rows.drop_last(), flags.drop_last());
        assert forall|j: int| 0 <= j < keep_rows(rows, flags).len() implies flagged_row(rows, flags, #[trigger] keep_rows(rows, flags)[j]) by {
            if j < prev.len() {
                assert(prev[j] == keep_rows(rows, flags)[j]);
                assert(flagged_row(rows.drop_last(), flags.drop_last(), prev[j]));
                let i = choose|i: int|
                    0 <= i < rows.drop_last().len() && flags.drop_last()[i] && rows.drop_last()[i] == prev[j];
                assert(rows[i] == rows.drop_last()[i]);
                assert(0 <= i < rows.len() && flags[i] && rows[i] == keep_rows(rows, flags)[j]);
            } else {
                let last = rows.len() - 1;
                assert(flags[last]);
                assert(rows[last] == keep_rows(rows, flags)[j]);
                assert(0 <= last < rows.len() && flags[last] && rows[last] == keep_rows(rows, flags)[j]);
            }
        }
    }
}

/// A row inserted into a table is, after it, the last row that a
/// `SELECT *` without filter lists, as it reads back from the table's file:
/// the listing is the table's columns over the rows it had, then the new
/// row.
pub proof fn law_select_all_after_insert(
    before: Map<Seq<char>, TableContent>,
    mid: Map<Seq<char>, TableContent>,
    after: Map<Seq<char>, TableContent>,
    table: Seq<char>,
    values: Seq<Cell>,
    r1: Result<String, Error>,
    r2: Result<String, Error>,
)
    requires
        before.contains_key(table) ==> content_fits(before[table]),
        executed(StatementModel::Insert { table, values }, before, mid, r1),
        r1 is Ok,
        executed(
            StatementModel::Select { columns: seq!["*"@], table, filter: None },
            mid,
            after,
            r2,
        ),
    ensures
        after == mid,
        answers(
            r2,
            table_text(
                before[table].columns,
                before[table].rows.push(stored_row(values, before[table].types)),
            ),
        ),
{
    let t = mid[table];
    let rows = t.rows;
    let b = before[table];
    assert(t.columns == b.columns);
    assert(rows =~= b.rows.push(stored_row(values, b.types))) by {
        assert forall|i: int| 0 <= i < rows.len() implies rows[i] == b.rows.push(stored_row(values, b.types))[i] by {
            if i < b.rows.len() {
                assert(stored_row(b.rows[i], b.types) == b.rows[i]);
            }
        }
    }
    let flags = filter_flags(rows, t.columns, ExprModel::True);
    lemma_keep_all(rows, flags);
    let ix = Seq::new(t.columns.len(), |i: int| i);
    assert(selection(t.columns, seq!["*"@]) == Ok::<Seq<int>, Seq<char>>(ix));
    assert(ix.map_values(|k: int| t.columns[k]) =~= t.columns);
    assert forall|i: int| 0 <= i < rows.len() implies #[trigger] project(rows[i], ix) == rows[i] by {
        if i < rows.len() - 1 {
            assert(rows[i] == b.rows[i]);
        }
        assert(project(rows[i], ix) =~= rows[i]);
    }
    assert(rows.map_values(|row: Seq<Cell>| project(row, ix)) =~= rows);
}

/// After a `DELETE`, no row of the table satisfies its filter, and the
/// number reported plus the rows left is the number of rows before.
pub proof fn law_delete_removes_matches(
    before: Map<Seq<char>, TableContent>,
    after: Map<Seq<char>, TableContent>,
    table: Seq<char>,
    filter: ExprModel,
    r: Result<String, Error>,
)
    requires
        before.contains_key(table) ==> content_fits(before[table]),
        executed(StatementModel::Delete { table, filter }, before, after, r),
        r is Ok,
    ensures
        after.contains_key(table),
        forall|i: int| 0 <= i < after[table].rows.len() ==> !holds(
            #[trigger] after[table].rows[i],
            after[table].columns,
            filter,
        ),
        exists|n: nat| #[trigger] answers(r, decimal(n) + " rows deleted."@) && n + after[table].rows.len()
            == before[table].rows.len(),
{
    let t = before[table];
    let flags = filter_flags(t.rows, t.columns, filter);
    let keep = negate(flags);
    lemma_keep_rows_members(t.rows, keep);
    lemma_keep_rows_len(t.rows, keep);
    lemma_count_negate(flags);
    let kept = keep_rows(t.rows, keep);
    assert(after[table].rows =~= kept) by {
        assert forall|i: int| 0 <= i < kept.len() implies stored_row(#[trigger] kept[i], t.types) == kept[i] by {
            assert(flagged_row(t.rows, keep, kept[i]));
            let k = choose|k: int| 0 <= k < t.rows.len() && keep[k] && t.rows[k] == kept[i];
            assert(stored_row(t.rows[k], t.types) == t.rows[k]);
        }
    }
    assert forall|i: int| 0 <= i < after[table].rows.len() implies !holds(
        #[trigger] after[table].rows[i],
        after[table].columns,
        filter,
    ) by {
        assert(flagged_row(t.rows, keep, keep_rows(t.rows, keep)[i]));
        let k = choose|k: int| 0 <= k < t.rows.len() && keep[k] && t.rows[k] == keep_rows(t.rows, keep)[i];
        assert(!flags[k]);
    }
    assert(answers(r, decimal(count_true(flags)) + " rows deleted."@));
}

proof fn lemma_count_negate(flags: Seq<bool>)
    ensures
        count_true(negate(flags)) + count_true(flags) == flags.len(),
    decreases flags.len(),
{
    if flags.len() > 0 {
        lemma_count_negate(flags.drop_last());
        assert(negate(flags).drop_last() =~= negate(flags.drop_last()));
    }
}

/// Creating a table that was not there and then dropping it leaves the
/// tables as they were.
pub proof fn law_create_then_drop(
    before: Map<Seq<char>, TableContent>,
    mid: Map<Seq<char>, TableContent>,
    after: Map<Seq<char>, TableContent>,
    name: Seq<char>,
    columns: Seq<Seq<char>>,
    r1: Result<String, Error>,
    r2: Result<String, Error>,
)
    requires
        executed(StatementModel::CreateTable { name, columns }, before, mid, r1),
        r1 is Ok,
        executed(StatementModel::DropTable(name), mid, after, r2),
    ensures
        after == before,
        answers(r2, dropped_msg(name)),
{
    assert(after =~= before);
}

/// A table that was created is listed by `SHOW TABLES` after it.
pub proof fn law_show_after_create(
    before: Map<Seq<char>, TableContent>,
    mid: Map<Seq<char>, TableContent>,
    after: Map<Seq<char>, TableContent>,
    name: Seq<char>,
    columns: Seq<Seq<char>>,
    r1: Result<String, Error>,
    r2: Result<String, Error>,
)
    requires
        executed(StatementModel::CreateTable { name, columns }, before, mid, r1),
        r1 is Ok,
        executed(StatementModel::ShowTables, mid, after, r2),
    ensures
        exists|names: Seq<Seq<char>>| #[trigger] listing(mid, names) && answers(r2, listing_text(names)) && names.contains(name),
{
    let names = choose|names: Seq<Seq<char>>| listing(mid, names) && #[trigger] answers(r2, listing_text(names));
    assert(mid.contains_key(name));
    let i = choose|i: int| 0 <= i < names.len() && names[i] == name;
    assert(names.contains(name));
}

} // verus!
