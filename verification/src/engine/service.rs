//! The table services of the file-backed engine, over the tables of a
//! data directory: filters, display and the row operations.
use vstd::prelude::*;
use crate::data::{count_true, keep_rows, lemma_keep_rows_step, negate, project, update_flagged};
use crate::database::byte_len;
use crate::engine::statement::{ClauseModel, ComparisonOp, WhereClause};
use crate::error::Error;
use crate::storage::{content_fits, new_content, valid_table_name, invalid_name_msg, TableContent, TableStore};
use crate::text::{
    chars_of, concat_str, extend_chars, extend_str, find_char, first_index, lemma_first_index,
    position_of, push_string, slice_chars, str_eq, str_less, str_lt, string_of, trim, trim_chars,
};
use crate::types::{cell_text, copy_row, push_row, value_eq, Cell, Row, Value};

verus! {

// ---------------------------------------------------------------------------
// Comparing and matching values
// ---------------------------------------------------------------------------

/// The order of two sequences of characters: -1, 0 or 1.
pub open spec fn text_order(a: Seq<char>, b: Seq<char>) -> int {
    if str_lt(a, b) {
        -1
    } else if a == b {
        0
    } else {
        1
    }
}

/// The order of two values: integers by value, texts by character, and
/// any other pair by their text forms.
pub open spec fn value_order(a: Cell, b: Cell) -> int {
    match (a, b) {
        (Cell::Int(x), Cell::Int(y)) => if x < y {
            -1
        } else if x == y {
            0
        } else {
            1
        },
        (Cell::Text(x), Cell::Text(y)) => text_order(x, y),
        _ => text_order(cell_text(a), cell_text(b)),
    }
}

fn text_compare(a: &[char], b: &[char]) -> (r: i8)
    ensures
        r == text_order(a@, b@),
{
    if str_less(a, b) {
        -1
    } else if crate::text::chars_eq(a, b) {
        0
    } else {
        1
    }
}

/// Compares two values: -1, 0 or 1.
fn compare_values(a: &Value, b: &Value) -> (r: i8)
    ensures
        r == value_order(a@, b@),
{
    match (a, b) {
        (Value::Int(x), Value::Int(y)) => if *x < *y {
            -1
        } else if *x == *y {
            0
        } else {
            1
        },
        (Value::Text(x), Value::Text(y)) => {
            let xc = chars_of(x.as_str());
            let yc = chars_of(y.as_str());
            text_compare(xc.as_slice(), yc.as_slice())
        },
        _ => {
            let xc = a.text_chars();
            let yc = b.text_chars();
            text_compare(xc.as_slice(), yc.as_slice())
        },
    }
}

/// Whether `s` matches the pattern `p`, character by character: `%`
/// matches any run (a `%` before more pattern needs a non-empty rest of
/// text to try), `_` any one character.
pub open spec fn pattern_match(s: Seq<char>, p: Seq<char>) -> bool
    decreases p.len(), 0int,
{
    if p.len() == 0 {
        s.len() == 0
    } else if p[0] == '%' {
        if p.len() == 1 {
            true
        } else {
            some_suffix_matches(s, p.drop_first(), 0)
        }
    } else if p[0] == '_' {
        s.len() > 0 && pattern_match(s.drop_first(), p.drop_first())
    } else {
        s.len() > 0 && s[0] == p[0] && pattern_match(s.drop_first(), p.drop_first())
    }
}

/// Whether some non-empty suffix of `s` from index `k` on matches `p`.
pub open spec fn some_suffix_matches(s: Seq<char>, p: Seq<char>, k: int) -> bool
    decreases p.len(), 1 + s.len() - k,
{
    if 0 <= k < s.len() {
        pattern_match(s.skip(k), p) || some_suffix_matches(s, p, k + 1)
    } else {
        false
    }
}

fn match_from(s: &Vec<char>, i0: usize, p: &Vec<char>, j0: usize) -> (r: bool)
    requires
        i0 <= s@.len(),
        j0 <= p@.len(),
    ensures
        r == pattern_match(s@.skip(i0 as int), p@.skip(j0 as int)),
    decreases p@.len() - j0,
{
    let mut i = i0;
    let mut j = j0;
    loop
        invariant
            i0 <= i <= s@.len(),
            j0 <= j <= p@.len(),
            pattern_match(s@.skip(i0 as int), p@.skip(j0 as int)) == pattern_match(s@.skip(i as int), p@.skip(j as int)),
        decreases p@.len() - j,
    {
        let ghost sv = s@.skip(i as int);
        let ghost pv = p@.skip(j as int);
        if j >= p.len() {
            return i >= s.len();
        }
        proof {
            assert(pv[0] == p@[j as int]);
            assert(pv.drop_first() =~= p@.skip(j + 1));
            if i < s.len() {
                assert(sv[0] == s@[i as int]);
                assert(sv.drop_first() =~= s@.skip(i + 1));
            }
        }
        if p[j] == '%' {
            j = j + 1;
            if j == p.len() {
                proof {
                    assert(pv.len() == 1);
                    assert(pv[0] == '%');
                    assert(pattern_match(sv, pv));
                }
                return true;
            }
            let mut k = i;
            proof {
                assert(pv.drop_first() =~= p@.skip(j as int));
                assert(pattern_match(sv, pv) == some_suffix_matches(sv, p@.skip(j as int), 0));
            }
            while k < s.len()
                invariant
                    i <= k <= s@.len(),
                    j0 < j <= p@.len(),
                    sv == s@.skip(i as int),
                    pattern_match(s@.skip(i0 as int), p@.skip(j0 as int)) == some_suffix_matches(sv, p@.skip(j as int), 0),
                    some_suffix_matches(sv, p@.skip(j as int), 0) == some_suffix_matches(sv, p@.skip(j as int), k - i),
                decreases s@.len() - k,
            {
                proof {
                    assert(sv.skip(k - i) =~= s@.skip(k as int));
                }
                if match_from(s, k, p, j) {
                    return true;
                }
                k = k + 1;
            }
            return false;
        } else if p[j] == '_' {
            if i >= s.len() {
                return false;
            }
            i = i + 1;
            j = j + 1;
        } else {
            if i >= s.len() || s[i] != p[j] {
                return false;
            }
            i = i + 1;
            j = j + 1;
        }
    }
}

/// Whether the text form of `a` matches the text form of `b` as a pattern.
fn cell_like(a: &Value, b: &Value) -> (r: bool)
    ensures
        r == pattern_match(cell_text(a@), cell_text(b@)),
{
    let x = a.to_string_cmp();
    let y = b.to_string_cmp();
    like_match(x.as_str(), y.as_str())
}

/// Whether `s` matches the pattern `pat`.
fn like_match(s: &str, pat: &str) -> (r: bool)
    ensures
        r == pattern_match(s@, pat@),
{
    let sc = chars_of(s);
    let pc = chars_of(pat);
    proof {
        assert(sc@.skip(0) =~= sc@);
        assert(pc@.skip(0) =~= pc@);
    }
    match_from(&sc, 0, &pc, 0)
}

/// Whether `cell` stands in relation `op` to `v`.
pub open spec fn compares(op: ComparisonOp, cell: Cell, v: Cell) -> bool {
    match op {
        ComparisonOp::Eq => cell == v,
        ComparisonOp::Ne => cell != v,
        ComparisonOp::Lt => value_order(cell, v) == -1,
        ComparisonOp::Gt => value_order(cell, v) == 1,
        ComparisonOp::Le => value_order(cell, v) != 1,
        ComparisonOp::Ge => value_order(cell, v) != -1,
        ComparisonOp::Like => pattern_match(cell_text(cell), cell_text(v)),
    }
}

/// Whether the filter `c` holds of `row`; a comparison with a column that
/// is not there does not hold.
pub open spec fn clause_holds(row: Seq<Cell>, headers: Seq<Seq<char>>, c: ClauseModel) -> bool
    decreases c,
{
    match c {
        ClauseModel::Condition { column, operator, value } => match first_index(headers, column) {
            Some(i) => compares(operator, row[i], value),
            None => false,
        },
        ClauseModel::And(a, b) => clause_holds(row, headers, *a) && clause_holds(row, headers, *b),
        ClauseModel::Or(a, b) => clause_holds(row, headers, *a) || clause_holds(row, headers, *b),
    }
}

/// A condition on column `col` with value `v` and the operator `op`.
pub open spec fn condition(col: Seq<char>, op: ComparisonOp, v: Cell) -> ClauseModel {
    ClauseModel::Condition { column: col, operator: op, value: v }
}

/// How the comparison conditions of one column and one value relate on any
/// row: a row whose cell equals the value satisfies `<=` and `>=` and
/// neither `<` nor `>`; `<` and `>` never hold together; `<=` is "not `>`",
/// `>=` is "not `<`" and `!=` is "not `=`" where the row has the column,
/// and none holds without it. On integers they compare the numbers, on
/// texts the characters.
pub proof fn law_where_comparisons(row: Seq<Cell>, headers: Seq<Seq<char>>, col: Seq<char>, v: Cell)
    ensures
        clause_holds(row, headers, condition(col, ComparisonOp::Eq, v)) ==> clause_holds(
            row,
            headers,
            condition(col, ComparisonOp::Le, v),
        ) && clause_holds(row, headers, condition(col, ComparisonOp::Ge, v)) && !clause_holds(
            row,
            headers,
            condition(col, ComparisonOp::Lt, v),
        ) && !clause_holds(row, headers, condition(col, ComparisonOp::Gt, v)),
        !(clause_holds(row, headers, condition(col, ComparisonOp::Lt, v)) && clause_holds(
            row,
            headers,
            condition(col, ComparisonOp::Gt, v),
        )),
        clause_holds(row, headers, condition(col, ComparisonOp::Le, v)) <==> first_index(headers, col) is Some
            && !clause_holds(row, headers, condition(col, ComparisonOp::Gt, v)),
        clause_holds(row, headers, condition(col, ComparisonOp::Ge, v)) <==> first_index(headers, col) is Some
            && !clause_holds(row, headers, condition(col, ComparisonOp::Lt, v)),
        clause_holds(row, headers, condition(col, ComparisonOp::Ne, v)) <==> first_index(headers, col) is Some
            && !clause_holds(row, headers, condition(col, ComparisonOp::Eq, v)),
        first_index(headers, col) matches Some(i) ==> (clause_holds(row, headers, condition(col, ComparisonOp::Eq, v))
            <==> row[i] == v),
        first_index(headers, col) matches Some(i) ==> row[i] matches Cell::Int(x) ==> v matches Cell::Int(y) ==> ((
        clause_holds(row, headers, condition(col, ComparisonOp::Lt, v)) <==> x < y) && (clause_holds(
            row,
            headers,
            condition(col, ComparisonOp::Le, v),
        ) <==> x <= y) && (clause_holds(row, headers, condition(col, ComparisonOp::Gt, v)) <==> x > y) && (
        clause_holds(row, headers, condition(col, ComparisonOp::Ge, v)) <==> x >= y)),
        first_index(headers, col) matches Some(i) ==> row[i] matches Cell::Text(x) ==> v matches Cell::Text(y) ==> ((
        clause_holds(row, headers, condition(col, ComparisonOp::Lt, v)) <==> str_lt(x, y)) && (clause_holds(
            row,
            headers,
            condition(col, ComparisonOp::Gt, v),
        ) <==> str_lt(y, x))),
{
    crate::text::lemma_str_lt_irreflexive(cell_text(v));
    match v {
        Cell::Text(y) => {
            crate::text::lemma_str_lt_irreflexive(y);
        },
        _ => {},
    }
    match first_index(headers, col) {
        Some(i) => {
            match (row[i], v) {
                (Cell::Text(x), Cell::Text(y)) => {
                    crate::text::lemma_str_lt_total(x, y);
                },
                _ => {},
            }
        },
        None => {},
    }
}

/// Whether evaluating the filter `c` on `row` reads only cells that `row`
/// has: a compared column is within the row, and the right side of an
/// `AND` (`OR`) is evaluated only when its left side holds (fails).
pub open spec fn where_in_row(row: Seq<Cell>, headers: Seq<Seq<char>>, c: ClauseModel) -> bool
    decreases c,
{
    match c {
        ClauseModel::Condition { column, operator, value } => match first_index(headers, column) {
            Some(i) => i < row.len(),
            None => true,
        },
        ClauseModel::And(a, b) => where_in_row(row, headers, *a) && (clause_holds(row, headers, *a) ==> where_in_row(
            row,
            headers,
            *b,
        )),
        ClauseModel::Or(a, b) => where_in_row(row, headers, *a) && (!clause_holds(row, headers, *a) ==> where_in_row(
            row,
            headers,
            *b,
        )),
    }
}

/// A row with one cell per header has every cell that a filter reads.
pub proof fn lemma_where_in_full_row(row: Seq<Cell>, headers: Seq<Seq<char>>, c: ClauseModel)
    requires
        row.len() == headers.len(),
    ensures
        where_in_row(row, headers, c),
    decreases c,
{
    match c {
        ClauseModel::Condition { column, operator, value } => {
            lemma_first_index(headers, column);
        },
        ClauseModel::And(a, b) => {
            lemma_where_in_full_row(row, headers, *a);
            lemma_where_in_full_row(row, headers, *b);
        },
        ClauseModel::Or(a, b) => {
            lemma_where_in_full_row(row, headers, *a);
            lemma_where_in_full_row(row, headers, *b);
        },
    }
}

/// Whether the filter `clause` holds of `row`.
pub fn eval_where(row: &[Value], headers: &Vec<String>, clause: &WhereClause) -> (r: bool)
    requires
        where_in_row(row.deep_view(), headers.deep_view(), clause@),
    ensures
        r == clause_holds(row.deep_view(), headers.deep_view(), clause@),
    decreases clause,
{
    match clause {
        WhereClause::Condition { column, operator, value } => {
            let idx = match position_of(headers, column.as_str()) {
                Some(i) => i,
                None => {
                    return false;
                },
            };
            let cell = &row[idx];
            proof {
                assert(row.deep_view()[idx as int] == row@[idx as int]@);
            }
            match operator {
                ComparisonOp::Eq => value_eq(cell, value),
                ComparisonOp::Ne => !value_eq(cell, value),
                ComparisonOp::Lt => compare_values(cell, value) == -1,
                ComparisonOp::Gt => compare_values(cell, value) == 1,
                ComparisonOp::Le => compare_values(cell, value) != 1,
                ComparisonOp::Ge => compare_values(cell, value) != -1,
                ComparisonOp::Like => cell_like(cell, value),
            }
        },
        WhereClause::And(a, b) => eval_where(row, headers, a) && eval_where(row, headers, b),
        WhereClause::Or(a, b) => eval_where(row, headers, a) || eval_where(row, headers, b),
    }
}


// ---------------------------------------------------------------------------
// Display
// ---------------------------------------------------------------------------

/// The text forms of the cells of each row.
pub open spec fn row_texts(rows: Seq<Seq<Cell>>) -> Seq<Seq<Seq<char>>> {
    rows.map_values(|row: Seq<Cell>| row.map_values(|c: Cell| cell_text(c)))
}

/// The width of each column: the largest byte length among its header
/// and the cells below it.
pub open spec fn widths(columns: Seq<Seq<char>>, texts: Seq<Seq<Seq<char>>>) -> Seq<nat>
    decreases texts.len(),
{
    if texts.len() == 0 {
        columns.map_values(|c: Seq<char>| byte_len(c))
    } else {
        let w = widths(columns, texts.drop_last());
        let row = texts.last();
        Seq::new(
            w.len(),
            |i: int|
                if i < row.len() && byte_len(row[i]) > w[i] {
                    byte_len(row[i])
                } else {
                    w[i]
                },
        )
    }
}

/// `s` padded with spaces to `w` characters.
pub open spec fn pad(s: Seq<char>, w: nat) -> Seq<char> {
    if s.len() < w {
        s + Seq::new((w - s.len()) as nat, |i: int| ' ')
    } else {
        s
    }
}

/// Cells padded to their column widths, `" | "` between.
pub open spec fn padded_line(cells: Seq<Seq<char>>, w: Seq<nat>) -> Seq<char> {
    crate::text::join(Seq::new(cells.len(), |i: int| pad(cells[i], w[i])), " | "@)
}

/// A run of dashes under each column, `"-+-"` between.
pub open spec fn separator(w: Seq<nat>) -> Seq<char> {
    crate::text::join(w.map_values(|n: nat| crate::executor::dashes(n)), "-+-"@)
}

/// One padded line per row, each ended by a newline.
pub open spec fn padded_lines(texts: Seq<Seq<Seq<char>>>, w: Seq<nat>) -> Seq<char>
    decreases texts.len(),
{
    if texts.len() == 0 {
        Seq::empty()
    } else {
        padded_lines(texts.drop_last(), w) + padded_line(texts.last(), w) + "\n"@
    }
}

/// A result table as text, its columns padded to a common width.
pub open spec fn grid_text(columns: Seq<Seq<char>>, rows: Seq<Seq<Cell>>) -> Seq<char> {
    let texts = row_texts(rows);
    let w = widths(columns, texts);
    padded_line(columns, w) + "\n"@ + separator(w) + "\n"@ + if rows.len() == 0 {
        "(no rows)\n"@
    } else {
        padded_lines(texts, w)
    }
}

proof fn lemma_widths_len(columns: Seq<Seq<char>>, texts: Seq<Seq<Seq<char>>>)
    ensures
        widths(columns, texts).len() == columns.len(),
    decreases texts.len(),
{
    if texts.len() > 0 {
        lemma_widths_len(columns, texts.drop_last());
    }
}

/// Appends `s` padded with spaces to `w` characters.
fn push_padded(out: &mut Vec<char>, s: &str, w: usize)
    ensures
        final(out)@ == old(out)@ + pad(s@, w as nat),
{
    let cs = chars_of(s);
    extend_chars(out, cs.as_slice());
    let ghost mid = out@;
    if cs.len() < w {
        let mut k: usize = cs.len();
        while k < w
            invariant
                cs@.len() <= k <= w,
                out@ == mid + Seq::new((k - cs@.len()) as nat, |i: int| ' '),
            decreases w - k,
        {
            out.push(' ');
            proof {
                assert(Seq::new((k + 1 - cs@.len()) as nat, |i: int| ' ') =~= Seq::new(
                    (k - cs@.len()) as nat,
                    |i: int| ' ',
                ).push(' '));
            }
            k = k + 1;
        }
        proof {
            assert(out@ =~= old(out)@ + pad(s@, w as nat));
        }
    }
}

/// Appends the cells padded to the widths, `" | "` between.
fn push_padded_line(out: &mut Vec<char>, cells: &Vec<String>, w: &Vec<usize>)
    requires
        cells@.len() <= w@.len(),
    ensures
        final(out)@ == old(out)@ + padded_line(cells.deep_view(), w@.map_values(|x: usize| x as nat)),
{
    let ghost cv = cells.deep_view();
    let ghost wv = w@.map_values(|x: usize| x as nat);
    let ghost parts = Seq::new(cv.len(), |i: int| pad(cv[i], wv[i]));
    let ghost start = out@;
    let mut i: usize = 0;
    while i < cells.len()
        invariant
            i <= cells@.len() <= w@.len(),
            cv == cells.deep_view(),
            wv == w@.map_values(|x: usize| x as nat),
            parts == Seq::new(cv.len(), |i: int| pad(cv[i], wv[i])),
            out@ == start + crate::text::join(parts.take(i as int), " | "@),
        decreases cells@.len() - i,
    {
        let ghost before = out@;
        if i > 0 {
            extend_str(out, " | ");
        }
        push_padded(out, cells[i].as_str(), w[i]);
        proof {
            assert(cv[i as int] == cells@[i as int]@);
            assert(parts.take(i + 1).drop_last() =~= parts.take(i as int));
            assert(parts.take(i + 1).last() == pad(cells@[i as int]@, w@[i as int] as nat));
            if i == 0 {
                assert(crate::text::join(parts.take(1), " | "@) == parts.take(1)[0]);
            }
        }
        i = i + 1;
    }
    proof {
        assert(parts.take(cells@.len() as int) =~= parts);
    }
}

/// Writes a result table with every column padded to its widest entry.
pub fn format_table(columns: &Vec<String>, rows: &Vec<Row>) -> (r: String)
    requires
        forall|i: int| 0 <= i < rows@.len() ==> (#[trigger] rows@[i])@.len() <= columns@.len(),
    ensures
        r@ == grid_text(columns.deep_view(), rows.deep_view()),
{
    let ghost cols = columns.deep_view();
    let ghost texts = row_texts(rows.deep_view());
    let mut data: Vec<Vec<String>> = Vec::new();
    let mut k: usize = 0;
    while k < rows.len()
        invariant
            k <= rows@.len(),
            texts == row_texts(rows.deep_view()),
            data@.len() == k,
            forall|j: int| 0 <= j < k ==> (#[trigger] data@[j]).deep_view() == texts[j],
            forall|j: int| 0 <= j < k ==> (#[trigger] data@[j])@.len() == rows@[j]@.len(),
        decreases rows@.len() - k,
    {
        let fields = crate::storage::row_fields(rows[k].as_slice());
        proof {
            assert(rows.deep_view()[k as int] == rows@[k as int].deep_view());
            assert(fields.deep_view() =~= texts[k as int]);
        }
        data.push(fields);
        k = k + 1;
    }
    let mut w: Vec<usize> = Vec::new();
    let mut i: usize = 0;
    while i < columns.len()
        invariant
            i <= columns@.len(),
            cols == columns.deep_view(),
            w@.len() == i,
            w@.map_values(|x: usize| x as nat) == cols.take(i as int).map_values(|c: Seq<char>| byte_len(c)),
        decreases columns@.len() - i,
    {
        let ghost before = w@;
        w.push(columns[i].as_str().len());
        proof {
            assert(cols[i as int] == columns@[i as int]@);
            assert(w@[i as int] as nat == byte_len(cols[i as int]));
            assert forall|j: int| 0 <= j < i implies #[trigger] w@[j] as nat == byte_len(cols[j]) by {
                assert(w@[j] == before[j]);
                assert(before.map_values(|x: usize| x as nat)[j] == cols.take(i as int).map_values(|c: Seq<char>| byte_len(c))[j]);
            }
            assert(w@.map_values(|x: usize| x as nat) =~= cols.take(i + 1).map_values(|c: Seq<char>| byte_len(c)));
        }
        i = i + 1;
    }
    proof {
        assert(cols.take(columns@.len() as int) =~= cols);
        assert(texts.take(0) =~= Seq::<Seq<Seq<char>>>::empty());
    }
    let mut k: usize = 0;
    while k < data.len()
        invariant
            k <= data@.len(),
            data@.len() == rows@.len(),
            texts == row_texts(rows.deep_view()),
            texts.len() == rows@.len(),
            forall|j: int| 0 <= j < data@.len() ==> (#[trigger] data@[j]).deep_view() == texts[j],
            w@.len() == cols.len(),
            w@.map_values(|x: usize| x as nat) == widths(cols, texts.take(k as int)),
        decreases data@.len() - k,
    {
        let ghost before = w@.map_values(|x: usize| x as nat);
        let ghost row = texts[k as int];
        let mut i: usize = 0;
        while i < w.len()
            invariant
                i <= w@.len(),
                k < data@.len(),
                w@.len() == before.len(),
                row == data@[k as int].deep_view(),
                forall|j: int| i <= j < w@.len() ==> w@[j] as nat == before[j],
                forall|j: int| 0 <= j < i ==> w@[j] as nat == (if j < row.len() && byte_len(row[j]) > before[j] {
                    byte_len(row[j])
                } else {
                    before[j]
                }),
            decreases w@.len() - i,
        {
            if i < data[k].len() {
                let n = data[k][i].as_str().len();
                proof {
                    assert(row[i as int] == data@[k as int]@[i as int]@);
                }
                if n > w[i] {
                    w.set(i, n);
                }
            }
            i = i + 1;
        }
        proof {
            assert(texts.take(k + 1).drop_last() =~= texts.take(k as int));
            assert(texts.take(k + 1).last() == row);
            assert(w@.map_values(|x: usize| x as nat) =~= widths(cols, texts.take(k + 1)));
        }
        k = k + 1;
    }
    proof {
        assert(texts.take(data@.len() as int) =~= texts);
        lemma_widths_len(cols, texts);
    }
    let ghost wv = w@.map_values(|x: usize| x as nat);
    let mut out: Vec<char> = Vec::new();
    push_padded_line(&mut out, columns, &w);
    out.push('\n');
    let ghost before_sep = out@;
    let mut i: usize = 0;
    while i < w.len()
        invariant
            i <= w@.len(),
            wv == w@.map_values(|x: usize| x as nat),
            out@ == before_sep + crate::text::join(wv.take(i as int).map_values(|n: nat| crate::executor::dashes(n)), "-+-"@),
        decreases w@.len() - i,
    {
        if i > 0 {
            extend_str(&mut out, "-+-");
        }
        let ghost mid = out@;
        let mut d: usize = 0;
        while d < w[i]
            invariant
                i < w@.len(),
                d <= w@[i as int],
                out@ == mid + crate::executor::dashes(d as nat),
            decreases w@[i as int] - d,
        {
            out.push('-');
            proof {
                assert(crate::executor::dashes((d + 1) as nat) =~= crate::executor::dashes(d as nat).push('-'));
            }
            d = d + 1;
        }
        proof {
            let ds = wv.take(i + 1).map_values(|n: nat| crate::executor::dashes(n));
            assert(ds.drop_last() =~= wv.take(i as int).map_values(|n: nat| crate::executor::dashes(n)));
            assert(ds.last() == crate::executor::dashes(w@[i as int] as nat));
            if i == 0 {
                assert(crate::text::join(ds, "-+-"@) == ds[0]);
            }
        }
        i = i + 1;
    }
    proof {
        assert(wv.take(w@.len() as int) =~= wv);
    }
    out.push('\n');
    let ghost before_body = out@;
    if rows.len() == 0 {
        extend_str(&mut out, "(no rows)\n");
    } else {
        let mut k: usize = 0;
        while k < data.len()
            invariant
                k <= data@.len(),
                data@.len() == rows@.len(),
                texts.len() == rows@.len(),
                forall|j: int| 0 <= j < data@.len() ==> (#[trigger] data@[j]).deep_view() == texts[j],
                forall|j: int| 0 <= j < data@.len() ==> (#[trigger] data@[j])@.len() == rows@[j]@.len(),
                forall|j: int| 0 <= j < rows@.len() ==> (#[trigger] rows@[j])@.len() <= columns@.len(),
                w@.len() == columns@.len(),
                wv == w@.map_values(|x: usize| x as nat),
                out@ == before_body + padded_lines(texts.take(k as int), wv),
            decreases data@.len() - k,
        {
            push_padded_line(&mut out, &data[k], &w);
            out.push('\n');
            proof {
                assert(texts.take(k + 1).drop_last() =~= texts.take(k as int));
                assert(texts.take(k + 1).last() == data@[k as int].deep_view());
                reveal_strlit("\n");
            }
            k = k + 1;
        }
        proof {
            assert(texts.take(data@.len() as int) =~= texts);
        }
    }
    proof {
        reveal_strlit("\n");
    }
    string_of(out.as_slice())
}


// ---------------------------------------------------------------------------
// Row operations
// ---------------------------------------------------------------------------

/// Whether `r` is the error of reaching table `name` when it cannot be
/// reached: a bad name, or no such table.
pub open spec fn lookup_error<T>(name: Seq<char>, r: Result<T, Error>) -> bool {
    if !valid_table_name(name) {
        r matches Err(Error::InvalidInput(m)) && m@ == invalid_name_msg()
    } else {
        r matches Err(Error::TableNotFound(n)) && n@ == name
    }
}

/// Whether table `name` can be reached in `db`.
pub open spec fn reachable(db: Map<Seq<char>, TableContent>, name: Seq<char>) -> bool {
    valid_table_name(name) && db.contains_key(name)
}

/// The content `t` once its rows are `rows`, written and read back.
pub open spec fn with_rows(t: TableContent, rows: Seq<Seq<Cell>>) -> TableContent {
    crate::storage::written(t, rows)
}

/// Adds an empty table whose columns are all text.
pub fn create_table(store: &mut TableStore, name: &str, columns: &[String]) -> (r: Result<(), Error>)
    ensures
        !valid_table_name(name@) ==> (r matches Err(Error::InvalidInput(m)) && m@ == invalid_name_msg()),
        valid_table_name(name@) && old(store)@.contains_key(name@) ==> (r matches Err(Error::TableExists(n)) && n@ == name@),
        r is Ok <==> valid_table_name(name@) && !old(store)@.contains_key(name@),
        r is Ok ==> final(store)@ == old(store)@.insert(name@, new_content(columns.deep_view())),
        r is Err ==> final(store)@ == old(store)@,
{
    let mut cols: Vec<String> = Vec::new();
    let mut i: usize = 0;
    while i < columns.len()
        invariant
            i <= columns@.len(),
            cols.deep_view() == columns.deep_view().take(i as int),
        decreases columns@.len() - i,
    {
        let ghost before = cols.deep_view();
        push_string(&mut cols, columns[i].clone());
        proof {
            assert(columns.deep_view()[i as int] == columns@[i as int]@);
            assert(columns.deep_view().take(i + 1) =~= before.push(columns@[i as int]@));
        }
        i = i + 1;
    }
    proof {
        assert(columns.deep_view().take(columns@.len() as int) =~= columns.deep_view());
    }
    store.create_table(name, cols)
}

/// Whether the filter holds, row by row.
pub open spec fn clause_flags(rows: Seq<Seq<Cell>>, headers: Seq<Seq<char>>, c: ClauseModel) -> Seq<bool> {
    Seq::new(rows.len(), |i: int| clause_holds(rows[i], headers, c))
}

/// Removes the rows of `table` for which `condition` holds; returns how
/// many were removed. The table is written back only when some were.
pub fn delete_rows(store: &mut TableStore, table: &str, condition: &WhereClause) -> (r: Result<usize, Error>)
    ensures
        !reachable(old(store)@, table@) ==> lookup_error(table@, r) && final(store)@ == old(store)@,
        reachable(old(store)@, table@) ==> {
            let t = old(store)@[table@];
            let flags = clause_flags(t.rows, t.columns, condition@);
            &&& r matches Ok(n) && n == count_true(flags)
            &&& count_true(flags) > 0 ==> final(store)@ == old(store)@.insert(
                table@,
                with_rows(t, keep_rows(t.rows, negate(flags))),
            )
            &&& count_true(flags) == 0 ==> final(store)@ == old(store)@
        },
{
    let (_schema, headers, rows) = match store.read_only(table) {
        Ok(x) => x,
        Err(e) => {
            return Err(e);
        },
    };
    let ghost t = store@[table@];
    let ghost flags = clause_flags(t.rows, t.columns, condition@);
    let ghost keep = negate(flags);
    let mut kept: Vec<Row> = Vec::new();
    let mut deleted: usize = 0;
    let mut i: usize = 0;
    while i < rows.len()
        invariant
            i <= rows@.len(),
            deleted <= i,
            t.rows == rows.deep_view(),
            t.columns == headers.deep_view(),
            content_fits(t),
            flags == clause_flags(t.rows, t.columns, condition@),
            keep == negate(flags),
            deleted == count_true(flags.take(i as int)),
            kept.deep_view() == keep_rows(t.rows.take(i as int), keep.take(i as int)),
            forall|j: int| 0 <= j < kept@.len() ==> (#[trigger] kept@[j])@.len() == headers@.len(),
        decreases rows@.len() - i,
    {
        proof {
            assert(t.rows[i as int] == rows@[i as int].deep_view());
            assert(t.rows[i as int].len() == t.columns.len());
        }
        proof {
            lemma_where_in_full_row(rows@[i as int].deep_view(), headers.deep_view(), condition@);
        }
        let hit = eval_where(rows[i].as_slice(), &headers, condition);
        proof {
            assert(flags.take(i + 1) =~= flags.take(i as int).push(hit));
            assert(flags.take(i + 1).drop_last() =~= flags.take(i as int));
            assert(keep.take(i + 1) =~= keep.take(i as int).push(!hit));
            lemma_keep_rows_step(t.rows, keep.take(i as int), i as int, !hit);
        }
        if hit {
            deleted = deleted + 1;
        } else {
            let copy = copy_row(rows[i].as_slice());
            push_row(&mut kept, copy);
        }
        i = i + 1;
    }
    proof {
        assert(t.rows.take(rows@.len() as int) =~= t.rows);
        assert(keep.take(rows@.len() as int) =~= keep);
        assert(flags.take(rows@.len() as int) =~= flags);
    }
    if deleted > 0 {
        store.put_rows(table, kept);
    }
    Ok(deleted)
}

/// Whether value `v` may stand in a column of type `t`: an integer column
/// takes integers and text that reads as one.
pub open spec fn fits_type(t: Option<crate::types::ColumnType>, v: Cell) -> bool {
    match t {
        Some(crate::types::ColumnType::Int) => match v {
            Cell::Int(_) => true,
            Cell::Text(s) => crate::text::parse_i64(s) is Some,
            _ => false,
        },
        _ => true,
    }
}

/// The type of column `i`, if the schema has one.
pub open spec fn type_at(types: Seq<crate::types::ColumnType>, i: int) -> Option<crate::types::ColumnType> {
    if 0 <= i < types.len() {
        Some(types[i])
    } else {
        None
    }
}

/// The label of a value's variant.
pub open spec fn variant_label(v: Cell) -> Seq<char> {
    match v {
        Cell::Int(_) => "Int"@,
        Cell::Text(_) => "Text"@,
        Cell::Bool(_) => "Bool"@,
        Cell::Null => "Null"@,
    }
}

fn variant_name(v: &Value) -> (r: &'static str)
    ensures
        r@ == variant_label(v@),
{
    match v {
        Value::Int(_) => "Int",
        Value::Text(_) => "Text",
        Value::Bool(_) => "Bool",
        Value::Null => "Null",
    }
}

/// Whether value `v` may stand in column `i` of `schema`; a mismatch
/// names the column, the type it wants and the value's variant.
pub fn validate_value(schema: &crate::types::Schema, i: usize, v: &Value) -> (r: Result<(), Error>)
    requires
        i < schema.columns@.len(),
    ensures
        r is Ok <==> fits_type(type_at(schema.types@, i as int), v@),
        r matches Err(e) ==> (e matches Error::TypeMismatch { column, expected, actual } && column@
            == schema.columns@[i as int]@ && expected@ == "Int"@ && actual@ == variant_label(v@)),
{
    if i < schema.types.len() && schema.types[i] == crate::types::ColumnType::Int {
        let ok = match v {
            Value::Int(_) => true,
            Value::Text(s) => {
                let cs = chars_of(s.as_str());
                crate::text::parse_i64_chars(cs.as_slice()).is_some()
            },
            _ => false,
        };
        if !ok {
            return Err(
                Error::TypeMismatch {
                    column: schema.columns[i].clone(),
                    expected: "Int".to_string(),
                    actual: variant_name(v).to_string(),
                },
            );
        }
    }
    Ok(())
}

/// The index of the first value that does not fit its column's type.
pub open spec fn first_misfit(types: Seq<crate::types::ColumnType>, values: Seq<Cell>) -> Option<int> {
    if exists|i: int| 0 <= i < values.len() && !fits_type(type_at(types, i), #[trigger] values[i]) {
        Some(choose|i: int| 0 <= i < values.len() && !fits_type(type_at(types, i), #[trigger] values[i]) && forall|j: int| 0 <= j < i ==> fits_type(type_at(types, j), values[j]))
    } else {
        None
    }
}

proof fn lemma_first_misfit_at(types: Seq<crate::types::ColumnType>, vv: Seq<Cell>, w: int)
    requires
        0 <= w < vv.len(),
        !fits_type(type_at(types, w), vv[w]),
        forall|j: int| 0 <= j < w ==> fits_type(type_at(types, j), #[trigger] vv[j]),
    ensures
        first_misfit(types, vv) == Some(w),
{
    let c = choose|k: int| 0 <= k < vv.len() && !fits_type(type_at(types, k), #[trigger] vv[k]) && forall|j: int| 0 <= j < k ==> fits_type(type_at(types, j), vv[j]);
    if c < w {
        assert(fits_type(type_at(types, c), vv[c]));
    }
    if c > w {
        assert(fits_type(type_at(types, w), vv[w]));
    }
}

/// Adds a row to `table` after checking its number of values and their
/// types.
pub fn insert_row(store: &mut TableStore, table: &str, values: Vec<Value>) -> (r: Result<(), Error>)
    ensures
        !reachable(old(store)@, table@) ==> lookup_error(table@, r) && final(store)@ == old(store)@,
        reachable(old(store)@, table@) ==> {
            let t = old(store)@[table@];
            if values@.len() != t.columns.len() {
                &&& r matches Err(Error::ValueCountMismatch { expected, actual }) && expected == t.columns.len() && actual == values@.len()
                &&& final(store)@ == old(store)@
            } else {
                match first_misfit(t.types, values.deep_view()) {
                    Some(i) => {
                        &&& r matches Err(Error::TypeMismatch { column, expected, actual }) && column@ == t.columns[i]
                            && expected@ == "Int"@ && actual@ == variant_label(values.deep_view()[i])
                        &&& final(store)@ == old(store)@
                    },
                    None => {
                        &&& r is Ok
                        &&& final(store)@ == old(store)@.insert(table@, with_rows(t, t.rows.push(values.deep_view())))
                    },
                }
            }
        },
{
    let (schema, headers, mut rows) = match store.read_only(table) {
        Ok(x) => x,
        Err(e) => {
            return Err(e);
        },
    };
    if values.len() != headers.len() {
        return Err(Error::ValueCountMismatch { expected: headers.len(), actual: values.len() });
    }
    let ghost vv = values.deep_view();
    let ghost types = schema.types@;
    let ghost t = store@[table@];
    proof {
        assert(schema.columns.deep_view().len() == schema.columns@.len());
        assert(headers.deep_view().len() == headers@.len());
    }
    let mut i: usize = 0;
    while i < values.len()
        invariant
            i <= values@.len(),
            values@.len() == schema.columns@.len(),
            vv == values.deep_view(),
            vv.len() == values@.len(),
            types == schema.types@,
            store@ == old(store)@,
            reachable(old(store)@, table@),
            t == old(store)@[table@],
            t.types == types,
            t.columns == schema.columns.deep_view(),
            t.columns.len() == values@.len(),
            forall|j: int| 0 <= j < i ==> fits_type(type_at(types, j), #[trigger] vv[j]),
        decreases values@.len() - i,
    {
        proof {
            assert(vv[i as int] == values@[i as int]@);
        }
        match validate_value(&schema, i, &values[i]) {
            Ok(()) => {},
            Err(e) => {
                proof {
                    let w = i as int;
                    lemma_first_misfit_at(types, vv, w);
                    assert(schema.columns@[w]@ == schema.columns.deep_view()[w]);
                }
                return Err(e);
            },
        }
        i = i + 1;
    }
    proof {
        assert(!exists|k: int| 0 <= k < vv.len() && !fits_type(type_at(types, k), #[trigger] vv[k]));
    }
    let ghost before_rows = rows.deep_view();
    rows.push(values);
    proof {
        assert(rows.deep_view() =~= before_rows.push(vv));
        assert forall|k: int| 0 <= k < rows@.len() implies (#[trigger] rows@[k])@.len() == store@[table@].columns.len() by {
            assert(rows.deep_view()[k] == rows@[k].deep_view());
        }
    }
    store.put_rows(table, rows);
    Ok(())
}

/// A `column=value` assignment: the column before the first `=`, the
/// trimmed text after it without enclosing quotes.
pub open spec fn assignment_spec(assign: Seq<char>) -> Option<Result<(Seq<char>, Cell), Seq<char>>> {
    match crate::text::seq_find(assign, '=') {
        None => Some(Err("Missing '=' in assignment"@)),
        Some(e) => {
            let raw = trim(assign.skip(e + 1));
            if raw.len() > 0 && raw[0] == '\'' && raw[raw.len() - 1] == '\'' {
                if raw.len() < 2 {
                    None
                } else {
                    Some(Ok((assign.take(e), Cell::Text(raw.subrange(1, raw.len() - 1)))))
                }
            } else {
                Some(Ok((assign.take(e), Cell::Text(raw))))
            }
        },
    }
}

/// Reads a `column=value` assignment.
pub fn parse_assignment(assign: &str) -> (r: Result<(String, Value), Error>)
    requires
        assignment_spec(assign@) is Some,
    ensures
        match assignment_spec(assign@)->0 {
            Ok((c, v)) => r matches Ok((x, y)) && x@ == c && y@ == v,
            Err(m) => r matches Err(Error::Parse(e)) && e@ == m,
        },
{
    let cs = chars_of(assign);
    let eq = match find_char(cs.as_slice(), '=') {
        Some(e) => e,
        None => {
            return Err(Error::Parse("Missing '=' in assignment".to_string()));
        },
    };
    let col = slice_chars(cs.as_slice(), 0, eq);
    let rest = slice_chars(cs.as_slice(), eq + 1, cs.len());
    let raw = trim_chars(rest.as_slice());
    proof {
        assert(rest@ =~= assign@.skip(eq + 1));
        assert(col@ =~= assign@.take(eq as int));
    }
    let n = raw.len();
    let val = if n > 0 && raw[0] == '\'' && raw[n - 1] == '\'' {
        slice_chars(raw.as_slice(), 1, n - 1)
    } else {
        raw
    };
    Ok((string_of(col.as_slice()), Value::Text(string_of(val.as_slice()))))
}


/// The columns a selection names: all of them for `*` alone.
pub open spec fn selected_names(headers: Seq<Seq<char>>, columns: Seq<Seq<char>>) -> Seq<Seq<char>> {
    if columns.len() == 1 && columns[0] == "*"@ {
        headers
    } else {
        columns
    }
}

/// Whether each row has `v` in column `ci`.
pub open spec fn equal_flags(rows: Seq<Seq<Cell>>, ci: int, v: Cell) -> Seq<bool> {
    Seq::new(rows.len(), |i: int| rows[i][ci] == v)
}

/// The indices of the named columns, in order.
pub(crate) fn column_indices(headers: &Vec<String>, names: &Vec<String>, table: &str) -> (r: Result<Vec<usize>, Error>)
    ensures
        match crate::executor::resolve(headers.deep_view(), names.deep_view()) {
            Ok(ix) => r matches Ok(v) && v@.map_values(|x: usize| x as int) == ix && forall|k: int|
                0 <= k < v@.len() ==> (#[trigger] v@[k]) < headers@.len(),
            Err(c) => r matches Err(Error::ColumnNotInTable(x, t)) && x@ == c && t@ == table@,
        },
{
    let ghost hv = headers.deep_view();
    let ghost nv = names.deep_view();
    let mut ix: Vec<usize> = Vec::new();
    let mut k: usize = 0;
    proof {
        assert(nv.take(0) =~= Seq::<Seq<char>>::empty());
        assert(ix@.map_values(|x: usize| x as int) =~= Seq::<int>::empty());
    }
    while k < names.len()
        invariant
            k <= names@.len(),
            hv == headers.deep_view(),
            nv == names.deep_view(),
            crate::executor::resolve(hv, nv.take(k as int)) == Ok::<Seq<int>, Seq<char>>(ix@.map_values(|x: usize| x as int)),
            forall|j: int| 0 <= j < ix@.len() ==> (#[trigger] ix@[j]) < headers@.len(),
        decreases names@.len() - k,
    {
        proof {
            assert(nv.take(k + 1).drop_last() =~= nv.take(k as int));
            assert(nv.take(k + 1).last() == nv[k as int]);
            assert(nv[k as int] == names@[k as int]@);
        }
        match position_of(headers, names[k].as_str()) {
            Some(p) => {
                let ghost before = ix@;
                ix.push(p);
                proof {
                    assert(ix@.map_values(|x: usize| x as int) =~= before.map_values(|x: usize| x as int).push(p as int));
                }
            },
            None => {
                proof {
                    assert(crate::executor::resolve(hv, nv.take(k + 1)) == Err::<Seq<int>, Seq<char>>(nv[k as int]));
                    crate::executor::lemma_resolve_prefix_err(hv, nv, k + 1);
                }
                return Err(Error::ColumnNotInTable(names[k].clone(), table.to_string()));
            },
        }
        k = k + 1;
    }
    proof {
        assert(nv.take(names@.len() as int) =~= nv);
    }
    Ok(ix)
}

/// The names a selection stands for.
pub(crate) fn selection_names(headers: &Vec<String>, columns: &[String]) -> (r: Vec<String>)
    ensures
        r.deep_view() == selected_names(headers.deep_view(), columns.deep_view()),
{
    let ghost cv = columns.deep_view();
    let star = columns.len() == 1 && str_eq(columns[0].as_str(), "*");
    proof {
        if columns.len() == 1 {
            assert(cv[0] == columns@[0]@);
        }
    }
    let mut selected: Vec<String> = Vec::new();
    if star {
        let mut i: usize = 0;
        while i < headers.len()
            invariant
                i <= headers@.len(),
                selected.deep_view() == headers.deep_view().take(i as int),
            decreases headers@.len() - i,
        {
            let ghost before = selected.deep_view();
            push_string(&mut selected, headers[i].clone());
            proof {
                assert(headers.deep_view()[i as int] == headers@[i as int]@);
                assert(headers.deep_view().take(i + 1) =~= before.push(headers@[i as int]@));
            }
            i = i + 1;
        }
        proof {
            assert(headers.deep_view().take(headers@.len() as int) =~= headers.deep_view());
        }
    } else {
        let mut i: usize = 0;
        while i < columns.len()
            invariant
                i <= columns@.len(),
                cv == columns.deep_view(),
                selected.deep_view() == cv.take(i as int),
            decreases columns@.len() - i,
        {
            let ghost before = selected.deep_view();
            push_string(&mut selected, columns[i].clone());
            proof {
                assert(cv[i as int] == columns@[i as int]@);
                assert(cv.take(i + 1) =~= before.push(columns@[i as int]@));
            }
            i = i + 1;
        }
        proof {
            assert(cv.take(columns@.len() as int) =~= cv);
        }
    }
    selected
}

/// The rows whose column `ci` holds `v` (all rows without a target),
/// reduced to the columns `ix`.
pub(crate) fn filter_project(rows: &Vec<Row>, width: usize, ix: &Vec<usize>, target: Option<(usize, &Value)>) -> (r: Vec<Row>)
    requires
        forall|k: int| 0 <= k < rows@.len() ==> (#[trigger] rows@[k])@.len() == width,
        forall|k: int| 0 <= k < ix@.len() ==> (#[trigger] ix@[k]) < width,
        target matches Some((ci, v)) ==> ci < width,
    ensures
        r.deep_view() == keep_rows(
            rows.deep_view(),
            match target {
                None => Seq::new(rows@.len() as nat, |i: int| true),
                Some((ci, v)) => equal_flags(rows.deep_view(), ci as int, v@),
            },
        ).map_values(|row: Seq<Cell>| project(row, ix@.map_values(|x: usize| x as int))),
{
    let ghost rv = rows.deep_view();
    let ghost ixv = ix@.map_values(|x: usize| x as int);
    let ghost flags: Seq<bool> = match target {
        None => Seq::new(rows@.len() as nat, |i: int| true),
        Some((ci, v)) => equal_flags(rv, ci as int, v@),
    };
    let mut result: Vec<Row> = Vec::new();
    let mut i: usize = 0;
    while i < rows.len()
        invariant
            i <= rows@.len(),
            rv == rows.deep_view(),
            flags.len() == rv.len(),
            forall|k: int| 0 <= k < rows@.len() ==> (#[trigger] rows@[k])@.len() == width,
            forall|k: int| 0 <= k < ix@.len() ==> (#[trigger] ix@[k]) < width,
            target matches Some((ci, v)) ==> ci < width && flags == equal_flags(rv, ci as int, v@),
            target is None ==> flags == Seq::new(rows@.len() as nat, |i: int| true),
            ixv == ix@.map_values(|x: usize| x as int),
            result.deep_view() == keep_rows(rv.take(i as int), flags.take(i as int)).map_values(
                |row: Seq<Cell>| project(row, ixv),
            ),
        decreases rows@.len() - i,
    {
        proof {
            assert(rv[i as int] == rows@[i as int].deep_view());
        }
        let keep = match target {
            None => true,
            Some((ci, v)) => {
                proof {
                    assert(rows@[i as int].deep_view()[ci as int] == rows@[i as int]@[ci as int]@);
                }
                value_eq(&rows[i][ci], v)
            },
        };
        proof {
            assert(flags.take(i + 1) =~= flags.take(i as int).push(keep));
            lemma_keep_rows_step(rv, flags.take(i as int), i as int, keep);
        }
        if keep {
            let pr = crate::data::project_row(rows[i].as_slice(), ix, width);
            push_row(&mut result, pr);
            proof {
                assert(result.deep_view() =~= keep_rows(rv.take(i + 1), flags.take(i + 1)).map_values(
                    |row: Seq<Cell>| project(row, ixv),
                ));
            }
        } else {
            proof {
                assert(keep_rows(rv.take(i + 1), flags.take(i + 1)).map_values(|row: Seq<Cell>| project(row, ixv))
                    =~= keep_rows(rv.take(i as int), flags.take(i as int)).map_values(|row: Seq<Cell>| project(row, ixv)));
            }
        }
        i = i + 1;
    }
    proof {
        assert(rv.take(rows@.len() as int) =~= rv);
        assert(flags.take(rows@.len() as int) =~= flags);
    }
    result
}

/// The rows of `table` that the condition keeps (all rows without one),
/// reduced to the named columns.
pub fn select_rows(
    store: &TableStore,
    table: &str,
    columns: &[String],
    condition: Option<&(String, Value)>,
) -> (r: Result<Vec<Row>, Error>)
    ensures
        !reachable(store@, table@) ==> lookup_error(table@, r),
        reachable(store@, table@) ==> {
            let t = store@[table@];
            match crate::executor::resolve(t.columns, selected_names(t.columns, columns.deep_view())) {
                Err(c) => r matches Err(Error::ColumnNotInTable(x, y)) && x@ == c && y@ == table@,
                Ok(ix) => match condition {
                    None => r matches Ok(rows) && rows.deep_view() == t.rows.map_values(|row: Seq<Cell>| project(row, ix)),
                    Some(cond) => match first_index(t.columns, cond.0@) {
                        None => r matches Err(Error::ColumnNotInTable(x, y)) && x@ == cond.0@ && y@ == table@,
                        Some(ci) => r matches Ok(rows) && rows.deep_view() == keep_rows(
                            t.rows,
                            equal_flags(t.rows, ci, cond.1@),
                        ).map_values(|row: Seq<Cell>| project(row, ix)),
                    },
                },
            }
        },
{
    let (_schema, headers, rows) = match store.read_only(table) {
        Ok(x) => x,
        Err(e) => {
            return Err(e);
        },
    };
    let ghost t = store@[table@];
    let selected = selection_names(&headers, columns);
    let ix = match column_indices(&headers, &selected, table) {
        Ok(v) => v,
        Err(e) => {
            return Err(e);
        },
    };
    let target: Option<(usize, &Value)> = match condition {
        None => None,
        Some(cond) => match position_of(&headers, cond.0.as_str()) {
            Some(ci) => Some((ci, &cond.1)),
            None => {
                return Err(Error::ColumnNotInTable(cond.0.clone(), table.to_string()));
            },
        },
    };
    proof {
        assert(headers.deep_view().len() == headers@.len());
        assert forall|k: int| 0 <= k < rows@.len() implies (#[trigger] rows@[k])@.len() == headers@.len() by {
            assert(rows.deep_view()[k] == rows@[k].deep_view());
        }
    }
    let result = filter_project(&rows, headers.len(), &ix, target);
    proof {
        if target is None {
            crate::executor::lemma_keep_all(t.rows, Seq::new(rows@.len() as nat, |i: int| true));
        }
    }
    Ok(result)
}

/// The rows with `set_val` put in column `si` of every row whose column
/// `ci` holds `v`, and how many rows that was.
pub(crate) fn update_matching(rows: &Vec<Row>, width: usize, si: usize, ci: usize, v: &Value, set_val: &Value) -> (r: (Vec<Row>, usize))
    requires
        forall|k: int| 0 <= k < rows@.len() ==> (#[trigger] rows@[k])@.len() == width,
        si < width,
        ci < width,
    ensures
        r.0.deep_view() == update_flagged(rows.deep_view(), equal_flags(rows.deep_view(), ci as int, v@), si as int, set_val@),
        r.1 == count_true(equal_flags(rows.deep_view(), ci as int, v@)),
        forall|j: int| 0 <= j < r.0@.len() ==> (#[trigger] r.0@[j])@.len() == width,
{
    let ghost rv = rows.deep_view();
    let ghost flags = equal_flags(rv, ci as int, v@);
    let mut new_rows: Vec<Row> = Vec::new();
    let mut updated: usize = 0;
    let mut i: usize = 0;
    while i < rows.len()
        invariant
            i <= rows@.len(),
            updated <= i,
            si < width,
            ci < width,
            rv == rows.deep_view(),
            forall|k: int| 0 <= k < rows@.len() ==> (#[trigger] rows@[k])@.len() == width,
            flags == equal_flags(rv, ci as int, v@),
            updated == count_true(flags.take(i as int)),
            new_rows.deep_view() == update_flagged(rv, flags, si as int, set_val@).take(i as int),
            forall|j: int| 0 <= j < new_rows@.len() ==> (#[trigger] new_rows@[j])@.len() == width,
        decreases rows@.len() - i,
    {
        let mut row = copy_row(rows[i].as_slice());
        proof {
            assert(rv[i as int] == rows@[i as int].deep_view());
            assert(flags.take(i + 1) =~= flags.take(i as int).push(flags[i as int]));
            assert(flags.take(i + 1).drop_last() =~= flags.take(i as int));
            assert(row.deep_view()[ci as int] == row@[ci as int]@);
        }
        let hit = value_eq(&row[ci], v);
        let ghost before_row = row.deep_view();
        if hit {
            let nv = set_val.duplicate();
            row.set(si, nv);
            updated = updated + 1;
            proof {
                assert(row.deep_view() =~= before_row.update(si as int, set_val@));
            }
        }
        let ghost prev = new_rows.deep_view();
        push_row(&mut new_rows, row);
        proof {
            assert(update_flagged(rv, flags, si as int, set_val@).take(i + 1) =~= prev.push(row.deep_view()));
        }
        i = i + 1;
    }
    proof {
        assert(update_flagged(rv, flags, si as int, set_val@).take(rows@.len() as int) =~= update_flagged(
            rv,
            flags,
            si as int,
            set_val@,
        ));
        assert(flags.take(rows@.len() as int) =~= flags);
    }
    (new_rows, updated)
}

/// Sets `set_col` to `set_val` in every row of `table` whose column
/// `condition.0` holds `condition.1`; returns how many rows changed. The
/// table is written back only when some did.
pub fn update_rows(
    store: &mut TableStore,
    table: &str,
    set_col: &str,
    set_val: Value,
    condition: &(String, Value),
) -> (r: Result<usize, Error>)
    ensures
        !reachable(old(store)@, table@) ==> lookup_error(table@, r) && final(store)@ == old(store)@,
        reachable(old(store)@, table@) ==> {
            let t = old(store)@[table@];
            match first_index(t.columns, set_col@) {
                None => r matches Err(Error::ColumnNotInTable(x, y)) && x@ == set_col@ && y@ == table@
                    && final(store)@ == old(store)@,
                Some(si) => match first_index(t.columns, condition.0@) {
                    None => r matches Err(Error::ColumnNotInTable(x, y)) && x@ == condition.0@ && y@ == table@
                        && final(store)@ == old(store)@,
                    Some(ci) => {
                        let flags = equal_flags(t.rows, ci, condition.1@);
                        &&& r matches Ok(n) && n == count_true(flags)
                        &&& count_true(flags) > 0 ==> final(store)@ == old(store)@.insert(
                            table@,
                            with_rows(t, update_flagged(t.rows, flags, si, set_val@)),
                        )
                        &&& count_true(flags) == 0 ==> final(store)@ == old(store)@
                    },
                },
            }
        },
{
    let (_schema, headers, rows) = match store.read_only(table) {
        Ok(x) => x,
        Err(e) => {
            return Err(e);
        },
    };
    let set_idx = match position_of(&headers, set_col) {
        Some(i) => i,
        None => {
            return Err(Error::ColumnNotInTable(set_col.to_string(), table.to_string()));
        },
    };
    let cond_idx = match position_of(&headers, condition.0.as_str()) {
        Some(i) => i,
        None => {
            return Err(Error::ColumnNotInTable(condition.0.clone(), table.to_string()));
        },
    };
    proof {
        assert(headers.deep_view().len() == headers@.len());
        assert forall|k: int| 0 <= k < rows@.len() implies (#[trigger] rows@[k])@.len() == headers@.len() by {
            assert(rows.deep_view()[k] == rows@[k].deep_view());
        }
    }
    let (new_rows, updated) = update_matching(&rows, headers.len(), set_idx, cond_idx, &condition.1, &set_val);
    if updated > 0 {
        store.put_rows(table, new_rows);
    }
    Ok(updated)
}

/// The commands of a script: each line trimmed, with its number from one;
/// empty lines and lines starting with `#` are skipped.
pub open spec fn script_spec(lines: Seq<Seq<char>>) -> Seq<(nat, Seq<char>)>
    decreases lines.len(),
{
    if lines.len() == 0 {
        Seq::empty()
    } else {
        let prev = script_spec(lines.drop_last());
        let line = trim(lines.last());
        if line.len() == 0 || line[0] == '#' {
            prev
        } else {
            prev.push((lines.len(), line))
        }
    }
}

/// The commands of a script, with their line numbers.
pub fn script_commands(lines: &Vec<String>) -> (r: Vec<(usize, String)>)
    ensures
        r@.len() == script_spec(lines.deep_view()).len(),
        forall|k: int| 0 <= k < r@.len() ==> (#[trigger] r@[k]).0 as nat == script_spec(lines.deep_view())[k].0
            && r@[k].1@ == script_spec(lines.deep_view())[k].1,
{
    let ghost lv = lines.deep_view();
    let mut out: Vec<(usize, String)> = Vec::new();
    let mut i: usize = 0;
    while i < lines.len()
        invariant
            i <= lines@.len(),
            lv == lines.deep_view(),
            out@.len() == script_spec(lv.take(i as int)).len(),
            forall|k: int| 0 <= k < out@.len() ==> (#[trigger] out@[k]).0 as nat == script_spec(lv.take(i as int))[k].0
                && out@[k].1@ == script_spec(lv.take(i as int))[k].1,
        decreases lines@.len() - i,
    {
        let cs = chars_of(lines[i].as_str());
        let t = trim_chars(cs.as_slice());
        proof {
            assert(lv.take(i + 1).drop_last() =~= lv.take(i as int));
            assert(lv.take(i + 1).last() == lines@[i as int]@);
        }
        if t.len() > 0 && t[0] != '#' {
            out.push((i + 1, string_of(t.as_slice())));
        }
        i = i + 1;
    }
    proof {
        assert(lv.take(lines@.len() as int) =~= lv);
    }
    out
}


pub(crate) proof fn lemma_resolve_own(headers: Seq<Seq<char>>, k: int)
    requires
        0 <= k <= headers.len(),
        headers.no_duplicates(),
    ensures
        crate::executor::resolve(headers, headers.take(k)) == Ok::<Seq<int>, Seq<char>>(Seq::new(k as nat, |i: int| i)),
    decreases k,
{
    if k == 0 {
        assert(headers.take(0) =~= Seq::<Seq<char>>::empty());
        assert(Seq::new(0, |i: int| i) =~= Seq::<int>::empty());
    } else {
        lemma_resolve_own(headers, k - 1);
        assert(headers.take(k).drop_last() =~= headers.take(k - 1));
        crate::text::lemma_first_index(headers, headers[k - 1]);
        assert(Seq::new((k - 1) as nat, |i: int| i).push(k - 1) =~= Seq::new(k as nat, |i: int| i));
    }
}

/// After [`insert_row`] added `values` to `table`, `SELECT *` without a
/// condition lists the rows the table had, then `values` as they read back
/// from the table's file: `*` stands for every column in order, when the
/// column names are distinct.
pub proof fn law_select_all_after_insert(
    before: Map<Seq<char>, TableContent>,
    after: Map<Seq<char>, TableContent>,
    table: Seq<char>,
    values: Seq<Cell>,
)
    requires
        reachable(before, table),
        content_fits(before[table]),
        before[table].columns.no_duplicates(),
        values.len() == before[table].columns.len(),
        after == before.insert(table, with_rows(before[table], before[table].rows.push(values))),
    ensures
        reachable(after, table),
        crate::executor::resolve(after[table].columns, selected_names(after[table].columns, seq!["*"@])) matches Ok(ix)
            && after[table].rows.map_values(|row: Seq<Cell>| project(row, ix)) == before[table].rows.push(
            crate::storage::stored_row(values, before[table].types),
        ),
{
    let cols = before[table].columns;
    let b = before[table];
    let rows = b.rows.push(crate::storage::stored_row(values, b.types));
    assert(after[table].rows =~= rows) by {
        assert forall|i: int| 0 <= i < rows.len() implies after[table].rows[i] == rows[i] by {
            if i < b.rows.len() {
                assert(crate::storage::stored_row(b.rows[i], b.types) == b.rows[i]);
            }
        }
    }
    lemma_resolve_own(cols, cols.len() as int);
    assert(cols.take(cols.len() as int) =~= cols);
    let ix = Seq::new(cols.len(), |i: int| i);
    assert forall|i: int| 0 <= i < rows.len() implies #[trigger] project(rows[i], ix) == rows[i] by {
        if i < rows.len() - 1 {
            assert(rows[i] == before[table].rows[i]);
        }
        assert(project(rows[i], ix) =~= rows[i]);
    }
    assert(rows.map_values(|row: Seq<Cell>| project(row, ix)) =~= rows);
}

} // verus!
