//! Cell values, rows and the column-name schema of the file-backed engines.
use vstd::prelude::*;
use crate::text::{
    chars_of, debug_str, debug_text, extend_chars, extend_str, i64_chars, int_text, join, parse_i64,
    parse_i64_chars, push_piece, str_eq, str_less, str_lt, string_of,
};

verus! {

/// One cell of a table.
#[derive(Debug, Clone, PartialEq)]
pub enum Value {
    Int(i64),
    Text(String),
    Bool(bool),
    Null,
}

/// The mathematical content of a [`Value`].
pub enum Cell {
    Int(i64),
    Text(Seq<char>),
    Bool(bool),
    Null,
}

impl DeepView for Value {
    type V = Cell;

    open spec fn deep_view(&self) -> Cell {
        match self {
            Value::Int(i) => Cell::Int(*i),
            Value::Text(s) => Cell::Text(s@),
            Value::Bool(b) => Cell::Bool(*b),
            Value::Null => Cell::Null,
        }
    }
}

impl View for Value {
    type V = Cell;

    open spec fn view(&self) -> Cell {
        self.deep_view()
    }
}

/// A row: one value per column.
pub type Row = Vec<Value>;

/// The characters that `Display` writes for a cell.
pub open spec fn cell_text(c: Cell) -> Seq<char> {
    match c {
        Cell::Int(i) => int_text(i as int),
        Cell::Text(s) => s,
        Cell::Bool(b) => if b {
            seq!['t', 'r', 'u', 'e']
        } else {
            seq!['f', 'a', 'l', 's', 'e']
        },
        Cell::Null => seq!['N', 'U', 'L', 'L'],
    }
}

/// The cell that a literal written as `s` stands for: an integer when `s`
/// is a signed decimal in the range of `i64`, text otherwise.
pub open spec fn literal_cell(s: Seq<char>) -> Cell {
    match parse_i64(s) {
        Some(i) => Cell::Int(i),
        None => Cell::Text(s),
    }
}

impl Value {
    /// The text form of the value, used for comparisons and display.
    pub fn to_string_cmp(&self) -> (r: String)
        ensures
            r@ == cell_text(self@),
    {
        match self {
            Value::Int(i) => {
                let cs = i64_chars(*i);
                string_of(cs.as_slice())
            },
            Value::Text(s) => s.clone(),
            Value::Bool(b) => {
                if *b {
                    let r = "true";
                    proof {
                        reveal_strlit("true");
                    }
                    r.to_string()
                } else {
                    let r = "false";
                    proof {
                        reveal_strlit("false");
                    }
                    r.to_string()
                }
            },
            Value::Null => {
                let r = "NULL";
                proof {
                    reveal_strlit("NULL");
                }
                r.to_string()
            },
        }
    }

    /// The characters of the text form of the value.
    pub fn text_chars(&self) -> (r: Vec<char>)
        ensures
            r@ == cell_text(self@),
    {
        let s = self.to_string_cmp();
        chars_of(s.as_str())
    }

    /// A copy of the value.
    pub fn duplicate(&self) -> (r: Value)
        ensures
            r@ == self@,
    {
        match self {
            Value::Int(i) => Value::Int(*i),
            Value::Text(s) => Value::Text(s.clone()),
            Value::Bool(b) => Value::Bool(*b),
            Value::Null => Value::Null,
        }
    }

    /// The value that the literal `s` stands for: an integer when it reads
    /// as one, text otherwise.
    pub fn from_literal(s: &str) -> (r: Value)
        ensures
            r@ == literal_cell(s@),
    {
        let cs = chars_of(s);
        match parse_i64_chars(cs.as_slice()) {
            Some(i) => Value::Int(i),
            None => Value::Text(s.to_string()),
        }
    }

}

/// Whether two values are the same value (the derived `==`).
pub fn value_eq(a: &Value, b: &Value) -> (r: bool)
    ensures
        r == (a@ == b@),
{
    match (a, b) {
        (Value::Int(x), Value::Int(y)) => *x == *y,
        (Value::Text(x), Value::Text(y)) => str_eq(x.as_str(), y.as_str()),
        (Value::Bool(x), Value::Bool(y)) => *x == *y,
        (Value::Null, Value::Null) => true,
        _ => false,
    }
}

/// A copy of a row.
pub fn copy_row(row: &[Value]) -> (r: Vec<Value>)
    ensures
        r.deep_view() == row.deep_view(),
        r@.len() == row@.len(),
{
    let mut r: Vec<Value> = Vec::new();
    let mut i: usize = 0;
    while i < row.len()
        invariant
            i <= row.len(),
            r.deep_view() == row.deep_view().take(i as int),
        decreases row.len() - i,
    {
        let v = row[i].duplicate();
        push_value(&mut r, v);
        assert(row.deep_view()[i as int] == row@[i as int]@);
        assert(r.deep_view() =~= row.deep_view().take(i + 1));
        i = i + 1;
    }
    assert(row.deep_view().take(row.len() as int) =~= row.deep_view());
    r
}

/// Appends `row` to `rows`.
pub fn push_row(rows: &mut Vec<Vec<Value>>, row: Vec<Value>)
    ensures
        final(rows).deep_view() == old(rows).deep_view().push(row.deep_view()),
        final(rows)@ == old(rows)@.push(row),
{
    let ghost before = rows@;
    let ghost rv = row.deep_view();
    rows.push(row);
    assert(rows@ == before.push(row));
    assert(rows.deep_view() =~= old(rows).deep_view().push(rv));
}

/// Appends `v` to `row`.
pub fn push_value(row: &mut Vec<Value>, v: Value)
    ensures
        final(row).deep_view() == old(row).deep_view().push(v@),
        final(row)@ == old(row)@.push(v),
{
    let ghost before = row@;
    let ghost vv = v@;
    row.push(v);
    assert(row@ == before.push(v));
    assert(row.deep_view() =~= old(row).deep_view().push(vv));
}

/// Column type of the file-backed engines.
#[derive(Debug, Clone, Copy, PartialEq, Eq, Structural)]
pub enum ColumnType {
    Int,
    Text,
}

/// Column names and types of a table kept as a delimited file.
#[derive(Debug, Clone)]
pub struct Schema {
    pub columns: Vec<String>,
    pub types: Vec<ColumnType>,
}

impl Schema {
    /// A schema whose columns are all text.
    pub fn new(columns: Vec<String>) -> (r: Schema)
        ensures
            r.columns.deep_view() == columns.deep_view(),
            r.types@.len() == columns@.len(),
            forall|i: int| 0 <= i < r.types@.len() ==> r.types@[i] == ColumnType::Text,
    {
        let mut types: Vec<ColumnType> = Vec::new();
        let mut i: usize = 0;
        while i < columns.len()
            invariant
                i <= columns.len(),
                types@.len() == i,
                forall|j: int| 0 <= j < i ==> types@[j] == ColumnType::Text,
            decreases columns.len() - i,
        {
            types.push(ColumnType::Text);
            i = i + 1;
        }
        Schema { columns, types }
    }
}


/// What `{:?}` writes for a cell.
pub open spec fn cell_debug(c: Cell) -> Seq<char> {
    match c {
        Cell::Int(i) => "Int("@ + int_text(i as int) + ")"@,
        Cell::Text(s) => "Text("@ + debug_text(s) + ")"@,
        Cell::Bool(b) => if b {
            "Bool(true)"@
        } else {
            "Bool(false)"@
        },
        Cell::Null => "Null"@,
    }
}

/// What `{:?}` writes for a row: its cells' forms between brackets.
pub open spec fn row_debug(row: Seq<Cell>) -> Seq<char> {
    "["@ + join(row.map_values(|c: Cell| cell_debug(c)), ", "@) + "]"@
}

/// The `Debug` form of a value.
pub fn debug_value(v: &Value) -> (r: Vec<char>)
    ensures
        r@ == cell_debug(v@),
{
    let mut r: Vec<char> = Vec::new();
    match v {
        Value::Int(i) => {
            extend_str(&mut r, "Int(");
            let d = i64_chars(*i);
            extend_chars(&mut r, d.as_slice());
            extend_str(&mut r, ")");
        },
        Value::Text(s) => {
            extend_str(&mut r, "Text(");
            let d = debug_str(s.as_str());
            extend_str(&mut r, d.as_str());
            extend_str(&mut r, ")");
        },
        Value::Bool(b) => {
            if *b {
                extend_str(&mut r, "Bool(true)");
            } else {
                extend_str(&mut r, "Bool(false)");
            }
        },
        Value::Null => {
            extend_str(&mut r, "Null");
        },
    }
    r
}

/// The `Debug` form of a row.
pub fn debug_row(row: &[Value]) -> (r: String)
    ensures
        r@ == row_debug(row.deep_view()),
{
    let mut parts: Vec<Vec<char>> = Vec::new();
    let mut i: usize = 0;
    while i < row.len()
        invariant
            i <= row.len(),
            parts.deep_view() == row.deep_view().take(i as int).map_values(|c: Cell| cell_debug(c)),
        decreases row.len() - i,
    {
        let d = debug_value(&row[i]);
        push_piece(&mut parts, d);
        assert(row.deep_view()[i as int] == row@[i as int]@);
        assert(row.deep_view().take(i + 1).map_values(|c: Cell| cell_debug(c)) =~= row.deep_view().take(
            i as int,
        ).map_values(|c: Cell| cell_debug(c)).push(cell_debug(row@[i as int]@)));
        i = i + 1;
    }
    assert(row.deep_view().take(row.len() as int) =~= row.deep_view());
    let sep = chars_of(", ");
    let body = crate::text::join_chars(&parts, sep.as_slice());
    let mut r: Vec<char> = Vec::new();
    extend_str(&mut r, "[");
    extend_chars(&mut r, body.as_slice());
    extend_str(&mut r, "]");
    string_of(r.as_slice())
}


// ---------------------------------------------------------------------------
// Order of values
// ---------------------------------------------------------------------------

/// The rank of a cell's variant in declaration order.
pub open spec fn variant_rank(c: Cell) -> int {
    match c {
        Cell::Int(_) => 0,
        Cell::Text(_) => 1,
        Cell::Bool(_) => 2,
        Cell::Null => 3,
    }
}

/// The order that `derive(PartialOrd)` gives values: first by variant in
/// declaration order, then by content (integers by value, text by code
/// points, which is also the order of their UTF-8 bytes, `false` before
/// `true`).
pub open spec fn cell_lt(a: Cell, b: Cell) -> bool {
    match (a, b) {
        (Cell::Int(x), Cell::Int(y)) => x < y,
        (Cell::Text(x), Cell::Text(y)) => str_lt(x, y),
        (Cell::Bool(x), Cell::Bool(y)) => !x && y,
        (Cell::Null, Cell::Null) => false,
        _ => variant_rank(a) < variant_rank(b),
    }
}

/// Whether `a < b` in the order of values.
pub fn value_lt(a: &Value, b: &Value) -> (r: bool)
    ensures
        r == cell_lt(a@, b@),
{
    match (a, b) {
        (Value::Int(x), Value::Int(y)) => *x < *y,
        (Value::Text(x), Value::Text(y)) => {
            let xc = chars_of(x.as_str());
            let yc = chars_of(y.as_str());
            str_less(xc.as_slice(), yc.as_slice())
        },
        (Value::Bool(x), Value::Bool(y)) => !*x && *y,
        (Value::Null, Value::Null) => false,
        _ => value_rank(a) < value_rank(b),
    }
}

fn value_rank(v: &Value) -> (r: u8)
    ensures
        r as int == variant_rank(v@),
{
    match v {
        Value::Int(_) => 0,
        Value::Text(_) => 1,
        Value::Bool(_) => 2,
        Value::Null => 3,
    }
}

/// The order of values is a strict total order: no value is below itself,
/// no two values are each below the other, any two different values are
/// ordered one way, and the order is transitive. Integers are ordered by
/// their value and texts by their characters.
pub proof fn law_cell_order(a: Cell, b: Cell, c: Cell)
    ensures
        !cell_lt(a, a),
        !(cell_lt(a, b) && cell_lt(b, a)),
        a != b ==> cell_lt(a, b) || cell_lt(b, a),
        cell_lt(a, b) && cell_lt(b, c) ==> cell_lt(a, c),
        a matches Cell::Int(x) ==> b matches Cell::Int(y) ==> (cell_lt(a, b) <==> x < y),
        a matches Cell::Text(x) ==> b matches Cell::Text(y) ==> (cell_lt(a, b) <==> str_lt(x, y)),
{
    match a {
        Cell::Text(x) => {
            crate::text::lemma_str_lt_irreflexive(x);
            match b {
                Cell::Text(y) => {
                    crate::text::lemma_str_lt_total(x, y);
                    match c {
                        Cell::Text(z) => {
                            if str_lt(x, y) && str_lt(y, z) {
                                crate::text::lemma_str_lt_transitive(x, y, z);
                            }
                        },
                        _ => {},
                    }
                },
                _ => {},
            }
        },
        _ => {},
    }
}

} // verus!
