//! Typed tables of the encrypted database: column types, schemas and rows.
use vstd::prelude::*;
use crate::error::Error;
use crate::text::{concat_str, decimal, string_of, usize_chars};
use crate::types::{Cell, Value};

verus! {

/// Type of a column.
#[derive(Debug, Clone, Copy, PartialEq, Eq, Structural)]
pub enum ColumnType {
    Int,
    Text,
    Bool,
    Float,
}

/// Whether a column of type `t` accepts the cell `c`.
pub open spec fn type_accepts(t: ColumnType, c: Cell) -> bool {
    match (t, c) {
        (ColumnType::Int, Cell::Int(_)) => true,
        (ColumnType::Text, Cell::Text(_)) => true,
        (ColumnType::Bool, Cell::Bool(_)) => true,
        _ => false,
    }
}

/// The upper-case name of a column type.
pub open spec fn type_label(t: ColumnType) -> Seq<char> {
    match t {
        ColumnType::Int => seq!['I', 'N', 'T'],
        ColumnType::Text => seq!['T', 'E', 'X', 'T'],
        ColumnType::Bool => seq!['B', 'O', 'O', 'L'],
        ColumnType::Float => seq!['F', 'L', 'O', 'A', 'T'],
    }
}

/// The upper-case name of the kind of a cell.
pub open spec fn cell_label(c: Cell) -> Seq<char> {
    match c {
        Cell::Int(_) => seq!['I', 'N', 'T'],
        Cell::Text(_) => seq!['T', 'E', 'X', 'T'],
        Cell::Bool(_) => seq!['B', 'O', 'O', 'L'],
        Cell::Null => seq!['N', 'U', 'L', 'L'],
    }
}

/// A column accepts exactly the values of its own kind: the name of the
/// value's kind is the name of the column's type (so an integer column
/// takes only integers, and no column takes null or a value of another
/// kind).
pub proof fn law_type_accepts_own_kind(t: ColumnType, c: Cell)
    ensures
        type_accepts(t, c) <==> cell_label(c) == type_label(t),
{
    if cell_label(c) == type_label(t) {
        assert(cell_label(c).len() == type_label(t).len());
        assert(cell_label(c)[0] == type_label(t)[0]);
    }
}

impl ColumnType {
    /// Whether `value` may be stored in a column of this type.
    pub fn validate(&self, value: &Value) -> (r: bool)
        ensures
            r == type_accepts(*self, value@),
    {
        match (self, value) {
            (ColumnType::Int, Value::Int(_)) => true,
            (ColumnType::Text, Value::Text(_)) => true,
            (ColumnType::Bool, Value::Bool(_)) => true,
            _ => false,
        }
    }

    /// The upper-case name of the type.
    pub fn name(&self) -> (r: &'static str)
        ensures
            r@ == type_label(*self),
    {
        match self {
            ColumnType::Int => {
                proof {
                    reveal_strlit("INT");
                }
                "INT"
            },
            ColumnType::Text => {
                proof {
                    reveal_strlit("TEXT");
                }
                "TEXT"
            },
            ColumnType::Bool => {
                proof {
                    reveal_strlit("BOOL");
                }
                "BOOL"
            },
            ColumnType::Float => {
                proof {
                    reveal_strlit("FLOAT");
                }
                "FLOAT"
            },
        }
    }
}

/// The upper-case name of the kind of `value`.
pub fn value_label(value: &Value) -> (r: &'static str)
    ensures
        r@ == cell_label(value@),
{
    match value {
        Value::Int(_) => {
            proof {
                reveal_strlit("INT");
            }
            "INT"
        },
        Value::Text(_) => {
            proof {
                reveal_strlit("TEXT");
            }
            "TEXT"
        },
        Value::Bool(_) => {
            proof {
                reveal_strlit("BOOL");
            }
            "BOOL"
        },
        Value::Null => {
            proof {
                reveal_strlit("NULL");
            }
            "NULL"
        },
    }
}

/// A column: its name and type.
#[derive(Debug, Clone)]
pub struct ColumnDef {
    pub name: String,
    pub col_type: ColumnType,
}

/// The name and columns of a table.
#[derive(Debug, Clone)]
pub struct TableSchema {
    pub name: String,
    pub columns: Vec<ColumnDef>,
}

/// Whether `row` has one cell per column, each accepted by its column.
pub open spec fn row_fits(cols: Seq<ColumnDef>, row: Seq<Cell>) -> bool {
    &&& row.len() == cols.len()
    &&& forall|i: int| 0 <= i < row.len() ==> type_accepts(#[trigger] cols[i].col_type, row[i])
}

/// The message of a row whose length does not match the schema.
pub open spec fn count_message(expected: nat, actual: nat) -> Seq<char> {
    "Expected "@ + decimal(expected) + " columns, got "@ + decimal(actual)
}

/// The outcome that [`TableSchema::validate_row`] promises for `row`.
pub open spec fn validate_row_result(cols: Seq<ColumnDef>, row: Seq<Cell>, r: Result<(), Error>) -> bool {
    if row.len() != cols.len() {
        r matches Err(Error::InvalidInput(m)) && m@ == count_message(cols.len(), row.len())
    } else if row_fits(cols, row) {
        r is Ok
    } else {
        exists|i: int|
            #![trigger cols[i]]
            0 <= i < row.len() && !type_accepts(cols[i].col_type, row[i]) && (forall|j: int|
                0 <= j < i ==> type_accepts(#[trigger] cols[j].col_type, row[j])) && (r matches Err(
                Error::TypeMismatch { column, expected, actual },
            ) && column@ == cols[i].name@ && expected@ == type_label(cols[i].col_type) && actual@
                == cell_label(row[i]))
    }
}

/// A row that passes the schema check has one cell per column, each of
/// its column's own kind.
pub proof fn law_valid_row_kinds(cols: Seq<ColumnDef>, row: Seq<Cell>, r: Result<(), Error>)
    requires
        validate_row_result(cols, row, r),
        r is Ok,
    ensures
        row.len() == cols.len(),
        forall|i: int| 0 <= i < row.len() ==> cell_label(#[trigger] row[i]) == type_label(cols[i].col_type),
{
    assert forall|i: int| 0 <= i < row.len() implies cell_label(#[trigger] row[i]) == type_label(cols[i].col_type) by {
        assert(type_accepts(cols[i].col_type, row[i]));
        law_type_accepts_own_kind(cols[i].col_type, row[i]);
    }
}

impl TableSchema {
    /// A schema with the given name and columns.
    pub fn new(name: String, columns: Vec<ColumnDef>) -> (r: TableSchema)
        ensures
            r.name == name,
            r.columns == columns,
    {
        TableSchema { name, columns }
    }

    /// Checks that `row` has one value per column and that each value has
    /// its column's type.
    pub fn validate_row(&self, row: &[Value]) -> (r: Result<(), Error>)
        ensures
            validate_row_result(self.columns@, row.deep_view(), r),
            r is Ok <==> row_fits(self.columns@, row.deep_view()),
    {
        if row.len() != self.columns.len() {
            let a = usize_chars(self.columns.len());
            let b = usize_chars(row.len());
            let m1 = concat_str("Expected ", string_of(a.as_slice()).as_str());
            let m2 = concat_str(m1.as_str(), " columns, got ");
            let m3 = concat_str(m2.as_str(), string_of(b.as_slice()).as_str());
            return Err(Error::InvalidInput(m3));
        }
        let mut i: usize = 0;
        while i < row.len()
            invariant
                i <= row.len(),
                row.len() == self.columns.len(),
                forall|j: int|
                    0 <= j < i ==> type_accepts(#[trigger] self.columns@[j].col_type, row.deep_view()[j]),
            decreases row.len() - i,
        {
            let col_def = &self.columns[i];
            if !col_def.col_type.validate(&row[i]) {
                let column = col_def.name.clone();
                let expected = col_def.col_type.name().to_string();
                let actual = value_label(&row[i]).to_string();
                let r = Err(Error::TypeMismatch { column, expected, actual });
                assert(row.deep_view()[i as int] == row@[i as int]@);
                assert(validate_row_result(self.columns@, row.deep_view(), r));
                return r;
            }
            assert(row.deep_view()[i as int] == row@[i as int]@);
            i = i + 1;
        }
        Ok(())
    }
}

/// A table: its schema and rows.
#[derive(Debug, Clone)]
pub struct TableData {
    pub schema: TableSchema,
    pub rows: Vec<Vec<Value>>,
}

impl TableData {
    /// Every row has one cell per column.
    pub open spec fn well_formed(&self) -> bool {
        forall|i: int| 0 <= i < self.rows@.len() ==> (#[trigger] self.rows@[i])@.len() == self.schema.columns@.len()
    }

    /// An empty table with the given schema.
    pub fn new(schema: TableSchema) -> (r: TableData)
        ensures
            r.schema == schema,
            r.rows@.len() == 0,
            r.well_formed(),
    {
        TableData { schema, rows: Vec::new() }
    }
}


/// The index of the first column named `name`.
pub open spec fn col_position(cols: Seq<ColumnDef>, name: Seq<char>) -> Option<int> {
    if exists|i: int| 0 <= i < cols.len() && #[trigger] cols[i].name@ == name {
        Some(
            choose|i: int|
                0 <= i < cols.len() && #[trigger] cols[i].name@ == name && forall|j: int|
                    0 <= j < i ==> cols[j].name@ != name,
        )
    } else {
        None
    }
}

/// The index of the first column named `name` (`position` over the

proof fn lemma_first_named(cols: Seq<ColumnDef>, name: Seq<char>, w: int)
    requires
        0 <= w < cols.len(),
        cols[w].name@ == name,
    ensures
        exists|i: int|
            0 <= i < cols.len() && #[trigger] cols[i].name@ == name && forall|j: int| 0 <= j < i ==> cols[j].name@ != name,
    decreases w,
{
    if exists|j: int| 0 <= j < w && #[trigger] cols[j].name@ == name {
        let j = choose|j: int| 0 <= j < w && #[trigger] cols[j].name@ == name;
        lemma_first_named(cols, name, j);
    } else {
        assert(0 <= w < cols.len() && cols[w].name@ == name && forall|j: int| 0 <= j < w ==> cols[j].name@ != name);
    }
}

/// The position of a column, where there is one, is an index of the
/// columns.
pub proof fn lemma_col_position_in_range(cols: Seq<ColumnDef>, name: Seq<char>)
    ensures
        col_position(cols, name) matches Some(k) ==> 0 <= k < cols.len(),
{
    if exists|i: int| 0 <= i < cols.len() && #[trigger] cols[i].name@ == name {
        let w = choose|i: int| 0 <= i < cols.len() && #[trigger] cols[i].name@ == name;
        lemma_first_named(cols, name, w);
    }
}

/// columns).
pub fn find_column(cols: &Vec<ColumnDef>, name: &str) -> (r: Option<usize>)
    ensures
        r matches Some(i) ==> col_position(cols@, name@) == Some(i as int) && i < cols@.len(),
        r is None ==> col_position(cols@, name@) is None,
{
    let mut i: usize = 0;
    while i < cols.len()
        invariant
            i <= cols.len(),
            forall|j: int| 0 <= j < i ==> cols@[j].name@ != name@,
        decreases cols.len() - i,
    {
        if crate::text::str_eq(cols[i].name.as_str(), name) {
            proof {
                let w = i as int;
                assert(cols@[w].name@ == name@);
                assert(0 <= w < cols@.len() && cols@[w].name@ == name@ && forall|j: int|
                    0 <= j < w ==> cols@[j].name@ != name@);
                let c = choose|k: int|
                    0 <= k < cols@.len() && #[trigger] cols@[k].name@ == name@ && forall|j: int|
                        0 <= j < k ==> cols@[j].name@ != name@;
                assert(c == w);
            }
            return Some(i);
        }
        i = i + 1;
    }
    None
}

} // verus!
