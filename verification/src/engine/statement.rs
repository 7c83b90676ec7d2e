//! Commands of the token reader, whose filters combine comparisons with
//! AND and OR.
use vstd::prelude::*;
use crate::types::{Cell, Value};

verus! {

/// A comparison operator of a filter.
#[derive(Debug, PartialEq, Eq, Clone, Copy, Structural)]
pub enum ComparisonOp {
    Eq,
    Ne,
    Lt,
    Gt,
    Le,
    Ge,
    Like,
}

/// A row filter.
#[derive(Debug)]
pub enum WhereClause {
    Condition { column: String, operator: ComparisonOp, value: Value },
    And(Box<WhereClause>, Box<WhereClause>),
    Or(Box<WhereClause>, Box<WhereClause>),
}

/// The mathematical content of a [`WhereClause`].
pub enum ClauseModel {
    Condition { column: Seq<char>, operator: ComparisonOp, value: Cell },
    And(Box<ClauseModel>, Box<ClauseModel>),
    Or(Box<ClauseModel>, Box<ClauseModel>),
}

impl DeepView for WhereClause {
    type V = ClauseModel;

    open spec fn deep_view(&self) -> ClauseModel
        decreases self,
    {
        match self {
            WhereClause::Condition { column, operator, value } => ClauseModel::Condition {
                column: column@,
                operator: *operator,
                value: value@,
            },
            WhereClause::And(a, b) => ClauseModel::And(
                Box::new((**a).deep_view()),
                Box::new((**b).deep_view()),
            ),
            WhereClause::Or(a, b) => ClauseModel::Or(
                Box::new((**a).deep_view()),
                Box::new((**b).deep_view()),
            ),
        }
    }
}

impl View for WhereClause {
    type V = ClauseModel;

    open spec fn view(&self) -> ClauseModel {
        self.deep_view()
    }
}

/// A command of the token reader.
#[derive(Debug)]
pub enum Statement {
    CreateTable { name: String, columns: Vec<String> },
    DropTable { name: String },
    ShowTables,
    Insert { table: String, values: Vec<Value> },
    Select { columns: Vec<String>, table: String, condition: Option<WhereClause> },
    Update { table: String, set_col: String, set_val: Value, condition: WhereClause },
    Delete { table: String, condition: WhereClause },
}

/// The mathematical content of a [`Statement`].
pub enum StatementModel {
    CreateTable { name: Seq<char>, columns: Seq<Seq<char>> },
    DropTable { name: Seq<char> },
    ShowTables,
    Insert { table: Seq<char>, values: Seq<Cell> },
    Select { columns: Seq<Seq<char>>, table: Seq<char>, condition: Option<ClauseModel> },
    Update { table: Seq<char>, set_col: Seq<char>, set_val: Cell, condition: ClauseModel },
    Delete { table: Seq<char>, condition: ClauseModel },
}

impl DeepView for Statement {
    type V = StatementModel;

    open spec fn deep_view(&self) -> StatementModel {
        match self {
            Statement::CreateTable { name, columns } => StatementModel::CreateTable {
                name: name@,
                columns: columns.deep_view(),
            },
            Statement::DropTable { name } => StatementModel::DropTable { name: name@ },
            Statement::ShowTables => StatementModel::ShowTables,
            Statement::Insert { table, values } => StatementModel::Insert {
                table: table@,
                values: values.deep_view(),
            },
            Statement::Select { columns, table, condition } => StatementModel::Select {
                columns: columns.deep_view(),
                table: table@,
                condition: match condition {
                    Some(c) => Some(c@),
                    None => None,
                },
            },
            Statement::Update { table, set_col, set_val, condition } => StatementModel::Update {
                table: table@,
                set_col: set_col@,
                set_val: set_val@,
                condition: condition@,
            },
            Statement::Delete { table, condition } => StatementModel::Delete {
                table: table@,
                condition: condition@,
            },
        }
    }
}

impl View for Statement {
    type V = StatementModel;

    open spec fn view(&self) -> StatementModel {
        self.deep_view()
    }
}

} // verus!
