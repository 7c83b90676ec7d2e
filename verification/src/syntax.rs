//! Statements and filter expressions of the SQL-like command language.
use vstd::prelude::*;
use crate::types::{Cell, Value};

verus! {

/// A parsed command.
#[derive(Debug)]
pub enum Statement {
    CreateTable { name: String, columns: Vec<String> },
    DropTable(String),
    CreateDatabase(String),
    DropDatabase(String),
    ShowDatabases,
    UseDatabase(String),
    ShowTables,
    Insert { table: String, values: Vec<Value> },
    Select { columns: Vec<String>, table: String, filter: Option<Expr> },
    Update { table: String, set_col: String, set_val: Value, filter: Expr },
    Delete { table: String, filter: Expr },
    Backup { table: String },
    CheckIntegrity { table: String },
}

/// A row filter.
#[derive(Debug)]
pub enum Expr {
    True,
    Eq(String, Value),
    Ne(String, Value),
    Gt(String, Value),
    Ge(String, Value),
    Lt(String, Value),
    Le(String, Value),
    Like(String, Value),
    And(Box<Expr>, Box<Expr>),
    Or(Box<Expr>, Box<Expr>),
}

/// The mathematical content of an [`Expr`].
pub enum ExprModel {
    True,
    Eq(Seq<char>, Cell),
    Ne(Seq<char>, Cell),
    Gt(Seq<char>, Cell),
    Ge(Seq<char>, Cell),
    Lt(Seq<char>, Cell),
    Le(Seq<char>, Cell),
    Like(Seq<char>, Cell),
    And(Box<ExprModel>, Box<ExprModel>),
    Or(Box<ExprModel>, Box<ExprModel>),
}

/// The mathematical content of a [`Statement`].
pub enum StatementModel {
    CreateTable { name: Seq<char>, columns: Seq<Seq<char>> },
    DropTable(Seq<char>),
    CreateDatabase(Seq<char>),
    DropDatabase(Seq<char>),
    ShowDatabases,
    UseDatabase(Seq<char>),
    ShowTables,
    Insert { table: Seq<char>, values: Seq<Cell> },
    Select { columns: Seq<Seq<char>>, table: Seq<char>, filter: Option<ExprModel> },
    Update { table: Seq<char>, set_col: Seq<char>, set_val: Cell, filter: ExprModel },
    Delete { table: Seq<char>, filter: ExprModel },
    Backup { table: Seq<char> },
    CheckIntegrity { table: Seq<char> },
}

impl DeepView for Expr {
    type V = ExprModel;

    open spec fn deep_view(&self) -> ExprModel
        decreases self,
    {
        match self {
            Expr::True => ExprModel::True,
            Expr::Eq(c, v) => ExprModel::Eq(c@, v@),
            Expr::Ne(c, v) => ExprModel::Ne(c@, v@),
            Expr::Gt(c, v) => ExprModel::Gt(c@, v@),
            Expr::Ge(c, v) => ExprModel::Ge(c@, v@),
            Expr::Lt(c, v) => ExprModel::Lt(c@, v@),
            Expr::Le(c, v) => ExprModel::Le(c@, v@),
            Expr::Like(c, v) => ExprModel::Like(c@, v@),
            Expr::And(a, b) => ExprModel::And(Box::new((**a).deep_view()), Box::new((**b).deep_view())),
            Expr::Or(a, b) => ExprModel::Or(Box::new((**a).deep_view()), Box::new((**b).deep_view())),
        }
    }
}

impl View for Expr {
    type V = ExprModel;

    open spec fn view(&self) -> ExprModel {
        self.deep_view()
    }
}

/// The content of an optional filter.
pub open spec fn opt_expr_view(e: Option<Expr>) -> Option<ExprModel> {
    match e {
        Some(x) => Some(x@),
        None => None,
    }
}

impl DeepView for Statement {
    type V = StatementModel;

    open spec fn deep_view(&self) -> StatementModel {
        match self {
            Statement::CreateTable { name, columns } => StatementModel::CreateTable {
                name: name@,
                columns: columns.deep_view(),
            },
            Statement::DropTable(n) => StatementModel::DropTable(n@),
            Statement::CreateDatabase(n) => StatementModel::CreateDatabase(n@),
            Statement::DropDatabase(n) => StatementModel::DropDatabase(n@),
            Statement::ShowDatabases => StatementModel::ShowDatabases,
            Statement::UseDatabase(n) => StatementModel::UseDatabase(n@),
            Statement::ShowTables => StatementModel::ShowTables,
            Statement::Insert { table, values } => StatementModel::Insert {
                table: table@,
                values: values.deep_view(),
            },
            Statement::Select { columns, table, filter } => StatementModel::Select {
                columns: columns.deep_view(),
                table: table@,
                filter: opt_expr_view(*filter),
            },
            Statement::Update { table, set_col, set_val, filter } => StatementModel::Update {
                table: table@,
                set_col: set_col@,
                set_val: set_val@,
                filter: filter@,
            },
            Statement::Delete { table, filter } => StatementModel::Delete {
                table: table@,
                filter: filter@,
            },
            Statement::Backup { table } => StatementModel::Backup { table: table@ },
            Statement::CheckIntegrity { table } => StatementModel::CheckIntegrity { table: table@ },
        }
    }
}

impl View for Statement {
    type V = StatementModel;

    open spec fn view(&self) -> StatementModel {
        self.deep_view()
    }
}

} // verus!
