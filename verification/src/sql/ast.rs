//! Parsed SQL statements.
use vstd::prelude::*;

use crate::sql::catalog::ColumnType;

verus! {

#[derive(Debug)]
pub enum Statement {
    Select(SelectStmt),
    Insert(InsertStmt),
    Create(CreateStmt),
    Drop(DropStmt),
    Delete(DeleteStmt),
    Update(UpdateStmt),
}

#[derive(Debug)]
pub struct SelectStmt {
    pub columns: Vec<SelectColumn>,
    pub table: String,
    pub where_clause: Option<Expression>,
}

#[derive(Debug)]
pub enum SelectColumn {
    All,
    Named(String),
}

#[derive(Debug)]
pub struct InsertStmt {
    pub table: String,
    pub columns: Option<Vec<String>>,
    pub values: Vec<Expression>,
}

#[derive(Debug)]
pub struct CreateStmt {
    pub table: String,
    pub columns: Vec<ColumnDef>,
}

#[derive(Debug)]
pub struct ColumnDef {
    pub name: String,
    pub col_type: ColumnType,
}

#[derive(Debug)]
pub struct DropStmt {
    pub table: String,
}

#[derive(Debug)]
pub struct DeleteStmt {
    pub table: String,
    pub where_clause: Option<Expression>,
}

#[derive(Debug)]
pub struct UpdateStmt {
    pub table: String,
    pub assignments: Vec<(String, Expression)>,
    pub where_clause: Option<Expression>,
}

/// A condition or value. A decimal literal with a fraction is kept as its text.
#[derive(Debug)]
pub enum Expression {
    Column(String),
    IntLiteral(i64),
    StringLiteral(String),
    FloatLiteral(String),
    BoolLiteral(bool),
    Null,
    Eq(Box<Expression>, Box<Expression>),
    Neq(Box<Expression>, Box<Expression>),
    Lt(Box<Expression>, Box<Expression>),
    Gt(Box<Expression>, Box<Expression>),
    Lte(Box<Expression>, Box<Expression>),
    Gte(Box<Expression>, Box<Expression>),
    And(Box<Expression>, Box<Expression>),
    Or(Box<Expression>, Box<Expression>),
}

/// An expression as a value: texts as characters, operands as boxed values.
pub enum ExprV {
    Column(Seq<char>),
    IntLiteral(i64),
    StringLiteral(Seq<char>),
    FloatLiteral(Seq<char>),
    BoolLiteral(bool),
    Null,
    Eq(Box<ExprV>, Box<ExprV>),
    Neq(Box<ExprV>, Box<ExprV>),
    Lt(Box<ExprV>, Box<ExprV>),
    Gt(Box<ExprV>, Box<ExprV>),
    Lte(Box<ExprV>, Box<ExprV>),
    Gte(Box<ExprV>, Box<ExprV>),
    And(Box<ExprV>, Box<ExprV>),
    Or(Box<ExprV>, Box<ExprV>),
}

/// The value of an expression.
pub open spec fn expr_view(e: Expression) -> ExprV
    decreases e,
{
    match e {
        Expression::Column(n) => ExprV::Column(n@),
        Expression::IntLiteral(v) => ExprV::IntLiteral(v),
        Expression::StringLiteral(t) => ExprV::StringLiteral(t@),
        Expression::FloatLiteral(t) => ExprV::FloatLiteral(t@),
        Expression::BoolLiteral(b) => ExprV::BoolLiteral(b),
        Expression::Null => ExprV::Null,
        Expression::Eq(a, b) => ExprV::Eq(Box::new(expr_view(*a)), Box::new(expr_view(*b))),
        Expression::Neq(a, b) => ExprV::Neq(Box::new(expr_view(*a)), Box::new(expr_view(*b))),
        Expression::Lt(a, b) => ExprV::Lt(Box::new(expr_view(*a)), Box::new(expr_view(*b))),
        Expression::Gt(a, b) => ExprV::Gt(Box::new(expr_view(*a)), Box::new(expr_view(*b))),
        Expression::Lte(a, b) => ExprV::Lte(Box::new(expr_view(*a)), Box::new(expr_view(*b))),
        Expression::Gte(a, b) => ExprV::Gte(Box::new(expr_view(*a)), Box::new(expr_view(*b))),
        Expression::And(a, b) => ExprV::And(Box::new(expr_view(*a)), Box::new(expr_view(*b))),
        Expression::Or(a, b) => ExprV::Or(Box::new(expr_view(*a)), Box::new(expr_view(*b))),
    }
}

impl View for Expression {
    type V = ExprV;

    open spec fn view(&self) -> ExprV {
        expr_view(*self)
    }
}

/// A statement as a value. A selected column is `None` for `*` and the name otherwise.
#[allow(inconsistent_fields)]
pub enum StatementV {
    Select { columns: Seq<Option<Seq<char>>>, table: Seq<char>, where_clause: Option<ExprV> },
    Insert { table: Seq<char>, columns: Option<Seq<Seq<char>>>, values: Seq<ExprV> },
    Create { table: Seq<char>, columns: Seq<(Seq<char>, ColumnType)> },
    Drop { table: Seq<char> },
    Delete { table: Seq<char>, where_clause: Option<ExprV> },
    Update { table: Seq<char>, assignments: Seq<(Seq<char>, ExprV)>, where_clause: Option<ExprV> },
}

/// The value of an optional condition.
pub open spec fn where_view(w: Option<Expression>) -> Option<ExprV> {
    match w {
        Some(e) => Some(e@),
        None => None,
    }
}

/// The value of a selected column.
pub open spec fn select_column_view(c: SelectColumn) -> Option<Seq<char>> {
    match c {
        SelectColumn::All => None,
        SelectColumn::Named(n) => Some(n@),
    }
}

/// The value of a list of expressions.
pub open spec fn exprs_view(es: Seq<Expression>) -> Seq<ExprV> {
    es.map_values(|e: Expression| e@)
}

pub open spec fn select_view(s: SelectStmt) -> StatementV {
    StatementV::Select {
        columns: s.columns@.map_values(|c: SelectColumn| select_column_view(c)),
        table: s.table@,
        where_clause: where_view(s.where_clause),
    }
}

pub open spec fn insert_view(s: InsertStmt) -> StatementV {
    StatementV::Insert {
        table: s.table@,
        columns: match s.columns {
            Some(cs) => Some(cs@.map_values(|c: String| c@)),
            None => None,
        },
        values: exprs_view(s.values@),
    }
}

pub open spec fn create_view(s: CreateStmt) -> StatementV {
    StatementV::Create {
        table: s.table@,
        columns: s.columns@.map_values(|c: ColumnDef| (c.name@, c.col_type)),
    }
}

pub open spec fn drop_view(s: DropStmt) -> StatementV {
    StatementV::Drop { table: s.table@ }
}

pub open spec fn delete_view(s: DeleteStmt) -> StatementV {
    StatementV::Delete { table: s.table@, where_clause: where_view(s.where_clause) }
}

pub open spec fn update_view(s: UpdateStmt) -> StatementV {
    StatementV::Update {
        table: s.table@,
        assignments: s.assignments@.map_values(|a: (String, Expression)| (a.0@, a.1@)),
        where_clause: where_view(s.where_clause),
    }
}

impl View for Statement {
    type V = StatementV;

    open spec fn view(&self) -> StatementV {
        match *self {
            Statement::Select(s) => select_view(s),
            Statement::Insert(s) => insert_view(s),
            Statement::Create(s) => create_view(s),
            Statement::Drop(s) => drop_view(s),
            Statement::Delete(s) => delete_view(s),
            Statement::Update(s) => update_view(s),
        }
    }
}

} // verus!
