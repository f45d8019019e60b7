//! Turns statements into plans that name what the executor touches.
use vstd::prelude::*;

use crate::sql::ast::{SelectColumn, Statement};
use crate::sql::catalog::{Catalog, ColumnType};
use crate::text::{decimal, u64_text};

verus! {

#[derive(Debug)]
#[allow(inconsistent_fields)]
pub enum QueryPlan {
    CreateTable { table: String, columns: Vec<(String, String)> },
    DropTable { table: String },
    Insert { table: String, columns: Vec<(String, String)> },
    Select { table: String, columns: Vec<String>, where_clause: Option<String> },
    Delete { table: String, where_clause: Option<String> },
    Update { table: String, assignments: Vec<(String, String)>, where_clause: Option<String> },
}

/// The name a column type is printed with.
pub open spec fn column_type_name(t: ColumnType) -> Seq<char> {
    match t {
        ColumnType::Int => "Int"@,
        ColumnType::Text => "Text"@,
        ColumnType::Float => "Float"@,
        ColumnType::Bool => "Bool"@,
    }
}

/// The name a column type is printed with.
pub fn column_type_text(t: ColumnType) -> (r: String)
    ensures
        r@ == column_type_name(t),
{
    match t {
        ColumnType::Int => "Int".to_owned(),
        ColumnType::Text => "Text".to_owned(),
        ColumnType::Float => "Float".to_owned(),
        ColumnType::Bool => "Bool".to_owned(),
    }
}

/// The placeholder a plan records for a present condition.
pub open spec fn where_marker(w: Option<String>, present: bool) -> bool {
    match w {
        Some(s) => present && s@ == "where_clause"@,
        None => !present,
    }
}

/// The name the planner gives the `i`-th inserted value.
pub open spec fn insert_column_name(i: int) -> Seq<char> {
    "col_"@ + decimal(i as nat)
}

/// `plan` is the plan of `statement`.
pub open spec fn plan_of(statement: Statement, plan: QueryPlan) -> bool {
    match statement {
        Statement::Create(s) => match plan {
            QueryPlan::CreateTable { table, columns } => {
                &&& table@ == s.table@
                &&& columns@.len() == s.columns@.len()
                &&& forall|i: int|
                    0 <= i < columns@.len() ==> #[trigger] columns@[i].0@ == s.columns@[i].name@
                        && columns@[i].1@ == column_type_name(s.columns@[i].col_type)
            },
            _ => false,
        },
        Statement::Drop(s) => match plan {
            QueryPlan::DropTable { table } => table@ == s.table@,
            _ => false,
        },
        Statement::Insert(s) => match plan {
            QueryPlan::Insert { table, columns } => {
                &&& table@ == s.table@
                &&& columns@.len() == s.values@.len()
                &&& forall|i: int|
                    0 <= i < columns@.len() ==> #[trigger] columns@[i].0@ == insert_column_name(i)
                        && columns@[i].1@ == "val"@
            },
            _ => false,
        },
        Statement::Select(s) => match plan {
            QueryPlan::Select { table, columns, where_clause } => {
                &&& table@ == s.table@
                &&& columns@.len() == s.columns@.len()
                &&& forall|i: int|
                    0 <= i < columns@.len() ==> #[trigger] columns@[i]@ == match s.columns@[i] {
                        SelectColumn::All => "*"@,
                        SelectColumn::Named(n) => n@,
                    }
                &&& where_marker(where_clause, s.where_clause is Some)
            },
            _ => false,
        },
        Statement::Delete(s) => match plan {
            QueryPlan::Delete { table, where_clause } => {
                &&& table@ == s.table@
                &&& where_marker(where_clause, s.where_clause is Some)
            },
            _ => false,
        },
        Statement::Update(s) => match plan {
            QueryPlan::Update { table, assignments, where_clause } => {
                &&& table@ == s.table@
                &&& assignments@.len() == s.assignments@.len()
                &&& forall|i: int|
                    0 <= i < assignments@.len() ==> #[trigger] assignments@[i].0@
                        == s.assignments@[i].0@ && assignments@[i].1@ == "val"@
                &&& where_marker(where_clause, s.where_clause is Some)
            },
            _ => false,
        },
    }
}

fn where_of(present: bool) -> (r: Option<String>)
    ensures
        where_marker(r, present),
{
    if present {
        Some("where_clause".to_owned())
    } else {
        None
    }
}

pub struct QueryPlanner;

impl QueryPlanner {
    /// The plan of `statement`.
    pub fn plan(statement: &Statement, _catalog: &Catalog) -> (r: QueryPlan)
        ensures
            plan_of(*statement, r),
    {
        match statement {
            Statement::Create(stmt) => {
                let mut columns: Vec<(String, String)> = Vec::new();
                let mut i: usize = 0;
                while i < stmt.columns.len()
                    invariant
                        i <= stmt.columns@.len(),
                        columns@.len() == i,
                        forall|j: int|
                            #![trigger columns@[j]]
                            0 <= j < i ==> columns@[j].0@ == stmt.columns@[j].name@
                                && columns@[j].1@ == column_type_name(stmt.columns@[j].col_type),
                    decreases stmt.columns@.len() - i,
                {
                    let name = stmt.columns[i].name.clone();
                    let t = column_type_text(stmt.columns[i].col_type);
                    columns.push((name, t));
                    assert(columns@[i as int].0@ == stmt.columns@[i as int].name@);
                    assert(columns@[i as int].1@ == column_type_name(stmt.columns@[i as int].col_type));
                    i = i + 1;
                }
                QueryPlan::CreateTable { table: stmt.table.clone(), columns }
            },
            Statement::Drop(stmt) => QueryPlan::DropTable { table: stmt.table.clone() },
            Statement::Insert(stmt) => {
                let mut columns: Vec<(String, String)> = Vec::new();
                let mut i: usize = 0;
                while i < stmt.values.len()
                    invariant
                        i <= stmt.values@.len(),
                        columns@.len() == i,
                        forall|j: int|
                            0 <= j < i ==> #[trigger] columns@[j].0@ == insert_column_name(j)
                                && columns@[j].1@ == "val"@,
                    decreases stmt.values@.len() - i,
                {
                    let mut name = "col_".to_owned();
                    let digits = u64_text(i as u64);
                    name.append(digits.as_str());
                    columns.push((name, "val".to_owned()));
                    i = i + 1;
                }
                QueryPlan::Insert { table: stmt.table.clone(), columns }
            },
            Statement::Select(stmt) => {
                let mut columns: Vec<String> = Vec::new();
                let mut i: usize = 0;
                while i < stmt.columns.len()
                    invariant
                        i <= stmt.columns@.len(),
                        columns@.len() == i,
                        forall|j: int|
                            0 <= j < i ==> #[trigger] columns@[j]@ == match stmt.columns@[j] {
                                SelectColumn::All => "*"@,
                                SelectColumn::Named(n) => n@,
                            },
                    decreases stmt.columns@.len() - i,
                {
                    let c = match &stmt.columns[i] {
                        SelectColumn::All => "*".to_owned(),
                        SelectColumn::Named(n) => n.clone(),
                    };
                    columns.push(c);
                    i = i + 1;
                }
                QueryPlan::Select {
                    table: stmt.table.clone(),
                    columns,
                    where_clause: where_of(stmt.where_clause.is_some()),
                }
            },
            Statement::Delete(stmt) => QueryPlan::Delete {
                table: stmt.table.clone(),
                where_clause: where_of(stmt.where_clause.is_some()),
            },
            Statement::Update(stmt) => {
                let mut assignments: Vec<(String, String)> = Vec::new();
                let mut i: usize = 0;
                while i < stmt.assignments.len()
                    invariant
                        i <= stmt.assignments@.len(),
                        assignments@.len() == i,
                        forall|j: int|
                            0 <= j < i ==> #[trigger] assignments@[j].0@ == stmt.assignments@[j].0@
                                && assignments@[j].1@ == "val"@,
                    decreases stmt.assignments@.len() - i,
                {
                    let name = stmt.assignments[i].0.clone();
                    assignments.push((name, "val".to_owned()));
                    assert(assignments@[i as int].0@ == stmt.assignments@[i as int].0@);
                    i = i + 1;
                }
                QueryPlan::Update {
                    table: stmt.table.clone(),
                    assignments,
                    where_clause: where_of(stmt.where_clause.is_some()),
                }
            },
        }
    }
}

} // verus!
