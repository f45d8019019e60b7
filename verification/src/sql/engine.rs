//! SQL text in, results out, against a catalog the engine keeps.
use vstd::prelude::*;

use crate::sql::ast::Statement;
use crate::sql::catalog::{Catalog, TableSchema};
use crate::sql::executor::{bare_result, execution_outcome, QueryExecutor, SqlResult};
use crate::sql::parser::{parse_sql, sql_statement};
use crate::sql::planner::{plan_of, QueryPlan, QueryPlanner};
use crate::text::joined;

verus! {

/// What running `query` on catalog `c` gives: for text that does not parse, a parse error
/// and the catalog unchanged; otherwise the outcome of the statement's plan.
pub open spec fn query_outcome(
    c: Map<Seq<char>, TableSchema>,
    query: Seq<char>,
    d: Map<Seq<char>, TableSchema>,
    r: SqlResult,
) -> bool {
    match sql_statement(query) {
        Err(m) => d == c && bare_result(r, 0, Some("Parse error: "@ + m)),
        Ok(v) => exists|st: Statement, plan: QueryPlan|
            #![trigger plan_of(st, plan)]
            st@ == v && plan_of(st, plan) && execution_outcome(c, plan, d, r),
    }
}

/// Parses, plans and runs SQL statements against its own catalog.
pub struct SqlEngine {
    executor: QueryExecutor,
}

impl View for SqlEngine {
    type V = Map<Seq<char>, TableSchema>;

    closed spec fn view(&self) -> Map<Seq<char>, TableSchema> {
        self.executor@
    }
}

impl SqlEngine {
    /// An engine with no tables.
    pub fn new() -> (r: Self)
        ensures
            r@ == Map::<Seq<char>, TableSchema>::empty(),
    {
        SqlEngine { executor: QueryExecutor::new(Catalog::new()) }
    }

    /// Runs the statement that `query` begins with.
    pub fn execute(&mut self, query: &str) -> (r: SqlResult)
        ensures
            query_outcome(old(self)@, query@, final(self)@, r),
    {
        let statement = match parse_sql(query) {
            Ok(stmt) => stmt,
            Err(e) => {
                return SqlResult {
                    columns: Vec::new(),
                    rows: Vec::new(),
                    affected_rows: 0,
                    error: Some(joined("Parse error: ", e.as_str())),
                };
            },
        };
        let plan = QueryPlanner::plan(&statement, self.executor.catalog());
        self.executor.execute(&plan)
    }
}

impl Default for SqlEngine {
    fn default() -> (r: Self)
        ensures
            r@ == Map::<Seq<char>, TableSchema>::empty(),
    {
        Self::new()
    }
}

} // verus!
