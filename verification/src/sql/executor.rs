//! Runs plans against the catalog and reports what happened.
use vstd::prelude::*;

use crate::sql::catalog::{lowercase, Catalog, ColumnInfo, ColumnType, TableSchema};
use crate::sql::planner::{column_type_name, column_type_text, QueryPlan};
use crate::text::text_is;

verus! {

/// A column of a result: its name and the name of its type.
#[derive(Debug)]
pub struct SqlColumn {
    pub name: String,
    pub col_type: String,
}

/// What a statement returned.
#[derive(Debug)]
pub struct SqlResult {
    pub columns: Vec<SqlColumn>,
    pub rows: Vec<Vec<String>>,
    pub affected_rows: u64,
    pub error: Option<String>,
}

/// The column type a type name stands for; unknown names stand for text.
pub open spec fn type_from_name(s: Seq<char>) -> ColumnType {
    if s == "Int"@ {
        ColumnType::Int
    } else if s == "Text"@ {
        ColumnType::Text
    } else if s == "Float"@ {
        ColumnType::Float
    } else if s == "Bool"@ {
        ColumnType::Bool
    } else {
        ColumnType::Text
    }
}

/// The message for a missing table.
pub open spec fn missing_message(table: Seq<char>) -> Seq<char> {
    "Table '"@ + table + "' does not exist"@
}

/// The message for a table created twice.
pub open spec fn exists_message(table: Seq<char>) -> Seq<char> {
    "Table '"@ + table + "' already exists"@
}

/// A result with no columns, no rows, `affected` rows touched and the given error.
pub open spec fn bare_result(r: SqlResult, affected: u64, error: Option<Seq<char>>) -> bool {
    &&& r.columns@.len() == 0
    &&& r.rows@.len() == 0
    &&& r.affected_rows == affected
    &&& match error {
        Some(m) => r.error matches Some(e) && e@ == m,
        None => r.error is None,
    }
}

/// The result columns describe the columns of `schema`.
pub open spec fn describes_schema(cols: Seq<SqlColumn>, schema: TableSchema) -> bool {
    &&& cols.len() == schema.columns@.len()
    &&& forall|i: int|
        #![trigger cols[i]]
        0 <= i < cols.len() ==> cols[i].name@ == schema.columns@[i].name@ && cols[i].col_type@
            == column_type_name(schema.columns@[i].col_type)
}

/// A successful result holding `cols`, no rows and `affected` rows touched.
pub open spec fn columns_result(r: SqlResult, affected: u64) -> bool {
    &&& r.rows@.len() == 0
    &&& r.affected_rows == affected
    &&& r.error is None
}

/// Some named column is `*`.
pub open spec fn selects_all(columns: Seq<String>) -> bool {
    exists|i: int| 0 <= i < columns.len() && #[trigger] columns[i]@ == "*"@
}

/// The outcome of running `plan` on catalog `c`, leaving catalog `d` and result `r`.
pub open spec fn execution_outcome(
    c: Map<Seq<char>, TableSchema>,
    plan: QueryPlan,
    d: Map<Seq<char>, TableSchema>,
    r: SqlResult,
) -> bool {
    match plan {
        QueryPlan::CreateTable { table, columns } => {
            let key = lowercase(table@);
            if c.contains_key(key) {
                d == c && bare_result(r, 0, Some(exists_message(table@)))
            } else {
                &&& d == c.insert(key, d[key])
                &&& d[key].name@ == table@
                &&& d[key].columns@.len() == columns@.len()
                &&& forall|i: int|
                    #![trigger d[key].columns@[i]]
                    0 <= i < columns@.len() ==> d[key].columns@[i].name@ == columns@[i].0@
                        && d[key].columns@[i].col_type == type_from_name(columns@[i].1@)
                        && d[key].columns@[i].nullable
                &&& columns_result(r, 0)
                &&& r.columns@.len() == columns@.len()
                &&& forall|i: int|
                    #![trigger r.columns@[i]]
                    0 <= i < columns@.len() ==> r.columns@[i].name@ == columns@[i].0@
                        && r.columns@[i].col_type@ == columns@[i].1@
            }
        },
        QueryPlan::DropTable { table } => {
            let key = lowercase(table@);
            &&& d == c.remove(key)
            &&& if c.contains_key(key) {
                bare_result(r, 1, None)
            } else {
                bare_result(r, 0, Some(missing_message(table@)))
            }
        },
        QueryPlan::Insert { table, .. } => {
            let key = lowercase(table@);
            &&& d == c
            &&& if c.contains_key(key) {
                columns_result(r, 1) && describes_schema(r.columns@, c[key])
            } else {
                bare_result(r, 0, Some(missing_message(table@)))
            }
        },
        QueryPlan::Select { table, columns, .. } => {
            let key = lowercase(table@);
            &&& d == c
            &&& if !c.contains_key(key) {
                bare_result(r, 0, Some(missing_message(table@)))
            } else if selects_all(columns@) {
                columns_result(r, 0) && describes_schema(r.columns@, c[key])
            } else {
                &&& columns_result(r, 0)
                &&& r.columns@.len() == columns@.len()
                &&& forall|i: int|
                    #![trigger r.columns@[i]]
                    0 <= i < columns@.len() ==> r.columns@[i].name@ == columns@[i]@
                        && r.columns@[i].col_type@ == "Text"@
            }
        },
        QueryPlan::Delete { table, .. } | QueryPlan::Update { table, .. } => {
            let key = lowercase(table@);
            &&& d == c
            &&& if c.contains_key(key) {
                bare_result(r, 0, None)
            } else {
                bare_result(r, 0, Some(missing_message(table@)))
            }
        },
    }
}

/// "Table '<table>'" followed by `tail`.
fn table_message(table: &String, tail: &str) -> (r: String)
    ensures
        r@ == "Table '"@ + table@ + tail@,
{
    let mut m = "Table '".to_owned();
    m.append(table.as_str());
    m.append(tail);
    m
}

fn bare(affected: u64, error: Option<String>) -> (r: SqlResult)
    ensures
        r.columns@.len() == 0,
        r.rows@.len() == 0,
        r.affected_rows == affected,
        r.error == error,
{
    SqlResult { columns: Vec::new(), rows: Vec::new(), affected_rows: affected, error }
}

/// The column type a type name stands for.
fn type_from(s: &String) -> (r: ColumnType)
    ensures
        r == type_from_name(s@),
{
    if text_is(s, "Int") {
        ColumnType::Int
    } else if text_is(s, "Text") {
        ColumnType::Text
    } else if text_is(s, "Float") {
        ColumnType::Float
    } else if text_is(s, "Bool") {
        ColumnType::Bool
    } else {
        ColumnType::Text
    }
}

/// The result columns for every column of `schema`.
fn schema_columns(schema: &TableSchema) -> (r: Vec<SqlColumn>)
    ensures
        describes_schema(r@, *schema),
{
    let mut r: Vec<SqlColumn> = Vec::new();
    let mut i: usize = 0;
    while i < schema.columns.len()
        invariant
            i <= schema.columns@.len(),
            r@.len() == i,
            forall|j: int|
                #![trigger r@[j]]
                0 <= j < i ==> r@[j].name@ == schema.columns@[j].name@ && r@[j].col_type@
                    == column_type_name(schema.columns@[j].col_type),
        decreases schema.columns@.len() - i,
    {
        let name = schema.columns[i].name.clone();
        let t = column_type_text(schema.columns[i].col_type);
        r.push(SqlColumn { name, col_type: t });
        i = i + 1;
    }
    r
}

/// Runs plans against a catalog it holds.
pub struct QueryExecutor {
    catalog: Catalog,
}

impl View for QueryExecutor {
    type V = Map<Seq<char>, TableSchema>;

    closed spec fn view(&self) -> Map<Seq<char>, TableSchema> {
        self.catalog@
    }
}

impl QueryExecutor {
    /// An executor over `catalog`.
    pub fn new(catalog: Catalog) -> (r: Self)
        ensures
            r@ == catalog@,
    {
        QueryExecutor { catalog }
    }

    /// The catalog.
    pub fn catalog(&self) -> (r: &Catalog)
        ensures
            r@ == self@,
    {
        &self.catalog
    }

    /// Runs `plan`.
    pub fn execute(&mut self, plan: &QueryPlan) -> (r: SqlResult)
        ensures
            execution_outcome(old(self)@, *plan, final(self)@, r),
    {
        match plan {
            QueryPlan::CreateTable { table, columns } => {
                let mut cols: Vec<ColumnInfo> = Vec::new();
                let mut defs: Vec<SqlColumn> = Vec::new();
                let mut i: usize = 0;
                while i < columns.len()
                    invariant
                        i <= columns@.len(),
                        cols@.len() == i,
                        defs@.len() == i,
                        forall|j: int|
                            #![trigger cols@[j]]
                            0 <= j < i ==> cols@[j].name@ == columns@[j].0@ && cols@[j].col_type
                                == type_from_name(columns@[j].1@) && cols@[j].nullable,
                        forall|j: int|
                            #![trigger defs@[j]]
                            0 <= j < i ==> defs@[j].name@ == columns@[j].0@ && defs@[j].col_type@
                                == columns@[j].1@,
                    decreases columns@.len() - i,
                {
                    let col_type = type_from(&columns[i].1);
                    cols.push(ColumnInfo { name: columns[i].0.clone(), col_type, nullable: true });
                    defs.push(
                        SqlColumn { name: columns[i].0.clone(), col_type: columns[i].1.clone() },
                    );
                    i = i + 1;
                }
                if self.catalog.get_table(table.as_str()).is_some() {
                    return bare(0, Some(table_message(table, "' already exists")));
                }
                self.catalog.create_table(table.as_str(), cols);
                SqlResult { columns: defs, rows: Vec::new(), affected_rows: 0, error: None }
            },
            QueryPlan::DropTable { table } => {
                let existed = self.catalog.drop_table(table.as_str());
                if existed {
                    bare(1, None)
                } else {
                    bare(0, Some(table_message(table, "' does not exist")))
                }
            },
            QueryPlan::Insert { table, .. } => {
                match self.catalog.get_table(table.as_str()) {
                    Some(schema) => {
                        let defs = schema_columns(schema);
                        SqlResult { columns: defs, rows: Vec::new(), affected_rows: 1, error: None }
                    },
                    None => bare(0, Some(table_message(table, "' does not exist"))),
                }
            },
            QueryPlan::Select { table, columns, .. } => {
                match self.catalog.get_table(table.as_str()) {
                    Some(schema) => {
                        let mut all = false;
                        let mut i: usize = 0;
                        while i < columns.len()
                            invariant
                                i <= columns@.len(),
                                all == exists|j: int| 0 <= j < i && #[trigger] columns@[j]@ == "*"@,
                            decreases columns@.len() - i,
                        {
                            if text_is(&columns[i], "*") {
                                all = true;
                            }
                            i = i + 1;
                        }
                        let defs = if all {
                            schema_columns(schema)
                        } else {
                            let mut defs: Vec<SqlColumn> = Vec::new();
                            let mut k: usize = 0;
                            while k < columns.len()
                                invariant
                                    k <= columns@.len(),
                                    defs@.len() == k,
                                    forall|j: int|
                                        #![trigger defs@[j]]
                                        0 <= j < k ==> defs@[j].name@ == columns@[j]@
                                            && defs@[j].col_type@ == "Text"@,
                                decreases columns@.len() - k,
                            {
                                defs.push(
                                    SqlColumn {
                                        name: columns[k].clone(),
                                        col_type: "Text".to_owned(),
                                    },
                                );
                                k = k + 1;
                            }
                            defs
                        };
                        SqlResult { columns: defs, rows: Vec::new(), affected_rows: 0, error: None }
                    },
                    None => bare(0, Some(table_message(table, "' does not exist"))),
                }
            },
            QueryPlan::Delete { table, .. } | QueryPlan::Update { table, .. } => {
                if self.catalog.get_table(table.as_str()).is_none() {
                    return bare(0, Some(table_message(table, "' does not exist")));
                }
                bare(0, None)
            },
        }
    }
}

/// A table is created once: creating a table again under a name that differs only in case
/// is refused with "already exists" and leaves the catalog as the first creation left it.
pub proof fn lemma_create_twice_refused(
    c: Map<Seq<char>, TableSchema>,
    first: String,
    columns: Vec<(String, String)>,
    d: Map<Seq<char>, TableSchema>,
    r1: SqlResult,
    second: String,
    columns2: Vec<(String, String)>,
    e: Map<Seq<char>, TableSchema>,
    r2: SqlResult,
)
    requires
        lowercase(first@) == lowercase(second@),
        execution_outcome(c, QueryPlan::CreateTable { table: first, columns }, d, r1),
        execution_outcome(d, QueryPlan::CreateTable { table: second, columns: columns2 }, e, r2),
    ensures
        d.contains_key(lowercase(first@)),
        e == d,
        r2.error matches Some(m) && m@ == exists_message(second@),
        r2.affected_rows == 0,
{
}

/// Dropping a table just created, under a name that differs from it only in case, answers
/// one row affected and leaves the catalog as it was before the creation.
pub proof fn lemma_create_then_drop(
    c: Map<Seq<char>, TableSchema>,
    name: String,
    columns: Vec<(String, String)>,
    d: Map<Seq<char>, TableSchema>,
    r1: SqlResult,
    other: String,
    e: Map<Seq<char>, TableSchema>,
    r2: SqlResult,
)
    requires
        !c.contains_key(lowercase(name@)),
        lowercase(name@) == lowercase(other@),
        execution_outcome(c, QueryPlan::CreateTable { table: name, columns }, d, r1),
        execution_outcome(d, QueryPlan::DropTable { table: other }, e, r2),
    ensures
        r1.error is None,
        e == c,
        r2.affected_rows == 1,
        r2.error is None,
{
    assert(e =~= c);
}

/// A column created with a type named `Int`, `Text`, `Float` or `Bool` keeps that type: the
/// catalog records exactly the type named, and `SELECT *` on the table afterwards, under a
/// name that differs only in case, reports the column under its name with the type text it
/// was declared with.
pub proof fn lemma_declared_types_kept(
    c: Map<Seq<char>, TableSchema>,
    table: String,
    columns: Vec<(String, String)>,
    d: Map<Seq<char>, TableSchema>,
    r1: SqlResult,
    other: String,
    selected: Vec<String>,
    where_clause: Option<String>,
    e: Map<Seq<char>, TableSchema>,
    r2: SqlResult,
    i: int,
)
    requires
        !c.contains_key(lowercase(table@)),
        lowercase(table@) == lowercase(other@),
        execution_outcome(c, QueryPlan::CreateTable { table, columns }, d, r1),
        execution_outcome(d, QueryPlan::Select { table: other, columns: selected, where_clause }, e, r2),
        exists|k: int| 0 <= k < selected@.len() && #[trigger] selected@[k]@ == "*"@,
        0 <= i < columns@.len(),
        columns@[i].1@ == "Int"@ || columns@[i].1@ == "Text"@ || columns@[i].1@ == "Float"@
            || columns@[i].1@ == "Bool"@,
    ensures
        columns@[i].1@ == "Int"@ ==> d[lowercase(table@)].columns@[i].col_type == ColumnType::Int,
        columns@[i].1@ == "Text"@ ==> d[lowercase(table@)].columns@[i].col_type == ColumnType::Text,
        columns@[i].1@ == "Float"@ ==> d[lowercase(table@)].columns@[i].col_type == ColumnType::Float,
        columns@[i].1@ == "Bool"@ ==> d[lowercase(table@)].columns@[i].col_type == ColumnType::Bool,
        r2.error is None,
        r2.columns@.len() == columns@.len(),
        r2.columns@[i].name@ == columns@[i].0@,
        r2.columns@[i].col_type@ == columns@[i].1@,
{
    let key = lowercase(table@);
    lemma_type_names_distinct();
    assert(d.contains_key(key));
    assert(d[key].columns@[i].col_type == type_from_name(columns@[i].1@));
    lemma_type_names_round_trip(d[key].columns@[i].col_type);
    assert(r2.columns@[i].name@ == d[key].columns@[i].name@);
}

/// The four type names differ from one another.
proof fn lemma_type_names_distinct()
    ensures
        "Int"@ != "Text"@,
        "Int"@ != "Float"@,
        "Int"@ != "Bool"@,
        "Text"@ != "Float"@,
        "Text"@ != "Bool"@,
        "Float"@ != "Bool"@,
{
    reveal_strlit("Int");
    reveal_strlit("Text");
    reveal_strlit("Float");
    reveal_strlit("Bool");
    assert("Int"@[0] != "Text"@[0]);
    assert("Int"@[0] != "Float"@[0]);
    assert("Int"@[0] != "Bool"@[0]);
    assert("Text"@[0] != "Float"@[0]);
    assert("Text"@[0] != "Bool"@[0]);
    assert("Float"@[0] != "Bool"@[0]);
}

/// Every column type reads back as itself from the name it is printed with.
pub proof fn lemma_type_names_round_trip(t: ColumnType)
    ensures
        type_from_name(column_type_name(t)) == t,
{
    lemma_type_names_distinct();
}

} // verus!
