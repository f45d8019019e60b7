//! The tables a database knows, found by name regardless of case.
use vstd::prelude::*;

use crate::keyed::KeyedVec;

verus! {

#[derive(Debug, Clone, Copy, PartialEq, Eq, Structural)]
pub enum ColumnType {
    Int,
    Text,
    Float,
    Bool,
}

pub struct ColumnInfo {
    pub name: String,
    pub col_type: ColumnType,
    pub nullable: bool,
}

pub struct TableSchema {
    pub name: String,
    pub columns: Vec<ColumnInfo>,
}

/// The lower-case form of a text, as `str::to_lowercase` computes it.
pub uninterp spec fn lowercase(s: Seq<char>) -> Seq<char>;

/// `str::to_lowercase`; its result is named `lowercase` of the argument.
#[verifier::external_body]
fn to_lower(s: &str) -> (r: String)
    ensures
        r@ == lowercase(s@),
{
    s.to_lowercase()
}

/// Table schemas under the lower-case form of their names.
pub struct Catalog {
    tables: KeyedVec<TableSchema>,
}

impl View for Catalog {
    type V = Map<Seq<char>, TableSchema>;

    closed spec fn view(&self) -> Map<Seq<char>, TableSchema> {
        self.tables@
    }
}

impl Catalog {
    /// An empty catalog.
    pub fn new() -> (r: Self)
        ensures
            r@ == Map::<Seq<char>, TableSchema>::empty(),
    {
        Catalog { tables: KeyedVec::new() }
    }

    /// Records table `name` with `columns`, replacing any table whose name differs from it
    /// only in case.
    pub fn create_table(&mut self, name: &str, columns: Vec<ColumnInfo>)
        ensures
            final(self)@ == old(self)@.insert(lowercase(name@), final(self)@[lowercase(name@)]),
            final(self)@[lowercase(name@)].name@ == name@,
            final(self)@[lowercase(name@)].columns == columns,
    {
        let key = to_lower(name);
        let schema = TableSchema { name: name.to_owned(), columns };
        self.tables.insert(key, schema);
    }

    /// The table named `name`, regardless of case.
    pub fn get_table(&self, name: &str) -> (r: Option<&TableSchema>)
        ensures
            match r {
                Some(t) => self@.contains_key(lowercase(name@)) && *t == self@[lowercase(name@)],
                None => !self@.contains_key(lowercase(name@)),
            },
    {
        let key = to_lower(name);
        self.tables.get(&key)
    }

    /// Forgets table `name`, returning whether it existed.
    pub fn drop_table(&mut self, name: &str) -> (r: bool)
        ensures
            r == old(self)@.contains_key(lowercase(name@)),
            final(self)@ == old(self)@.remove(lowercase(name@)),
    {
        let key = to_lower(name);
        self.tables.remove(&key)
    }
}

} // verus!
