//! The logical type of a column and the schema of a table.
use vstd::prelude::*;

verus! {

#[derive(Debug, Clone, Copy, PartialEq, Eq, Structural)]
pub enum ColumnType {
    Null,
    Bool,
    Integer,
    Float,
    String,
    Enum,
    Timestamp,
    JsonRaw,
}

#[derive(Debug, Clone)]
pub struct ColumnSchema {
    pub name: String,
    pub column_type: ColumnType,
    pub nullable: bool,
}

#[derive(Debug, Clone)]
pub struct Schema {
    pub columns: Vec<ColumnSchema>,
}

impl Default for Schema {
    fn default() -> (s: Self)
        ensures
            s.columns@.len() == 0,
    {
        Schema { columns: Vec::new() }
    }
}

} // verus!
