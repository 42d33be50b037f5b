use vstd::prelude::*;

use crate::value::Type;

verus! {

/// One declared column: its name and its scalar shape.
pub struct Column {
    pub name: String,
    pub ty: Type,
}

/// One declared table; it doubles as the model entry with the declared
/// field count that cursors validate against.
pub struct Table {
    pub name: String,
    pub columns: Vec<Column>,
}

/// The process-wide, read-only description of the declared tables; a model
/// identifier is an index into them.
pub struct Schema {
    pub tables: Vec<Table>,
}

/// A character a SQL identifier may contain; the placeholder mark is not
/// one of them.
pub open spec fn is_ident_char(c: char) -> bool {
    ('a' <= c && c <= 'z') || ('A' <= c && c <= 'Z') || ('0' <= c && c <= '9') || c == '_'
}

/// A well-formed SQL identifier: nonempty, identifier characters only.
pub open spec fn ident_wf(s: Seq<char>) -> bool {
    0 < s.len() && forall|i: int| 0 <= i < s.len() ==> is_ident_char(s[i])
}

impl Schema {
    /// A well-formed schema: every table and column name is a SQL
    /// identifier, and every column has a scalar shape.
    pub open spec fn wf(&self) -> bool {
        forall|t: int|
            0 <= t < self.tables@.len() ==> {
                &&& ident_wf((#[trigger] self.tables@[t]).name@)
                &&& forall|c: int|
                    0 <= c < self.tables@[t].columns@.len() ==> {
                        &&& ident_wf((#[trigger] self.tables@[t].columns@[c]).name@)
                        &&& !(self.tables@[t].columns@[c].ty is Record)
                    }
            }
    }

    /// The declared field count of model `m`.
    pub open spec fn spec_field_count(&self, m: int) -> nat {
        self.tables@[m].columns@.len()
    }

    /// The number of declared tables.
    pub fn table_count(&self) -> (n: usize)
        ensures
            n == self.tables@.len(),
    {
        self.tables.len()
    }

    /// The declared field count of model `m`, validated against by every
    /// cursor before it decodes a row.
    pub fn field_count(&self, m: usize) -> (n: usize)
        requires
            m < self.tables@.len(),
        ensures
            n == self.spec_field_count(m as int),
    {
        self.tables[m].columns.len()
    }
}

} // verus!
