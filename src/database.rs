//! Writing values as SQL literals.
use vstd::prelude::*;

verus! {

/// A value that can be written as an SQL literal.
pub trait ToSql {
    fn as_sql_string(&self) -> String;
}

} // verus!
