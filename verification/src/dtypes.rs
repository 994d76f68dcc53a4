//! Logical types, column identity, and the error taxonomy.

use vstd::prelude::*;

verus! {

/// The closed set of logical types a column can have. The numeric kind is
/// carried as one fixed-width signed layout; the categorical kind belongs to
/// an outside collaborator and no builder here is dispatched to it.
pub enum DataType {
    Boolean,
    Numeric,
    Utf8,
    List(Box<DataType>),
    Categorical,
}

/// A column's identity: its name and logical type, fixed when a builder is
/// constructed and immutable once the column is finished.
pub struct Field {
    pub name: String,
    pub dtype: DataType,
}

impl Field {
    pub fn new(name: &str, dtype: DataType) -> (f: Field)
        ensures
            f.name@ == name@,
            f.dtype == dtype,
    {
        Field { name: name.to_owned(), dtype }
    }
}

/// Errors reported for caller contract violations. Validation happens before
/// any builder state is touched; none of these is raised mid-stream.
#[derive(Debug)]
pub enum PolarsError {
    /// An operation was asked to produce output from no input at all.
    NoData(&'static str),
    /// Input values violate a stated precondition, such as mismatched lengths.
    ValueError(&'static str),
    /// A column of one logical type was used where another was expected.
    DataTypeMisMatch(&'static str),
    /// The requested conversion is not defined for the column's type.
    InvalidOperation(&'static str),
}

} // verus!
