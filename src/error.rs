use vstd::prelude::*;

verus! {

/// The ways an operation can fail.
#[derive(Clone, Copy, Debug, PartialEq, Eq, Structural)]
pub enum DBError {
    OpenError,
    StoreError,
    DatabaseNotFound,
    TableNotFound,
    TableExists,
    RecordNotFound,
    TypeMismatch,
    InvalidColumn,
    ColumnExists,
    InvalidPosition,
}

/// The result of an operation.
pub type DBResult<T> = Result<T, DBError>;

} // verus!
