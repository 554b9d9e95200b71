//! Transaction descriptors of the lock-free list: the status a transaction
//! is in and what an operation of it answers.

use vstd::prelude::*;

verus! {

/// The state of a transaction.
#[derive(Clone, Copy, PartialEq, Eq, Structural)]
pub enum OpStatus {
    Active,
    Committed,
    Aborted,
}

/// What one operation of a transaction answers.
#[derive(Debug, Clone)]
pub enum ReturnCode<R> {
    Success,
    Inserted(R),
    Deleted(R),
    Found(R),
    Skip,
    Fail(String),
}

/// The kind of an operation of a transaction.
#[derive(Clone, Copy, PartialEq, Eq, Structural)]
pub enum OpKind {
    Find,
    Insert,
    Connect,
    Delete,
    InsertEdge,
    DeleteEdge,
}

} // verus!
