//! The operations that a record can carry.

use vstd::prelude::*;

verus! {

/// What a record does to its key. `DELETE` marks the key as removed.
#[derive(Debug, PartialEq, Eq, Clone, Copy, Structural)]
pub enum Operation {
    ADD,
    UPDATE,
    DELETE,
}

/// The number under which an operation is stored.
pub open spec fn operation_code(operation: Operation) -> u32 {
    match operation {
        Operation::ADD => 0,
        Operation::UPDATE => 1,
        Operation::DELETE => 2,
    }
}

impl Operation {
    /// The number under which this operation is stored.
    pub fn code(&self) -> (c: u32)
        ensures
            c == operation_code(*self),
    {
        match self {
            Operation::ADD => 0,
            Operation::UPDATE => 1,
            Operation::DELETE => 2,
        }
    }

    /// The operation stored under `code`, if there is one.
    pub fn from_code(code: u32) -> (o: Option<Operation>)
        ensures
            match o {
                Some(operation) => operation_code(operation) == code,
                None => code > 2,
            },
    {
        if code == 0 {
            Some(Operation::ADD)
        } else if code == 1 {
            Some(Operation::UPDATE)
        } else if code == 2 {
            Some(Operation::DELETE)
        } else {
            None
        }
    }
}

} // verus!
