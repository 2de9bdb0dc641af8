//! Join arguments, port states and the error type of the operator.

use vstd::prelude::*;

verus! {

/// The four relational join semantics the operator supports.
#[derive(Clone, Copy, PartialEq, Eq, Structural, Debug)]
pub enum JoinType {
    Inner,
    Left,
    Right,
    Full,
}

/// Which side's row order the output must preserve.
#[derive(Clone, Copy, PartialEq, Eq, Structural, Debug)]
pub enum MaintainOrder {
    NoOrder,
    Left,
    Right,
    LeftRight,
    RightLeft,
}

/// State of a scheduler port as seen at each tick.
#[derive(Clone, Copy, PartialEq, Eq, Structural, Debug)]
pub enum PortState {
    Blocked,
    Ready,
    Done,
}

/// Arguments fixed at construction of the join node.
#[derive(Clone, Debug)]
pub struct JoinArgs {
    pub how: JoinType,
    /// Appended to a right-hand column name that collides with a left one.
    pub suffix: Vec<u8>,
    /// Merge the left and right key columns into one output column.
    pub coalesce: bool,
    /// Whether null keys compare equal to each other.
    pub nulls_equal: bool,
    pub maintain_order: MaintainOrder,
}

/// Errors reported by the operator.
#[derive(Clone, Debug)]
pub enum JoinError {
    /// A suffixed right-hand column name already exists on the right side.
    /// Carries the colliding name.
    Duplicate(Vec<u8>),
}

impl JoinArgs {
    /// Whether the key columns of left and right are merged after the join.
    pub open spec fn spec_should_coalesce(&self) -> bool {
        self.coalesce
    }

    pub fn should_coalesce(&self) -> (r: bool)
        ensures
            r == self.spec_should_coalesce(),
    {
        self.coalesce
    }
}

} // verus!
