//! Traits for values stored in the spatial containers.
//!
//! The containers grow by duplicating a configured default value, and the
//! quadtree decides splits and merges by comparing stored values.  Both
//! capabilities are stated here as contracts, so that the containers'
//! own contracts can speak of exact equality.

use vstd::prelude::*;

verus! {

/// A value that can be duplicated exactly: the duplicate equals the
/// original.  This plays the role `Clone` plays in ordinary Rust, with the
/// exactness stated as a contract.
pub trait DupValue: Sized {
    fn dup(&self) -> (r: Self)
        ensures
            r == *self,
    ;
}

/// A value whose equality test decides logical equality.
pub trait EqValue: Sized {
    fn eq_value(&self, other: &Self) -> (r: bool)
        ensures
            r <==> *self == *other,
    ;
}

impl DupValue for bool {
    fn dup(&self) -> (r: Self)
    {
        *self
    }
}

impl EqValue for bool {
    fn eq_value(&self, other: &Self) -> (r: bool)
    {
        *self == *other
    }
}

impl DupValue for i32 {
    fn dup(&self) -> (r: Self)
    {
        *self
    }
}

impl EqValue for i32 {
    fn eq_value(&self, other: &Self) -> (r: bool)
    {
        *self == *other
    }
}

impl DupValue for i64 {
    fn dup(&self) -> (r: Self)
    {
        *self
    }
}

impl EqValue for i64 {
    fn eq_value(&self, other: &Self) -> (r: bool)
    {
        *self == *other
    }
}

impl DupValue for u32 {
    fn dup(&self) -> (r: Self)
    {
        *self
    }
}

impl EqValue for u32 {
    fn eq_value(&self, other: &Self) -> (r: bool)
    {
        *self == *other
    }
}

impl DupValue for u64 {
    fn dup(&self) -> (r: Self)
    {
        *self
    }
}

impl EqValue for u64 {
    fn eq_value(&self, other: &Self) -> (r: bool)
    {
        *self == *other
    }
}

impl DupValue for usize {
    fn dup(&self) -> (r: Self)
    {
        *self
    }
}

impl EqValue for usize {
    fn eq_value(&self, other: &Self) -> (r: bool)
    {
        *self == *other
    }
}

} // verus!
