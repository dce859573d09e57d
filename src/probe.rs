//! Telling a field held by value from one reached through an indirection:
//! only the first may be selected into.
use vstd::prelude::*;
use crate::layout::Shape;

verus! {

/// What a probe reports for a field held by value.
pub struct Value;

/// What a probe reports for a field that is itself a reference or pointer.
pub struct Reference;

/// Fields that may be destructured further: values only.
pub trait MustBeAValue {
    fn check(&self);
}

impl MustBeAValue for Value {
    fn check(&self) {
    }
}

/// A probe on the shape of one field.
pub struct IsReference {
    pub indirect: bool,
}

impl IsReference {
    /// Probes the field whose shape is `shape`.
    pub fn for_ptr(shape: &Shape) -> (r: IsReference)
        ensures
            r.indirect == (shape is Indirection),
    {
        match shape {
            Shape::Indirection { .. } => IsReference { indirect: true },
            _ => IsReference { indirect: false },
        }
    }

    /// `Value` for a field held by value, `Reference` for one that is an
    /// indirection.
    pub fn test(&self) -> (r: Result<Value, Reference>)
        ensures
            r is Err <==> self.indirect,
    {
        if self.indirect {
            Err(Reference)
        } else {
            Ok(Value)
        }
    }
}

} // verus!
