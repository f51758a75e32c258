use vstd::prelude::*;

verus! {

/// A context that attributes can be attached to.
pub trait Type {
}

/// A context of member records: fields or methods.
pub trait MemberType: Type {
}

/// Marks the field context.
pub enum OfField {
    Marker,
}

/// Marks the method context.
pub enum OfMethod {
    Marker,
}

/// Marks the class context.
pub enum OfClass {
    Marker,
}

impl Type for OfField {
}

impl Type for OfMethod {
}

impl Type for OfClass {
}

impl MemberType for OfField {
}

impl MemberType for OfMethod {
}

} // verus!
