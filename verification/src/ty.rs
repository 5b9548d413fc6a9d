//! Semantic types as the frame manager sees them: each carries a byte size,
//! a byte alignment, and whether a slot of the type holds a reference the
//! collector must trace. Class types are identified by dense integer ids
//! resolved through a central table, so the descriptor itself stays a plain
//! value.

use vstd::prelude::*;

verus! {

/// Dense id of a class descriptor in the central class table.
#[derive(Copy, Clone, PartialEq, Eq, Structural, Debug)]
pub struct ClassId(pub usize);

/// The source-language types a stack slot can be tagged with.
#[derive(Copy, Clone, PartialEq, Eq, Structural, Debug)]
pub enum BuiltinType {
    Unit,
    Bool,
    Int,
    Nil,
    Str,
    IntArray,
    Class(ClassId),
}

impl BuiltinType {
    /// Byte size of a value of the type. Reference types and the nil type
    /// occupy one pointer.
    pub open spec fn spec_size(self) -> int {
        match self {
            BuiltinType::Unit => 0,
            BuiltinType::Bool => 1,
            BuiltinType::Int => 4,
            BuiltinType::Nil => 8,
            BuiltinType::Str => 8,
            BuiltinType::IntArray => 8,
            BuiltinType::Class(_) => 8,
        }
    }

    /// Byte alignment of a value of the type.
    pub open spec fn spec_align(self) -> int {
        match self {
            BuiltinType::Unit => 1,
            BuiltinType::Bool => 1,
            BuiltinType::Int => 4,
            BuiltinType::Nil => 8,
            BuiltinType::Str => 8,
            BuiltinType::IntArray => 8,
            BuiltinType::Class(_) => 8,
        }
    }

    /// A slot of the type holds a pointer the collector must trace.
    pub open spec fn spec_is_reference(self) -> bool {
        match self {
            BuiltinType::Nil => true,
            BuiltinType::Str => true,
            BuiltinType::IntArray => true,
            BuiltinType::Class(_) => true,
            _ => false,
        }
    }

    pub fn size(self) -> (r: i32)
        ensures
            r == self.spec_size(),
    {
        match self {
            BuiltinType::Unit => 0,
            BuiltinType::Bool => 1,
            BuiltinType::Int => 4,
            BuiltinType::Nil => 8,
            BuiltinType::Str => 8,
            BuiltinType::IntArray => 8,
            BuiltinType::Class(_) => 8,
        }
    }

    pub fn align(self) -> (r: i32)
        ensures
            r == self.spec_align(),
    {
        match self {
            BuiltinType::Unit => 1,
            BuiltinType::Bool => 1,
            BuiltinType::Int => 4,
            BuiltinType::Nil => 8,
            BuiltinType::Str => 8,
            BuiltinType::IntArray => 8,
            BuiltinType::Class(_) => 8,
        }
    }

    pub fn reference_type(self) -> (r: bool)
        ensures
            r == self.spec_is_reference(),
    {
        match self {
            BuiltinType::Nil => true,
            BuiltinType::Str => true,
            BuiltinType::IntArray => true,
            BuiltinType::Class(_) => true,
            _ => false,
        }
    }

    pub fn is_nil(self) -> (r: bool)
        ensures
            r == (self is Nil),
    {
        match self {
            BuiltinType::Nil => true,
            _ => false,
        }
    }
}

} // verus!
