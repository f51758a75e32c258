use vstd::prelude::*;

verus! {

/// The category of pool entry that a typed index is expected to resolve to.
#[derive(PartialEq, Eq, Structural, Clone, Copy, Debug)]
pub enum Category {
    Utf8,
    ClassInfo,
    NameAndType,
    FieldRef,
    MethodRef,
    InterfaceMethodRef,
    AnyMethodRef,
    ConstVal,
}

/// Why a container could not be decoded. Every variant is fatal to the
/// container it came from.
#[derive(PartialEq, Eq, Structural, Clone, Copy, Debug)]
pub enum ClassError {
    /// The first four bytes are not the container's magic value.
    MagicMismatch,
    /// The bytes ended before the record that starts at `offset` did. The
    /// offset counts from the start of the bytes being read: the container,
    /// or the payload or list that a walk holds.
    Truncated { offset: usize },
    /// A pool entry carries a tag that no format revision defines.
    InvalidTag { tag: u8, major: u16 },
    /// A pool entry carries a tag that this major version does not allow yet.
    TagIllegalForVersion { tag: u8, major: u16 },
    /// A method-handle entry carries an unknown kind code.
    InvalidRefKind { kind: u8 },
    /// A pool index that must be present is zero.
    ZeroIndex,
    /// A pool index is past the end of the pool.
    PoolIndexOutOfRange { index: u16 },
    /// A pool index points at an entry of another category; `found` is that
    /// entry's tag (zero for the placeholders).
    PoolCategoryMismatch { expected: Category, found: u8 },
    /// The container's parts do not fit together: a long or a double in the
    /// last declared pool slot, or sections that do not end exactly where the
    /// container does.
    MalformedContainer,
}

} // verus!
