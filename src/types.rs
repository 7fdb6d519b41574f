use vstd::prelude::*;

verus! {

/// The encoded form of one array branch; written as a single tag byte.
#[derive(Clone, Copy, Debug, PartialEq, Eq, Structural)]
pub enum ArrayTypeId {
    Void,
    Boolean,
    U8,
    IntPrefixVar,
    IntSimple16,
    DoubleGorilla,
    RLE,
}

/// The encoded form of a singleton value at the root.
#[derive(Clone, Copy, Debug, PartialEq, Eq, Structural)]
pub enum RootTypeId {
    Zero,
    One,
    IntU8,
    IntU16,
    IntU24,
    IntU32,
    IntU40,
    IntU48,
    IntU56,
    IntU64,
}

/// Why a branch could not be decoded.
#[derive(Clone, Copy, Debug, PartialEq, Eq, Structural)]
pub enum ReadError {
    /// A value does not fit the requested width, or the tag does not suit it.
    SchemaMismatch,
    /// The payload is malformed.
    InvalidFormat,
}

pub open spec fn tag_byte(id: ArrayTypeId) -> u8 {
    match id {
        ArrayTypeId::Void => 0,
        ArrayTypeId::Boolean => 1,
        ArrayTypeId::U8 => 2,
        ArrayTypeId::IntPrefixVar => 3,
        ArrayTypeId::IntSimple16 => 4,
        ArrayTypeId::DoubleGorilla => 5,
        ArrayTypeId::RLE => 6,
    }
}

/// The tag a byte up to 6 names.
pub open spec fn tag_of(b: u8) -> ArrayTypeId {
    if b == 0 {
        ArrayTypeId::Void
    } else if b == 1 {
        ArrayTypeId::Boolean
    } else if b == 2 {
        ArrayTypeId::U8
    } else if b == 3 {
        ArrayTypeId::IntPrefixVar
    } else if b == 4 {
        ArrayTypeId::IntSimple16
    } else if b == 5 {
        ArrayTypeId::DoubleGorilla
    } else {
        ArrayTypeId::RLE
    }
}

impl ArrayTypeId {
    /// The tag byte written on the wire.
    pub fn to_byte(self) -> (r: u8)
        ensures
            r == tag_byte(self),
    {
        match self {
            ArrayTypeId::Void => 0,
            ArrayTypeId::Boolean => 1,
            ArrayTypeId::U8 => 2,
            ArrayTypeId::IntPrefixVar => 3,
            ArrayTypeId::IntSimple16 => 4,
            ArrayTypeId::DoubleGorilla => 5,
            ArrayTypeId::RLE => 6,
        }
    }

    /// Reads a tag byte back; `None` for a byte that names no tag.
    pub fn from_byte(b: u8) -> (r: Option<ArrayTypeId>)
        ensures
            r matches Some(id) ==> tag_byte(id) == b && id == tag_of(b),
            r is None <==> b > 6,
    {
        match b {
            0 => Some(ArrayTypeId::Void),
            1 => Some(ArrayTypeId::Boolean),
            2 => Some(ArrayTypeId::U8),
            3 => Some(ArrayTypeId::IntPrefixVar),
            4 => Some(ArrayTypeId::IntSimple16),
            5 => Some(ArrayTypeId::DoubleGorilla),
            6 => Some(ArrayTypeId::RLE),
            _ => None,
        }
    }
}

} // verus!
