//! The small value types the storage manager works over: symbols, the two
//! disjoint register families, and the tagged union describing where a
//! symbol's value currently lives.
use vstd::prelude::*;

verus! {

/// A compile-time identifier for an IR-level value. Identifiers are chosen by
/// the client; the manager only compares them for equality.
#[derive(Copy, Clone, Debug, PartialEq, Eq, Hash, Structural)]
pub struct Symbol(pub u64);

/// The identifier of the well-known hidden aggregate-return pointer argument.
pub const RET_POINTER: u64 = u64::MAX;

/// A general-purpose register, identified by a small target-specific number.
#[derive(Copy, Clone, Debug, PartialEq, Eq, Hash, Structural)]
pub struct GeneralReg(pub u64);

/// A floating-point register, identified by a small target-specific number.
#[derive(Copy, Clone, Debug, PartialEq, Eq, Hash, Structural)]
pub struct FloatReg(pub u64);

/// A register of either family.
#[derive(Copy, Clone, Debug, PartialEq, Eq, Structural)]
pub enum RegStorage {
    General(GeneralReg),
    Float(FloatReg),
}

/// Where a symbol's value currently lives.
#[derive(Copy, Clone, Debug, PartialEq, Eq, Structural)]
pub enum Storage {
    /// The value lives exclusively in a register.
    Reg(RegStorage),
    /// An 8-byte-aligned, 8-byte stack slot. `reg` optionally names a
    /// register that currently mirrors the slot's value.
    Primitive { base_offset: i32, reg: Option<RegStorage> },
    /// A primitive-sized sub-range (1 to 8 bytes) inside a larger composite,
    /// with no alignment or zero-padding guarantee of its own.
    ReferencedPrimitive { base_offset: i32, size: u32 },
    /// A composite region (struct, tag union, list, string) on the stack.
    Complex { base_offset: i32, size: u32 },
    /// A symbol of zero-sized type; bound so that freeing it is well defined.
    NoData,
}

impl Storage {
    /// The general register holding this value, if any: either the exclusive
    /// register or the register mirror of a primitive slot.
    pub open spec fn general_reg(self) -> Option<GeneralReg> {
        match self {
            Storage::Reg(RegStorage::General(r)) => Some(r),
            Storage::Primitive { reg: Some(RegStorage::General(r)), .. } => Some(r),
            _ => None,
        }
    }

    /// The float register holding this value, if any.
    pub open spec fn float_reg(self) -> Option<FloatReg> {
        match self {
            Storage::Reg(RegStorage::Float(r)) => Some(r),
            Storage::Primitive { reg: Some(RegStorage::Float(r)), .. } => Some(r),
            _ => None,
        }
    }

    /// Whether this storage describes a primitive value: one that fits in a
    /// single register.
    pub open spec fn is_primitive(self) -> bool {
        match self {
            Storage::Reg(_) => true,
            Storage::Primitive { .. } => true,
            Storage::ReferencedPrimitive { .. } => true,
            _ => false,
        }
    }
}

} // verus!
