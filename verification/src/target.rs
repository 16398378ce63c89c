//! The two capability sets a target plugs into the storage manager: an
//! assembler that emits 64-bit move instructions into a byte buffer, and a
//! calling convention that classifies registers.
use vstd::prelude::*;

use crate::machine::{FloatReg, GeneralReg};

verus! {

/// Emission of the 64-bit move instructions the storage manager needs. Each
/// method appends exactly the encoding named by the matching spec function,
/// so the byte sequence a caller accumulates mirrors its sequence of
/// operations. Stack operands are addressed as signed 32-bit displacements
/// from the frame's base pointer.
pub trait Assembler {
    /// The encoding of a 64-bit register-to-register integer copy.
    spec fn mov_reg64_reg64_enc(dst: GeneralReg, src: GeneralReg) -> Seq<u8>;

    /// The encoding of a 64-bit register-to-register float copy.
    spec fn mov_freg64_freg64_enc(dst: FloatReg, src: FloatReg) -> Seq<u8>;

    /// The encoding of an 8-byte load from `(base pointer + offset)` into a
    /// general register.
    spec fn mov_reg64_base32_enc(dst: GeneralReg, offset: i32) -> Seq<u8>;

    /// The encoding of an 8-byte load from `(base pointer + offset)` into a
    /// float register.
    spec fn mov_freg64_base32_enc(dst: FloatReg, offset: i32) -> Seq<u8>;

    /// The encoding of an 8-byte store of a general register to
    /// `(base pointer + offset)`.
    spec fn mov_base32_reg64_enc(offset: i32, src: GeneralReg) -> Seq<u8>;

    /// The encoding of an 8-byte store of a float register to
    /// `(base pointer + offset)`.
    spec fn mov_base32_freg64_enc(offset: i32, src: FloatReg) -> Seq<u8>;

    /// Copy 64 bits between general registers.
    fn mov_reg64_reg64(buf: &mut Vec<u8>, dst: GeneralReg, src: GeneralReg)
        ensures
            final(buf)@ == old(buf)@ + Self::mov_reg64_reg64_enc(dst, src),
    ;

    /// Copy 64 bits between float registers.
    fn mov_freg64_freg64(buf: &mut Vec<u8>, dst: FloatReg, src: FloatReg)
        ensures
            final(buf)@ == old(buf)@ + Self::mov_freg64_freg64_enc(dst, src),
    ;

    /// Load 8 bytes from `(base pointer + offset)` into a general register.
    fn mov_reg64_base32(buf: &mut Vec<u8>, dst: GeneralReg, offset: i32)
        ensures
            final(buf)@ == old(buf)@ + Self::mov_reg64_base32_enc(dst, offset),
    ;

    /// Load 8 bytes from `(base pointer + offset)` into a float register.
    fn mov_freg64_base32(buf: &mut Vec<u8>, dst: FloatReg, offset: i32)
        ensures
            final(buf)@ == old(buf)@ + Self::mov_freg64_base32_enc(dst, offset),
    ;

    /// Store a general register's 8 bytes to `(base pointer + offset)`.
    fn mov_base32_reg64(buf: &mut Vec<u8>, offset: i32, src: GeneralReg)
        ensures
            final(buf)@ == old(buf)@ + Self::mov_base32_reg64_enc(offset, src),
    ;

    /// Store a float register's 8 bytes to `(base pointer + offset)`.
    fn mov_base32_freg64(buf: &mut Vec<u8>, offset: i32, src: FloatReg)
        ensures
            final(buf)@ == old(buf)@ + Self::mov_base32_freg64_enc(offset, src),
    ;
}

/// The target's calling convention, as far as the storage manager reads it:
/// which registers are free at function entry, and the callee-saved /
/// caller-saved classification of each register family.
pub trait CallConv {
    /// Whether a general register must be preserved by the callee.
    spec fn spec_general_callee_saved(r: GeneralReg) -> bool;

    /// Whether a float register must be preserved by the callee.
    spec fn spec_float_callee_saved(r: FloatReg) -> bool;

    /// Whether a general register may be clobbered by a call.
    spec fn spec_general_caller_saved(r: GeneralReg) -> bool;

    /// Whether a float register may be clobbered by a call.
    spec fn spec_float_caller_saved(r: FloatReg) -> bool;

    /// The general registers free at function entry, in preference order:
    /// the last element is handed out first.
    spec fn spec_general_default_free_regs() -> Seq<GeneralReg>;

    /// The float registers free at function entry, in preference order.
    spec fn spec_float_default_free_regs() -> Seq<FloatReg>;

    /// Whether a general register must be preserved by the callee.
    fn general_callee_saved(r: &GeneralReg) -> (b: bool)
        ensures
            b == Self::spec_general_callee_saved(*r),
    ;

    /// Whether a float register must be preserved by the callee.
    fn float_callee_saved(r: &FloatReg) -> (b: bool)
        ensures
            b == Self::spec_float_callee_saved(*r),
    ;

    /// Whether a general register may be clobbered by a call.
    fn general_caller_saved(r: &GeneralReg) -> (b: bool)
        ensures
            b == Self::spec_general_caller_saved(*r),
    ;

    /// Whether a float register may be clobbered by a call.
    fn float_caller_saved(r: &FloatReg) -> (b: bool)
        ensures
            b == Self::spec_float_caller_saved(*r),
    ;

    /// The general registers free at function entry. The list never repeats a
    /// register.
    fn general_default_free_regs() -> (v: Vec<GeneralReg>)
        ensures
            v@ == Self::spec_general_default_free_regs(),
            v@.no_duplicates(),
    ;

    /// The float registers free at function entry. The list never repeats a
    /// register.
    fn float_default_free_regs() -> (v: Vec<FloatReg>)
        ensures
            v@ == Self::spec_float_default_free_regs(),
            v@.no_duplicates(),
    ;
}

} // verus!
