//! A small reference target: a byte-level assembler with a fixed, easily
//! decoded instruction encoding, and two register conventions. They exercise
//! the storage manager without committing to a real architecture.
use vstd::prelude::*;

use crate::target::{Assembler, CallConv};
use crate::machine::{FloatReg, GeneralReg};

verus! {

/// Opcode of a general register-to-register copy.
pub const OP_MOV_RR: u8 = 1;

/// Opcode of a float register-to-register copy.
pub const OP_MOV_FF: u8 = 2;

/// Opcode of an 8-byte load into a general register.
pub const OP_LOAD_R: u8 = 3;

/// Opcode of an 8-byte load into a float register.
pub const OP_LOAD_F: u8 = 4;

/// Opcode of an 8-byte store of a general register.
pub const OP_STORE_R: u8 = 5;

/// Opcode of an 8-byte store of a float register.
pub const OP_STORE_F: u8 = 6;

/// The eight little-endian bytes of a register number.
pub open spec fn le8(x: u64) -> Seq<u8> {
    seq![
        (x & 0xff) as u8,
        ((x >> 8) & 0xff) as u8,
        ((x >> 16) & 0xff) as u8,
        ((x >> 24) & 0xff) as u8,
        ((x >> 32) & 0xff) as u8,
        ((x >> 40) & 0xff) as u8,
        ((x >> 48) & 0xff) as u8,
        ((x >> 56) & 0xff) as u8,
    ]
}

/// The four little-endian bytes of a base-pointer displacement, shifted into
/// the unsigned range by an excess-2^31 bias.
pub open spec fn off4(offset: i32) -> Seq<u8> {
    let b = (offset + 0x8000_0000) as u64;
    seq![
        (b & 0xff) as u8,
        ((b >> 8) & 0xff) as u8,
        ((b >> 16) & 0xff) as u8,
        ((b >> 24) & 0xff) as u8,
    ]
}

/// The low byte of a 64-bit value.
fn low8(x: u64) -> (b: u8)
    ensures
        b == (x & 0xff) as u8,
{
    assert(x & 0xff < 256) by (bit_vector);
    (x & 0xff) as u8
}

/// Append the eight little-endian bytes of `x`.
fn push_le8(buf: &mut Vec<u8>, x: u64)
    ensures
        final(buf)@ == old(buf)@ + le8(x),
{
    buf.push(low8(x));
    buf.push(low8(x >> 8));
    buf.push(low8(x >> 16));
    buf.push(low8(x >> 24));
    buf.push(low8(x >> 32));
    buf.push(low8(x >> 40));
    buf.push(low8(x >> 48));
    buf.push(low8(x >> 56));
    assert(buf@ =~= old(buf)@ + le8(x));
}

/// Append the four little-endian bytes of a biased displacement.
fn push_off4(buf: &mut Vec<u8>, offset: i32)
    ensures
        final(buf)@ == old(buf)@ + off4(offset),
{
    let b: u64 = (offset as i64 + 0x8000_0000i64) as u64;
    buf.push(low8(b));
    buf.push(low8(b >> 8));
    buf.push(low8(b >> 16));
    buf.push(low8(b >> 24));
    assert(buf@ =~= old(buf)@ + off4(offset));
}

/// An assembler with a fixed tagged encoding: one opcode byte, then the
/// operands, registers as eight little-endian bytes and displacements as four
/// biased little-endian bytes.
pub struct SimpleAssembler;

impl Assembler for SimpleAssembler {
    open spec fn mov_reg64_reg64_enc(dst: GeneralReg, src: GeneralReg) -> Seq<u8> {
        seq![OP_MOV_RR] + le8(dst.0) + le8(src.0)
    }

    open spec fn mov_freg64_freg64_enc(dst: FloatReg, src: FloatReg) -> Seq<u8> {
        seq![OP_MOV_FF] + le8(dst.0) + le8(src.0)
    }

    open spec fn mov_reg64_base32_enc(dst: GeneralReg, offset: i32) -> Seq<u8> {
        seq![OP_LOAD_R] + le8(dst.0) + off4(offset)
    }

    open spec fn mov_freg64_base32_enc(dst: FloatReg, offset: i32) -> Seq<u8> {
        seq![OP_LOAD_F] + le8(dst.0) + off4(offset)
    }

    open spec fn mov_base32_reg64_enc(offset: i32, src: GeneralReg) -> Seq<u8> {
        seq![OP_STORE_R] + off4(offset) + le8(src.0)
    }

    open spec fn mov_base32_freg64_enc(offset: i32, src: FloatReg) -> Seq<u8> {
        seq![OP_STORE_F] + off4(offset) + le8(src.0)
    }

    fn mov_reg64_reg64(buf: &mut Vec<u8>, dst: GeneralReg, src: GeneralReg) {
        buf.push(OP_MOV_RR);
        push_le8(buf, dst.0);
        push_le8(buf, src.0);
        assert(buf@ =~= old(buf)@ + Self::mov_reg64_reg64_enc(dst, src));
    }

    fn mov_freg64_freg64(buf: &mut Vec<u8>, dst: FloatReg, src: FloatReg) {
        buf.push(OP_MOV_FF);
        push_le8(buf, dst.0);
        push_le8(buf, src.0);
        assert(buf@ =~= old(buf)@ + Self::mov_freg64_freg64_enc(dst, src));
    }

    fn mov_reg64_base32(buf: &mut Vec<u8>, dst: GeneralReg, offset: i32) {
        buf.push(OP_LOAD_R);
        push_le8(buf, dst.0);
        push_off4(buf, offset);
        assert(buf@ =~= old(buf)@ + Self::mov_reg64_base32_enc(dst, offset));
    }

    fn mov_freg64_base32(buf: &mut Vec<u8>, dst: FloatReg, offset: i32) {
        buf.push(OP_LOAD_F);
        push_le8(buf, dst.0);
        push_off4(buf, offset);
        assert(buf@ =~= old(buf)@ + Self::mov_freg64_base32_enc(dst, offset));
    }

    fn mov_base32_reg64(buf: &mut Vec<u8>, offset: i32, src: GeneralReg) {
        buf.push(OP_STORE_R);
        push_off4(buf, offset);
        push_le8(buf, src.0);
        assert(buf@ =~= old(buf)@ + Self::mov_base32_reg64_enc(offset, src));
    }

    fn mov_base32_freg64(buf: &mut Vec<u8>, offset: i32, src: FloatReg) {
        buf.push(OP_STORE_F);
        push_off4(buf, offset);
        push_le8(buf, src.0);
        assert(buf@ =~= old(buf)@ + Self::mov_base32_freg64_enc(offset, src));
    }
}

/// A one-register convention: a single caller-saved register in each family.
/// The smallest convention under which spilling can be observed.
pub struct MiniConv;

impl CallConv for MiniConv {
    open spec fn spec_general_callee_saved(r: GeneralReg) -> bool {
        false
    }

    open spec fn spec_float_callee_saved(r: FloatReg) -> bool {
        false
    }

    open spec fn spec_general_caller_saved(r: GeneralReg) -> bool {
        true
    }

    open spec fn spec_float_caller_saved(r: FloatReg) -> bool {
        true
    }

    open spec fn spec_general_default_free_regs() -> Seq<GeneralReg> {
        seq![GeneralReg(0)]
    }

    open spec fn spec_float_default_free_regs() -> Seq<FloatReg> {
        seq![FloatReg(0)]
    }

    fn general_callee_saved(r: &GeneralReg) -> bool {
        false
    }

    fn float_callee_saved(r: &FloatReg) -> bool {
        false
    }

    fn general_caller_saved(r: &GeneralReg) -> bool {
        true
    }

    fn float_caller_saved(r: &FloatReg) -> bool {
        true
    }

    fn general_default_free_regs() -> (v: Vec<GeneralReg>) {
        let v = vec![GeneralReg(0)];
        assert(v@ =~= Self::spec_general_default_free_regs());
        v
    }

    fn float_default_free_regs() -> (v: Vec<FloatReg>) {
        let v = vec![FloatReg(0)];
        assert(v@ =~= Self::spec_float_default_free_regs());
        v
    }
}

/// A four-register convention in each family, handed out in ascending order:
/// even-numbered registers are caller-saved, odd-numbered ones callee-saved.
pub struct EvenOddConv;

impl CallConv for EvenOddConv {
    open spec fn spec_general_callee_saved(r: GeneralReg) -> bool {
        r.0 % 2 == 1
    }

    open spec fn spec_float_callee_saved(r: FloatReg) -> bool {
        r.0 % 2 == 1
    }

    open spec fn spec_general_caller_saved(r: GeneralReg) -> bool {
        r.0 % 2 == 0
    }

    open spec fn spec_float_caller_saved(r: FloatReg) -> bool {
        r.0 % 2 == 0
    }

    open spec fn spec_general_default_free_regs() -> Seq<GeneralReg> {
        seq![GeneralReg(3), GeneralReg(2), GeneralReg(1), GeneralReg(0)]
    }

    open spec fn spec_float_default_free_regs() -> Seq<FloatReg> {
        seq![FloatReg(3), FloatReg(2), FloatReg(1), FloatReg(0)]
    }

    fn general_callee_saved(r: &GeneralReg) -> bool {
        r.0 % 2 == 1
    }

    fn float_callee_saved(r: &FloatReg) -> bool {
        r.0 % 2 == 1
    }

    fn general_caller_saved(r: &GeneralReg) -> bool {
        r.0 % 2 == 0
    }

    fn float_caller_saved(r: &FloatReg) -> bool {
        r.0 % 2 == 0
    }

    fn general_default_free_regs() -> (v: Vec<GeneralReg>) {
        let v = vec![GeneralReg(3), GeneralReg(2), GeneralReg(1), GeneralReg(0)];
        assert(v@ =~= Self::spec_general_default_free_regs());
        assert(v@.no_duplicates());
        v
    }

    fn float_default_free_regs() -> (v: Vec<FloatReg>) {
        let v = vec![FloatReg(3), FloatReg(2), FloatReg(1), FloatReg(0)];
        assert(v@ =~= Self::spec_float_default_free_regs());
        assert(v@.no_duplicates());
        v
    }
}

} // verus!
