use storage_manager::machine::{FloatReg, GeneralReg, RegStorage, Storage, Symbol, RET_POINTER};
use storage_manager::layout::{FieldLayout, Layout};
use storage_manager::manager::{new_storage_manager, StorageManager};
use storage_manager::simple::{EvenOddConv, MiniConv, SimpleAssembler};
use storage_manager::target::Assembler;

type MiniMgr = StorageManager<SimpleAssembler, MiniConv>;
type QuadMgr = StorageManager<SimpleAssembler, EvenOddConv>;

fn mini() -> MiniMgr {
    let mut m: MiniMgr = new_storage_manager();
    m.reset();
    m
}

fn quad() -> QuadMgr {
    let mut m: QuadMgr = new_storage_manager();
    m.reset();
    m
}

#[test]
fn reset_seeds_default_free_regs() {
    let m = quad();
    assert_eq!(
        m.general_free_regs().as_slice(),
        &[GeneralReg(3), GeneralReg(2), GeneralReg(1), GeneralReg(0)]
    );
    assert_eq!(m.stack_size(), 0);
    assert_eq!(m.fn_call_stack_size(), 0);
    assert!(m.free_stack_chunks().is_empty());
}

#[test]
fn claim_then_spill_on_second_claim() {
    // With a single free register, the second claim spills the first symbol
    // to the first frame slot.
    let mut m = mini();
    let mut buf: Vec<u8> = Vec::new();
    let r = m.claim_general_reg(&mut buf, &Symbol(0));
    assert_eq!(r, GeneralReg(0));
    assert_eq!(m.general_used_regs().as_slice(), &[(GeneralReg(0), 0u64)]);
    assert!(buf.is_empty());

    let r2 = m.claim_general_reg(&mut buf, &Symbol(1));
    assert_eq!(r2, GeneralReg(0));
    assert_eq!(
        m.storage_for_sym(&Symbol(0)),
        Some(Storage::Primitive { base_offset: -8, reg: None })
    );
    assert_eq!(
        m.storage_for_sym(&Symbol(1)),
        Some(Storage::Reg(RegStorage::General(GeneralReg(0))))
    );
    assert_eq!(m.stack_size(), 8);
    let mut expected: Vec<u8> = Vec::new();
    SimpleAssembler::mov_base32_reg64(&mut expected, -8, GeneralReg(0));
    assert_eq!(buf, expected);
}

#[test]
fn load_after_spill() {
    // Continuing the claim/spill scenario: loading the spilled symbol spills
    // the second one and emits a load from its slot.
    let mut m = mini();
    let mut buf: Vec<u8> = Vec::new();
    m.claim_general_reg(&mut buf, &Symbol(0));
    m.claim_general_reg(&mut buf, &Symbol(1));
    let r = m.load_to_general_reg(&mut buf, &Symbol(0));
    assert_eq!(r, GeneralReg(0));
    assert_eq!(
        m.storage_for_sym(&Symbol(0)),
        Some(Storage::Primitive {
            base_offset: -8,
            reg: Some(RegStorage::General(GeneralReg(0)))
        })
    );
    assert_eq!(
        m.storage_for_sym(&Symbol(1)),
        Some(Storage::Primitive { base_offset: -16, reg: None })
    );
    let mut expected: Vec<u8> = Vec::new();
    SimpleAssembler::mov_base32_reg64(&mut expected, -8, GeneralReg(0));
    SimpleAssembler::mov_base32_reg64(&mut expected, -16, GeneralReg(0));
    SimpleAssembler::mov_reg64_base32(&mut expected, GeneralReg(0), -8);
    assert_eq!(buf, expected);
}

#[test]
fn field_projection_shares_allocation() {
    let mut m = mini();
    let st = Symbol(10);
    let field = Symbol(11);
    let off = m.claim_stack_area(&st, 24);
    assert_eq!(off, -24);
    let layouts = vec![FieldLayout::I64, FieldLayout::I64, FieldLayout::I64];
    m.load_field_at_index(&field, &st, 1, &layouts);
    assert_eq!(
        m.storage_for_sym(&field),
        Some(Storage::ReferencedPrimitive { base_offset: -16, size: 8 })
    );
    // Freeing the structure does not reclaim the chunk: the field still
    // points into it.
    m.free_symbol(&st);
    assert!(m.free_stack_chunks().is_empty());
    // Freeing the last reference reclaims the whole area.
    m.free_symbol(&field);
    assert_eq!(m.free_stack_chunks().as_slice(), &[(-24, 24)]);
    assert_eq!(m.stack_size(), 24);
}

#[test]
fn chunk_coalescing() {
    // Free list [(-32, 8), (-16, 8)] with a live chunk at (-24, 8): freeing
    // the live chunk produces exactly [(-32, 24)].
    let mut m = mini();
    let (a, b, c, d) = (Symbol(0), Symbol(1), Symbol(2), Symbol(3));
    m.claim_stack_area(&a, 8);
    m.claim_stack_area(&b, 8);
    m.claim_stack_area(&c, 8);
    m.claim_stack_area(&d, 8);
    m.free_symbol(&d);
    m.free_symbol(&b);
    assert_eq!(m.free_stack_chunks().as_slice(), &[(-32, 8), (-16, 8)]);
    m.free_symbol(&c);
    assert_eq!(m.free_stack_chunks().as_slice(), &[(-32, 24)]);
}

#[test]
fn free_chunks_are_reused_best_fit() {
    let mut m = mini();
    m.claim_stack_area(&Symbol(0), 8);
    m.claim_stack_area(&Symbol(1), 24);
    m.free_symbol(&Symbol(0));
    m.free_symbol(&Symbol(1));
    assert_eq!(m.free_stack_chunks().as_slice(), &[(-32, 32)]);
    // A new claim is served from the free chunk; no frame growth.
    let off = m.claim_stack_area(&Symbol(2), 16);
    assert_eq!(off, -32);
    assert_eq!(m.stack_size(), 32);
    assert_eq!(m.free_stack_chunks().as_slice(), &[(-16, 16)]);
}

#[test]
fn caller_saved_regs_spill_across_call() {
    // r0 is caller-saved, r1 callee-saved: pushing used caller-saved
    // registers spills only s0; s1 keeps its register.
    let mut m = quad();
    let mut buf: Vec<u8> = Vec::new();
    m.general_reg_arg(&Symbol(0), GeneralReg(0));
    m.general_reg_arg(&Symbol(1), GeneralReg(1));
    m.push_used_caller_saved_regs_to_stack(&mut buf);
    let mut expected: Vec<u8> = Vec::new();
    SimpleAssembler::mov_base32_reg64(&mut expected, -8, GeneralReg(0));
    assert_eq!(buf, expected);
    assert_eq!(
        m.storage_for_sym(&Symbol(0)),
        Some(Storage::Primitive { base_offset: -8, reg: None })
    );
    assert_eq!(
        m.storage_for_sym(&Symbol(1)),
        Some(Storage::Reg(RegStorage::General(GeneralReg(1))))
    );
    assert_eq!(m.general_used_regs().as_slice(), &[(GeneralReg(1), 1u64)]);
    assert!(m.general_free_regs().contains(&GeneralReg(0)));
}

#[test]
fn struct_construction() {
    // create_struct claims 16 bytes, stores the integer field at -16 and the
    // float field at -8.
    let mut m = mini();
    let mut buf: Vec<u8> = Vec::new();
    let (a, b, s) = (Symbol(0), Symbol(1), Symbol(2));
    let ra = m.claim_general_reg(&mut buf, &a);
    let rb = m.claim_float_reg(&mut buf, &b);
    buf.clear();
    let layout = Layout::Struct(vec![FieldLayout::I64, FieldLayout::F64]);
    m.create_struct(&mut buf, &s, &layout, &vec![a, b]);
    assert_eq!(
        m.storage_for_sym(&s),
        Some(Storage::Complex { base_offset: -16, size: 16 })
    );
    let mut expected: Vec<u8> = Vec::new();
    SimpleAssembler::mov_base32_reg64(&mut expected, -16, ra);
    SimpleAssembler::mov_base32_freg64(&mut expected, -8, rb);
    assert_eq!(buf, expected);
}

#[test]
fn zero_sized_struct_is_nodata() {
    let mut m = mini();
    let mut buf: Vec<u8> = Vec::new();
    let layout = Layout::Struct(vec![]);
    m.create_struct(&mut buf, &Symbol(5), &layout, &vec![]);
    assert_eq!(m.storage_for_sym(&Symbol(5)), Some(Storage::NoData));
    assert!(buf.is_empty());
    assert_eq!(m.stack_size(), 0);
}

#[test]
fn claim_free_round_trip_restores_state() {
    // Claiming a register for a fresh symbol and freeing it returns the
    // manager to its prior state.
    let mut m = quad();
    let mut buf: Vec<u8> = Vec::new();
    let free_before = m.general_free_regs().clone();
    let used_before = m.general_used_regs().clone();
    let chunks_before = m.free_stack_chunks().clone();
    let stack_before = m.stack_size();
    m.claim_general_reg(&mut buf, &Symbol(7));
    m.free_symbol(&Symbol(7));
    assert_eq!(m.general_free_regs(), &free_before);
    assert_eq!(m.general_used_regs(), &used_before);
    assert_eq!(m.free_stack_chunks(), &chunks_before);
    assert_eq!(m.stack_size(), stack_before);
    assert_eq!(m.storage_for_sym(&Symbol(7)), None);
}

#[test]
fn lru_progress_when_all_registers_used() {
    // With every register used, acquiring still succeeds: the oldest entry is
    // spilled and no symbol loses its storage.
    let mut m = quad();
    let mut buf: Vec<u8> = Vec::new();
    for i in 0..4u64 {
        m.claim_general_reg(&mut buf, &Symbol(i));
    }
    assert!(m.general_free_regs().is_empty());
    let r = m.claim_general_reg(&mut buf, &Symbol(100));
    // The oldest used register was r0 (claimed first from the back of
    // [r3, r2, r1, r0]).
    assert_eq!(r, GeneralReg(0));
    for i in 0..4u64 {
        assert!(m.storage_for_sym(&Symbol(i)).is_some());
    }
    assert!(m.storage_for_sym(&Symbol(100)).is_some());
}

#[test]
fn float_claim_and_load() {
    let mut m = quad();
    let mut buf: Vec<u8> = Vec::new();
    let r = m.claim_float_reg(&mut buf, &Symbol(0));
    assert_eq!(r, FloatReg(0));
    assert_eq!(
        m.storage_for_sym(&Symbol(0)),
        Some(Storage::Reg(RegStorage::Float(FloatReg(0))))
    );
    let r2 = m.load_to_float_reg(&mut buf, &Symbol(0));
    assert_eq!(r2, FloatReg(0));
    assert!(buf.is_empty());
}

#[test]
fn primitive_stack_arg_binds_incoming_slot() {
    let mut m = quad();
    m.primitive_stack_arg(&Symbol(0), 16);
    assert_eq!(
        m.storage_for_sym(&Symbol(0)),
        Some(Storage::Primitive { base_offset: 16, reg: None })
    );
    assert!(m.is_stored_primitive(&Symbol(0)));
    assert_eq!(m.stack_offset_and_size(&Symbol(0)), (16, 8));
}

#[test]
fn reg_args_leave_free_list() {
    let mut m = quad();
    m.general_reg_arg(&Symbol(0), GeneralReg(2));
    assert!(!m.general_free_regs().contains(&GeneralReg(2)));
    assert_eq!(m.general_used_regs().as_slice(), &[(GeneralReg(2), 0u64)]);
    m.float_reg_arg(&Symbol(1), FloatReg(3));
    assert!(!m.float_free_regs().contains(&FloatReg(3)));
    assert_eq!(m.float_used_regs().as_slice(), &[(FloatReg(3), 1u64)]);
}

#[test]
fn ret_pointer_arg_binds_well_known_symbol() {
    let mut m = quad();
    m.ret_pionter_arg(GeneralReg(0));
    assert_eq!(
        m.storage_for_sym(&Symbol(RET_POINTER)),
        Some(Storage::Reg(RegStorage::General(GeneralReg(0))))
    );
}

#[test]
fn fn_call_stack_size_only_grows() {
    let mut m = quad();
    m.update_fn_call_stack_size(24);
    assert_eq!(m.fn_call_stack_size(), 24);
    m.update_fn_call_stack_size(8);
    assert_eq!(m.fn_call_stack_size(), 24);
    m.update_fn_call_stack_size(40);
    assert_eq!(m.fn_call_stack_size(), 40);
}

#[test]
fn callee_saved_use_is_recorded() {
    let mut m = quad();
    let mut buf: Vec<u8> = Vec::new();
    // r0 (caller-saved) is handed out first, then r1 (callee-saved).
    m.claim_general_reg(&mut buf, &Symbol(0));
    assert!(m.general_used_callee_saved_regs().is_empty());
    m.claim_general_reg(&mut buf, &Symbol(1));
    assert_eq!(m.general_used_callee_saved_regs().as_slice(), &[GeneralReg(1)]);
    // Freeing does not forget the record: the epilogue must still restore it.
    m.free_symbol(&Symbol(1));
    assert_eq!(m.general_used_callee_saved_regs().as_slice(), &[GeneralReg(1)]);
}

#[test]
fn with_tmp_reg_returns_register() {
    let mut m = quad();
    let mut buf: Vec<u8> = Vec::new();
    let free_before = m.general_free_regs().len();
    m.with_tmp_general_reg(&mut buf, |mm, mut bb, r| {
        // The callback sees the emission buffer and the temporary register.
        SimpleAssembler::mov_reg64_reg64(&mut bb, r, r);
        (mm, bb)
    });
    // The register came back to the free list, and the callback's emission
    // survives in the caller's buffer.
    assert_eq!(m.general_free_regs().len(), free_before);
    let mut expected: Vec<u8> = Vec::new();
    SimpleAssembler::mov_reg64_reg64(&mut expected, GeneralReg(0), GeneralReg(0));
    assert_eq!(buf, expected);
}

#[test]
fn load_to_specified_reg_moves_between_registers() {
    let mut m = quad();
    let mut buf: Vec<u8> = Vec::new();
    let r = m.claim_general_reg(&mut buf, &Symbol(0));
    assert_eq!(r, GeneralReg(0));
    m.load_to_specified_general_reg(&mut buf, &Symbol(0), GeneralReg(3));
    let mut expected: Vec<u8> = Vec::new();
    SimpleAssembler::mov_reg64_reg64(&mut expected, GeneralReg(3), GeneralReg(0));
    assert_eq!(buf, expected);
    // Moving into the register already holding the value emits nothing.
    buf.clear();
    m.load_to_specified_general_reg(&mut buf, &Symbol(0), GeneralReg(0));
    assert!(buf.is_empty());
}

#[test]
fn freeing_slot_with_mirror_returns_both_resources() {
    let mut m = mini();
    let mut buf: Vec<u8> = Vec::new();
    m.claim_general_reg(&mut buf, &Symbol(0));
    m.claim_general_reg(&mut buf, &Symbol(1));
    m.load_to_general_reg(&mut buf, &Symbol(0));
    // s0 now sits in a slot with a register mirror; freeing it returns the
    // register and the slot.
    m.free_symbol(&Symbol(0));
    assert!(m.general_free_regs().contains(&GeneralReg(0)));
    assert_eq!(m.free_stack_chunks().as_slice(), &[(-8, 8)]);
}
