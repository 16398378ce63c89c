//! The load orchestrator: resolving a symbol's storage into a register of
//! the wanted family, emitting a load when the value is only on the stack.
use vstd::prelude::*;

use crate::frees::{dec_cell, retire_cell};
use crate::machine::{FloatReg, GeneralReg, RegStorage, Storage, Symbol};
use crate::manager::{
    local_prim, model_inv, prim_range, storage_entry_ok, Model, StorageManager,
};
use crate::regops::{
    can_get_general, can_get_float, lemma_push_contains, record_callee, spilled_storage,
};
use crate::stackalloc::spec_claim_stack;
use crate::target::{Assembler, CallConv};

verus! {

/// Whether a symbol's storage can be brought into a general register: it is
/// already in one, or it is an 8-byte slot, or an aligned 8-byte sub-range.
/// Narrower or unaligned sub-ranges would need a masking sub-word move,
/// which the emission interface does not offer.
pub open spec fn general_loadable(s: Storage) -> bool {
    match s {
        Storage::Reg(RegStorage::General(_)) => true,
        Storage::Primitive { reg, .. } => reg is None || (reg matches Some(
            RegStorage::General(_),
        )),
        Storage::ReferencedPrimitive { base_offset, size } => base_offset % 8 == 0 && size == 8,
        _ => false,
    }
}

/// Whether a symbol's storage can be brought into a float register.
pub open spec fn float_loadable(s: Storage) -> bool {
    match s {
        Storage::Reg(RegStorage::Float(_)) => true,
        Storage::Primitive { reg, .. } => reg is None || (reg matches Some(RegStorage::Float(_))),
        Storage::ReferencedPrimitive { base_offset, size } => base_offset % 8 == 0 && size == 8,
        _ => false,
    }
}

/// The model after spilling the used-list entry `i` of the general pool.
pub open spec fn spec_spill_general(m: Model, i: int) -> Model {
    let (reg, ssym) = m.general_used[i];
    let (mc, off) = spec_claim_stack(m, 8);
    let base = Model {
        general_used: m.general_used.remove(i),
        storage: m.storage.insert(ssym, spilled_storage(m.storage[ssym], off)),
        ..m
    };
    if m.storage[ssym] is Reg {
        Model {
            chunks: mc.chunks,
            stack_size: mc.stack_size,
            prim_syms: if off < 0 {
                m.prim_syms.insert(ssym)
            } else {
                m.prim_syms
            },
            ..base
        }
    } else {
        base
    }
}

/// The model after spilling the used-list entry `i` of the float pool.
pub open spec fn spec_spill_float(m: Model, i: int) -> Model {
    let (reg, ssym) = m.float_used[i];
    let (mc, off) = spec_claim_stack(m, 8);
    let base = Model {
        float_used: m.float_used.remove(i),
        storage: m.storage.insert(ssym, spilled_storage(m.storage[ssym], off)),
        ..m
    };
    if m.storage[ssym] is Reg {
        Model {
            chunks: mc.chunks,
            stack_size: mc.stack_size,
            prim_syms: if off < 0 {
                m.prim_syms.insert(ssym)
            } else {
                m.prim_syms
            },
            ..base
        }
    } else {
        base
    }
}

/// The register acquiring yields: the most recently freed one, or the oldest
/// used one.
pub open spec fn acquired_general_reg(m: Model) -> GeneralReg {
    if m.general_free.len() > 0 {
        m.general_free.last()
    } else {
        m.general_used[0].0
    }
}

/// The model after acquiring a general register.
pub open spec fn spec_acquire_general<CC: CallConv>(m: Model) -> Model {
    if m.general_free.len() > 0 {
        Model {
            general_free: m.general_free.drop_last(),
            general_callee_used: record_callee(
                m.general_callee_used,
                m.general_free.last(),
                CC::spec_general_callee_saved(m.general_free.last()),
            ),
            ..m
        }
    } else {
        spec_spill_general(m, 0)
    }
}

/// The bytes acquiring a general register emits: a store exactly when a
/// register-only value is spilled.
pub open spec fn acquire_general_bytes<ASM: Assembler>(m: Model) -> Seq<u8> {
    if m.general_free.len() > 0 {
        Seq::empty()
    } else if m.storage[m.general_used[0].1] is Reg {
        ASM::mov_base32_reg64_enc(spec_claim_stack(m, 8).1 as i32, m.general_used[0].0)
    } else {
        Seq::empty()
    }
}

/// The register acquiring yields from the float pool.
pub open spec fn acquired_float_reg(m: Model) -> FloatReg {
    if m.float_free.len() > 0 {
        m.float_free.last()
    } else {
        m.float_used[0].0
    }
}

/// The model after acquiring a float register.
pub open spec fn spec_acquire_float<CC: CallConv>(m: Model) -> Model {
    if m.float_free.len() > 0 {
        Model {
            float_free: m.float_free.drop_last(),
            float_callee_used: record_callee(
                m.float_callee_used,
                m.float_free.last(),
                CC::spec_float_callee_saved(m.float_free.last()),
            ),
            ..m
        }
    } else {
        spec_spill_float(m, 0)
    }
}

/// The bytes acquiring a float register emits.
pub open spec fn acquire_float_bytes<ASM: Assembler>(m: Model) -> Seq<u8> {
    if m.float_free.len() > 0 {
        Seq::empty()
    } else if m.storage[m.float_used[0].1] is Reg {
        ASM::mov_base32_freg64_enc(spec_claim_stack(m, 8).1 as i32, m.float_used[0].0)
    } else {
        Seq::empty()
    }
}

/// The model after a symbol's reference into an allocation is dropped.
pub open spec fn spec_release_ref(m: Model, sym: u64) -> Model {
    let i = m.alloc_index[sym] as int;
    let c = m.allocations[i];
    if c.refs == 1 {
        Model {
            alloc_index: m.alloc_index.remove(sym),
            allocations: m.allocations.update(i, retire_cell(c)),
            chunks: crate::stackalloc::free_insert(m.chunks, c.base_offset, c.size),
            ..m
        }
    } else {
        Model {
            alloc_index: m.alloc_index.remove(sym),
            allocations: m.allocations.update(i, dec_cell(c, sym)),
            ..m
        }
    }
}


/// The general register a load of `sym` returns: the one already holding the
/// value, or the acquired one.
pub open spec fn loaded_general_reg(m: Model, sym: u64) -> GeneralReg {
    match m.storage[sym].general_reg() {
        Some(r) => r,
        None => acquired_general_reg(m),
    }
}

/// The float register a load of `sym` returns.
pub open spec fn loaded_float_reg(m: Model, sym: u64) -> FloatReg {
    match m.storage[sym].float_reg() {
        Some(r) => r,
        None => acquired_float_reg(m),
    }
}

/// The model after `load_to_general_reg(sym)`.
pub open spec fn spec_load_general<CC: CallConv>(m: Model, sym: u64) -> Model {
    match m.storage[sym].general_reg() {
        Some(_) => m,
        None => {
            let ma = spec_acquire_general::<CC>(m);
            let reg = acquired_general_reg(m);
            match m.storage[sym] {
                Storage::Primitive { base_offset, .. } => Model {
                    general_used: ma.general_used.push((reg, sym)),
                    storage: ma.storage.insert(
                        sym,
                        Storage::Primitive { base_offset, reg: Some(RegStorage::General(reg)) },
                    ),
                    ..ma
                },
                Storage::ReferencedPrimitive { .. } => {
                    let mr = spec_release_ref(
                        Model { storage: ma.storage.remove(sym), ..ma },
                        sym,
                    );
                    Model {
                        general_used: mr.general_used.push((reg, sym)),
                        storage: mr.storage.insert(sym, Storage::Reg(RegStorage::General(reg))),
                        ..mr
                    }
                },
                _ => m,
            }
        },
    }
}

/// The model after `load_to_float_reg(sym)`.
pub open spec fn spec_load_float<CC: CallConv>(m: Model, sym: u64) -> Model {
    match m.storage[sym].float_reg() {
        Some(_) => m,
        None => {
            let ma = spec_acquire_float::<CC>(m);
            let reg = acquired_float_reg(m);
            match m.storage[sym] {
                Storage::Primitive { base_offset, .. } => Model {
                    float_used: ma.float_used.push((reg, sym)),
                    storage: ma.storage.insert(
                        sym,
                        Storage::Primitive { base_offset, reg: Some(RegStorage::Float(reg)) },
                    ),
                    ..ma
                },
                Storage::ReferencedPrimitive { .. } => {
                    let mr = spec_release_ref(
                        Model { storage: ma.storage.remove(sym), ..ma },
                        sym,
                    );
                    Model {
                        float_used: mr.float_used.push((reg, sym)),
                        storage: mr.storage.insert(sym, Storage::Reg(RegStorage::Float(reg))),
                        ..mr
                    }
                },
                _ => m,
            }
        },
    }
}

/// The bytes `load_to_general_reg(sym)` emits.
pub open spec fn load_general_bytes<ASM: Assembler>(m: Model, sym: u64) -> Seq<u8> {
    match m.storage[sym].general_reg() {
        Some(_) => Seq::empty(),
        None => match m.storage[sym] {
            Storage::Primitive { base_offset, .. } => acquire_general_bytes::<ASM>(m)
                + ASM::mov_reg64_base32_enc(acquired_general_reg(m), base_offset),
            Storage::ReferencedPrimitive { base_offset, .. } => acquire_general_bytes::<ASM>(m)
                + ASM::mov_reg64_base32_enc(acquired_general_reg(m), base_offset),
            _ => Seq::empty(),
        },
    }
}

/// The bytes `load_to_float_reg(sym)` emits.
pub open spec fn load_float_bytes<ASM: Assembler>(m: Model, sym: u64) -> Seq<u8> {
    match m.storage[sym].float_reg() {
        Some(_) => Seq::empty(),
        None => match m.storage[sym] {
            Storage::Primitive { base_offset, .. } => acquire_float_bytes::<ASM>(m)
                + ASM::mov_freg64_base32_enc(acquired_float_reg(m), base_offset),
            Storage::ReferencedPrimitive { base_offset, .. } => acquire_float_bytes::<ASM>(m)
                + ASM::mov_freg64_base32_enc(acquired_float_reg(m), base_offset),
            _ => Seq::empty(),
        },
    }
}

/// Promoting a slot-backed symbol to carry a register mirror preserves the
/// invariant: the slot is unchanged, so nothing about the frame moves.
#[verifier::rlimit(100)]
#[verifier::spinoff_prover]
pub proof fn lemma_bind_general_mirror<CC: CallConv>(
    mid: Model,
    m2: Model,
    reg: GeneralReg,
    sym: u64,
)
    requires
        model_inv::<CC>(mid),
        mid.storage.contains_key(sym),
        mid.storage[sym] matches Storage::Primitive { reg: None, .. },
        !mid.general_free.contains(reg),
        forall|j: int| 0 <= j < mid.general_used.len() ==> (#[trigger] mid.general_used[j]).0 != reg,
        CC::spec_general_callee_saved(reg) ==> mid.general_callee_used.contains(reg),
        m2 == (Model {
            general_used: mid.general_used.push((reg, sym)),
            storage: mid.storage.insert(
                sym,
                Storage::Primitive {
                    base_offset: mid.storage[sym]->Primitive_base_offset,
                    reg: Some(RegStorage::General(reg)),
                },
            ),
            ..mid
        }),
    ensures
        model_inv::<CC>(m2),
{
    let entry = (reg, sym);
    let ss = m2.stack_size as int;
    assert(mid.storage[sym].general_reg() is None);
    assert forall|j: int| 0 <= j < mid.general_used.len() implies (#[trigger] mid.general_used[j]).1
        != sym by {
        assert(mid.storage.contains_key(mid.general_used[j].1));
        assert(mid.storage[mid.general_used[j].1].general_reg() == Some(mid.general_used[j].0));
    }
    assert forall|j: int| 0 <= j < m2.general_used.len() implies #[trigger] m2.general_used[j]
        == (if j < mid.general_used.len() {
        mid.general_used[j]
    } else {
        entry
    }) by {}
    assert forall|i: int, j: int|
        0 <= i < m2.general_free.len() && 0 <= j < m2.general_used.len() implies
        #[trigger] m2.general_free[i] != (#[trigger] m2.general_used[j]).0 by {
        if j == m2.general_used.len() - 1 {
            assert(m2.general_free[i] == mid.general_free[i]);
        }
    }
    assert(crate::manager::pools_wf(m2));
    assert forall|j: int| 0 <= j < m2.float_used.len() implies {
        let (r, k) = #[trigger] m2.float_used[j];
        m2.storage.contains_key(k) && m2.storage[k].float_reg() == Some(r)
    } by {
        let (r, k) = m2.float_used[j];
        assert(mid.storage.contains_key(k));
        assert(mid.storage[sym].float_reg() is None);
        assert(k != sym);
    }
    assert forall|k: u64| #[trigger] m2.storage.contains_key(k) implies match m2.storage[
        k
    ].general_reg() {
        Some(r) => m2.general_used.contains((r, k)),
        None => true,
    } by {
        if k == sym {
            lemma_push_contains(mid.general_used, entry, entry);
        } else if m2.storage[k].general_reg() is Some {
            let r = m2.storage[k].general_reg().unwrap();
            assert(mid.general_used.contains((r, k)));
            lemma_push_contains(mid.general_used, entry, (r, k));
        }
    }
    assert forall|k: u64| #[trigger] m2.storage.contains_key(k) implies match m2.storage[
        k
    ].float_reg() {
        Some(r) => m2.float_used.contains((r, k)),
        None => true,
    } by {
        if k != sym && m2.storage[k].float_reg() is Some {
            assert(mid.float_used.contains((m2.storage[k].float_reg().unwrap(), k)));
        }
    }
    assert(crate::manager::used_lists_match(m2));
    assert forall|j: int|
        0 <= j < m2.general_used.len() && CC::spec_general_callee_saved(
            (#[trigger] m2.general_used[j]).0,
        ) implies m2.general_callee_used.contains(m2.general_used[j].0) by {
        if j < mid.general_used.len() {
            assert(mid.general_callee_used.contains(mid.general_used[j].0));
        }
    }
    assert(crate::manager::callee_saved_tracked::<CC>(m2));
    assert forall|k: u64| #[trigger] m2.storage.contains_key(k) implies storage_entry_ok(
        m2.storage,
        m2.alloc_index,
        m2.allocations,
        ss,
        k,
    ) by {
        assert(storage_entry_ok(mid.storage, mid.alloc_index, mid.allocations, ss, k));
        if k != sym {
            assert(m2.storage[k] == mid.storage[k]);
        }
    }
    assert forall|k: u64| #[trigger] m2.alloc_index.contains_key(k) implies m2.storage.contains_key(
        k,
    ) && (m2.storage[k] is ReferencedPrimitive || m2.storage[k] is Complex) by {
        assert(mid.storage.contains_key(k) && (mid.storage[k] is ReferencedPrimitive
            || mid.storage[k] is Complex));
        assert(k != sym);
    }
    assert(crate::manager::storage_wf(m2));
    assert(crate::manager::allocs_wf(m2));
    assert(crate::manager::chunks_wf(m2));
    assert forall|k: u64| #[trigger] prim_range(m2.storage, k) == prim_range(mid.storage, k) by {}
    assert(crate::manager::blocks_disjoint(m2));
    assert forall|k: u64|
        #![trigger m2.prim_syms.contains(k)]
        #![trigger m2.storage.contains_key(k)]
        m2.prim_syms.contains(k) <==> local_prim(m2.storage, k) by {
        assert(local_prim(m2.storage, k) == local_prim(mid.storage, k));
    }
    assert(crate::manager::prim_syms_ok(m2));
    assert(crate::manager::frame_conserved(m2));
}

/// Promoting a slot-backed symbol to carry a register mirror preserves the
/// invariant: the slot is unchanged, so nothing about the frame moves.
#[verifier::rlimit(100)]
#[verifier::spinoff_prover]
pub proof fn lemma_bind_float_mirror<CC: CallConv>(
    mid: Model,
    m2: Model,
    reg: FloatReg,
    sym: u64,
)
    requires
        model_inv::<CC>(mid),
        mid.storage.contains_key(sym),
        mid.storage[sym] matches Storage::Primitive { reg: None, .. },
        !mid.float_free.contains(reg),
        forall|j: int| 0 <= j < mid.float_used.len() ==> (#[trigger] mid.float_used[j]).0 != reg,
        CC::spec_float_callee_saved(reg) ==> mid.float_callee_used.contains(reg),
        m2 == (Model {
            float_used: mid.float_used.push((reg, sym)),
            storage: mid.storage.insert(
                sym,
                Storage::Primitive {
                    base_offset: mid.storage[sym]->Primitive_base_offset,
                    reg: Some(RegStorage::Float(reg)),
                },
            ),
            ..mid
        }),
    ensures
        model_inv::<CC>(m2),
{
    let entry = (reg, sym);
    let ss = m2.stack_size as int;
    assert(mid.storage[sym].float_reg() is None);
    assert forall|j: int| 0 <= j < mid.float_used.len() implies (#[trigger] mid.float_used[j]).1
        != sym by {
        assert(mid.storage.contains_key(mid.float_used[j].1));
        assert(mid.storage[mid.float_used[j].1].float_reg() == Some(mid.float_used[j].0));
    }
    assert forall|j: int| 0 <= j < m2.float_used.len() implies #[trigger] m2.float_used[j]
        == (if j < mid.float_used.len() {
        mid.float_used[j]
    } else {
        entry
    }) by {}
    assert forall|i: int, j: int|
        0 <= i < m2.float_free.len() && 0 <= j < m2.float_used.len() implies
        #[trigger] m2.float_free[i] != (#[trigger] m2.float_used[j]).0 by {
        if j == m2.float_used.len() - 1 {
            assert(m2.float_free[i] == mid.float_free[i]);
        }
    }
    assert(crate::manager::pools_wf(m2));
    assert forall|j: int| 0 <= j < m2.general_used.len() implies {
        let (r, k) = #[trigger] m2.general_used[j];
        m2.storage.contains_key(k) && m2.storage[k].general_reg() == Some(r)
    } by {
        let (r, k) = m2.general_used[j];
        assert(mid.storage.contains_key(k));
        assert(mid.storage[sym].general_reg() is None);
        assert(k != sym);
    }
    assert forall|k: u64| #[trigger] m2.storage.contains_key(k) implies match m2.storage[
        k
    ].float_reg() {
        Some(r) => m2.float_used.contains((r, k)),
        None => true,
    } by {
        if k == sym {
            lemma_push_contains(mid.float_used, entry, entry);
        } else if m2.storage[k].float_reg() is Some {
            let r = m2.storage[k].float_reg().unwrap();
            assert(mid.float_used.contains((r, k)));
            lemma_push_contains(mid.float_used, entry, (r, k));
        }
    }
    assert forall|k: u64| #[trigger] m2.storage.contains_key(k) implies match m2.storage[
        k
    ].general_reg() {
        Some(r) => m2.general_used.contains((r, k)),
        None => true,
    } by {
        if k != sym && m2.storage[k].general_reg() is Some {
            assert(mid.general_used.contains((m2.storage[k].general_reg().unwrap(), k)));
        }
    }
    assert(crate::manager::used_lists_match(m2));
    assert forall|j: int|
        0 <= j < m2.float_used.len() && CC::spec_float_callee_saved(
            (#[trigger] m2.float_used[j]).0,
        ) implies m2.float_callee_used.contains(m2.float_used[j].0) by {
        if j < mid.float_used.len() {
            assert(mid.float_callee_used.contains(mid.float_used[j].0));
        }
    }
    assert(crate::manager::callee_saved_tracked::<CC>(m2));
    assert forall|k: u64| #[trigger] m2.storage.contains_key(k) implies storage_entry_ok(
        m2.storage,
        m2.alloc_index,
        m2.allocations,
        ss,
        k,
    ) by {
        assert(storage_entry_ok(mid.storage, mid.alloc_index, mid.allocations, ss, k));
        if k != sym {
            assert(m2.storage[k] == mid.storage[k]);
        }
    }
    assert forall|k: u64| #[trigger] m2.alloc_index.contains_key(k) implies m2.storage.contains_key(
        k,
    ) && (m2.storage[k] is ReferencedPrimitive || m2.storage[k] is Complex) by {
        assert(mid.storage.contains_key(k) && (mid.storage[k] is ReferencedPrimitive
            || mid.storage[k] is Complex));
        assert(k != sym);
    }
    assert(crate::manager::storage_wf(m2));
    assert(crate::manager::allocs_wf(m2));
    assert(crate::manager::chunks_wf(m2));
    assert forall|k: u64| #[trigger] prim_range(m2.storage, k) == prim_range(mid.storage, k) by {}
    assert(crate::manager::blocks_disjoint(m2));
    assert forall|k: u64|
        #![trigger m2.prim_syms.contains(k)]
        #![trigger m2.storage.contains_key(k)]
        m2.prim_syms.contains(k) <==> local_prim(m2.storage, k) by {
        assert(local_prim(m2.storage, k) == local_prim(mid.storage, k));
    }
    assert(crate::manager::prim_syms_ok(m2));
    assert(crate::manager::frame_conserved(m2));
}



impl<ASM: Assembler, CC: CallConv> StorageManager<ASM, CC> {
    /// Bring `sym`'s value into a general register and return it, emitting a
    /// load when the value was only on the stack. A register already holding
    /// the value is reused; a plain slot gains a register mirror; an aligned
    /// 8-byte sub-range of a composite is loaded outright, releasing its
    /// reference into the composite's allocation.
    #[verifier::rlimit(100)]
    #[verifier::spinoff_prover]
    pub fn load_to_general_reg(&mut self, buf: &mut Vec<u8>, sym: &Symbol) -> (reg: GeneralReg)
        requires
            old(self).inv(),
            old(self)@.storage.contains_key(sym.0),
            general_loadable(old(self)@.storage[sym.0]),
            old(self)@.storage[sym.0].general_reg() is None ==> can_get_general(old(self)@),
        ensures
            final(self).inv(),
            ({
                let m0 = old(self)@;
                match m0.storage[sym.0].general_reg() {
                    Some(r) => {
                        &&& reg == r
                        &&& final(self)@ == m0
                        &&& final(buf)@ == old(buf)@
                    },
                    None => {
                        let ma = spec_acquire_general::<CC>(m0);
                        &&& reg == acquired_general_reg(m0)
                        &&& match m0.storage[sym.0] {
                            Storage::Primitive { base_offset, .. } => {
                                &&& final(self)@ == (Model {
                                    general_used: ma.general_used.push((reg, sym.0)),
                                    storage: ma.storage.insert(
                                        sym.0,
                                        Storage::Primitive {
                                            base_offset,
                                            reg: Some(RegStorage::General(reg)),
                                        },
                                    ),
                                    ..ma
                                })
                                &&& final(buf)@ == old(buf)@ + acquire_general_bytes::<ASM>(m0)
                                    + ASM::mov_reg64_base32_enc(reg, base_offset)
                            },
                            Storage::ReferencedPrimitive { base_offset, .. } => {
                                let mr = spec_release_ref(
                                    Model { storage: ma.storage.remove(sym.0), ..ma },
                                    sym.0,
                                );
                                &&& final(self)@ == (Model {
                                    general_used: mr.general_used.push((reg, sym.0)),
                                    storage: mr.storage.insert(
                                        sym.0,
                                        Storage::Reg(RegStorage::General(reg)),
                                    ),
                                    ..mr
                                })
                                &&& final(buf)@ == old(buf)@ + acquire_general_bytes::<ASM>(m0)
                                    + ASM::mov_reg64_base32_enc(reg, base_offset)
                            },
                            _ => false,
                        }
                    },
                }
            }),
    {
        let ghost m0 = self@;
        let s = match self.symbol_storage_map.get(&sym.0) {
            Some(s) => *s,
            None => {
                proof {
                    assert(false);
                }
                Storage::NoData
            },
        };
        match s {
            Storage::Reg(RegStorage::General(r)) => r,
            Storage::Primitive { base_offset, reg: Some(RegStorage::General(r)) } => r,
            Storage::Primitive { base_offset, reg: None } => {
                let reg = self.get_general_reg(buf);
                let ghost ma = self@;
                proof {
                    assert(ma =~= spec_acquire_general::<CC>(m0));
                    assert(buf@ =~= old(buf)@ + acquire_general_bytes::<ASM>(m0));
                    assert(storage_entry_ok(
                        m0.storage,
                        m0.alloc_index,
                        m0.allocations,
                        m0.stack_size as int,
                        sym.0,
                    ));
                }
                ASM::mov_reg64_base32(buf, reg, base_offset);
                self.general_used_regs.push((reg, sym.0));
                self.symbol_storage_map.insert(
                    sym.0,
                    Storage::Primitive { base_offset, reg: Some(RegStorage::General(reg)) },
                );
                proof {
                    assert(ma.storage.contains_key(sym.0) && ma.storage[sym.0]
                        == m0.storage[sym.0]);
                    assert(self@ =~= (Model {
                        general_used: ma.general_used.push((reg, sym.0)),
                        storage: ma.storage.insert(
                            sym.0,
                            Storage::Primitive {
                                base_offset,
                                reg: Some(RegStorage::General(reg)),
                            },
                        ),
                        ..ma
                    }));
                    lemma_bind_general_mirror::<CC>(ma, self@, reg, sym.0);
                }
                reg
            },
            Storage::ReferencedPrimitive { base_offset, size } => {
                let reg = self.get_general_reg(buf);
                let ghost ma = self@;
                proof {
                    assert(ma =~= spec_acquire_general::<CC>(m0));
                    assert(buf@ =~= old(buf)@ + acquire_general_bytes::<ASM>(m0));
                }
                ASM::mov_reg64_base32(buf, reg, base_offset);
                self.symbol_storage_map.remove(&sym.0);
                let ghost md = self@;
                proof {
                    assert(md =~= (Model { storage: ma.storage.remove(sym.0), ..ma }));
                    assert(ma.storage.contains_key(sym.0) && ma.storage[sym.0]
                        == m0.storage[sym.0]);
                    crate::frees::lemma_detach_ref::<CC>(ma, md, sym.0);
                }
                self.free_reference(sym.0);
                let ghost mr = self@;
                proof {
                    assert(mr =~= spec_release_ref(md, sym.0));
                }
                self.general_used_regs.push((reg, sym.0));
                self.symbol_storage_map.insert(sym.0, Storage::Reg(RegStorage::General(reg)));
                proof {
                    assert(self@ =~= (Model {
                        general_used: mr.general_used.push((reg, sym.0)),
                        storage: mr.storage.insert(sym.0, Storage::Reg(RegStorage::General(reg))),
                        ..mr
                    }));
                    assert(!mr.general_free.contains(reg) && forall|j: int|
                        0 <= j < mr.general_used.len() ==> (#[trigger] mr.general_used[j]).0
                            != reg);
                    crate::regops::lemma_bind_general_reg::<CC>(mr, self@, reg, sym.0);
                }
                reg
            },
            _ => {
                proof {
                    assert(false);
                }
                GeneralReg(0)
            },
        }
    }

    /// Bring `sym`'s value into a float register, as
    /// [`Self::load_to_general_reg`] for the float family.
    #[verifier::rlimit(100)]
    #[verifier::spinoff_prover]
    pub fn load_to_float_reg(&mut self, buf: &mut Vec<u8>, sym: &Symbol) -> (reg: FloatReg)
        requires
            old(self).inv(),
            old(self)@.storage.contains_key(sym.0),
            float_loadable(old(self)@.storage[sym.0]),
            old(self)@.storage[sym.0].float_reg() is None ==> can_get_float(old(self)@),
        ensures
            final(self).inv(),
            ({
                let m0 = old(self)@;
                match m0.storage[sym.0].float_reg() {
                    Some(r) => {
                        &&& reg == r
                        &&& final(self)@ == m0
                        &&& final(buf)@ == old(buf)@
                    },
                    None => {
                        let ma = spec_acquire_float::<CC>(m0);
                        &&& reg == acquired_float_reg(m0)
                        &&& match m0.storage[sym.0] {
                            Storage::Primitive { base_offset, .. } => {
                                &&& final(self)@ == (Model {
                                    float_used: ma.float_used.push((reg, sym.0)),
                                    storage: ma.storage.insert(
                                        sym.0,
                                        Storage::Primitive {
                                            base_offset,
                                            reg: Some(RegStorage::Float(reg)),
                                        },
                                    ),
                                    ..ma
                                })
                                &&& final(buf)@ == old(buf)@ + acquire_float_bytes::<ASM>(m0)
                                    + ASM::mov_freg64_base32_enc(reg, base_offset)
                            },
                            Storage::ReferencedPrimitive { base_offset, .. } => {
                                let mr = spec_release_ref(
                                    Model { storage: ma.storage.remove(sym.0), ..ma },
                                    sym.0,
                                );
                                &&& final(self)@ == (Model {
                                    float_used: mr.float_used.push((reg, sym.0)),
                                    storage: mr.storage.insert(
                                        sym.0,
                                        Storage::Reg(RegStorage::Float(reg)),
                                    ),
                                    ..mr
                                })
                                &&& final(buf)@ == old(buf)@ + acquire_float_bytes::<ASM>(m0)
                                    + ASM::mov_freg64_base32_enc(reg, base_offset)
                            },
                            _ => false,
                        }
                    },
                }
            }),
    {
        let ghost m0 = self@;
        let s = match self.symbol_storage_map.get(&sym.0) {
            Some(s) => *s,
            None => {
                proof {
                    assert(false);
                }
                Storage::NoData
            },
        };
        match s {
            Storage::Reg(RegStorage::Float(r)) => r,
            Storage::Primitive { base_offset, reg: Some(RegStorage::Float(r)) } => r,
            Storage::Primitive { base_offset, reg: None } => {
                let reg = self.get_float_reg(buf);
                let ghost ma = self@;
                proof {
                    assert(ma =~= spec_acquire_float::<CC>(m0));
                    assert(buf@ =~= old(buf)@ + acquire_float_bytes::<ASM>(m0));
                    assert(storage_entry_ok(
                        m0.storage,
                        m0.alloc_index,
                        m0.allocations,
                        m0.stack_size as int,
                        sym.0,
                    ));
                }
                ASM::mov_freg64_base32(buf, reg, base_offset);
                self.float_used_regs.push((reg, sym.0));
                self.symbol_storage_map.insert(
                    sym.0,
                    Storage::Primitive { base_offset, reg: Some(RegStorage::Float(reg)) },
                );
                proof {
                    assert(ma.storage.contains_key(sym.0) && ma.storage[sym.0]
                        == m0.storage[sym.0]);
                    assert(self@ =~= (Model {
                        float_used: ma.float_used.push((reg, sym.0)),
                        storage: ma.storage.insert(
                            sym.0,
                            Storage::Primitive { base_offset, reg: Some(RegStorage::Float(reg)) },
                        ),
                        ..ma
                    }));
                    lemma_bind_float_mirror::<CC>(ma, self@, reg, sym.0);
                }
                reg
            },
            Storage::ReferencedPrimitive { base_offset, size } => {
                let reg = self.get_float_reg(buf);
                let ghost ma = self@;
                proof {
                    assert(ma =~= spec_acquire_float::<CC>(m0));
                    assert(buf@ =~= old(buf)@ + acquire_float_bytes::<ASM>(m0));
                }
                ASM::mov_freg64_base32(buf, reg, base_offset);
                self.symbol_storage_map.remove(&sym.0);
                let ghost md = self@;
                proof {
                    assert(md =~= (Model { storage: ma.storage.remove(sym.0), ..ma }));
                    assert(ma.storage.contains_key(sym.0) && ma.storage[sym.0]
                        == m0.storage[sym.0]);
                    crate::frees::lemma_detach_ref::<CC>(ma, md, sym.0);
                }
                self.free_reference(sym.0);
                let ghost mr = self@;
                proof {
                    assert(mr =~= spec_release_ref(md, sym.0));
                }
                self.float_used_regs.push((reg, sym.0));
                self.symbol_storage_map.insert(sym.0, Storage::Reg(RegStorage::Float(reg)));
                proof {
                    assert(self@ =~= (Model {
                        float_used: mr.float_used.push((reg, sym.0)),
                        storage: mr.storage.insert(sym.0, Storage::Reg(RegStorage::Float(reg))),
                        ..mr
                    }));
                    assert(!mr.float_free.contains(reg) && forall|j: int|
                        0 <= j < mr.float_used.len() ==> (#[trigger] mr.float_used[j]).0 != reg);
                    crate::regops::lemma_bind_float_reg::<CC>(mr, self@, reg, sym.0);
                }
                reg
            },
            _ => {
                proof {
                    assert(false);
                }
                FloatReg(0)
            },
        }
    }

    /// Move `sym`'s value into exactly the register `reg`, without touching
    /// the bookkeeping: used at call sites and returns, where the caller
    /// restores the books afterwards. The target register must already be
    /// free.
    pub fn load_to_specified_general_reg(&self, buf: &mut Vec<u8>, sym: &Symbol, reg: GeneralReg)
        requires
            self.inv(),
            self@.storage.contains_key(sym.0),
            general_loadable(self@.storage[sym.0]),
        ensures
            final(buf)@ == old(buf)@ + match self@.storage[sym.0] {
                Storage::Reg(RegStorage::General(r)) => if r == reg {
                    Seq::<u8>::empty()
                } else {
                    ASM::mov_reg64_reg64_enc(reg, r)
                },
                Storage::Primitive { base_offset, reg: Some(RegStorage::General(r)) } => if r
                    == reg {
                    Seq::<u8>::empty()
                } else {
                    ASM::mov_reg64_reg64_enc(reg, r)
                },
                Storage::Primitive { base_offset, reg: None } => ASM::mov_reg64_base32_enc(
                    reg,
                    base_offset,
                ),
                Storage::ReferencedPrimitive { base_offset, .. } => ASM::mov_reg64_base32_enc(
                    reg,
                    base_offset,
                ),
                _ => Seq::<u8>::empty(),
            },
    {
        let s = match self.symbol_storage_map.get(&sym.0) {
            Some(s) => *s,
            None => {
                proof {
                    assert(false);
                }
                Storage::NoData
            },
        };
        match s {
            Storage::Reg(RegStorage::General(r)) => {
                if r == reg {
                    proof {
                        assert(buf@ =~= old(buf)@ + Seq::<u8>::empty());
                    }
                } else {
                    ASM::mov_reg64_reg64(buf, reg, r);
                }
            },
            Storage::Primitive { base_offset, reg: Some(RegStorage::General(r)) } => {
                if r == reg {
                    proof {
                        assert(buf@ =~= old(buf)@ + Seq::<u8>::empty());
                    }
                } else {
                    ASM::mov_reg64_reg64(buf, reg, r);
                }
            },
            Storage::Primitive { base_offset, reg: None } => {
                ASM::mov_reg64_base32(buf, reg, base_offset);
            },
            Storage::ReferencedPrimitive { base_offset, size } => {
                ASM::mov_reg64_base32(buf, reg, base_offset);
            },
            _ => {
                proof {
                    assert(false);
                }
            },
        }
    }

    /// Move `sym`'s value into exactly the float register `reg`, without
    /// touching the bookkeeping.
    pub fn load_to_specified_float_reg(&self, buf: &mut Vec<u8>, sym: &Symbol, reg: FloatReg)
        requires
            self.inv(),
            self@.storage.contains_key(sym.0),
            float_loadable(self@.storage[sym.0]),
        ensures
            final(buf)@ == old(buf)@ + match self@.storage[sym.0] {
                Storage::Reg(RegStorage::Float(r)) => if r == reg {
                    Seq::<u8>::empty()
                } else {
                    ASM::mov_freg64_freg64_enc(reg, r)
                },
                Storage::Primitive { base_offset, reg: Some(RegStorage::Float(r)) } => if r
                    == reg {
                    Seq::<u8>::empty()
                } else {
                    ASM::mov_freg64_freg64_enc(reg, r)
                },
                Storage::Primitive { base_offset, reg: None } => ASM::mov_freg64_base32_enc(
                    reg,
                    base_offset,
                ),
                Storage::ReferencedPrimitive { base_offset, .. } => ASM::mov_freg64_base32_enc(
                    reg,
                    base_offset,
                ),
                _ => Seq::<u8>::empty(),
            },
    {
        let s = match self.symbol_storage_map.get(&sym.0) {
            Some(s) => *s,
            None => {
                proof {
                    assert(false);
                }
                Storage::NoData
            },
        };
        match s {
            Storage::Reg(RegStorage::Float(r)) => {
                if r == reg {
                    proof {
                        assert(buf@ =~= old(buf)@ + Seq::<u8>::empty());
                    }
                } else {
                    ASM::mov_freg64_freg64(buf, reg, r);
                }
            },
            Storage::Primitive { base_offset, reg: Some(RegStorage::Float(r)) } => {
                if r == reg {
                    proof {
                        assert(buf@ =~= old(buf)@ + Seq::<u8>::empty());
                    }
                } else {
                    ASM::mov_freg64_freg64(buf, reg, r);
                }
            },
            Storage::Primitive { base_offset, reg: None } => {
                ASM::mov_freg64_base32(buf, reg, base_offset);
            },
            Storage::ReferencedPrimitive { base_offset, size } => {
                ASM::mov_freg64_base32(buf, reg, base_offset);
            },
            _ => {
                proof {
                    assert(false);
                }
            },
        }
    }
}

} // verus!
