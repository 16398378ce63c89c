//! The register pools: acquiring a register (from the free list, or by
//! spilling the oldest used one to the stack), claiming registers for
//! symbols, and binding incoming arguments to their ABI locations.
use vstd::prelude::*;

use crate::machine::{FloatReg, GeneralReg, RegStorage, Storage, Symbol, RET_POINTER};
use crate::manager::{
    blocks_disjoint, cell_range, chunk_range, in_frame, local_prim, model_inv, opt_ranges_disjoint,
    prim_range, storage_entry_ok, Model, StorageManager,
};
use crate::stackalloc::{can_claim, claim_post, spec_claim_stack};
use crate::target::{Assembler, CallConv};

verus! {

/// An element of a sequence survives the removal of a different element.
pub proof fn lemma_remove_still_contains<T>(s: Seq<T>, i: int, x: T)
    requires
        0 <= i < s.len(),
        s.contains(x),
        s[i] != x,
    ensures
        s.remove(i).contains(x),
{
    let j = choose|j: int| 0 <= j < s.len() && s[j] == x;
    if j < i {
        assert(s.remove(i)[j] == x);
    } else {
        assert(s.remove(i)[j - 1] == x);
    }
}

/// Pushing keeps every element, and adds the new one.
pub proof fn lemma_push_contains<T>(s: Seq<T>, x: T, y: T)
    requires
        s.contains(y) || x == y,
    ensures
        s.push(x).contains(y),
{
    if s.contains(y) {
        let j = choose|j: int| 0 <= j < s.len() && s[j] == y;
        assert(s.push(x)[j] == y);
    } else {
        assert(s.push(x)[s.len() as int] == y);
    }
}

/// A callee-saved register list after recording `r`: unchanged if the record
/// was not needed or already present.
pub open spec fn record_callee<R>(s: Seq<R>, r: R, callee_saved: bool) -> Seq<R> {
    if callee_saved && !s.contains(r) {
        s.push(r)
    } else {
        s
    }
}

/// Where a spilled symbol's value lands: a register value gets the freshly
/// claimed slot, a slot mirror keeps its slot and loses the mirror.
pub open spec fn spilled_storage(s: Storage, off: int) -> Storage {
    match s {
        Storage::Reg(_) => Storage::Primitive { base_offset: off as i32, reg: None },
        Storage::Primitive { base_offset, .. } => Storage::Primitive { base_offset, reg: None },
        _ => s,
    }
}

/// How spilling the used-list entry `i` of the general pool changes the
/// state: the entry leaves the list, its symbol's value moves to (or stays
/// on) an 8-byte stack slot, and a store is emitted only when the value was
/// in the register alone.
pub open spec fn spill_general_effect<ASM: Assembler>(
    m0: Model,
    m1: Model,
    i: int,
    buf0: Seq<u8>,
    buf1: Seq<u8>,
) -> bool {
    let (reg, ssym) = m0.general_used[i];
    &&& m1.general_used == m0.general_used.remove(i)
    &&& m1.general_free == m0.general_free
    &&& m1.float_used == m0.float_used
    &&& m1.float_free == m0.float_free
    &&& m1.general_callee_used == m0.general_callee_used
    &&& m1.float_callee_used == m0.float_callee_used
    &&& m1.alloc_index == m0.alloc_index
    &&& m1.allocations == m0.allocations
    &&& m1.fn_call_stack_size == m0.fn_call_stack_size
    &&& m1.storage == m0.storage.insert(
        ssym,
        spilled_storage(m0.storage[ssym], spec_claim_stack(m0, 8).1),
    )
    &&& match m0.storage[ssym] {
        Storage::Reg(_) => {
            let (mc, off) = spec_claim_stack(m0, 8);
            &&& m1.chunks == mc.chunks
            &&& m1.stack_size == mc.stack_size
            &&& m1.prim_syms == (if off < 0 {
                m0.prim_syms.insert(ssym)
            } else {
                m0.prim_syms
            })
            &&& buf1 == buf0 + ASM::mov_base32_reg64_enc(off as i32, reg)
        },
        Storage::Primitive { .. } => {
            &&& m1.chunks == m0.chunks
            &&& m1.stack_size == m0.stack_size
            &&& m1.prim_syms == m0.prim_syms
            &&& buf1 == buf0
        },
        _ => false,
    }
}

/// The float-pool counterpart of [`spill_general_effect`].
pub open spec fn spill_float_effect<ASM: Assembler>(
    m0: Model,
    m1: Model,
    i: int,
    buf0: Seq<u8>,
    buf1: Seq<u8>,
) -> bool {
    let (reg, ssym) = m0.float_used[i];
    &&& m1.float_used == m0.float_used.remove(i)
    &&& m1.float_free == m0.float_free
    &&& m1.general_used == m0.general_used
    &&& m1.general_free == m0.general_free
    &&& m1.general_callee_used == m0.general_callee_used
    &&& m1.float_callee_used == m0.float_callee_used
    &&& m1.alloc_index == m0.alloc_index
    &&& m1.allocations == m0.allocations
    &&& m1.fn_call_stack_size == m0.fn_call_stack_size
    &&& m1.storage == m0.storage.insert(
        ssym,
        spilled_storage(m0.storage[ssym], spec_claim_stack(m0, 8).1),
    )
    &&& match m0.storage[ssym] {
        Storage::Reg(_) => {
            let (mc, off) = spec_claim_stack(m0, 8);
            &&& m1.chunks == mc.chunks
            &&& m1.stack_size == mc.stack_size
            &&& m1.prim_syms == (if off < 0 {
                m0.prim_syms.insert(ssym)
            } else {
                m0.prim_syms
            })
            &&& buf1 == buf0 + ASM::mov_base32_freg64_enc(off as i32, reg)
        },
        Storage::Primitive { .. } => {
            &&& m1.chunks == m0.chunks
            &&& m1.stack_size == m0.stack_size
            &&& m1.prim_syms == m0.prim_syms
            &&& buf1 == buf0
        },
        _ => false,
    }
}

/// Whether a general register can be acquired: one is free, or one is used
/// and an 8-byte spill slot can be claimed.
pub open spec fn can_get_general(m: Model) -> bool {
    m.general_free.len() > 0 || (m.general_used.len() > 0 && can_claim(
        m.chunks,
        m.stack_size as int,
        8,
    ))
}

/// Whether a float register can be acquired.
pub open spec fn can_get_float(m: Model) -> bool {
    m.float_free.len() > 0 || (m.float_used.len() > 0 && can_claim(
        m.chunks,
        m.stack_size as int,
        8,
    ))
}

/// Whether the list records `reg`.
fn gen_list_contains(v: &Vec<GeneralReg>, reg: GeneralReg) -> (b: bool)
    ensures
        b == v@.contains(reg),
{
    let mut i: usize = 0;
    while i < v.len()
        invariant
            0 <= i <= v@.len(),
            forall|j: int| 0 <= j < i ==> v@[j] != reg,
        decreases v@.len() - i,
    {
        if v[i] == reg {
            return true;
        }
        i = i + 1;
    }
    false
}

/// Whether the list records `reg`.
fn float_list_contains(v: &Vec<FloatReg>, reg: FloatReg) -> (b: bool)
    ensures
        b == v@.contains(reg),
{
    let mut i: usize = 0;
    while i < v.len()
        invariant
            0 <= i <= v@.len(),
            forall|j: int| 0 <= j < i ==> v@[j] != reg,
        decreases v@.len() - i,
    {
        if v[i] == reg {
            return true;
        }
        i = i + 1;
    }
    false
}


/// Spilling a register-only value of the general pool preserves the
/// invariant: the claimed slot is fresh, and the symbol's entry leaves the
/// used list as its storage becomes that slot.
#[verifier::rlimit(100)]
#[verifier::spinoff_prover]
pub proof fn lemma_spill_general_reg_case<ASM: Assembler, CC: CallConv>(
    m0: Model,
    mc: Model,
    m1: Model,
    i: int,
    off: i32,
)
    requires
        model_inv::<CC>(m0),
        0 <= i < m0.general_used.len(),
        m0.storage[m0.general_used[i].1] is Reg,
        claim_post::<CC>(m0, mc, 8, off as int),
        m1 == (Model {
            general_used: m0.general_used.remove(i),
            storage: mc.storage.insert(
                m0.general_used[i].1,
                Storage::Primitive { base_offset: off, reg: None },
            ),
            prim_syms: if off < 0 {
                m0.prim_syms.insert(m0.general_used[i].1)
            } else {
                m0.prim_syms
            },
            ..mc
        }),
    ensures
        model_inv::<CC>(m1),
{
    let (reg, ssym) = m0.general_used[i];
    assert(m0.storage.contains_key(ssym) && m0.storage[ssym].general_reg() == Some(reg));
    assert(mc.storage == m0.storage && mc.general_used == m0.general_used && mc.float_used
        == m0.float_used && mc.general_free == m0.general_free && mc.float_free == m0.float_free
        && mc.alloc_index == m0.alloc_index && mc.allocations == m0.allocations
        && mc.general_callee_used == m0.general_callee_used && mc.float_callee_used
        == m0.float_callee_used && mc.prim_syms == m0.prim_syms);
    let ss1 = m1.stack_size as int;
    assert forall|j: int| 0 <= j < m1.general_used.len() implies #[trigger] m1.general_used[j]
        == (if j < i {
        m0.general_used[j]
    } else {
        m0.general_used[j + 1]
    }) by {}
    assert(crate::manager::pools_wf(m1));
    assert forall|j: int| 0 <= j < m1.general_used.len() implies {
        let (r, k) = #[trigger] m1.general_used[j];
        m1.storage.contains_key(k) && m1.storage[k].general_reg() == Some(r)
    } by {
        let (r, k) = m1.general_used[j];
        let j0 = if j < i {
            j
        } else {
            j + 1
        };
        assert(m0.general_used[j0] == (r, k));
        assert(k != ssym);
    }
    assert forall|j: int| 0 <= j < m1.float_used.len() implies {
        let (r, k) = #[trigger] m1.float_used[j];
        m1.storage.contains_key(k) && m1.storage[k].float_reg() == Some(r)
    } by {
        let (r, k) = m1.float_used[j];
        assert(m0.storage[ssym].float_reg() is None);
        assert(k != ssym);
    }
    assert forall|k: u64| #[trigger] m1.storage.contains_key(k) implies match m1.storage[
        k
    ].general_reg() {
        Some(r) => m1.general_used.contains((r, k)),
        None => true,
    } by {
        if k != ssym && m1.storage[k].general_reg() is Some {
            let r = m1.storage[k].general_reg().unwrap();
            assert(m0.general_used.contains((r, k)));
            lemma_remove_still_contains(m0.general_used, i, (r, k));
        }
    }
    assert forall|k: u64| #[trigger] m1.storage.contains_key(k) implies match m1.storage[
        k
    ].float_reg() {
        Some(r) => m1.float_used.contains((r, k)),
        None => true,
    } by {
        if k != ssym && m1.storage[k].float_reg() is Some {
            assert(m0.float_used.contains((m1.storage[k].float_reg().unwrap(), k)));
        }
    }
    assert(crate::manager::used_lists_match(m1));
    assert forall|j: int|
        0 <= j < m1.general_used.len() && CC::spec_general_callee_saved(
            (#[trigger] m1.general_used[j]).0,
        ) implies m1.general_callee_used.contains(m1.general_used[j].0) by {
        let j0 = if j < i {
            j
        } else {
            j + 1
        };
        assert(m1.general_used[j] == m0.general_used[j0]);
    }
    assert(crate::manager::callee_saved_tracked::<CC>(m1));
    assert forall|k: u64| #[trigger] m1.storage.contains_key(k) implies storage_entry_ok(
        m1.storage,
        m1.alloc_index,
        m1.allocations,
        ss1,
        k,
    ) by {
        if k != ssym {
            assert(storage_entry_ok(mc.storage, mc.alloc_index, mc.allocations, ss1, k));
            assert(m1.storage[k] == mc.storage[k]);
        }
    }
    assert forall|k: u64| #[trigger] m1.alloc_index.contains_key(k) implies m1.storage.contains_key(
        k,
    ) && (m1.storage[k] is ReferencedPrimitive || m1.storage[k] is Complex) by {
        assert(m0.storage.contains_key(k) && (m0.storage[k] is ReferencedPrimitive || m0.storage[k]
            is Complex));
        assert(k != ssym);
    }
    assert(crate::manager::storage_wf(m1));
    assert forall|j: int| 0 <= j < m1.allocations.len() implies #[trigger] crate::manager::cell_ok(
        m1.alloc_index,
        m1.allocations,
        ss1,
        j,
    ) by {
        assert(crate::manager::cell_ok(mc.alloc_index, mc.allocations, ss1, j));
    }
    assert(crate::manager::allocs_wf(m1));
    assert(crate::manager::chunks_wf(m1));
    assert forall|k1: u64, k2: u64| k1 != k2 implies opt_ranges_disjoint(
        #[trigger] prim_range(m1.storage, k1),
        #[trigger] prim_range(m1.storage, k2),
    ) by {
        if k1 == ssym {
            assert(opt_ranges_disjoint(prim_range(mc.storage, k2), Some((off as int, 8))));
        } else if k2 == ssym {
            assert(opt_ranges_disjoint(prim_range(mc.storage, k1), Some((off as int, 8))));
        } else {
            assert(prim_range(m1.storage, k1) == prim_range(m0.storage, k1));
            assert(prim_range(m1.storage, k2) == prim_range(m0.storage, k2));
            assert(opt_ranges_disjoint(prim_range(m0.storage, k1), prim_range(m0.storage, k2)));
        }
    }
    assert forall|k: u64, j: int|
        opt_ranges_disjoint(
            #[trigger] prim_range(m1.storage, k),
            #[trigger] cell_range(m1.allocations, j),
        ) by {
        if k == ssym {
            assert(opt_ranges_disjoint(cell_range(mc.allocations, j), Some((off as int, 8))));
        } else {
            assert(prim_range(m1.storage, k) == prim_range(m0.storage, k));
            assert(opt_ranges_disjoint(prim_range(m0.storage, k), cell_range(m0.allocations, j)));
        }
    }
    assert forall|k: u64, j: int|
        opt_ranges_disjoint(
            #[trigger] prim_range(m1.storage, k),
            #[trigger] chunk_range(m1.chunks, j),
        ) by {
        if k == ssym {
            assert(opt_ranges_disjoint(chunk_range(m1.chunks, j), Some((off as int, 8))));
        } else {
            assert(prim_range(m1.storage, k) == prim_range(m0.storage, k));
            assert(opt_ranges_disjoint(prim_range(mc.storage, k), chunk_range(mc.chunks, j)));
        }
    }
    assert(crate::manager::blocks_disjoint(m1));
    assert(crate::manager::prim_syms_ok(m0));
    assert(!m0.prim_syms.contains(ssym));
    assert forall|k: u64|
        #![trigger m1.prim_syms.contains(k)]
        #![trigger m1.storage.contains_key(k)]
        m1.prim_syms.contains(k) <==> local_prim(m1.storage, k) by {
        if k != ssym {
            assert(m1.prim_syms.contains(k) == m0.prim_syms.contains(k));
            assert(local_prim(m1.storage, k) == local_prim(m0.storage, k));
        }
    }
    assert(crate::manager::prim_syms_ok(m1));
    if off < 0 {
        assert(m1.prim_syms.len() == m0.prim_syms.len() + 1);
    }
    assert(crate::manager::frame_conserved(m1));
}

/// Dropping the register mirror of a slot-backed value preserves the
/// invariant: nothing about the frame changes.
#[verifier::rlimit(100)]
#[verifier::spinoff_prover]
pub proof fn lemma_spill_general_mirror_case<CC: CallConv>(m0: Model, m1: Model, i: int)
    requires
        model_inv::<CC>(m0),
        0 <= i < m0.general_used.len(),
        m0.storage[m0.general_used[i].1] matches Storage::Primitive { reg: Some(_), .. },
        m1 == (Model {
            general_used: m0.general_used.remove(i),
            storage: m0.storage.insert(
                m0.general_used[i].1,
                Storage::Primitive {
                    base_offset: m0.storage[m0.general_used[i].1]->Primitive_base_offset,
                    reg: None,
                },
            ),
            ..m0
        }),
    ensures
        model_inv::<CC>(m1),
{
    let (reg, ssym) = m0.general_used[i];
    assert(m0.storage.contains_key(ssym) && m0.storage[ssym].general_reg() == Some(reg));
    let ss1 = m1.stack_size as int;
    assert forall|j: int| 0 <= j < m1.general_used.len() implies #[trigger] m1.general_used[j]
        == (if j < i {
        m0.general_used[j]
    } else {
        m0.general_used[j + 1]
    }) by {}
    assert(crate::manager::pools_wf(m1));
    assert forall|j: int| 0 <= j < m1.general_used.len() implies {
        let (r, k) = #[trigger] m1.general_used[j];
        m1.storage.contains_key(k) && m1.storage[k].general_reg() == Some(r)
    } by {
        let (r, k) = m1.general_used[j];
        let j0 = if j < i {
            j
        } else {
            j + 1
        };
        assert(m0.general_used[j0] == (r, k));
        assert(k != ssym);
    }
    assert forall|j: int| 0 <= j < m1.float_used.len() implies {
        let (r, k) = #[trigger] m1.float_used[j];
        m1.storage.contains_key(k) && m1.storage[k].float_reg() == Some(r)
    } by {
        let (r, k) = m1.float_used[j];
        assert(m0.storage[ssym].float_reg() is None);
        assert(k != ssym);
    }
    assert forall|k: u64| #[trigger] m1.storage.contains_key(k) implies match m1.storage[
        k
    ].general_reg() {
        Some(r) => m1.general_used.contains((r, k)),
        None => true,
    } by {
        if k != ssym && m1.storage[k].general_reg() is Some {
            let r = m1.storage[k].general_reg().unwrap();
            assert(m0.general_used.contains((r, k)));
            lemma_remove_still_contains(m0.general_used, i, (r, k));
        }
    }
    assert forall|k: u64| #[trigger] m1.storage.contains_key(k) implies match m1.storage[
        k
    ].float_reg() {
        Some(r) => m1.float_used.contains((r, k)),
        None => true,
    } by {
        if k != ssym && m1.storage[k].float_reg() is Some {
            assert(m0.float_used.contains((m1.storage[k].float_reg().unwrap(), k)));
        }
    }
    assert(crate::manager::used_lists_match(m1));
    assert forall|j: int|
        0 <= j < m1.general_used.len() && CC::spec_general_callee_saved(
            (#[trigger] m1.general_used[j]).0,
        ) implies m1.general_callee_used.contains(m1.general_used[j].0) by {
        let j0 = if j < i {
            j
        } else {
            j + 1
        };
        assert(m1.general_used[j] == m0.general_used[j0]);
    }
    assert(crate::manager::callee_saved_tracked::<CC>(m1));
    assert forall|k: u64| #[trigger] m1.storage.contains_key(k) implies storage_entry_ok(
        m1.storage,
        m1.alloc_index,
        m1.allocations,
        ss1,
        k,
    ) by {
        if k != ssym {
            assert(m1.storage[k] == m0.storage[k]);
        }
        assert(storage_entry_ok(m0.storage, m0.alloc_index, m0.allocations, ss1, k));
    }
    assert forall|k: u64| #[trigger] m1.alloc_index.contains_key(k) implies m1.storage.contains_key(
        k,
    ) && (m1.storage[k] is ReferencedPrimitive || m1.storage[k] is Complex) by {
        assert(m0.storage.contains_key(k) && (m0.storage[k] is ReferencedPrimitive || m0.storage[k]
            is Complex));
        assert(k != ssym);
    }
    assert(crate::manager::storage_wf(m1));
    assert(crate::manager::allocs_wf(m1));
    assert(crate::manager::chunks_wf(m1));
    assert forall|k: u64| #[trigger] prim_range(m1.storage, k) == prim_range(m0.storage, k) by {}
    assert(crate::manager::blocks_disjoint(m1));
    assert forall|k: u64|
        #![trigger m1.prim_syms.contains(k)]
        #![trigger m1.storage.contains_key(k)]
        m1.prim_syms.contains(k) <==> local_prim(m1.storage, k) by {
        assert(local_prim(m1.storage, k) == local_prim(m0.storage, k));
    }
    assert(crate::manager::prim_syms_ok(m1));
    assert(crate::manager::frame_conserved(m1));
}


/// Spilling a register-only value of the float pool preserves the
/// invariant: the claimed slot is fresh, and the symbol's entry leaves the
/// used list as its storage becomes that slot.
#[verifier::rlimit(100)]
#[verifier::spinoff_prover]
pub proof fn lemma_spill_float_reg_case<ASM: Assembler, CC: CallConv>(
    m0: Model,
    mc: Model,
    m1: Model,
    i: int,
    off: i32,
)
    requires
        model_inv::<CC>(m0),
        0 <= i < m0.float_used.len(),
        m0.storage[m0.float_used[i].1] is Reg,
        claim_post::<CC>(m0, mc, 8, off as int),
        m1 == (Model {
            float_used: m0.float_used.remove(i),
            storage: mc.storage.insert(
                m0.float_used[i].1,
                Storage::Primitive { base_offset: off, reg: None },
            ),
            prim_syms: if off < 0 {
                m0.prim_syms.insert(m0.float_used[i].1)
            } else {
                m0.prim_syms
            },
            ..mc
        }),
    ensures
        model_inv::<CC>(m1),
{
    let (reg, ssym) = m0.float_used[i];
    assert(m0.storage.contains_key(ssym) && m0.storage[ssym].float_reg() == Some(reg));
    assert(mc.storage == m0.storage && mc.float_used == m0.float_used && mc.general_used
        == m0.general_used && mc.float_free == m0.float_free && mc.general_free == m0.general_free
        && mc.alloc_index == m0.alloc_index && mc.allocations == m0.allocations
        && mc.float_callee_used == m0.float_callee_used && mc.general_callee_used
        == m0.general_callee_used && mc.prim_syms == m0.prim_syms);
    let ss1 = m1.stack_size as int;
    assert forall|j: int| 0 <= j < m1.float_used.len() implies #[trigger] m1.float_used[j]
        == (if j < i {
        m0.float_used[j]
    } else {
        m0.float_used[j + 1]
    }) by {}
    assert(crate::manager::pools_wf(m1));
    assert forall|j: int| 0 <= j < m1.float_used.len() implies {
        let (r, k) = #[trigger] m1.float_used[j];
        m1.storage.contains_key(k) && m1.storage[k].float_reg() == Some(r)
    } by {
        let (r, k) = m1.float_used[j];
        let j0 = if j < i {
            j
        } else {
            j + 1
        };
        assert(m0.float_used[j0] == (r, k));
        assert(k != ssym);
    }
    assert forall|j: int| 0 <= j < m1.general_used.len() implies {
        let (r, k) = #[trigger] m1.general_used[j];
        m1.storage.contains_key(k) && m1.storage[k].general_reg() == Some(r)
    } by {
        let (r, k) = m1.general_used[j];
        assert(m0.storage[ssym].general_reg() is None);
        assert(k != ssym);
    }
    assert forall|k: u64| #[trigger] m1.storage.contains_key(k) implies match m1.storage[
        k
    ].float_reg() {
        Some(r) => m1.float_used.contains((r, k)),
        None => true,
    } by {
        if k != ssym && m1.storage[k].float_reg() is Some {
            let r = m1.storage[k].float_reg().unwrap();
            assert(m0.float_used.contains((r, k)));
            lemma_remove_still_contains(m0.float_used, i, (r, k));
        }
    }
    assert forall|k: u64| #[trigger] m1.storage.contains_key(k) implies match m1.storage[
        k
    ].general_reg() {
        Some(r) => m1.general_used.contains((r, k)),
        None => true,
    } by {
        if k != ssym && m1.storage[k].general_reg() is Some {
            assert(m0.general_used.contains((m1.storage[k].general_reg().unwrap(), k)));
        }
    }
    assert(crate::manager::used_lists_match(m1));
    assert forall|j: int|
        0 <= j < m1.float_used.len() && CC::spec_float_callee_saved(
            (#[trigger] m1.float_used[j]).0,
        ) implies m1.float_callee_used.contains(m1.float_used[j].0) by {
        let j0 = if j < i {
            j
        } else {
            j + 1
        };
        assert(m1.float_used[j] == m0.float_used[j0]);
    }
    assert(crate::manager::callee_saved_tracked::<CC>(m1));
    assert forall|k: u64| #[trigger] m1.storage.contains_key(k) implies storage_entry_ok(
        m1.storage,
        m1.alloc_index,
        m1.allocations,
        ss1,
        k,
    ) by {
        if k != ssym {
            assert(storage_entry_ok(mc.storage, mc.alloc_index, mc.allocations, ss1, k));
            assert(m1.storage[k] == mc.storage[k]);
        }
    }
    assert forall|k: u64| #[trigger] m1.alloc_index.contains_key(k) implies m1.storage.contains_key(
        k,
    ) && (m1.storage[k] is ReferencedPrimitive || m1.storage[k] is Complex) by {
        assert(m0.storage.contains_key(k) && (m0.storage[k] is ReferencedPrimitive || m0.storage[k]
            is Complex));
        assert(k != ssym);
    }
    assert(crate::manager::storage_wf(m1));
    assert forall|j: int| 0 <= j < m1.allocations.len() implies #[trigger] crate::manager::cell_ok(
        m1.alloc_index,
        m1.allocations,
        ss1,
        j,
    ) by {
        assert(crate::manager::cell_ok(mc.alloc_index, mc.allocations, ss1, j));
    }
    assert(crate::manager::allocs_wf(m1));
    assert(crate::manager::chunks_wf(m1));
    assert forall|k1: u64, k2: u64| k1 != k2 implies opt_ranges_disjoint(
        #[trigger] prim_range(m1.storage, k1),
        #[trigger] prim_range(m1.storage, k2),
    ) by {
        if k1 == ssym {
            assert(opt_ranges_disjoint(prim_range(mc.storage, k2), Some((off as int, 8))));
        } else if k2 == ssym {
            assert(opt_ranges_disjoint(prim_range(mc.storage, k1), Some((off as int, 8))));
        } else {
            assert(prim_range(m1.storage, k1) == prim_range(m0.storage, k1));
            assert(prim_range(m1.storage, k2) == prim_range(m0.storage, k2));
            assert(opt_ranges_disjoint(prim_range(m0.storage, k1), prim_range(m0.storage, k2)));
        }
    }
    assert forall|k: u64, j: int|
        opt_ranges_disjoint(
            #[trigger] prim_range(m1.storage, k),
            #[trigger] cell_range(m1.allocations, j),
        ) by {
        if k == ssym {
            assert(opt_ranges_disjoint(cell_range(mc.allocations, j), Some((off as int, 8))));
        } else {
            assert(prim_range(m1.storage, k) == prim_range(m0.storage, k));
            assert(opt_ranges_disjoint(prim_range(m0.storage, k), cell_range(m0.allocations, j)));
        }
    }
    assert forall|k: u64, j: int|
        opt_ranges_disjoint(
            #[trigger] prim_range(m1.storage, k),
            #[trigger] chunk_range(m1.chunks, j),
        ) by {
        if k == ssym {
            assert(opt_ranges_disjoint(chunk_range(m1.chunks, j), Some((off as int, 8))));
        } else {
            assert(prim_range(m1.storage, k) == prim_range(m0.storage, k));
            assert(opt_ranges_disjoint(prim_range(mc.storage, k), chunk_range(mc.chunks, j)));
        }
    }
    assert(crate::manager::blocks_disjoint(m1));
    assert(crate::manager::prim_syms_ok(m0));
    assert(!m0.prim_syms.contains(ssym));
    assert forall|k: u64|
        #![trigger m1.prim_syms.contains(k)]
        #![trigger m1.storage.contains_key(k)]
        m1.prim_syms.contains(k) <==> local_prim(m1.storage, k) by {
        if k != ssym {
            assert(m1.prim_syms.contains(k) == m0.prim_syms.contains(k));
            assert(local_prim(m1.storage, k) == local_prim(m0.storage, k));
        }
    }
    assert(crate::manager::prim_syms_ok(m1));
    if off < 0 {
        assert(m1.prim_syms.len() == m0.prim_syms.len() + 1);
    }
    assert(crate::manager::frame_conserved(m1));
}

/// Dropping the register mirror of a slot-backed value preserves the
/// invariant: nothing about the frame changes.
#[verifier::rlimit(100)]
#[verifier::spinoff_prover]
pub proof fn lemma_spill_float_mirror_case<CC: CallConv>(m0: Model, m1: Model, i: int)
    requires
        model_inv::<CC>(m0),
        0 <= i < m0.float_used.len(),
        m0.storage[m0.float_used[i].1] matches Storage::Primitive { reg: Some(_), .. },
        m1 == (Model {
            float_used: m0.float_used.remove(i),
            storage: m0.storage.insert(
                m0.float_used[i].1,
                Storage::Primitive {
                    base_offset: m0.storage[m0.float_used[i].1]->Primitive_base_offset,
                    reg: None,
                },
            ),
            ..m0
        }),
    ensures
        model_inv::<CC>(m1),
{
    let (reg, ssym) = m0.float_used[i];
    assert(m0.storage.contains_key(ssym) && m0.storage[ssym].float_reg() == Some(reg));
    let ss1 = m1.stack_size as int;
    assert forall|j: int| 0 <= j < m1.float_used.len() implies #[trigger] m1.float_used[j]
        == (if j < i {
        m0.float_used[j]
    } else {
        m0.float_used[j + 1]
    }) by {}
    assert(crate::manager::pools_wf(m1));
    assert forall|j: int| 0 <= j < m1.float_used.len() implies {
        let (r, k) = #[trigger] m1.float_used[j];
        m1.storage.contains_key(k) && m1.storage[k].float_reg() == Some(r)
    } by {
        let (r, k) = m1.float_used[j];
        let j0 = if j < i {
            j
        } else {
            j + 1
        };
        assert(m0.float_used[j0] == (r, k));
        assert(k != ssym);
    }
    assert forall|j: int| 0 <= j < m1.general_used.len() implies {
        let (r, k) = #[trigger] m1.general_used[j];
        m1.storage.contains_key(k) && m1.storage[k].general_reg() == Some(r)
    } by {
        let (r, k) = m1.general_used[j];
        assert(m0.storage[ssym].general_reg() is None);
        assert(k != ssym);
    }
    assert forall|k: u64| #[trigger] m1.storage.contains_key(k) implies match m1.storage[
        k
    ].float_reg() {
        Some(r) => m1.float_used.contains((r, k)),
        None => true,
    } by {
        if k != ssym && m1.storage[k].float_reg() is Some {
            let r = m1.storage[k].float_reg().unwrap();
            assert(m0.float_used.contains((r, k)));
            lemma_remove_still_contains(m0.float_used, i, (r, k));
        }
    }
    assert forall|k: u64| #[trigger] m1.storage.contains_key(k) implies match m1.storage[
        k
    ].general_reg() {
        Some(r) => m1.general_used.contains((r, k)),
        None => true,
    } by {
        if k != ssym && m1.storage[k].general_reg() is Some {
            assert(m0.general_used.contains((m1.storage[k].general_reg().unwrap(), k)));
        }
    }
    assert(crate::manager::used_lists_match(m1));
    assert forall|j: int|
        0 <= j < m1.float_used.len() && CC::spec_float_callee_saved(
            (#[trigger] m1.float_used[j]).0,
        ) implies m1.float_callee_used.contains(m1.float_used[j].0) by {
        let j0 = if j < i {
            j
        } else {
            j + 1
        };
        assert(m1.float_used[j] == m0.float_used[j0]);
    }
    assert(crate::manager::callee_saved_tracked::<CC>(m1));
    assert forall|k: u64| #[trigger] m1.storage.contains_key(k) implies storage_entry_ok(
        m1.storage,
        m1.alloc_index,
        m1.allocations,
        ss1,
        k,
    ) by {
        if k != ssym {
            assert(m1.storage[k] == m0.storage[k]);
        }
        assert(storage_entry_ok(m0.storage, m0.alloc_index, m0.allocations, ss1, k));
    }
    assert forall|k: u64| #[trigger] m1.alloc_index.contains_key(k) implies m1.storage.contains_key(
        k,
    ) && (m1.storage[k] is ReferencedPrimitive || m1.storage[k] is Complex) by {
        assert(m0.storage.contains_key(k) && (m0.storage[k] is ReferencedPrimitive || m0.storage[k]
            is Complex));
        assert(k != ssym);
    }
    assert(crate::manager::storage_wf(m1));
    assert(crate::manager::allocs_wf(m1));
    assert(crate::manager::chunks_wf(m1));
    assert forall|k: u64| #[trigger] prim_range(m1.storage, k) == prim_range(m0.storage, k) by {}
    assert(crate::manager::blocks_disjoint(m1));
    assert forall|k: u64|
        #![trigger m1.prim_syms.contains(k)]
        #![trigger m1.storage.contains_key(k)]
        m1.prim_syms.contains(k) <==> local_prim(m1.storage, k) by {
        assert(local_prim(m1.storage, k) == local_prim(m0.storage, k));
    }
    assert(crate::manager::prim_syms_ok(m1));
    assert(crate::manager::frame_conserved(m1));
}

impl<ASM: Assembler, CC: CallConv> StorageManager<ASM, CC> {
    /// Spill the used-list entry `i` of the general pool: its symbol's value
    /// moves to an 8-byte stack slot and the entry leaves the list, freeing
    /// the register for the caller's purpose.
    #[verifier::rlimit(100)]
    #[verifier::spinoff_prover]
    pub(crate) fn spill_general(&mut self, buf: &mut Vec<u8>, i: usize) -> (reg: GeneralReg)
        requires
            old(self).inv(),
            i < old(self)@.general_used.len(),
            can_claim(old(self)@.chunks, old(self)@.stack_size as int, 8),
        ensures
            final(self).inv(),
            reg == old(self)@.general_used[i as int].0,
            spill_general_effect::<ASM>(old(self)@, final(self)@, i as int, old(buf)@, final(buf)@),
    {
        let ghost m0 = self@;
        let (reg, ssym) = self.general_used_regs[i];
        let ghost entry = (reg, ssym);
        proof {
            assert(m0.general_used.contains(entry));
            assert(m0.storage.contains_key(ssym) && m0.storage[ssym].general_reg() == Some(reg));
        }
        let storage = match self.symbol_storage_map.get(&ssym) {
            Some(s) => *s,
            None => {
                proof {
                    assert(false);
                }
                Storage::NoData
            },
        };
        match storage {
            Storage::Reg(_) => {
                let base_offset = self.claim_stack_size(8);
                let ghost mc = self@;
                ASM::mov_base32_reg64(buf, base_offset, reg);
                self.general_used_regs.remove(i);
                self.symbol_storage_map.insert(
                    ssym,
                    Storage::Primitive { base_offset, reg: None },
                );
                proof {
                    if base_offset < 0 {
                        self.prim_syms@ = m0.prim_syms.insert(ssym);
                    }
                    let m1 = self@;
                    assert(m1.storage == mc.storage.insert(
                        ssym,
                        Storage::Primitive { base_offset, reg: None },
                    ));
                    assert(m1.general_used == m0.general_used.remove(i as int));
                    lemma_spill_general_reg_case::<ASM, CC>(
                        m0,
                        mc,
                        m1,
                        i as int,
                        base_offset,
                    );
                }
                reg
            },
            Storage::Primitive { base_offset, reg: Some(RegStorage::General(_)) } => {
                self.general_used_regs.remove(i);
                self.symbol_storage_map.insert(
                    ssym,
                    Storage::Primitive { base_offset, reg: None },
                );
                proof {
                    let m1 = self@;
                    assert(m1.general_used == m0.general_used.remove(i as int));
                    lemma_spill_general_mirror_case::<CC>(m0, m1, i as int);
                    assert(spill_general_effect::<ASM>(m0, m1, i as int, old(buf)@, buf@));
                }
                reg
            },
            _ => {
                proof {
                    assert(false);
                }
                reg
            },
        }
    }

    /// Spill the used-list entry `i` of the float pool.
    #[verifier::rlimit(100)]
    #[verifier::spinoff_prover]
    pub(crate) fn spill_float(&mut self, buf: &mut Vec<u8>, i: usize) -> (reg: FloatReg)
        requires
            old(self).inv(),
            i < old(self)@.float_used.len(),
            can_claim(old(self)@.chunks, old(self)@.stack_size as int, 8),
        ensures
            final(self).inv(),
            reg == old(self)@.float_used[i as int].0,
            spill_float_effect::<ASM>(old(self)@, final(self)@, i as int, old(buf)@, final(buf)@),
    {
        let ghost m0 = self@;
        let (reg, ssym) = self.float_used_regs[i];
        let ghost entry = (reg, ssym);
        proof {
            assert(m0.float_used.contains(entry));
            assert(m0.storage.contains_key(ssym) && m0.storage[ssym].float_reg() == Some(reg));
        }
        let storage = match self.symbol_storage_map.get(&ssym) {
            Some(s) => *s,
            None => {
                proof {
                    assert(false);
                }
                Storage::NoData
            },
        };
        match storage {
            Storage::Reg(_) => {
                let base_offset = self.claim_stack_size(8);
                let ghost mc = self@;
                ASM::mov_base32_freg64(buf, base_offset, reg);
                self.float_used_regs.remove(i);
                self.symbol_storage_map.insert(
                    ssym,
                    Storage::Primitive { base_offset, reg: None },
                );
                proof {
                    if base_offset < 0 {
                        self.prim_syms@ = m0.prim_syms.insert(ssym);
                    }
                    let m1 = self@;
                    assert(m1.storage == mc.storage.insert(
                        ssym,
                        Storage::Primitive { base_offset, reg: None },
                    ));
                    assert(m1.float_used == m0.float_used.remove(i as int));
                    lemma_spill_float_reg_case::<ASM, CC>(m0, mc, m1, i as int, base_offset);
                }
                reg
            },
            Storage::Primitive { base_offset, reg: Some(RegStorage::Float(_)) } => {
                self.float_used_regs.remove(i);
                self.symbol_storage_map.insert(
                    ssym,
                    Storage::Primitive { base_offset, reg: None },
                );
                proof {
                    let m1 = self@;
                    assert(m1.float_used == m0.float_used.remove(i as int));
                    lemma_spill_float_mirror_case::<CC>(m0, m1, i as int);
                    assert(spill_float_effect::<ASM>(m0, m1, i as int, old(buf)@, buf@));
                }
                reg
            },
            _ => {
                proof {
                    assert(false);
                }
                reg
            },
        }
    }
}


/// The first occurrence of `x` removed, if there is one.
pub open spec fn remove_first<T>(s: Seq<T>, x: T) -> Seq<T> {
    if s.contains(x) {
        s.remove(s.index_of(x))
    } else {
        s
    }
}

/// Popping the last free general register (and recording it if callee-saved)
/// preserves the invariant and yields a register in neither list.
#[verifier::rlimit(100)]
#[verifier::spinoff_prover]
pub proof fn lemma_pop_free_general<CC: CallConv>(m0: Model, m1: Model, reg: GeneralReg)
    requires
        model_inv::<CC>(m0),
        m0.general_free.len() > 0,
        reg == m0.general_free.last(),
        m1 == (Model {
            general_free: m0.general_free.drop_last(),
            general_callee_used: record_callee(
                m0.general_callee_used,
                reg,
                CC::spec_general_callee_saved(reg),
            ),
            ..m0
        }),
    ensures
        model_inv::<CC>(m1),
        !m1.general_free.contains(reg),
        forall|j: int| 0 <= j < m1.general_used.len() ==> (#[trigger] m1.general_used[j]).0 != reg,
        CC::spec_general_callee_saved(reg) ==> m1.general_callee_used.contains(reg),
    decreases 0int,
{
    assert forall|j: int| 0 <= j < m1.general_free.len() implies #[trigger] m1.general_free[j]
        == m0.general_free[j] by {}
    assert(crate::manager::pools_wf(m1));
    if CC::spec_general_callee_saved(reg) && !m0.general_callee_used.contains(reg) {
        assert forall|j: int|
            0 <= j < m1.general_callee_used.len() && j < m0.general_callee_used.len() implies
            #[trigger] m1.general_callee_used[j] == m0.general_callee_used[j] by {}
    }
    assert forall|j: int|
        0 <= j < m1.general_used.len() && CC::spec_general_callee_saved(
            (#[trigger] m1.general_used[j]).0,
        ) implies m1.general_callee_used.contains(m1.general_used[j].0) by {
        assert(m0.general_callee_used.contains(m0.general_used[j].0));
        if CC::spec_general_callee_saved(reg) && !m0.general_callee_used.contains(reg) {
            lemma_push_contains(m0.general_callee_used, reg, m0.general_used[j].0);
        }
    }
    assert(crate::manager::callee_saved_tracked::<CC>(m1));
    if CC::spec_general_callee_saved(reg) {
        if !m0.general_callee_used.contains(reg) {
            lemma_push_contains(m0.general_callee_used, reg, reg);
        }
    }
    if m1.general_free.contains(reg) {
        let j = choose|j: int| 0 <= j < m1.general_free.len() && m1.general_free[j] == reg;
        assert(m0.general_free[j] == m0.general_free[m0.general_free.len() - 1]);
        assert(false);
    }
}

/// Binding a fresh symbol to a register that is in neither pool list
/// preserves the invariant.
#[verifier::rlimit(100)]
#[verifier::spinoff_prover]
pub proof fn lemma_bind_general_reg<CC: CallConv>(mid: Model, m2: Model, reg: GeneralReg, sym: u64)
    requires
        model_inv::<CC>(mid),
        !mid.storage.contains_key(sym),
        !mid.general_free.contains(reg),
        forall|j: int| 0 <= j < mid.general_used.len() ==> (#[trigger] mid.general_used[j]).0 != reg,
        CC::spec_general_callee_saved(reg) ==> mid.general_callee_used.contains(reg),
        m2 == (Model {
            general_used: mid.general_used.push((reg, sym)),
            storage: mid.storage.insert(sym, Storage::Reg(RegStorage::General(reg))),
            ..mid
        }),
    ensures
        model_inv::<CC>(m2),
{
    let entry = (reg, sym);
    let ss = m2.stack_size as int;
    assert forall|j: int| 0 <= j < mid.general_used.len() implies (#[trigger] mid.general_used[j]).1
        != sym by {
        assert(mid.storage.contains_key(mid.general_used[j].1));
    }
    assert forall|j: int| 0 <= j < m2.general_used.len() implies #[trigger] m2.general_used[j]
        == (if j < mid.general_used.len() {
        mid.general_used[j]
    } else {
        entry
    }) by {}
    assert forall|i: int, j: int|
        0 <= i < m2.general_free.len() && 0 <= j < m2.general_used.len() implies
        #[trigger] m2.general_free[i] != (#[trigger] m2.general_used[j]).0 by {
        if j == m2.general_used.len() - 1 {
            assert(m2.general_free[i] == mid.general_free[i]);
        }
    }
    assert(crate::manager::pools_wf(m2));
    assert forall|j: int| 0 <= j < m2.float_used.len() implies {
        let (r, k) = #[trigger] m2.float_used[j];
        m2.storage.contains_key(k) && m2.storage[k].float_reg() == Some(r)
    } by {
        let (r, k) = m2.float_used[j];
        assert(mid.storage.contains_key(k));
        assert(k != sym);
    }
    assert forall|k: u64| #[trigger] m2.storage.contains_key(k) implies match m2.storage[
        k
    ].general_reg() {
        Some(r) => m2.general_used.contains((r, k)),
        None => true,
    } by {
        if k == sym {
            lemma_push_contains(mid.general_used, entry, entry);
        } else if m2.storage[k].general_reg() is Some {
            let r = m2.storage[k].general_reg().unwrap();
            assert(mid.general_used.contains((r, k)));
            lemma_push_contains(mid.general_used, entry, (r, k));
        }
    }
    assert forall|k: u64| #[trigger] m2.storage.contains_key(k) implies match m2.storage[
        k
    ].float_reg() {
        Some(r) => m2.float_used.contains((r, k)),
        None => true,
    } by {
        if k != sym && m2.storage[k].float_reg() is Some {
            assert(mid.float_used.contains((m2.storage[k].float_reg().unwrap(), k)));
        }
    }
    assert(crate::manager::used_lists_match(m2));
    assert forall|j: int|
        0 <= j < m2.general_used.len() && CC::spec_general_callee_saved(
            (#[trigger] m2.general_used[j]).0,
        ) implies m2.general_callee_used.contains(m2.general_used[j].0) by {
        if j < mid.general_used.len() {
            assert(mid.general_callee_used.contains(mid.general_used[j].0));
        }
    }
    assert(crate::manager::callee_saved_tracked::<CC>(m2));
    assert forall|k: u64| #[trigger] m2.storage.contains_key(k) implies storage_entry_ok(
        m2.storage,
        m2.alloc_index,
        m2.allocations,
        ss,
        k,
    ) by {
        if k != sym {
            assert(m2.storage[k] == mid.storage[k]);
            assert(storage_entry_ok(mid.storage, mid.alloc_index, mid.allocations, ss, k));
        }
    }
    assert forall|k: u64| #[trigger] m2.alloc_index.contains_key(k) implies m2.storage.contains_key(
        k,
    ) && (m2.storage[k] is ReferencedPrimitive || m2.storage[k] is Complex) by {
        assert(mid.storage.contains_key(k) && (mid.storage[k] is ReferencedPrimitive
            || mid.storage[k] is Complex));
        assert(k != sym);
    }
    assert(crate::manager::storage_wf(m2));
    assert(crate::manager::allocs_wf(m2));
    assert(crate::manager::chunks_wf(m2));
    assert forall|k: u64| #[trigger] prim_range(m2.storage, k) == prim_range(mid.storage, k) by {
        if k == sym {
            assert(prim_range(mid.storage, k) is None);
        }
    }
    assert(crate::manager::blocks_disjoint(m2));
    assert forall|k: u64|
        #![trigger m2.prim_syms.contains(k)]
        #![trigger m2.storage.contains_key(k)]
        m2.prim_syms.contains(k) <==> local_prim(m2.storage, k) by {
        assert(local_prim(m2.storage, k) == local_prim(mid.storage, k));
    }
    assert(crate::manager::prim_syms_ok(m2));
    assert(crate::manager::frame_conserved(m2));
}


/// Popping the last free float register (and recording it if callee-saved)
/// preserves the invariant and yields a register in neither list.
#[verifier::rlimit(100)]
#[verifier::spinoff_prover]
pub proof fn lemma_pop_free_float<CC: CallConv>(m0: Model, m1: Model, reg: FloatReg)
    requires
        model_inv::<CC>(m0),
        m0.float_free.len() > 0,
        reg == m0.float_free.last(),
        m1 == (Model {
            float_free: m0.float_free.drop_last(),
            float_callee_used: record_callee(
                m0.float_callee_used,
                reg,
                CC::spec_float_callee_saved(reg),
            ),
            ..m0
        }),
    ensures
        model_inv::<CC>(m1),
        !m1.float_free.contains(reg),
        forall|j: int| 0 <= j < m1.float_used.len() ==> (#[trigger] m1.float_used[j]).0 != reg,
        CC::spec_float_callee_saved(reg) ==> m1.float_callee_used.contains(reg),
    decreases 0int,
{
    assert forall|j: int| 0 <= j < m1.float_free.len() implies #[trigger] m1.float_free[j]
        == m0.float_free[j] by {}
    assert(crate::manager::pools_wf(m1));
    if CC::spec_float_callee_saved(reg) && !m0.float_callee_used.contains(reg) {
        assert forall|j: int|
            0 <= j < m1.float_callee_used.len() && j < m0.float_callee_used.len() implies
            #[trigger] m1.float_callee_used[j] == m0.float_callee_used[j] by {}
    }
    assert forall|j: int|
        0 <= j < m1.float_used.len() && CC::spec_float_callee_saved(
            (#[trigger] m1.float_used[j]).0,
        ) implies m1.float_callee_used.contains(m1.float_used[j].0) by {
        assert(m0.float_callee_used.contains(m0.float_used[j].0));
        if CC::spec_float_callee_saved(reg) && !m0.float_callee_used.contains(reg) {
            lemma_push_contains(m0.float_callee_used, reg, m0.float_used[j].0);
        }
    }
    assert(crate::manager::callee_saved_tracked::<CC>(m1));
    if CC::spec_float_callee_saved(reg) {
        if !m0.float_callee_used.contains(reg) {
            lemma_push_contains(m0.float_callee_used, reg, reg);
        }
    }
    if m1.float_free.contains(reg) {
        let j = choose|j: int| 0 <= j < m1.float_free.len() && m1.float_free[j] == reg;
        assert(m0.float_free[j] == m0.float_free[m0.float_free.len() - 1]);
        assert(false);
    }
}

/// Binding a fresh symbol to a register that is in neither pool list
/// preserves the invariant.
#[verifier::rlimit(100)]
#[verifier::spinoff_prover]
pub proof fn lemma_bind_float_reg<CC: CallConv>(mid: Model, m2: Model, reg: FloatReg, sym: u64)
    requires
        model_inv::<CC>(mid),
        !mid.storage.contains_key(sym),
        !mid.float_free.contains(reg),
        forall|j: int| 0 <= j < mid.float_used.len() ==> (#[trigger] mid.float_used[j]).0 != reg,
        CC::spec_float_callee_saved(reg) ==> mid.float_callee_used.contains(reg),
        m2 == (Model {
            float_used: mid.float_used.push((reg, sym)),
            storage: mid.storage.insert(sym, Storage::Reg(RegStorage::Float(reg))),
            ..mid
        }),
    ensures
        model_inv::<CC>(m2),
{
    let entry = (reg, sym);
    let ss = m2.stack_size as int;
    assert forall|j: int| 0 <= j < mid.float_used.len() implies (#[trigger] mid.float_used[j]).1
        != sym by {
        assert(mid.storage.contains_key(mid.float_used[j].1));
    }
    assert forall|j: int| 0 <= j < m2.float_used.len() implies #[trigger] m2.float_used[j]
        == (if j < mid.float_used.len() {
        mid.float_used[j]
    } else {
        entry
    }) by {}
    assert forall|i: int, j: int|
        0 <= i < m2.float_free.len() && 0 <= j < m2.float_used.len() implies
        #[trigger] m2.float_free[i] != (#[trigger] m2.float_used[j]).0 by {
        if j == m2.float_used.len() - 1 {
            assert(m2.float_free[i] == mid.float_free[i]);
        }
    }
    assert(crate::manager::pools_wf(m2));
    assert forall|j: int| 0 <= j < m2.general_used.len() implies {
        let (r, k) = #[trigger] m2.general_used[j];
        m2.storage.contains_key(k) && m2.storage[k].general_reg() == Some(r)
    } by {
        let (r, k) = m2.general_used[j];
        assert(mid.storage.contains_key(k));
        assert(k != sym);
    }
    assert forall|k: u64| #[trigger] m2.storage.contains_key(k) implies match m2.storage[
        k
    ].float_reg() {
        Some(r) => m2.float_used.contains((r, k)),
        None => true,
    } by {
        if k == sym {
            lemma_push_contains(mid.float_used, entry, entry);
        } else if m2.storage[k].float_reg() is Some {
            let r = m2.storage[k].float_reg().unwrap();
            assert(mid.float_used.contains((r, k)));
            lemma_push_contains(mid.float_used, entry, (r, k));
        }
    }
    assert forall|k: u64| #[trigger] m2.storage.contains_key(k) implies match m2.storage[
        k
    ].general_reg() {
        Some(r) => m2.general_used.contains((r, k)),
        None => true,
    } by {
        if k != sym && m2.storage[k].general_reg() is Some {
            assert(mid.general_used.contains((m2.storage[k].general_reg().unwrap(), k)));
        }
    }
    assert(crate::manager::used_lists_match(m2));
    assert forall|j: int|
        0 <= j < m2.float_used.len() && CC::spec_float_callee_saved(
            (#[trigger] m2.float_used[j]).0,
        ) implies m2.float_callee_used.contains(m2.float_used[j].0) by {
        if j < mid.float_used.len() {
            assert(mid.float_callee_used.contains(mid.float_used[j].0));
        }
    }
    assert(crate::manager::callee_saved_tracked::<CC>(m2));
    assert forall|k: u64| #[trigger] m2.storage.contains_key(k) implies storage_entry_ok(
        m2.storage,
        m2.alloc_index,
        m2.allocations,
        ss,
        k,
    ) by {
        if k != sym {
            assert(m2.storage[k] == mid.storage[k]);
            assert(storage_entry_ok(mid.storage, mid.alloc_index, mid.allocations, ss, k));
        }
    }
    assert forall|k: u64| #[trigger] m2.alloc_index.contains_key(k) implies m2.storage.contains_key(
        k,
    ) && (m2.storage[k] is ReferencedPrimitive || m2.storage[k] is Complex) by {
        assert(mid.storage.contains_key(k) && (mid.storage[k] is ReferencedPrimitive
            || mid.storage[k] is Complex));
        assert(k != sym);
    }
    assert(crate::manager::storage_wf(m2));
    assert(crate::manager::allocs_wf(m2));
    assert(crate::manager::chunks_wf(m2));
    assert forall|k: u64| #[trigger] prim_range(m2.storage, k) == prim_range(mid.storage, k) by {
        if k == sym {
            assert(prim_range(mid.storage, k) is None);
        }
    }
    assert(crate::manager::blocks_disjoint(m2));
    assert forall|k: u64|
        #![trigger m2.prim_syms.contains(k)]
        #![trigger m2.storage.contains_key(k)]
        m2.prim_syms.contains(k) <==> local_prim(m2.storage, k) by {
        assert(local_prim(m2.storage, k) == local_prim(mid.storage, k));
    }
    assert(crate::manager::prim_syms_ok(m2));
    assert(crate::manager::frame_conserved(m2));
}


/// Removing the first occurrence from a duplicate-free list removes the
/// element entirely and keeps everything else.
pub proof fn lemma_remove_first_props<T>(s: Seq<T>, x: T)
    requires
        s.no_duplicates(),
    ensures
        !remove_first(s, x).contains(x),
        remove_first(s, x).no_duplicates(),
        forall|i: int|
            0 <= i < remove_first(s, x).len() ==> s.contains(#[trigger] remove_first(s, x)[i]),
        forall|y: T| #[trigger] s.contains(y) && y != x ==> remove_first(s, x).contains(y),
{
    if s.contains(x) {
        let idx = s.index_of(x);
        assert(0 <= idx < s.len() && s[idx] == x);
        let r = s.remove(idx);
        assert forall|i: int| 0 <= i < r.len() implies s.contains(#[trigger] r[i]) by {
            if i < idx {
                assert(r[i] == s[i]);
            } else {
                assert(r[i] == s[i + 1]);
            }
        }
        if r.contains(x) {
            let j = choose|j: int| 0 <= j < r.len() && r[j] == x;
            if j < idx {
                assert(s[j] == x);
            } else {
                assert(s[j + 1] == x);
            }
            assert(false);
        }
        assert forall|i: int, j: int| 0 <= i < j < r.len() implies r[i] != r[j] by {
            let i0 = if i < idx { i } else { i + 1 };
            let j0 = if j < idx { j } else { j + 1 };
            assert(r[i] == s[i0] && r[j] == s[j0]);
        }
        assert forall|y: T| #[trigger] s.contains(y) && y != x implies r.contains(y) by {
            lemma_remove_still_contains(s, idx, y);
        }
    }
}

impl<ASM: Assembler, CC: CallConv> StorageManager<ASM, CC> {
    /// Take `reg` out of the free list if it is there.
    fn remove_general_free(&mut self, reg: GeneralReg)
        requires
            old(self)@.general_free.no_duplicates(),
        ensures
            final(self)@ == (Model {
                general_free: remove_first(old(self)@.general_free, reg),
                ..old(self)@
            }),
    {
        let ghost m0 = self@;
        let mut i: usize = 0;
        while i < self.general_free_regs.len()
            invariant
                self == old(self),
                0 <= i <= self@.general_free.len(),
                old(self)@.general_free.no_duplicates(),
                forall|j: int| 0 <= j < i ==> self@.general_free[j] != reg,
            decreases self@.general_free.len() - i,
        {
            if self.general_free_regs[i] == reg {
                self.general_free_regs.remove(i);
                proof {
                    assert(old(self)@.general_free[i as int] == reg);
                    assert(old(self)@.general_free.contains(reg));
                    let idx = old(self)@.general_free.index_of(reg);
                    assert(0 <= idx < old(self)@.general_free.len() && old(self)@.general_free[idx]
                        == reg);
                    assert(idx == i as int);
                    assert(self@ =~= (Model {
                        general_free: remove_first(old(self)@.general_free, reg),
                        ..old(self)@
                    }));
                }
                return ;
            }
            i = i + 1;
        }
        proof {
            if m0.general_free.contains(reg) {
                let j = choose|j: int|
                    0 <= j < m0.general_free.len() && m0.general_free[j] == reg;
                assert(false);
            }
            assert(self@ =~= (Model { general_free: remove_first(m0.general_free, reg), ..m0 }));
        }
    }

    /// Take `reg` out of the free list if it is there.
    fn remove_float_free(&mut self, reg: FloatReg)
        requires
            old(self)@.float_free.no_duplicates(),
        ensures
            final(self)@ == (Model {
                float_free: remove_first(old(self)@.float_free, reg),
                ..old(self)@
            }),
    {
        let ghost m0 = self@;
        let mut i: usize = 0;
        while i < self.float_free_regs.len()
            invariant
                self == old(self),
                0 <= i <= self@.float_free.len(),
                old(self)@.float_free.no_duplicates(),
                forall|j: int| 0 <= j < i ==> self@.float_free[j] != reg,
            decreases self@.float_free.len() - i,
        {
            if self.float_free_regs[i] == reg {
                self.float_free_regs.remove(i);
                proof {
                    assert(old(self)@.float_free[i as int] == reg);
                    assert(old(self)@.float_free.contains(reg));
                    let idx = old(self)@.float_free.index_of(reg);
                    assert(0 <= idx < old(self)@.float_free.len() && old(self)@.float_free[idx]
                        == reg);
                    assert(idx == i as int);
                    assert(self@ =~= (Model {
                        float_free: remove_first(old(self)@.float_free, reg),
                        ..old(self)@
                    }));
                }
                return ;
            }
            i = i + 1;
        }
        proof {
            if m0.float_free.contains(reg) {
                let j = choose|j: int| 0 <= j < m0.float_free.len() && m0.float_free[j] == reg;
                assert(false);
            }
            assert(self@ =~= (Model { float_free: remove_first(m0.float_free, reg), ..m0 }));
        }
    }

    /// Record a callee-saved general register for the epilogue.
    fn record_general_callee_saved(&mut self, reg: GeneralReg)
        ensures
            final(self)@ == (Model {
                general_callee_used: record_callee(
                    old(self)@.general_callee_used,
                    reg,
                    CC::spec_general_callee_saved(reg),
                ),
                ..old(self)@
            }),
    {
        let ghost m0 = self@;
        if CC::general_callee_saved(&reg) {
            if !gen_list_contains(&self.general_used_callee_saved_regs, reg) {
                self.general_used_callee_saved_regs.push(reg);
            }
        }
        proof {
            assert(self@ =~= (Model {
                general_callee_used: record_callee(
                    m0.general_callee_used,
                    reg,
                    CC::spec_general_callee_saved(reg),
                ),
                ..m0
            }));
        }
    }

    /// Record a callee-saved float register for the epilogue.
    fn record_float_callee_saved(&mut self, reg: FloatReg)
        ensures
            final(self)@ == (Model {
                float_callee_used: record_callee(
                    old(self)@.float_callee_used,
                    reg,
                    CC::spec_float_callee_saved(reg),
                ),
                ..old(self)@
            }),
    {
        let ghost m0 = self@;
        if CC::float_callee_saved(&reg) {
            if !float_list_contains(&self.float_used_callee_saved_regs, reg) {
                self.float_used_callee_saved_regs.push(reg);
            }
        }
        proof {
            assert(self@ =~= (Model {
                float_callee_used: record_callee(
                    m0.float_callee_used,
                    reg,
                    CC::spec_float_callee_saved(reg),
                ),
                ..m0
            }));
        }
    }

    /// A usable general register: the most recently freed one, or, with none
    /// free, the register of the oldest used-list entry, whose symbol is
    /// spilled to the stack. Callee-saved registers are recorded on the way
    /// out.
    pub(crate) fn get_general_reg(&mut self, buf: &mut Vec<u8>) -> (reg: GeneralReg)
        requires
            old(self).inv(),
            can_get_general(old(self)@),
        ensures
            final(self).inv(),
            !final(self)@.general_free.contains(reg),
            forall|j: int|
                0 <= j < final(self)@.general_used.len() ==> (
                #[trigger] final(self)@.general_used[j]).0 != reg,
            CC::spec_general_callee_saved(reg) ==> final(self)@.general_callee_used.contains(reg),
            if old(self)@.general_free.len() > 0 {
                &&& reg == old(self)@.general_free.last()
                &&& final(self)@ == (Model {
                    general_free: old(self)@.general_free.drop_last(),
                    general_callee_used: record_callee(
                        old(self)@.general_callee_used,
                        reg,
                        CC::spec_general_callee_saved(reg),
                    ),
                    ..old(self)@
                })
                &&& final(buf)@ == old(buf)@
            } else {
                &&& reg == old(self)@.general_used[0].0
                &&& spill_general_effect::<ASM>(
                    old(self)@,
                    final(self)@,
                    0,
                    old(buf)@,
                    final(buf)@,
                )
            },
    {
        let ghost m0 = self@;
        if self.general_free_regs.len() > 0 {
            let reg = match self.general_free_regs.pop() {
                Some(r) => r,
                None => GeneralReg(0),
            };
            self.record_general_callee_saved(reg);
            proof {
                assert(self@ =~= (Model {
                    general_free: m0.general_free.drop_last(),
                    general_callee_used: record_callee(
                        m0.general_callee_used,
                        reg,
                        CC::spec_general_callee_saved(reg),
                    ),
                    ..m0
                }));
                lemma_pop_free_general::<CC>(m0, self@, reg);
            }
            reg
        } else {
            let reg = self.spill_general(buf, 0);
            proof {
                assert(!m0.general_free.contains(reg));
                assert forall|j: int| 0 <= j < self@.general_used.len() implies (
                #[trigger] self@.general_used[j]).0 != reg by {
                    let j0 = j + 1;
                    assert(self@.general_used[j] == m0.general_used[j0]);
                }
                assert(m0.general_callee_used.contains(reg)
                    || !CC::spec_general_callee_saved(reg)) by {
                    if CC::spec_general_callee_saved(reg) {
                        assert(m0.general_callee_used.contains(m0.general_used[0].0));
                    }
                }
            }
            reg
        }
    }

    /// A usable float register, as [`Self::get_general_reg`] for the float
    /// pool.
    pub(crate) fn get_float_reg(&mut self, buf: &mut Vec<u8>) -> (reg: FloatReg)
        requires
            old(self).inv(),
            can_get_float(old(self)@),
        ensures
            final(self).inv(),
            !final(self)@.float_free.contains(reg),
            forall|j: int|
                0 <= j < final(self)@.float_used.len() ==> (
                #[trigger] final(self)@.float_used[j]).0 != reg,
            CC::spec_float_callee_saved(reg) ==> final(self)@.float_callee_used.contains(reg),
            if old(self)@.float_free.len() > 0 {
                &&& reg == old(self)@.float_free.last()
                &&& final(self)@ == (Model {
                    float_free: old(self)@.float_free.drop_last(),
                    float_callee_used: record_callee(
                        old(self)@.float_callee_used,
                        reg,
                        CC::spec_float_callee_saved(reg),
                    ),
                    ..old(self)@
                })
                &&& final(buf)@ == old(buf)@
            } else {
                &&& reg == old(self)@.float_used[0].0
                &&& spill_float_effect::<ASM>(old(self)@, final(self)@, 0, old(buf)@, final(buf)@)
            },
    {
        let ghost m0 = self@;
        if self.float_free_regs.len() > 0 {
            let reg = match self.float_free_regs.pop() {
                Some(r) => r,
                None => FloatReg(0),
            };
            self.record_float_callee_saved(reg);
            proof {
                assert(self@ =~= (Model {
                    float_free: m0.float_free.drop_last(),
                    float_callee_used: record_callee(
                        m0.float_callee_used,
                        reg,
                        CC::spec_float_callee_saved(reg),
                    ),
                    ..m0
                }));
                lemma_pop_free_float::<CC>(m0, self@, reg);
            }
            reg
        } else {
            let reg = self.spill_float(buf, 0);
            proof {
                assert(!m0.float_free.contains(reg));
                assert forall|j: int| 0 <= j < self@.float_used.len() implies (
                #[trigger] self@.float_used[j]).0 != reg by {
                    let j0 = j + 1;
                    assert(self@.float_used[j] == m0.float_used[j0]);
                }
                assert(m0.float_callee_used.contains(reg) || !CC::spec_float_callee_saved(reg))
                    by {
                    if CC::spec_float_callee_saved(reg) {
                        assert(m0.float_callee_used.contains(m0.float_used[0].0));
                    }
                }
            }
            reg
        }
    }

    /// Claim a general register for `sym`, which must not yet have storage:
    /// the symbol joins the used list and its storage becomes the register.
    /// With no register free, the oldest used one is spilled first.
    #[verifier::rlimit(100)]
    #[verifier::spinoff_prover]
    pub fn claim_general_reg(&mut self, buf: &mut Vec<u8>, sym: &Symbol) -> (reg: GeneralReg)
        requires
            old(self).inv(),
            !old(self)@.storage.contains_key(sym.0),
            can_get_general(old(self)@),
        ensures
            final(self).inv(),
            final(self)@.storage == (if old(self)@.general_free.len() > 0 {
                old(self)@.storage
            } else {
                old(self)@.storage.insert(
                    old(self)@.general_used[0].1,
                    spilled_storage(
                        old(self)@.storage[old(self)@.general_used[0].1],
                        spec_claim_stack(old(self)@, 8).1,
                    ),
                )
            }).insert(sym.0, Storage::Reg(RegStorage::General(reg))),
            if old(self)@.general_free.len() > 0 {
                &&& reg == old(self)@.general_free.last()
                &&& final(self)@.general_free == old(self)@.general_free.drop_last()
                &&& final(self)@.general_used == old(self)@.general_used.push((reg, sym.0))
                &&& final(self)@.general_callee_used == record_callee(
                    old(self)@.general_callee_used,
                    reg,
                    CC::spec_general_callee_saved(reg),
                )
                &&& final(self)@.chunks == old(self)@.chunks
                &&& final(self)@.stack_size == old(self)@.stack_size
                &&& final(buf)@ == old(buf)@
            } else {
                let (mc, off) = spec_claim_stack(old(self)@, 8);
                let (sreg, ssym) = old(self)@.general_used[0];
                &&& reg == sreg
                &&& final(self)@.general_free == old(self)@.general_free
                &&& final(self)@.general_used == old(self)@.general_used.remove(0).push(
                    (reg, sym.0),
                )
                &&& final(self)@.general_callee_used == old(self)@.general_callee_used
                &&& (old(self)@.storage[ssym] is Reg ==> {
                    &&& final(self)@.chunks == mc.chunks
                    &&& final(self)@.stack_size == mc.stack_size
                    &&& final(buf)@ == old(buf)@ + ASM::mov_base32_reg64_enc(off as i32, sreg)
                })
                &&& (old(self)@.storage[ssym] is Primitive ==> {
                    &&& final(self)@.chunks == old(self)@.chunks
                    &&& final(self)@.stack_size == old(self)@.stack_size
                    &&& final(buf)@ == old(buf)@
                })
            },
            final(self)@.float_used == old(self)@.float_used,
            final(self)@.float_free == old(self)@.float_free,
            final(self)@.alloc_index == old(self)@.alloc_index,
            final(self)@.allocations == old(self)@.allocations,
            final(self)@.fn_call_stack_size == old(self)@.fn_call_stack_size,
    {
        let ghost m0 = self@;
        let reg = self.get_general_reg(buf);
        let ghost mid = self@;
        self.general_used_regs.push((reg, sym.0));
        self.symbol_storage_map.insert(sym.0, Storage::Reg(RegStorage::General(reg)));
        proof {
            assert(self@ =~= (Model {
                general_used: mid.general_used.push((reg, sym.0)),
                storage: mid.storage.insert(sym.0, Storage::Reg(RegStorage::General(reg))),
                ..mid
            }));
            if m0.general_free.len() == 0 {
                assert(m0.storage.contains_key(m0.general_used[0].1));
            }
            lemma_bind_general_reg::<CC>(mid, self@, reg, sym.0);
        }
        reg
    }

    /// Claim a float register for `sym`, as [`Self::claim_general_reg`] for
    /// the float pool.
    #[verifier::rlimit(100)]
    #[verifier::spinoff_prover]
    pub fn claim_float_reg(&mut self, buf: &mut Vec<u8>, sym: &Symbol) -> (reg: FloatReg)
        requires
            old(self).inv(),
            !old(self)@.storage.contains_key(sym.0),
            can_get_float(old(self)@),
        ensures
            final(self).inv(),
            final(self)@.storage == (if old(self)@.float_free.len() > 0 {
                old(self)@.storage
            } else {
                old(self)@.storage.insert(
                    old(self)@.float_used[0].1,
                    spilled_storage(
                        old(self)@.storage[old(self)@.float_used[0].1],
                        spec_claim_stack(old(self)@, 8).1,
                    ),
                )
            }).insert(sym.0, Storage::Reg(RegStorage::Float(reg))),
            if old(self)@.float_free.len() > 0 {
                &&& reg == old(self)@.float_free.last()
                &&& final(self)@.float_free == old(self)@.float_free.drop_last()
                &&& final(self)@.float_used == old(self)@.float_used.push((reg, sym.0))
                &&& final(self)@.float_callee_used == record_callee(
                    old(self)@.float_callee_used,
                    reg,
                    CC::spec_float_callee_saved(reg),
                )
                &&& final(self)@.chunks == old(self)@.chunks
                &&& final(self)@.stack_size == old(self)@.stack_size
                &&& final(buf)@ == old(buf)@
            } else {
                let (mc, off) = spec_claim_stack(old(self)@, 8);
                let (sreg, ssym) = old(self)@.float_used[0];
                &&& reg == sreg
                &&& final(self)@.float_free == old(self)@.float_free
                &&& final(self)@.float_used == old(self)@.float_used.remove(0).push((reg, sym.0))
                &&& final(self)@.float_callee_used == old(self)@.float_callee_used
                &&& (old(self)@.storage[ssym] is Reg ==> {
                    &&& final(self)@.chunks == mc.chunks
                    &&& final(self)@.stack_size == mc.stack_size
                    &&& final(buf)@ == old(buf)@ + ASM::mov_base32_freg64_enc(off as i32, sreg)
                })
                &&& (old(self)@.storage[ssym] is Primitive ==> {
                    &&& final(self)@.chunks == old(self)@.chunks
                    &&& final(self)@.stack_size == old(self)@.stack_size
                    &&& final(buf)@ == old(buf)@
                })
            },
            final(self)@.general_used == old(self)@.general_used,
            final(self)@.general_free == old(self)@.general_free,
            final(self)@.alloc_index == old(self)@.alloc_index,
            final(self)@.allocations == old(self)@.allocations,
            final(self)@.fn_call_stack_size == old(self)@.fn_call_stack_size,
    {
        let ghost m0 = self@;
        let reg = self.get_float_reg(buf);
        let ghost mid = self@;
        self.float_used_regs.push((reg, sym.0));
        self.symbol_storage_map.insert(sym.0, Storage::Reg(RegStorage::Float(reg)));
        proof {
            assert(self@ =~= (Model {
                float_used: mid.float_used.push((reg, sym.0)),
                storage: mid.storage.insert(sym.0, Storage::Reg(RegStorage::Float(reg))),
                ..mid
            }));
            if m0.float_free.len() == 0 {
                assert(m0.storage.contains_key(m0.float_used[0].1));
            }
            lemma_bind_float_reg::<CC>(mid, self@, reg, sym.0);
        }
        reg
    }

    /// Bind the incoming-argument symbol `sym` to the general register the
    /// calling convention placed it in: the register leaves the free list and
    /// joins the used list.
    pub fn general_reg_arg(&mut self, sym: &Symbol, reg: GeneralReg)
        requires
            old(self).inv(),
            !old(self)@.storage.contains_key(sym.0),
            forall|j: int|
                0 <= j < old(self)@.general_used.len() ==> (
                #[trigger] old(self)@.general_used[j]).0 != reg,
        ensures
            final(self).inv(),
            final(self)@ == (Model {
                storage: old(self)@.storage.insert(sym.0, Storage::Reg(RegStorage::General(reg))),
                general_free: remove_first(old(self)@.general_free, reg),
                general_used: old(self)@.general_used.push((reg, sym.0)),
                general_callee_used: record_callee(
                    old(self)@.general_callee_used,
                    reg,
                    CC::spec_general_callee_saved(reg),
                ),
                ..old(self)@
            }),
    {
        let ghost m0 = self@;
        self.remove_general_free(reg);
        self.record_general_callee_saved(reg);
        let ghost mid = self@;
        self.general_used_regs.push((reg, sym.0));
        self.symbol_storage_map.insert(sym.0, Storage::Reg(RegStorage::General(reg)));
        proof {
            lemma_remove_first_props(m0.general_free, reg);
            assert(crate::manager::pools_wf(mid)) by {
                assert forall|i: int, j: int|
                    0 <= i < mid.general_free.len() && 0 <= j < mid.general_used.len() implies
                    #[trigger] mid.general_free[i] != (#[trigger] mid.general_used[j]).0 by {
                    assert(m0.general_free.contains(mid.general_free[i]));
                    let i0 = choose|i0: int|
                        0 <= i0 < m0.general_free.len() && m0.general_free[i0]
                            == mid.general_free[i];
                    assert(m0.general_free[i0] != m0.general_used[j].0);
                }
            }
            assert forall|j: int|
                0 <= j < mid.general_used.len() && CC::spec_general_callee_saved(
                    (#[trigger] mid.general_used[j]).0,
                ) implies mid.general_callee_used.contains(mid.general_used[j].0) by {
                assert(m0.general_callee_used.contains(m0.general_used[j].0));
                if CC::spec_general_callee_saved(reg) && !m0.general_callee_used.contains(reg) {
                    lemma_push_contains(m0.general_callee_used, reg, m0.general_used[j].0);
                }
            }
            assert(model_inv::<CC>(mid));
            if CC::spec_general_callee_saved(reg) && !m0.general_callee_used.contains(reg) {
                lemma_push_contains(m0.general_callee_used, reg, reg);
            }
            assert(self@ =~= (Model {
                general_used: mid.general_used.push((reg, sym.0)),
                storage: mid.storage.insert(sym.0, Storage::Reg(RegStorage::General(reg))),
                ..mid
            }));
            lemma_bind_general_reg::<CC>(mid, self@, reg, sym.0);
        }
    }

    /// Bind the incoming-argument symbol `sym` to the float register the
    /// calling convention placed it in.
    pub fn float_reg_arg(&mut self, sym: &Symbol, reg: FloatReg)
        requires
            old(self).inv(),
            !old(self)@.storage.contains_key(sym.0),
            forall|j: int|
                0 <= j < old(self)@.float_used.len() ==> (#[trigger] old(self)@.float_used[j]).0
                    != reg,
        ensures
            final(self).inv(),
            final(self)@ == (Model {
                storage: old(self)@.storage.insert(sym.0, Storage::Reg(RegStorage::Float(reg))),
                float_free: remove_first(old(self)@.float_free, reg),
                float_used: old(self)@.float_used.push((reg, sym.0)),
                float_callee_used: record_callee(
                    old(self)@.float_callee_used,
                    reg,
                    CC::spec_float_callee_saved(reg),
                ),
                ..old(self)@
            }),
    {
        let ghost m0 = self@;
        self.remove_float_free(reg);
        self.record_float_callee_saved(reg);
        let ghost mid = self@;
        self.float_used_regs.push((reg, sym.0));
        self.symbol_storage_map.insert(sym.0, Storage::Reg(RegStorage::Float(reg)));
        proof {
            lemma_remove_first_props(m0.float_free, reg);
            assert(crate::manager::pools_wf(mid)) by {
                assert forall|i: int, j: int|
                    0 <= i < mid.float_free.len() && 0 <= j < mid.float_used.len() implies
                    #[trigger] mid.float_free[i] != (#[trigger] mid.float_used[j]).0 by {
                    assert(m0.float_free.contains(mid.float_free[i]));
                    let i0 = choose|i0: int|
                        0 <= i0 < m0.float_free.len() && m0.float_free[i0] == mid.float_free[i];
                    assert(m0.float_free[i0] != m0.float_used[j].0);
                }
            }
            assert forall|j: int|
                0 <= j < mid.float_used.len() && CC::spec_float_callee_saved(
                    (#[trigger] mid.float_used[j]).0,
                ) implies mid.float_callee_used.contains(mid.float_used[j].0) by {
                assert(m0.float_callee_used.contains(m0.float_used[j].0));
                if CC::spec_float_callee_saved(reg) && !m0.float_callee_used.contains(reg) {
                    lemma_push_contains(m0.float_callee_used, reg, m0.float_used[j].0);
                }
            }
            assert(model_inv::<CC>(mid));
            if CC::spec_float_callee_saved(reg) && !m0.float_callee_used.contains(reg) {
                lemma_push_contains(m0.float_callee_used, reg, reg);
            }
            assert(self@ =~= (Model {
                float_used: mid.float_used.push((reg, sym.0)),
                storage: mid.storage.insert(sym.0, Storage::Reg(RegStorage::Float(reg))),
                ..mid
            }));
            lemma_bind_float_reg::<CC>(mid, self@, reg, sym.0);
        }
    }

    /// Bind the incoming-argument symbol `sym` to the primitive stack slot
    /// the calling convention placed it in. Incoming stack arguments sit at
    /// positive displacements; the slots below `ARG_BASE` hold the saved base
    /// pointer and the return address, so an argument slot starts at or above
    /// it.
    pub fn primitive_stack_arg(&mut self, sym: &Symbol, base_offset: i32)
        requires
            old(self).inv(),
            !old(self)@.storage.contains_key(sym.0),
            base_offset % 8 == 0,
            crate::manager::ARG_BASE <= base_offset,
            base_offset + 8 <= i32::MAX,
            forall|k: u64|
                opt_ranges_disjoint(
                    #[trigger] prim_range(old(self)@.storage, k),
                    Some((base_offset as int, 8)),
                ),
            forall|i: int|
                opt_ranges_disjoint(
                    #[trigger] cell_range(old(self)@.allocations, i),
                    Some((base_offset as int, 8)),
                ),
            forall|i: int|
                opt_ranges_disjoint(
                    #[trigger] chunk_range(old(self)@.chunks, i),
                    Some((base_offset as int, 8)),
                ),
        ensures
            final(self).inv(),
            final(self)@ == (Model {
                storage: old(self)@.storage.insert(
                    sym.0,
                    Storage::Primitive { base_offset, reg: None },
                ),
                ..old(self)@
            }),
    {
        let ghost m0 = self@;
        self.symbol_storage_map.insert(sym.0, Storage::Primitive { base_offset, reg: None });
        proof {
            assert(self@ =~= (Model {
                storage: m0.storage.insert(sym.0, Storage::Primitive { base_offset, reg: None }),
                ..m0
            }));
            lemma_primitive_stack_arg::<CC>(m0, self@, sym.0, base_offset);
        }
    }

    /// Bind the well-known aggregate-return pointer symbol to the general
    /// register holding the hidden first argument.
    pub fn ret_pionter_arg(&mut self, reg: GeneralReg)
        requires
            old(self).inv(),
            !old(self)@.storage.contains_key(RET_POINTER),
            forall|j: int|
                0 <= j < old(self)@.general_used.len() ==> (
                #[trigger] old(self)@.general_used[j]).0 != reg,
        ensures
            final(self).inv(),
            final(self)@ == (Model {
                storage: old(self)@.storage.insert(
                    RET_POINTER,
                    Storage::Reg(RegStorage::General(reg)),
                ),
                general_free: remove_first(old(self)@.general_free, reg),
                general_used: old(self)@.general_used.push((reg, RET_POINTER)),
                general_callee_used: record_callee(
                    old(self)@.general_callee_used,
                    reg,
                    CC::spec_general_callee_saved(reg),
                ),
                ..old(self)@
            }),
    {
        self.general_reg_arg(&Symbol(RET_POINTER), reg);
    }
}

/// Binding a fresh symbol to an incoming-argument stack slot above the frame
/// preserves the invariant.
#[verifier::rlimit(100)]
#[verifier::spinoff_prover]
pub proof fn lemma_primitive_stack_arg<CC: CallConv>(m0: Model, m1: Model, sym: u64, off: i32)
    requires
        model_inv::<CC>(m0),
        !m0.storage.contains_key(sym),
        off % 8 == 0,
        crate::manager::ARG_BASE <= off,
        off + 8 <= i32::MAX,
        forall|k: u64|
            opt_ranges_disjoint(#[trigger] prim_range(m0.storage, k), Some((off as int, 8))),
        forall|i: int|
            opt_ranges_disjoint(#[trigger] cell_range(m0.allocations, i), Some((off as int, 8))),
        forall|i: int|
            opt_ranges_disjoint(#[trigger] chunk_range(m0.chunks, i), Some((off as int, 8))),
        m1 == (Model {
            storage: m0.storage.insert(sym, Storage::Primitive { base_offset: off, reg: None }),
            ..m0
        }),
    ensures
        model_inv::<CC>(m1),
{
    let ss = m1.stack_size as int;
    assert forall|j: int| 0 <= j < m1.general_used.len() implies {
        let (r, k) = #[trigger] m1.general_used[j];
        m1.storage.contains_key(k) && m1.storage[k].general_reg() == Some(r)
    } by {
        let (r, k) = m1.general_used[j];
        assert(m0.storage.contains_key(k));
        assert(k != sym);
    }
    assert forall|j: int| 0 <= j < m1.float_used.len() implies {
        let (r, k) = #[trigger] m1.float_used[j];
        m1.storage.contains_key(k) && m1.storage[k].float_reg() == Some(r)
    } by {
        let (r, k) = m1.float_used[j];
        assert(m0.storage.contains_key(k));
        assert(k != sym);
    }
    assert forall|k: u64| #[trigger] m1.storage.contains_key(k) implies match m1.storage[
        k
    ].general_reg() {
        Some(r) => m1.general_used.contains((r, k)),
        None => true,
    } by {
        if k != sym && m1.storage[k].general_reg() is Some {
            assert(m0.general_used.contains((m1.storage[k].general_reg().unwrap(), k)));
        }
    }
    assert forall|k: u64| #[trigger] m1.storage.contains_key(k) implies match m1.storage[
        k
    ].float_reg() {
        Some(r) => m1.float_used.contains((r, k)),
        None => true,
    } by {
        if k != sym && m1.storage[k].float_reg() is Some {
            assert(m0.float_used.contains((m1.storage[k].float_reg().unwrap(), k)));
        }
    }
    assert(crate::manager::used_lists_match(m1));
    assert forall|k: u64| #[trigger] m1.storage.contains_key(k) implies storage_entry_ok(
        m1.storage,
        m1.alloc_index,
        m1.allocations,
        ss,
        k,
    ) by {
        if k != sym {
            assert(m1.storage[k] == m0.storage[k]);
            assert(storage_entry_ok(m0.storage, m0.alloc_index, m0.allocations, ss, k));
        } else {
            assert(in_frame(ss, off as int, 8));
        }
    }
    assert forall|k: u64| #[trigger] m1.alloc_index.contains_key(k) implies m1.storage.contains_key(
        k,
    ) && (m1.storage[k] is ReferencedPrimitive || m1.storage[k] is Complex) by {
        assert(m0.storage.contains_key(k) && (m0.storage[k] is ReferencedPrimitive || m0.storage[k]
            is Complex));
        assert(k != sym);
    }
    assert(crate::manager::storage_wf(m1));
    assert(crate::manager::allocs_wf(m1));
    assert(crate::manager::chunks_wf(m1));
    assert forall|k1: u64, k2: u64| k1 != k2 implies opt_ranges_disjoint(
        #[trigger] prim_range(m1.storage, k1),
        #[trigger] prim_range(m1.storage, k2),
    ) by {
        if k1 == sym {
            assert(opt_ranges_disjoint(prim_range(m0.storage, k2), Some((off as int, 8))));
        } else if k2 == sym {
            assert(opt_ranges_disjoint(prim_range(m0.storage, k1), Some((off as int, 8))));
        } else {
            assert(prim_range(m1.storage, k1) == prim_range(m0.storage, k1));
            assert(prim_range(m1.storage, k2) == prim_range(m0.storage, k2));
        }
    }
    assert forall|k: u64, j: int|
        opt_ranges_disjoint(
            #[trigger] prim_range(m1.storage, k),
            #[trigger] cell_range(m1.allocations, j),
        ) by {
        if k == sym {
            assert(opt_ranges_disjoint(cell_range(m0.allocations, j), Some((off as int, 8))));
        } else {
            assert(prim_range(m1.storage, k) == prim_range(m0.storage, k));
        }
    }
    assert forall|k: u64, j: int|
        opt_ranges_disjoint(
            #[trigger] prim_range(m1.storage, k),
            #[trigger] chunk_range(m1.chunks, j),
        ) by {
        if k == sym {
            assert(opt_ranges_disjoint(chunk_range(m0.chunks, j), Some((off as int, 8))));
        } else {
            assert(prim_range(m1.storage, k) == prim_range(m0.storage, k));
        }
    }
    assert(crate::manager::blocks_disjoint(m1));
    assert forall|k: u64|
        #![trigger m1.prim_syms.contains(k)]
        #![trigger m1.storage.contains_key(k)]
        m1.prim_syms.contains(k) <==> local_prim(m1.storage, k) by {
        if k != sym {
            assert(local_prim(m1.storage, k) == local_prim(m0.storage, k));
        }
    }
    assert(crate::manager::prim_syms_ok(m1));
    assert(crate::manager::frame_conserved(m1));
}


} // verus!
