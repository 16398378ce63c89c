//! Laws relating the public operations, stated over the model and proved
//! once and for all.
use vstd::prelude::*;

use crate::machine::{GeneralReg, RegStorage, Storage};
use crate::manager::{model_inv, Model};
use crate::regops::record_callee;
use crate::target::CallConv;

verus! {

/// Round trip: a symbol claimed into a free general register and then freed
/// in isolation returns the manager to its prior state — equal register
/// pools, equal free-chunk list, equal stack size and equal storage. Only the
/// record of consumed callee-saved registers may have grown, by design: it
/// persists until the epilogue.
///
/// `m1` is the state `claim_general_reg` leaves (with a register free, as its
/// contract says), and `m2` the state `free_symbol` then leaves.
pub proof fn lemma_claim_free_round_trip<CC: CallConv>(
    m0: Model,
    m1: Model,
    m2: Model,
    reg: GeneralReg,
    sym: u64,
)
    requires
        model_inv::<CC>(m0),
        !m0.storage.contains_key(sym),
        m0.general_free.len() > 0,
        reg == m0.general_free.last(),
        m1 == (Model {
            general_free: m0.general_free.drop_last(),
            general_used: m0.general_used.push((reg, sym)),
            storage: m0.storage.insert(sym, Storage::Reg(RegStorage::General(reg))),
            general_callee_used: record_callee(
                m0.general_callee_used,
                reg,
                CC::spec_general_callee_saved(reg),
            ),
            ..m0
        }),
        m2 == (Model {
            storage: m1.storage.remove(sym),
            general_used: m1.general_used.remove(m1.general_used.index_of((reg, sym))),
            general_free: m1.general_free.push(reg),
            prim_syms: m1.prim_syms.remove(sym),
            ..m1
        }),
    ensures
        m2.general_free == m0.general_free,
        m2.general_used == m0.general_used,
        m2.float_free == m0.float_free,
        m2.float_used == m0.float_used,
        m2.storage == m0.storage,
        m2.chunks == m0.chunks,
        m2.stack_size == m0.stack_size,
        m2.alloc_index == m0.alloc_index,
        m2.allocations == m0.allocations,
        m2.prim_syms == m0.prim_syms,
{
    let entry = (reg, sym);
    assert forall|j: int| 0 <= j < m0.general_used.len() implies #[trigger] m1.general_used[j]
        != entry by {
        assert(m1.general_used[j] == m0.general_used[j]);
        assert(m0.storage.contains_key(m0.general_used[j].1));
    }
    assert(m1.general_used[m0.general_used.len() as int] == entry);
    assert(m1.general_used.contains(entry));
    let idx = m1.general_used.index_of(entry);
    assert(0 <= idx < m1.general_used.len() && m1.general_used[idx] == entry);
    assert(idx == m0.general_used.len() as int);
    assert(m2.general_used =~= m0.general_used);
    assert(m2.general_free =~= m0.general_free);
    assert(m2.storage =~= m0.storage);
    assert(!m0.prim_syms.contains(sym));
    assert(m2.prim_syms =~= m0.prim_syms);
}

} // verus!
