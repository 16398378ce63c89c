//! Composites on the stack: claiming a stack area for a composite, lazily
//! projecting a field as a shared sub-range of its allocation, and building a
//! struct by storing each field at its computed offset.
use vstd::prelude::*;

use crate::layout::{fields_size, lemma_fields_size_monotone, FieldLayout, Layout};
use crate::loads::{
    float_loadable, general_loadable, load_float_bytes, load_general_bytes, loaded_float_reg,
    loaded_general_reg, spec_load_float, spec_load_general,
};
use crate::machine::{RegStorage, Storage, Symbol};
use crate::manager::{
    cell_ok, cell_range, chunk_range, in_frame, local_prim, model_inv, opt_ranges_disjoint,
    prim_range, storage_entry_ok, AllocCell, Model, StorageManager,
};
use crate::regops::{can_get_float, can_get_general};
use crate::stackalloc::{can_claim, claim_post, round8, spec_claim_stack};
use crate::target::{Assembler, CallConv};

verus! {

/// A cell with one more owner.
pub open spec fn inc_cell(c: AllocCell, sym: u64) -> AllocCell {
    AllocCell { refs: (c.refs + 1) as u32, owners: Ghost(c.owners@.insert(sym)), ..c }
}


/// The model after `claim_stack_area(sym, size)`: the claimed area bound as a
/// `Complex` region backed by a fresh single-reference allocation.
pub open spec fn spec_claim_area(m: Model, sym: u64, size: u32) -> Model {
    let mc = spec_claim_stack(m, size as int).0;
    let off = spec_claim_stack(m, size as int).1;
    Model {
        storage: mc.storage.insert(sym, Storage::Complex { base_offset: off as i32, size }),
        alloc_index: mc.alloc_index.insert(sym, mc.allocations.len() as usize),
        allocations: mc.allocations.push(
            AllocCell {
                base_offset: off as i32,
                size: round8(size as int) as u32,
                refs: 1,
                owners: Ghost(Set::empty().insert(sym)),
            },
        ),
        ..mc
    }
}

/// The model and bytes of materialising one primitive field at `off`: a load
/// of the matching family followed by a store.
pub open spec fn spec_copy_field<ASM: Assembler, CC: CallConv>(
    m: Model,
    sym: u64,
    layout: FieldLayout,
    off: i32,
) -> (Model, Seq<u8>) {
    if layout is F64 {
        (
            crate::loads::spec_load_float::<CC>(m, sym),
            crate::loads::load_float_bytes::<ASM>(m, sym) + ASM::mov_base32_freg64_enc(
                off,
                crate::loads::loaded_float_reg(m, sym),
            ),
        )
    } else {
        (
            crate::loads::spec_load_general::<CC>(m, sym),
            crate::loads::load_general_bytes::<ASM>(m, sym) + ASM::mov_base32_reg64_enc(
                off,
                crate::loads::loaded_general_reg(m, sym),
            ),
        )
    }
}

/// The model and bytes of storing the first `n` fields of a struct at their
/// cumulative offsets from `base`.
pub open spec fn spec_build_fields<ASM: Assembler, CC: CallConv>(
    m: Model,
    fields: Seq<Symbol>,
    fls: Seq<FieldLayout>,
    base: i32,
    n: int,
) -> (Model, Seq<u8>)
    decreases n,
{
    if n <= 0 {
        (m, Seq::empty())
    } else {
        let (mp, bp) = spec_build_fields::<ASM, CC>(m, fields, fls, base, n - 1);
        let off = ((base as int + fields_size(fls, n - 1)) as i32);
        let (mi, bi) = spec_copy_field::<ASM, CC>(mp, fields[n - 1].0, fls[n - 1], off);
        (mi, bp + bi)
    }
}

/// Installing a fresh composite over a just-claimed stack area preserves the
/// invariant.
#[verifier::rlimit(100)]
#[verifier::spinoff_prover]
pub proof fn lemma_bind_area<CC: CallConv>(m0: Model, mc: Model, m1: Model, sym: u64, size: u32)
    requires
        model_inv::<CC>(m0),
        !m0.storage.contains_key(sym),
        size > 0,
        round8(size as int) <= i32::MAX,
        mc.allocations.len() <= usize::MAX,
        claim_post::<CC>(m0, mc, size as int, spec_claim_stack(m0, size as int).1),
        m1 == (Model {
            storage: mc.storage.insert(
                sym,
                Storage::Complex {
                    base_offset: spec_claim_stack(m0, size as int).1 as i32,
                    size,
                },
            ),
            alloc_index: mc.alloc_index.insert(sym, mc.allocations.len() as usize),
            allocations: mc.allocations.push(
                AllocCell {
                    base_offset: spec_claim_stack(m0, size as int).1 as i32,
                    size: round8(size as int) as u32,
                    refs: 1,
                    owners: Ghost(Set::empty().insert(sym)),
                },
            ),
            ..mc
        }),
    ensures
        model_inv::<CC>(m1),
{
    let off = spec_claim_stack(m0, size as int).1;
    let a = round8(size as int);
    let newidx = mc.allocations.len() as int;
    let newcell = AllocCell {
        base_offset: off as i32,
        size: a as u32,
        refs: 1,
        owners: Ghost(Set::empty().insert(sym)),
    };
    let ss = m1.stack_size as int;
    assert(mc.storage == m0.storage && mc.alloc_index == m0.alloc_index && mc.allocations
        == m0.allocations && mc.general_used == m0.general_used && mc.float_used == m0.float_used
        && mc.prim_syms == m0.prim_syms);
    assert(size as int <= a) by {
        assert(a % 8 == 0);
    }
    assert(in_frame(ss, off, a));
    assert((off as i32) as int == off);
    assert((a as u32) as int == a);
    assert(m1.storage[sym] == (Storage::Complex { base_offset: off as i32, size }));
    assert(m1.allocations.len() == newidx + 1);
    assert(m1.allocations[newidx] == newcell);
    assert(m1.alloc_index[sym] as int == newidx);
    assert(crate::manager::points_into_alloc(m1.alloc_index, m1.allocations, sym, off, size as int));
    assert forall|j: int| 0 <= j < m1.general_used.len() implies {
        let (r, k) = #[trigger] m1.general_used[j];
        m1.storage.contains_key(k) && m1.storage[k].general_reg() == Some(r)
    } by {
        let (r, k) = m1.general_used[j];
        assert(m0.storage.contains_key(k));
        assert(k != sym);
    }
    assert forall|j: int| 0 <= j < m1.float_used.len() implies {
        let (r, k) = #[trigger] m1.float_used[j];
        m1.storage.contains_key(k) && m1.storage[k].float_reg() == Some(r)
    } by {
        let (r, k) = m1.float_used[j];
        assert(m0.storage.contains_key(k));
        assert(k != sym);
    }
    assert forall|k: u64| #[trigger] m1.storage.contains_key(k) implies match m1.storage[
        k
    ].general_reg() {
        Some(r) => m1.general_used.contains((r, k)),
        None => true,
    } by {
        if k != sym && m1.storage[k].general_reg() is Some {
            assert(m0.storage.contains_key(k));
            assert(m0.general_used.contains((m1.storage[k].general_reg().unwrap(), k)));
        }
    }
    assert forall|k: u64| #[trigger] m1.storage.contains_key(k) implies match m1.storage[
        k
    ].float_reg() {
        Some(r) => m1.float_used.contains((r, k)),
        None => true,
    } by {
        if k != sym && m1.storage[k].float_reg() is Some {
            assert(m0.float_used.contains((m1.storage[k].float_reg().unwrap(), k)));
        }
    }
    assert(crate::manager::used_lists_match(m1));
    assert(!m0.alloc_index.contains_key(sym));
    assert forall|k: u64| #[trigger] m1.storage.contains_key(k) implies storage_entry_ok(
        m1.storage,
        m1.alloc_index,
        m1.allocations,
        ss,
        k,
    ) by {
        if k == sym {
            assert(m1.allocations[newidx] == newcell);
        } else {
            assert(storage_entry_ok(mc.storage, mc.alloc_index, mc.allocations, ss, k));
            assert(m1.storage[k] == mc.storage[k]);
            if mc.storage[k] is ReferencedPrimitive || mc.storage[k] is Complex {
                assert(m1.allocations[mc.alloc_index[k] as int] == mc.allocations[mc.alloc_index[k] as int]);
            }
        }
    }
    assert forall|k: u64| #[trigger] m1.alloc_index.contains_key(k) implies m1.storage.contains_key(
        k,
    ) && (m1.storage[k] is ReferencedPrimitive || m1.storage[k] is Complex) by {
        if k != sym {
            assert(m0.alloc_index.contains_key(k));
            assert(m0.storage.contains_key(k) && (m0.storage[k] is ReferencedPrimitive
                || m0.storage[k] is Complex));
        }
    }
    assert(crate::manager::storage_wf(m1));
    assert forall|j: int| 0 <= j < m1.allocations.len() implies #[trigger] cell_ok(
        m1.alloc_index,
        m1.allocations,
        ss,
        j,
    ) by {
        if j == newidx {
            assert(newcell.owners@.len() == 1);
            assert forall|k: u64|
                #![trigger newcell.owners@.contains(k)]
                #![trigger m1.alloc_index.contains_key(k)]
                newcell.owners@.contains(k) <==> (m1.alloc_index.contains_key(k)
                    && m1.alloc_index[k] == j) by {
                if k != sym && m1.alloc_index.contains_key(k) {
                    assert(m0.alloc_index.contains_key(k));
                    assert(m0.storage.contains_key(k));
                    assert(storage_entry_ok(m0.storage, m0.alloc_index, m0.allocations, ss, k));
                    assert(m0.alloc_index[k] < m0.allocations.len());
                }
            }
        } else {
            assert(cell_ok(mc.alloc_index, mc.allocations, ss, j));
            let cj = m0.allocations[j];
            assert(m1.allocations[j] == cj);
            assert forall|k: u64|
                #![trigger cj.owners@.contains(k)]
                #![trigger m1.alloc_index.contains_key(k)]
                cj.owners@.contains(k) <==> (m1.alloc_index.contains_key(k) && m1.alloc_index[k]
                    == j) by {
                if cj.owners@.contains(k) {
                    assert(m0.alloc_index.contains_key(k) && m0.alloc_index[k] == j);
                    assert(k != sym);
                }
                if k != sym && m1.alloc_index.contains_key(k) && m1.alloc_index[k] == j {
                    assert(m0.alloc_index.contains_key(k) && m0.alloc_index[k] == j);
                }
            }
        }
    }
    assert(crate::manager::allocs_wf(m1));
    assert(crate::manager::chunks_wf(m1));
    assert forall|k: u64| #[trigger] prim_range(m1.storage, k) == prim_range(m0.storage, k) by {
        if k == sym {
            assert(prim_range(m0.storage, k) is None);
        }
    }
    assert forall|j1: int, j2: int| j1 != j2 implies opt_ranges_disjoint(
        #[trigger] cell_range(m1.allocations, j1),
        #[trigger] cell_range(m1.allocations, j2),
    ) by {
        if j1 == newidx {
            assert(opt_ranges_disjoint(cell_range(mc.allocations, j2), Some((off, a))));
        } else if j2 == newidx {
            assert(opt_ranges_disjoint(cell_range(mc.allocations, j1), Some((off, a))));
        } else {
            assert(cell_range(m1.allocations, j1) == cell_range(m0.allocations, j1));
            assert(cell_range(m1.allocations, j2) == cell_range(m0.allocations, j2));
        }
    }
    assert forall|k: u64, j: int|
        opt_ranges_disjoint(
            #[trigger] prim_range(m1.storage, k),
            #[trigger] cell_range(m1.allocations, j),
        ) by {
        if j == newidx {
            assert(opt_ranges_disjoint(prim_range(mc.storage, k), Some((off, a))));
        } else {
            assert(cell_range(m1.allocations, j) == cell_range(m0.allocations, j));
        }
    }
    assert forall|j1: int, j2: int|
        opt_ranges_disjoint(
            #[trigger] cell_range(m1.allocations, j1),
            #[trigger] chunk_range(m1.chunks, j2),
        ) by {
        if j1 == newidx {
            assert(opt_ranges_disjoint(chunk_range(mc.chunks, j2), Some((off, a))));
        } else {
            assert(cell_range(m1.allocations, j1) == cell_range(m0.allocations, j1));
            assert(opt_ranges_disjoint(
                cell_range(mc.allocations, j1),
                chunk_range(mc.chunks, j2),
            ));
        }
    }
    assert(crate::manager::blocks_disjoint(m1));
    assert forall|k: u64|
        #![trigger m1.prim_syms.contains(k)]
        #![trigger m1.storage.contains_key(k)]
        m1.prim_syms.contains(k) <==> local_prim(m1.storage, k) by {
        if k != sym {
            assert(local_prim(m1.storage, k) == local_prim(m0.storage, k));
        }
    }
    assert(crate::manager::prim_syms_ok(m1));
    crate::frees::lemma_cell_bytes_push(mc.allocations, newcell);
    assert(crate::manager::frame_conserved(m1));
}

/// Sharing a composite's allocation with a projected field preserves the
/// invariant: the reference count and the owner set grow together.
#[verifier::rlimit(100)]
#[verifier::spinoff_prover]
pub proof fn lemma_share_alloc<CC: CallConv>(
    m0: Model,
    m1: Model,
    sym: u64,
    parent: u64,
    s: Storage,
)
    requires
        model_inv::<CC>(m0),
        !m0.storage.contains_key(sym),
        m0.storage.contains_key(parent),
        m0.storage[parent] is Complex,
        m0.allocations[m0.alloc_index[parent] as int].refs < u32::MAX,
        ({
            let (po, ps) = crate::manager::stack_range(m0.storage[parent]).unwrap();
            match s {
                Storage::ReferencedPrimitive { base_offset, size } => 1 <= size <= 8 && po
                    <= base_offset as int && base_offset + size <= po + ps,
                Storage::Complex { base_offset, size } => size >= 1 && po <= base_offset as int
                    && base_offset + size <= po + ps,
                _ => false,
            }
        }),
        m1 == (Model {
            storage: m0.storage.insert(sym, s),
            alloc_index: m0.alloc_index.insert(sym, m0.alloc_index[parent]),
            allocations: m0.allocations.update(
                m0.alloc_index[parent] as int,
                inc_cell(m0.allocations[m0.alloc_index[parent] as int], sym),
            ),
            ..m0
        }),
    ensures
        model_inv::<CC>(m1),
{
    let i = m0.alloc_index[parent] as int;
    let c = m0.allocations[i];
    let c1 = inc_cell(c, sym);
    let ss = m1.stack_size as int;
    assert(storage_entry_ok(m0.storage, m0.alloc_index, m0.allocations, ss, parent));
    assert(cell_ok(m0.alloc_index, m0.allocations, ss, i));
    assert(!m0.alloc_index.contains_key(sym));
    assert(!c.owners@.contains(sym));
    assert(c1.refs == c1.owners@.len());
    assert forall|j: int| 0 <= j < m1.general_used.len() implies {
        let (r, k) = #[trigger] m1.general_used[j];
        m1.storage.contains_key(k) && m1.storage[k].general_reg() == Some(r)
    } by {
        let (r, k) = m1.general_used[j];
        assert(m0.storage.contains_key(k));
        assert(k != sym);
    }
    assert forall|j: int| 0 <= j < m1.float_used.len() implies {
        let (r, k) = #[trigger] m1.float_used[j];
        m1.storage.contains_key(k) && m1.storage[k].float_reg() == Some(r)
    } by {
        let (r, k) = m1.float_used[j];
        assert(m0.storage.contains_key(k));
        assert(k != sym);
    }
    assert forall|k: u64| #[trigger] m1.storage.contains_key(k) implies match m1.storage[
        k
    ].general_reg() {
        Some(r) => m1.general_used.contains((r, k)),
        None => true,
    } by {
        if k != sym && m1.storage[k].general_reg() is Some {
            assert(m0.general_used.contains((m1.storage[k].general_reg().unwrap(), k)));
        }
    }
    assert forall|k: u64| #[trigger] m1.storage.contains_key(k) implies match m1.storage[
        k
    ].float_reg() {
        Some(r) => m1.float_used.contains((r, k)),
        None => true,
    } by {
        if k != sym && m1.storage[k].float_reg() is Some {
            assert(m0.float_used.contains((m1.storage[k].float_reg().unwrap(), k)));
        }
    }
    assert(crate::manager::used_lists_match(m1));
    assert forall|k: u64| #[trigger] m1.storage.contains_key(k) implies storage_entry_ok(
        m1.storage,
        m1.alloc_index,
        m1.allocations,
        ss,
        k,
    ) by {
        if k == sym {
            assert(m1.allocations[i] == c1);
        } else {
            assert(storage_entry_ok(m0.storage, m0.alloc_index, m0.allocations, ss, k));
            assert(m1.storage[k] == m0.storage[k]);
            if m0.storage[k] is ReferencedPrimitive || m0.storage[k] is Complex {
                let j = m0.alloc_index[k] as int;
                if j == i {
                    assert(m1.allocations[j] == c1);
                } else {
                    assert(m1.allocations[j] == m0.allocations[j]);
                }
            }
        }
    }
    assert forall|k: u64| #[trigger] m1.alloc_index.contains_key(k) implies m1.storage.contains_key(
        k,
    ) && (m1.storage[k] is ReferencedPrimitive || m1.storage[k] is Complex) by {
        if k != sym {
            assert(m0.alloc_index.contains_key(k));
            assert(m0.storage.contains_key(k) && (m0.storage[k] is ReferencedPrimitive
                || m0.storage[k] is Complex));
        }
    }
    assert(crate::manager::storage_wf(m1));
    assert forall|j: int| 0 <= j < m1.allocations.len() implies #[trigger] cell_ok(
        m1.alloc_index,
        m1.allocations,
        ss,
        j,
    ) by {
        assert(cell_ok(m0.alloc_index, m0.allocations, ss, j));
        if j == i {
            assert(m1.allocations[j] == c1);
            assert forall|k: u64|
                #![trigger c1.owners@.contains(k)]
                #![trigger m1.alloc_index.contains_key(k)]
                c1.owners@.contains(k) <==> (m1.alloc_index.contains_key(k) && m1.alloc_index[k]
                    == j) by {}
        } else {
            let cj = m0.allocations[j];
            assert(m1.allocations[j] == cj);
            assert forall|k: u64|
                #![trigger cj.owners@.contains(k)]
                #![trigger m1.alloc_index.contains_key(k)]
                cj.owners@.contains(k) <==> (m1.alloc_index.contains_key(k) && m1.alloc_index[k]
                    == j) by {
                if cj.owners@.contains(k) {
                    assert(m0.alloc_index.contains_key(k) && m0.alloc_index[k] == j);
                    assert(k != sym);
                }
            }
        }
    }
    assert(crate::manager::allocs_wf(m1));
    assert(crate::manager::chunks_wf(m1));
    assert forall|k: u64| #[trigger] prim_range(m1.storage, k) == prim_range(m0.storage, k) by {
        if k == sym {
            assert(prim_range(m0.storage, k) is None);
        }
    }
    assert forall|j1: int, j2: int| j1 != j2 implies opt_ranges_disjoint(
        #[trigger] cell_range(m1.allocations, j1),
        #[trigger] cell_range(m1.allocations, j2),
    ) by {
        assert(cell_range(m1.allocations, j1) == cell_range(m0.allocations, j1));
        assert(cell_range(m1.allocations, j2) == cell_range(m0.allocations, j2));
    }
    assert forall|k: u64, j: int|
        opt_ranges_disjoint(
            #[trigger] prim_range(m1.storage, k),
            #[trigger] cell_range(m1.allocations, j),
        ) by {
        assert(cell_range(m1.allocations, j) == cell_range(m0.allocations, j));
    }
    assert forall|j1: int, j2: int|
        opt_ranges_disjoint(
            #[trigger] cell_range(m1.allocations, j1),
            #[trigger] chunk_range(m1.chunks, j2),
        ) by {
        assert(cell_range(m1.allocations, j1) == cell_range(m0.allocations, j1));
    }
    assert(crate::manager::blocks_disjoint(m1));
    assert forall|k: u64|
        #![trigger m1.prim_syms.contains(k)]
        #![trigger m1.storage.contains_key(k)]
        m1.prim_syms.contains(k) <==> local_prim(m1.storage, k) by {
        if k != sym {
            assert(local_prim(m1.storage, k) == local_prim(m0.storage, k));
        }
    }
    assert(crate::manager::prim_syms_ok(m1));
    crate::frees::lemma_cell_bytes_update(m0.allocations, i, c1);
    assert(crate::manager::frame_conserved(m1));
}

/// Binding a fresh zero-sized symbol preserves the invariant.
#[verifier::rlimit(100)]
#[verifier::spinoff_prover]
pub proof fn lemma_bind_nodata<CC: CallConv>(m0: Model, m1: Model, sym: u64)
    requires
        model_inv::<CC>(m0),
        !m0.storage.contains_key(sym),
        m1 == (Model { storage: m0.storage.insert(sym, Storage::NoData), ..m0 }),
    ensures
        model_inv::<CC>(m1),
{
    let ss = m1.stack_size as int;
    assert forall|j: int| 0 <= j < m1.general_used.len() implies {
        let (r, k) = #[trigger] m1.general_used[j];
        m1.storage.contains_key(k) && m1.storage[k].general_reg() == Some(r)
    } by {
        let (r, k) = m1.general_used[j];
        assert(m0.storage.contains_key(k));
        assert(k != sym);
    }
    assert forall|j: int| 0 <= j < m1.float_used.len() implies {
        let (r, k) = #[trigger] m1.float_used[j];
        m1.storage.contains_key(k) && m1.storage[k].float_reg() == Some(r)
    } by {
        let (r, k) = m1.float_used[j];
        assert(m0.storage.contains_key(k));
        assert(k != sym);
    }
    assert forall|k: u64| #[trigger] m1.storage.contains_key(k) implies match m1.storage[
        k
    ].general_reg() {
        Some(r) => m1.general_used.contains((r, k)),
        None => true,
    } by {
        if k != sym && m1.storage[k].general_reg() is Some {
            assert(m0.general_used.contains((m1.storage[k].general_reg().unwrap(), k)));
        }
    }
    assert forall|k: u64| #[trigger] m1.storage.contains_key(k) implies match m1.storage[
        k
    ].float_reg() {
        Some(r) => m1.float_used.contains((r, k)),
        None => true,
    } by {
        if k != sym && m1.storage[k].float_reg() is Some {
            assert(m0.float_used.contains((m1.storage[k].float_reg().unwrap(), k)));
        }
    }
    assert(crate::manager::used_lists_match(m1));
    assert forall|k: u64| #[trigger] m1.storage.contains_key(k) implies storage_entry_ok(
        m1.storage,
        m1.alloc_index,
        m1.allocations,
        ss,
        k,
    ) by {
        if k != sym {
            assert(m1.storage[k] == m0.storage[k]);
            assert(storage_entry_ok(m0.storage, m0.alloc_index, m0.allocations, ss, k));
        }
    }
    assert forall|k: u64| #[trigger] m1.alloc_index.contains_key(k) implies m1.storage.contains_key(
        k,
    ) && (m1.storage[k] is ReferencedPrimitive || m1.storage[k] is Complex) by {
        assert(m0.storage.contains_key(k) && (m0.storage[k] is ReferencedPrimitive || m0.storage[k]
            is Complex));
        assert(k != sym);
    }
    assert(crate::manager::storage_wf(m1));
    assert(crate::manager::allocs_wf(m1));
    assert(crate::manager::chunks_wf(m1));
    assert forall|k: u64| #[trigger] prim_range(m1.storage, k) == prim_range(m0.storage, k) by {
        if k == sym {
            assert(prim_range(m0.storage, k) is None);
        }
    }
    assert(crate::manager::blocks_disjoint(m1));
    assert forall|k: u64|
        #![trigger m1.prim_syms.contains(k)]
        #![trigger m1.storage.contains_key(k)]
        m1.prim_syms.contains(k) <==> local_prim(m1.storage, k) by {
        if k != sym {
            assert(local_prim(m1.storage, k) == local_prim(m0.storage, k));
        }
    }
    assert(crate::manager::prim_syms_ok(m1));
    assert(crate::manager::frame_conserved(m1));
}


impl<ASM: Assembler, CC: CallConv> StorageManager<ASM, CC> {
    /// Claim a stack area for the composite `sym` and return its offset: the
    /// symbol's storage becomes the `Complex` region, backed by a fresh
    /// allocation with one reference.
    #[verifier::rlimit(100)]
    #[verifier::spinoff_prover]
    pub fn claim_stack_area(&mut self, sym: &Symbol, size: u32) -> (off: i32)
        requires
            old(self).inv(),
            !old(self)@.storage.contains_key(sym.0),
            size > 0,
            round8(size as int) <= i32::MAX,
            can_claim(old(self)@.chunks, old(self)@.stack_size as int, size as int),
        ensures
            final(self).inv(),
            off as int == spec_claim_stack(old(self)@, size as int).1,
            off % 8 == 0,
            in_frame(
                final(self)@.stack_size as int,
                off as int,
                round8(size as int),
            ),
            ({
                let m0 = old(self)@;
                let mc = spec_claim_stack(m0, size as int).0;
                final(self)@ == (Model {
                    storage: mc.storage.insert(
                        sym.0,
                        Storage::Complex { base_offset: off, size },
                    ),
                    alloc_index: mc.alloc_index.insert(sym.0, mc.allocations.len() as usize),
                    allocations: mc.allocations.push(
                        AllocCell {
                            base_offset: off,
                            size: round8(size as int) as u32,
                            refs: 1,
                            owners: Ghost(Set::empty().insert(sym.0)),
                        },
                    ),
                    ..mc
                })
            }),
    {
        let ghost m0 = self@;
        let rounded = if size % 8 != 0 {
            size + 8 - (size % 8)
        } else {
            size
        };
        let base_offset = self.claim_stack_size(size);
        let ghost mc = self@;
        self.symbol_storage_map.insert(sym.0, Storage::Complex { base_offset, size });
        let idx = self.allocations.len();
        self.allocations.push(
            AllocCell {
                base_offset,
                size: rounded,
                refs: 1,
                owners: Ghost(Set::empty().insert(sym.0)),
            },
        );
        self.allocation_map.insert(sym.0, idx);
        proof {
            assert(rounded as int == round8(size as int));
            assert(self@ =~= (Model {
                storage: mc.storage.insert(
                    sym.0,
                    Storage::Complex { base_offset, size },
                ),
                alloc_index: mc.alloc_index.insert(sym.0, mc.allocations.len() as usize),
                allocations: mc.allocations.push(
                    AllocCell {
                        base_offset,
                        size: rounded,
                        refs: 1,
                        owners: Ghost(Set::empty().insert(sym.0)),
                    },
                ),
                ..mc
            }));
            lemma_bind_area::<CC>(m0, mc, self@, sym.0, size);
        }
        base_offset
    }

    /// Project field `index` of the composite `structure` into `sym`, lazily:
    /// no bytes move. `sym` becomes a primitive-sized or complex window into
    /// the structure's bytes, sharing its allocation, whose reference count
    /// grows by one.
    #[verifier::rlimit(100)]
    #[verifier::spinoff_prover]
    pub fn load_field_at_index(
        &mut self,
        sym: &Symbol,
        structure: &Symbol,
        index: u64,
        field_layouts: &Vec<FieldLayout>,
    )
        requires
            old(self).inv(),
            !old(self)@.storage.contains_key(sym.0),
            old(self)@.storage.contains_key(structure.0),
            old(self)@.storage[structure.0] is Complex,
            index < field_layouts@.len(),
            fields_size(field_layouts@, index as int + 1) <= old(self)@.storage[
                structure.0
            ]->Complex_size,
            field_layouts@[index as int].spec_stack_size() > 0,
            old(self)@.allocations[old(self)@.alloc_index[structure.0] as int].refs < u32::MAX,
        ensures
            final(self).inv(),
            ({
                let m0 = old(self)@;
                let base = m0.storage[structure.0]->Complex_base_offset;
                let data_offset = base + fields_size(field_layouts@, index as int);
                let fsize = field_layouts@[index as int].spec_stack_size();
                let s = if field_layouts@[index as int].spec_is_primitive() {
                    Storage::ReferencedPrimitive {
                        base_offset: data_offset as i32,
                        size: fsize as u32,
                    }
                } else {
                    Storage::Complex { base_offset: data_offset as i32, size: fsize as u32 }
                };
                final(self)@ == (Model {
                    storage: m0.storage.insert(sym.0, s),
                    alloc_index: m0.alloc_index.insert(sym.0, m0.alloc_index[structure.0]),
                    allocations: m0.allocations.update(
                        m0.alloc_index[structure.0] as int,
                        inc_cell(
                            m0.allocations[m0.alloc_index[structure.0] as int],
                            sym.0,
                        ),
                    ),
                    ..m0
                })
            }),
    {
        let ghost m0 = self@;
        let (base_offset, total) = match self.symbol_storage_map.get(&structure.0) {
            Some(Storage::Complex { base_offset, size }) => (*base_offset, *size),
            _ => {
                proof {
                    assert(false);
                }
                (0, 0)
            },
        };
        proof {
            assert(storage_entry_ok(
                m0.storage,
                m0.alloc_index,
                m0.allocations,
                m0.stack_size as int,
                structure.0,
            ));
            let i = m0.alloc_index[structure.0] as int;
            assert(cell_ok(m0.alloc_index, m0.allocations, m0.stack_size as int, i));
            assert(in_frame(
                m0.stack_size as int,
                m0.allocations[i].base_offset as int,
                m0.allocations[i].size as int,
            ));
            assert(base_offset as int + total as int <= i32::MAX);
            lemma_fields_size_monotone(field_layouts@, 0, index as int);
            lemma_fields_size_monotone(field_layouts@, index as int, index as int + 1);
        }
        let nf = field_layouts.len();
        proof {
            assert(field_layouts@.len() == nf as int);
        }
        let mut data_offset: i32 = base_offset;
        let mut i: usize = 0;
        while i < index as usize
            invariant
                0 <= i <= index,
                index < field_layouts@.len(),
                field_layouts@.len() <= usize::MAX,
                fields_size(field_layouts@, index as int + 1) <= total,
                total as int <= i32::MAX,
                base_offset + total <= i32::MAX,
                data_offset as int == base_offset + fields_size(field_layouts@, i as int),
            decreases index - i,
        {
            proof {
                lemma_fields_size_monotone(field_layouts@, 0, i as int);
                lemma_fields_size_monotone(field_layouts@, i as int, i as int + 1);
                lemma_fields_size_monotone(field_layouts@, i as int + 1, index as int + 1);
            }
            data_offset = data_offset + field_layouts[i].stack_size() as i32;
            i = i + 1;
        }
        proof {
            assert(i as int == index as int);
            assert(data_offset as int == base_offset as int + fields_size(
                field_layouts@,
                index as int,
            ));
            lemma_fields_size_monotone(field_layouts@, 0, index as int);
            lemma_fields_size_monotone(field_layouts@, index as int, index as int + 1);
        }
        let field = field_layouts[index as usize];
        let fsize = field.stack_size();
        let s = if field.is_primitive() {
            Storage::ReferencedPrimitive { base_offset: data_offset, size: fsize }
        } else {
            Storage::Complex { base_offset: data_offset, size: fsize }
        };
        let idx = match self.allocation_map.get(&structure.0) {
            Some(i) => *i,
            None => {
                proof {
                    assert(false);
                }
                0
            },
        };
        let refs = self.allocations[idx].refs;
        let old_cell_off = self.allocations[idx].base_offset;
        let old_cell_size = self.allocations[idx].size;
        let ghost c = m0.allocations[idx as int];
        self.allocations[idx] = AllocCell {
            base_offset: old_cell_off,
            size: old_cell_size,
            refs: refs + 1,
            owners: Ghost(c.owners@.insert(sym.0)),
        };
        self.allocation_map.insert(sym.0, idx);
        self.symbol_storage_map.insert(sym.0, s);
        proof {
            lemma_fields_size_monotone(field_layouts@, 0, index as int);
            assert(self@ =~= (Model {
                storage: m0.storage.insert(sym.0, s),
                alloc_index: m0.alloc_index.insert(sym.0, m0.alloc_index[structure.0]),
                allocations: m0.allocations.update(idx as int, inc_cell(c, sym.0)),
                ..m0
            }));
            lemma_share_alloc::<CC>(m0, self@, sym.0, structure.0, s);
        }
    }

    /// Materialise `sym` into the stack slot at `to_offset` according to a
    /// primitive field layout: the value is loaded into a register of the
    /// matching family and stored.
    #[verifier::rlimit(100)]
    #[verifier::spinoff_prover]
    pub(crate) fn copy_symbol_to_stack_offset(
        &mut self,
        buf: &mut Vec<u8>,
        to_offset: i32,
        sym: &Symbol,
        layout: FieldLayout,
    )
        requires
            old(self).inv(),
            old(self)@.storage.contains_key(sym.0),
            layout.spec_is_primitive(),
            to_offset % 8 == 0,
            !(layout is F64) ==> general_loadable(old(self)@.storage[sym.0]) && can_get_general(
                old(self)@,
            ),
            layout is F64 ==> float_loadable(old(self)@.storage[sym.0]) && can_get_float(
                old(self)@,
            ),
        ensures
            final(self).inv(),
            final(self)@.storage.contains_key(sym.0),
            forall|k: u64|
                #[trigger] old(self)@.storage.contains_key(k) ==> final(self)@.storage.contains_key(
                    k,
                ),
            old(buf)@.is_prefix_of(final(buf)@),
            final(self)@.general_free.len() + final(self)@.general_used.len() == old(
                self,
            )@.general_free.len() + old(self)@.general_used.len(),
            final(self)@.float_free.len() + final(self)@.float_used.len() == old(
                self,
            )@.float_free.len() + old(self)@.float_used.len(),
            final(self)@.stack_size <= old(self)@.stack_size + 8,
            forall|k: u64|
                #[trigger] old(self)@.storage.contains_key(k) && k != sym.0 ==> ({
                    ||| final(self)@.storage[k] == old(self)@.storage[k]
                    ||| ((old(self)@.storage[k] is Reg || old(self)@.storage[k] is Primitive) && (
                    final(self)@.storage[k] matches Storage::Primitive { reg: None, .. }))
                }),
            !(layout is F64) ==> general_loadable(final(self)@.storage[sym.0]),
            layout is F64 ==> float_loadable(final(self)@.storage[sym.0]),
            final(self)@ == spec_copy_field::<ASM, CC>(old(self)@, sym.0, layout, to_offset).0,
            final(buf)@ == old(buf)@ + spec_copy_field::<ASM, CC>(
                old(self)@,
                sym.0,
                layout,
                to_offset,
            ).1,
    {
        let ghost m0 = self@;
        if matches!(layout, FieldLayout::F64) {
            let reg = self.load_to_float_reg(buf, sym);
            proof {
                assert(self@ =~= spec_load_float::<CC>(m0, sym.0));
                assert(reg == loaded_float_reg(m0, sym.0));
                assert(buf@ =~= old(buf)@ + load_float_bytes::<ASM>(m0, sym.0));
            }
            ASM::mov_base32_freg64(buf, to_offset, reg);
            proof {
                assert(buf@ =~= old(buf)@ + spec_copy_field::<ASM, CC>(
                    m0,
                    sym.0,
                    layout,
                    to_offset,
                ).1);
                assert(old(buf)@.is_prefix_of(buf@));
            }
        } else {
            let reg = self.load_to_general_reg(buf, sym);
            proof {
                assert(self@ =~= spec_load_general::<CC>(m0, sym.0));
                assert(reg == loaded_general_reg(m0, sym.0));
                assert(buf@ =~= old(buf)@ + load_general_bytes::<ASM>(m0, sym.0));
            }
            ASM::mov_base32_reg64(buf, to_offset, reg);
            proof {
                assert(buf@ =~= old(buf)@ + spec_copy_field::<ASM, CC>(
                    m0,
                    sym.0,
                    layout,
                    to_offset,
                ).1);
                assert(old(buf)@.is_prefix_of(buf@));
            }
        }
    }

    /// Build a struct on the stack: claim an area of the layout's size and
    /// store each field at its computed offset. A zero-sized struct takes no
    /// space and is bound as `NoData`.
    #[verifier::rlimit(100)]
    #[verifier::spinoff_prover]
    pub fn create_struct(
        &mut self,
        buf: &mut Vec<u8>,
        sym: &Symbol,
        layout: &Layout,
        fields: &Vec<Symbol>,
    )
        requires
            old(self).inv(),
            !old(self)@.storage.contains_key(sym.0),
            layout.wf(),
            old(self)@.general_free.len() + old(self)@.general_used.len() >= 1,
            old(self)@.float_free.len() + old(self)@.float_used.len() >= 1,
            old(self)@.stack_size as int + round8(layout.spec_stack_size()) + 8 * (fields@.len()
                + 1) <= i32::MAX,
            forall|a: int, b: int|
                0 <= a < b < fields@.len() ==> (#[trigger] fields@[a]).0 != (
                #[trigger] fields@[b]).0,
            forall|a: int| 0 <= a < fields@.len() ==> (#[trigger] fields@[a]).0 != sym.0,
            match *layout {
                Layout::Struct(ref fls) => {
                    &&& fields@.len() == fls@.len()
                    &&& forall|a: int|
                        0 <= a < fls@.len() ==> (#[trigger] fls@[a]).spec_is_primitive()
                    &&& forall|a: int|
                        0 <= a < fields@.len() ==> old(self)@.storage.contains_key(
                            (#[trigger] fields@[a]).0,
                        )
                    &&& forall|a: int|
                        0 <= a < fields@.len() ==> if fls@[a] is F64 {
                            float_loadable(old(self)@.storage[(#[trigger] fields@[a]).0])
                        } else {
                            general_loadable(old(self)@.storage[(#[trigger] fields@[a]).0])
                        }
                },
                _ => {
                    &&& layout.spec_as_primitive() is Some
                    &&& fields@.len() == 1
                    &&& old(self)@.storage.contains_key(fields@[0].0)
                    &&& if layout is F64 {
                        float_loadable(old(self)@.storage[fields@[0].0])
                    } else {
                        general_loadable(old(self)@.storage[fields@[0].0])
                    }
                },
            },
        ensures
            final(self).inv(),
            old(buf)@.is_prefix_of(final(buf)@),
            final(self)@.storage.contains_key(sym.0),
            layout.spec_stack_size() == 0 ==> final(self)@.storage[sym.0] is NoData,
            layout.spec_stack_size() > 0 ==> final(self)@.storage[sym.0] == (Storage::Complex {
                base_offset: spec_claim_stack(old(self)@, layout.spec_stack_size()).1 as i32,
                size: layout.spec_stack_size() as u32,
            }),
            ({
                let m0 = old(self)@;
                let sz = layout.spec_stack_size();
                if sz == 0 {
                    &&& final(self)@ == (Model {
                        storage: m0.storage.insert(sym.0, Storage::NoData),
                        ..m0
                    })
                    &&& final(buf)@ == old(buf)@
                } else {
                    let ma = spec_claim_area(m0, sym.0, sz as u32);
                    let base = spec_claim_stack(m0, sz).1 as i32;
                    match *layout {
                        Layout::Struct(ref fls) => {
                            let (mf, bts) = spec_build_fields::<ASM, CC>(
                                ma,
                                fields@,
                                fls@,
                                base,
                                fls@.len() as int,
                            );
                            &&& final(self)@ == mf
                            &&& final(buf)@ == old(buf)@ + bts
                        },
                        _ => {
                            let (mf, bts) = spec_copy_field::<ASM, CC>(
                                ma,
                                fields@[0].0,
                                layout.spec_as_primitive().unwrap(),
                                base,
                            );
                            &&& final(self)@ == mf
                            &&& final(buf)@ == old(buf)@ + bts
                        },
                    }
                }
            }),
    {
        let ghost m0 = self@;
        let struct_size = layout.stack_size();
        if struct_size == 0 {
            self.symbol_storage_map.insert(sym.0, Storage::NoData);
            proof {
                assert(self@ =~= (Model {
                    storage: m0.storage.insert(sym.0, Storage::NoData),
                    ..m0
                }));
                lemma_bind_nodata::<CC>(m0, self@, sym.0);
            }
            return ;
        }
        let base_offset = self.claim_stack_area(sym, struct_size);
        let ghost ma = self@;
        let ghost complex = (Storage::Complex { base_offset, size: struct_size });
        proof {
            assert(spec_claim_stack(m0, struct_size as int).0.storage == m0.storage);
            assert(ma =~= spec_claim_area(m0, sym.0, struct_size));
            assert(ma.storage == m0.storage.insert(sym.0, complex));
            assert(ma.storage[sym.0] == complex);
            assert(ma.stack_size as int <= m0.stack_size as int + round8(
                layout.spec_stack_size(),
            ));
            assert(in_frame(
                ma.stack_size as int,
                base_offset as int,
                round8(struct_size as int),
            ));
            assert(buf@ =~= old(buf)@ + Seq::<u8>::empty());
        }
        match layout {
            Layout::Struct(field_layouts) => {
                let mut current_offset = base_offset;
                let mut i: usize = 0;
                proof {
                    lemma_fields_size_monotone(field_layouts@, 0, field_layouts@.len() as int);
                    assert(fields_size(field_layouts@, field_layouts@.len() as int) <= round8(
                        fields_size(field_layouts@, field_layouts@.len() as int),
                    ));
                }
                while i < fields.len()
                    invariant
                        self.inv(),
                        0 <= i <= fields@.len(),
                        fields@.len() == field_layouts@.len(),
                        fields@.len() <= usize::MAX,
                        forall|a: int|
                            0 <= a < fls_len(field_layouts@) ==> (
                            #[trigger] field_layouts@[a]).spec_is_primitive(),
                        forall|a: int, b: int|
                            0 <= a < b < fields@.len() ==> (#[trigger] fields@[a]).0 != (
                            #[trigger] fields@[b]).0,
                        forall|a: int| 0 <= a < fields@.len() ==> (#[trigger] fields@[a]).0 != sym.0,
                        self@.storage.contains_key(sym.0),
                        self@.storage[sym.0] == complex,
                        complex is Complex,
                        forall|a: int|
                            i <= a < fields@.len() ==> self@.storage.contains_key(
                                (#[trigger] fields@[a]).0,
                            ),
                        forall|a: int|
                            i <= a < fields@.len() ==> if field_layouts@[a] is F64 {
                                float_loadable(self@.storage[(#[trigger] fields@[a]).0])
                            } else {
                                general_loadable(self@.storage[(#[trigger] fields@[a]).0])
                            },
                        self@.general_free.len() + self@.general_used.len() == m0.general_free.len()
                            + m0.general_used.len() >= 1,
                        self@.float_free.len() + self@.float_used.len() == m0.float_free.len()
                            + m0.float_used.len() >= 1,
                        self@.stack_size as int <= m0.stack_size as int + round8(
                            fields_size(field_layouts@, field_layouts@.len() as int),
                        ) + 8 * i,
                        m0.stack_size as int + round8(
                            fields_size(field_layouts@, field_layouts@.len() as int),
                        ) + 8 * (fields@.len() + 1) <= i32::MAX,
                        current_offset % 8 == 0,
                        base_offset % 8 == 0,
                        current_offset as int == base_offset as int + fields_size(
                            field_layouts@,
                            i as int,
                        ),
                        base_offset as int + fields_size(
                            field_layouts@,
                            field_layouts@.len() as int,
                        ) <= i32::MAX,
                        i32::MIN <= base_offset as int,
                        self@ == spec_build_fields::<ASM, CC>(
                            ma,
                            fields@,
                            field_layouts@,
                            base_offset,
                            i as int,
                        ).0,
                        buf@ == old(buf)@ + spec_build_fields::<ASM, CC>(
                            ma,
                            fields@,
                            field_layouts@,
                            base_offset,
                            i as int,
                        ).1,
                        old(buf)@.is_prefix_of(buf@),
                    decreases fields@.len() - i,
                {
                    let ghost mstep = self@;
                    proof {
                        assert(field_layouts@[i as int].spec_is_primitive());
                        if !(field_layouts@[i as int] is F64) {
                            assert(general_loadable(mstep.storage[fields@[i as int].0]));
                            assert(crate::regops::can_get_general(mstep));
                        } else {
                            assert(float_loadable(mstep.storage[fields@[i as int].0]));
                            assert(crate::regops::can_get_float(mstep));
                        }
                    }
                    let ghost pre_buf = buf@;
                    self.copy_symbol_to_stack_offset(
                        buf,
                        current_offset,
                        &fields[i],
                        field_layouts[i],
                    );
                    proof {
                        assert(pre_buf.is_prefix_of(buf@));
                        assert(old(buf)@.is_prefix_of(buf@));
                        let (mp, bp) = spec_build_fields::<ASM, CC>(
                            ma,
                            fields@,
                            field_layouts@,
                            base_offset,
                            i as int,
                        );
                        assert(mp == mstep && pre_buf == old(buf)@ + bp);
                        assert(((base_offset as int + fields_size(field_layouts@, i as int)) as i32)
                            == current_offset);
                        let (mi, bi) = spec_copy_field::<ASM, CC>(
                            mstep,
                            fields@[i as int].0,
                            field_layouts@[i as int],
                            current_offset,
                        );
                        assert(self@ == mi && buf@ == pre_buf + bi);
                        assert(spec_build_fields::<ASM, CC>(
                            ma,
                            fields@,
                            field_layouts@,
                            base_offset,
                            i as int + 1,
                        ) == (mi, bp + bi));
                        assert(buf@ =~= old(buf)@ + (bp + bi));
                        assert(self@.storage[sym.0] == complex) by {
                            assert(mstep.storage.contains_key(sym.0) && sym.0 != fields@[
                                i as int
                            ].0);
                        }
                        assert forall|a: int|
                            i + 1 <= a < fields@.len() implies self@.storage.contains_key(
                            (#[trigger] fields@[a]).0,
                        ) by {
                            assert(mstep.storage.contains_key(fields@[a].0));
                        }
                        assert forall|a: int|
                            i + 1 <= a < fields@.len() implies (if field_layouts@[a] is F64 {
                            float_loadable(self@.storage[(#[trigger] fields@[a]).0])
                        } else {
                            general_loadable(self@.storage[(#[trigger] fields@[a]).0])
                        }) by {
                            assert(fields@[a].0 != fields@[i as int].0);
                            assert(mstep.storage.contains_key(fields@[a].0));
                        }
                    }
                    let fsize = field_layouts[i].stack_size();
                    proof {
                        lemma_fields_size_monotone(field_layouts@, 0, i as int);
                        lemma_fields_size_monotone(field_layouts@, i as int, i as int + 1);
                        lemma_fields_size_monotone(
                            field_layouts@,
                            i as int + 1,
                            field_layouts@.len() as int,
                        );
                        assert(fields_size(field_layouts@, field_layouts@.len() as int) <= round8(
                            fields_size(field_layouts@, field_layouts@.len() as int),
                        ));
                    }
                    current_offset = current_offset + fsize as i32;
                    i = i + 1;
                }
                proof {
                    assert(i as int == fields@.len() as int);
                }
            },
            _ => {
                let prim = match layout.as_primitive() {
                    Some(p) => p,
                    None => {
                        proof {
                            assert(false);
                        }
                        FieldLayout::I64
                    },
                };
                proof {
                    assert(spec_claim_stack(m0, struct_size as int).0.storage == m0.storage);
                    assert(ma.storage == m0.storage.insert(sym.0, complex));
                    assert(fields@[0].0 != sym.0);
                    assert(ma.storage[fields@[0].0] == m0.storage[fields@[0].0]);
                    if !(prim is F64) {
                        assert(crate::regops::can_get_general(self@));
                    } else {
                        assert(crate::regops::can_get_float(self@));
                    }
                    assert(self@.storage.contains_key(fields@[0].0));
                }
                let ghost pre_buf = buf@;
                self.copy_symbol_to_stack_offset(buf, base_offset, &fields[0], prim);
                proof {
                    assert(self@.storage[sym.0] == complex);
                    assert(prim == layout.spec_as_primitive().unwrap());
                    assert(self@ == spec_copy_field::<ASM, CC>(ma, fields@[0].0, prim, base_offset).0);
                    assert(buf@ == old(buf)@ + spec_copy_field::<ASM, CC>(
                        ma,
                        fields@[0].0,
                        prim,
                        base_offset,
                    ).1);
                }
            },
        }
    }
}

/// The length of a field-layout list; a stable name for loop invariants.
pub open spec fn fls_len(fs: Seq<FieldLayout>) -> int {
    fs.len() as int
}

} // verus!
