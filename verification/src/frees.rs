//! Releasing storage: `free_symbol` returns a symbol's register and stack
//! resources, and shared allocations are reclaimed when their last reference
//! dies.
use vstd::prelude::*;

use crate::machine::{FloatReg, GeneralReg, RegStorage, Storage, Symbol};
use crate::manager::{
    cell_bytes, cell_ok, cell_range, chunk_range, local_prim, model_inv, opt_ranges_disjoint,
    prim_range, storage_entry_ok, AllocCell, Model, StorageManager,
};
use crate::regops::lemma_remove_still_contains;
use crate::stackalloc::{free_insert, free_post, free_pre};
use crate::target::{Assembler, CallConv};

verus! {

/// A cell after its last reference died.
pub open spec fn retire_cell(c: AllocCell) -> AllocCell {
    AllocCell { refs: 0, owners: Ghost(Set::empty()), ..c }
}

/// A cell after one of several references died.
pub open spec fn dec_cell(c: AllocCell, sym: u64) -> AllocCell {
    AllocCell { refs: (c.refs - 1) as u32, owners: Ghost(c.owners@.remove(sym)), ..c }
}

/// Replacing a cell swaps its contribution to the live local-frame bytes.
pub proof fn lemma_cell_bytes_update(s: Seq<AllocCell>, i: int, c: AllocCell)
    requires
        0 <= i < s.len(),
    ensures
        cell_bytes(s.update(i, c)) == cell_bytes(s) - (if s[i].refs > 0 && s[i].base_offset < 0 {
            s[i].size as int
        } else {
            0
        }) + (if c.refs > 0 && c.base_offset < 0 {
            c.size as int
        } else {
            0
        }),
    decreases s.len(),
{
    if i == s.len() - 1 {
        assert(s.update(i, c).drop_last() =~= s.drop_last());
        assert(s.update(i, c).last() == c);
    } else {
        assert(s.update(i, c).drop_last() =~= s.drop_last().update(i, c));
        assert(s.update(i, c).last() == s.last());
        lemma_cell_bytes_update(s.drop_last(), i, c);
    }
}

/// Appending a cell adds its contribution.
pub proof fn lemma_cell_bytes_push(s: Seq<AllocCell>, c: AllocCell)
    ensures
        cell_bytes(s.push(c)) == cell_bytes(s) + (if c.refs > 0 && c.base_offset < 0 {
            c.size as int
        } else {
            0
        }),
{
    assert(s.push(c).drop_last() =~= s);
    assert(s.push(c).last() == c);
}

/// The invariant as it stands right after a symbol with an allocation edge
/// left the storage map: only the rule that every allocation edge belongs to
/// a stored symbol is suspended, for `sym` alone.
pub open spec fn inv_except_ref<CC: CallConv>(m: Model, sym: u64) -> bool {
    &&& crate::manager::pools_wf(m)
    &&& crate::manager::used_lists_match(m)
    &&& crate::manager::callee_saved_tracked::<CC>(m)
    &&& (forall|k: u64|
        #[trigger] m.storage.contains_key(k) ==> storage_entry_ok(
            m.storage,
            m.alloc_index,
            m.allocations,
            m.stack_size as int,
            k,
        ))
    &&& (forall|k: u64|
        #[trigger] m.alloc_index.contains_key(k) && k != sym ==> m.storage.contains_key(k) && (
        m.storage[k] is ReferencedPrimitive || m.storage[k] is Complex))
    &&& crate::manager::allocs_wf(m)
    &&& crate::manager::chunks_wf(m)
    &&& crate::manager::blocks_disjoint(m)
    &&& crate::manager::prim_syms_ok(m)
    &&& crate::manager::frame_conserved(m)
    &&& !m.storage.contains_key(sym)
    &&& m.alloc_index.contains_key(sym)
    &&& m.alloc_index[sym] < m.allocations.len()
}

impl<ASM: Assembler, CC: CallConv> StorageManager<ASM, CC> {
    /// Drop `sym`'s reference into its allocation; the backing chunk returns
    /// to the free list when this was the last reference.
    #[verifier::rlimit(100)]
    #[verifier::spinoff_prover]
    pub(crate) fn free_reference(&mut self, sym: u64)
        requires
            inv_except_ref::<CC>(old(self)@, sym),
        ensures
            final(self).inv(),
            ({
                let m0 = old(self)@;
                let i = m0.alloc_index[sym] as int;
                let c = m0.allocations[i];
                if c.refs == 1 {
                    final(self)@ == (Model {
                        alloc_index: m0.alloc_index.remove(sym),
                        allocations: m0.allocations.update(i, retire_cell(c)),
                        chunks: free_insert(m0.chunks, c.base_offset, c.size),
                        ..m0
                    })
                } else {
                    final(self)@ == (Model {
                        alloc_index: m0.alloc_index.remove(sym),
                        allocations: m0.allocations.update(i, dec_cell(c, sym)),
                        ..m0
                    })
                }
            }),
    {
        let ghost m0 = self@;
        let idx = match self.allocation_map.get(&sym) {
            Some(i) => *i,
            None => {
                proof {
                    assert(false);
                }
                0
            },
        };
        proof {
            assert(cell_ok(m0.alloc_index, m0.allocations, m0.stack_size as int, idx as int));
            assert(m0.allocations[idx as int].owners@.contains(sym));
        }
        self.allocation_map.remove(&sym);
        let base_offset = self.allocations[idx].base_offset;
        let size = self.allocations[idx].size;
        let refs = self.allocations[idx].refs;
        let ghost c = m0.allocations[idx as int];
        if refs == 1 {
            self.allocations[idx] = AllocCell {
                base_offset,
                size,
                refs: 0,
                owners: Ghost(Set::empty()),
            };
            let ghost m1 = self@;
            proof {
                assert(m1 =~= (Model {
                    alloc_index: m0.alloc_index.remove(sym),
                    allocations: m0.allocations.update(idx as int, retire_cell(c)),
                    ..m0
                }));
                assert(c.owners@.len() == 1);
                assert forall|k: u64| c.owners@.contains(k) implies k == sym by {
                    if k != sym {
                        assert(c.owners@.remove(sym).contains(k));
                        assert(c.owners@.remove(sym).len() == 0);
                    }
                }
                lemma_retire_cell::<CC>(m0, m1, sym, idx as int);
            }
            self.free_stack_chunk(base_offset, size);
            proof {
                lemma_after_chunk_freed::<CC>(m1, self@, sym, idx as int, base_offset, size);
            }
        } else {
            self.allocations[idx] = AllocCell {
                base_offset,
                size,
                refs: refs - 1,
                owners: Ghost(c.owners@.remove(sym)),
            };
            proof {
                let m1 = self@;
                assert(m1 =~= (Model {
                    alloc_index: m0.alloc_index.remove(sym),
                    allocations: m0.allocations.update(idx as int, dec_cell(c, sym)),
                    ..m0
                }));
                lemma_dec_cell::<CC>(m0, m1, sym, idx as int);
            }
        }
    }
}

/// Retiring a cell whose only reference just left keeps every law except
/// frame conservation, which regains the missing bytes when the chunk is
/// freed.
#[verifier::rlimit(100)]
#[verifier::spinoff_prover]
pub proof fn lemma_retire_cell<CC: CallConv>(m0: Model, m1: Model, sym: u64, i: int)
    requires
        inv_except_ref::<CC>(m0, sym),
        m0.alloc_index[sym] == i,
        0 <= i < m0.allocations.len(),
        m0.allocations[i].refs == 1,
        forall|k: u64| m0.allocations[i].owners@.contains(k) ==> k == sym,
        m1 == (Model {
            alloc_index: m0.alloc_index.remove(sym),
            allocations: m0.allocations.update(i, retire_cell(m0.allocations[i])),
            ..m0
        }),
    ensures
        crate::manager::structural_inv::<CC>(m1),
        free_pre(m1, m0.allocations[i].base_offset, m0.allocations[i].size),
        m1.stack_size as int == crate::manager::chunk_bytes(m1.chunks) + 8 * m1.prim_syms.len()
            + cell_bytes(m1.allocations) + (if m0.allocations[i].base_offset < 0 {
            m0.allocations[i].size as int
        } else {
            0
        }),
{
    let c = m0.allocations[i];
    let ss = m1.stack_size as int;
    assert(cell_ok(m0.alloc_index, m0.allocations, ss, i));
    assert(c.owners@.contains(sym));
    assert(c.size > 0);
    lemma_cell_bytes_update(m0.allocations, i, retire_cell(c));
    assert forall|k: u64| #[trigger] m1.storage.contains_key(k) implies storage_entry_ok(
        m1.storage,
        m1.alloc_index,
        m1.allocations,
        ss,
        k,
    ) by {
        assert(storage_entry_ok(m0.storage, m0.alloc_index, m0.allocations, ss, k));
        if m1.storage[k] is ReferencedPrimitive || m1.storage[k] is Complex {
            assert(k != sym);
            let j = m0.alloc_index[k] as int;
            if j == i {
                assert(c.owners@.contains(k));
                assert(false);
            }
            assert(m1.allocations[j] == m0.allocations[j]);
        }
    }
    assert forall|k: u64| #[trigger] m1.alloc_index.contains_key(k) implies m1.storage.contains_key(
        k,
    ) && (m1.storage[k] is ReferencedPrimitive || m1.storage[k] is Complex) by {
        assert(k != sym);
        assert(m0.alloc_index.contains_key(k));
    }
    assert(crate::manager::storage_wf(m1));
    assert forall|j: int| 0 <= j < m1.allocations.len() implies #[trigger] cell_ok(
        m1.alloc_index,
        m1.allocations,
        ss,
        j,
    ) by {
        assert(cell_ok(m0.alloc_index, m0.allocations, ss, j));
        if j == i {
            assert(m1.allocations[j] == retire_cell(c));
            assert forall|k: u64| m1.alloc_index.contains_key(k) implies m1.alloc_index[k] != j by {
                if m1.alloc_index[k] == j {
                    assert(m0.alloc_index.contains_key(k) && m0.alloc_index[k] == j);
                    assert(c.owners@.contains(k));
                    assert(k == sym);
                }
            }
        } else {
            let cj = m0.allocations[j];
            assert(m1.allocations[j] == cj);
            assert forall|k: u64| #[trigger] cj.owners@.contains(k) implies
                m1.alloc_index.contains_key(k) && m1.alloc_index[k] == j by {
                if k == sym {
                    assert(m0.alloc_index[k] == j);
                    assert(false);
                }
            }
        }
    }
    assert(crate::manager::allocs_wf(m1));
    assert forall|j1: int, j2: int| j1 != j2 implies opt_ranges_disjoint(
        #[trigger] cell_range(m1.allocations, j1),
        #[trigger] cell_range(m1.allocations, j2),
    ) by {
        if cell_range(m1.allocations, j1) is Some && cell_range(m1.allocations, j2) is Some {
            assert(j1 != i && j2 != i);
            assert(cell_range(m1.allocations, j1) == cell_range(m0.allocations, j1));
            assert(cell_range(m1.allocations, j2) == cell_range(m0.allocations, j2));
        }
    }
    assert forall|k: u64, j: int|
        opt_ranges_disjoint(
            #[trigger] prim_range(m1.storage, k),
            #[trigger] cell_range(m1.allocations, j),
        ) by {
        if cell_range(m1.allocations, j) is Some {
            assert(j != i);
            assert(cell_range(m1.allocations, j) == cell_range(m0.allocations, j));
        }
    }
    assert forall|j1: int, j2: int|
        opt_ranges_disjoint(
            #[trigger] cell_range(m1.allocations, j1),
            #[trigger] chunk_range(m1.chunks, j2),
        ) by {
        if cell_range(m1.allocations, j1) is Some {
            assert(j1 != i);
            assert(cell_range(m1.allocations, j1) == cell_range(m0.allocations, j1));
        }
    }
    assert(crate::manager::blocks_disjoint(m1));
    assert(crate::manager::prim_syms_ok(m1));
    // the freed range is disjoint from everything in the new model
    assert forall|j: int|
        opt_ranges_disjoint(
            #[trigger] chunk_range(m1.chunks, j),
            Some((c.base_offset as int, c.size as int)),
        ) by {
        assert(opt_ranges_disjoint(cell_range(m0.allocations, i), chunk_range(m0.chunks, j)));
    }
    assert forall|k: u64|
        opt_ranges_disjoint(
            #[trigger] prim_range(m1.storage, k),
            Some((c.base_offset as int, c.size as int)),
        ) by {
        assert(opt_ranges_disjoint(prim_range(m0.storage, k), cell_range(m0.allocations, i)));
    }
    assert forall|j: int|
        opt_ranges_disjoint(
            #[trigger] cell_range(m1.allocations, j),
            Some((c.base_offset as int, c.size as int)),
        ) by {
        if cell_range(m1.allocations, j) is Some {
            assert(j != i);
            assert(cell_range(m1.allocations, j) == cell_range(m0.allocations, j));
            assert(opt_ranges_disjoint(cell_range(m0.allocations, j), cell_range(m0.allocations, i)));
        }
    }
    assert forall|j: int| match #[trigger] cell_range(m1.allocations, j) {
        Some(r) => r.1 > 0,
        None => true,
    } by {
        if cell_range(m1.allocations, j) is Some {
            assert(j != i);
            assert(cell_ok(m0.alloc_index, m0.allocations, ss, j));
        }
    }
    assert(free_pre(m1, c.base_offset, c.size));
}

/// Once the retired cell's chunk is back on the free list, the whole
/// invariant holds again.
#[verifier::rlimit(100)]
#[verifier::spinoff_prover]
pub proof fn lemma_after_chunk_freed<CC: CallConv>(
    mf: Model,
    m2: Model,
    sym: u64,
    i: int,
    off: i32,
    size: u32,
)
    requires
        crate::manager::structural_inv::<CC>(mf),
        mf.stack_size as int == crate::manager::chunk_bytes(mf.chunks) + 8 * mf.prim_syms.len()
            + cell_bytes(mf.allocations) + (if off < 0 {
            size as int
        } else {
            0
        }),
        mf.stack_size % 8 == 0,
        mf.stack_size <= i32::MAX,
        free_post(mf, m2, off, size),
    ensures
        model_inv::<CC>(m2),
{
    assert(m2 == (Model { chunks: free_insert(mf.chunks, off, size), ..mf }));
    assert(crate::manager::chunk_bytes(m2.chunks) == crate::manager::chunk_bytes(mf.chunks) + (
    if off < 0 {
        size as int
    } else {
        0
    }));
    let ss = m2.stack_size as int;
    assert forall|k: u64| #[trigger] m2.storage.contains_key(k) implies storage_entry_ok(
        m2.storage,
        m2.alloc_index,
        m2.allocations,
        ss,
        k,
    ) by {
        assert(storage_entry_ok(mf.storage, mf.alloc_index, mf.allocations, ss, k));
    }
    assert forall|j: int| 0 <= j < m2.allocations.len() implies #[trigger] cell_ok(
        m2.alloc_index,
        m2.allocations,
        ss,
        j,
    ) by {
        assert(cell_ok(mf.alloc_index, mf.allocations, ss, j));
    }
    assert(crate::manager::frame_conserved(m2));
}

/// Dropping one of several references to a cell preserves the invariant.
#[verifier::rlimit(100)]
#[verifier::spinoff_prover]
pub proof fn lemma_dec_cell<CC: CallConv>(m0: Model, m1: Model, sym: u64, i: int)
    requires
        inv_except_ref::<CC>(m0, sym),
        m0.alloc_index[sym] == i,
        0 <= i < m0.allocations.len(),
        m0.allocations[i].refs > 1,
        m1 == (Model {
            alloc_index: m0.alloc_index.remove(sym),
            allocations: m0.allocations.update(i, dec_cell(m0.allocations[i], sym)),
            ..m0
        }),
    ensures
        model_inv::<CC>(m1),
{
    let c = m0.allocations[i];
    let c1 = dec_cell(c, sym);
    let ss = m1.stack_size as int;
    assert(cell_ok(m0.alloc_index, m0.allocations, ss, i));
    assert(c.owners@.contains(sym));
    assert(c1.refs == c1.owners@.len());
    lemma_cell_bytes_update(m0.allocations, i, c1);
    assert forall|k: u64| #[trigger] m1.storage.contains_key(k) implies storage_entry_ok(
        m1.storage,
        m1.alloc_index,
        m1.allocations,
        ss,
        k,
    ) by {
        assert(storage_entry_ok(m0.storage, m0.alloc_index, m0.allocations, ss, k));
        if m1.storage[k] is ReferencedPrimitive || m1.storage[k] is Complex {
            assert(k != sym);
            let j = m0.alloc_index[k] as int;
            if j == i {
                assert(m1.allocations[j] == c1);
            } else {
                assert(m1.allocations[j] == m0.allocations[j]);
            }
        }
    }
    assert forall|k: u64| #[trigger] m1.alloc_index.contains_key(k) implies m1.storage.contains_key(
        k,
    ) && (m1.storage[k] is ReferencedPrimitive || m1.storage[k] is Complex) by {
        assert(k != sym);
        assert(m0.alloc_index.contains_key(k));
    }
    assert(crate::manager::storage_wf(m1));
    assert forall|j: int| 0 <= j < m1.allocations.len() implies #[trigger] cell_ok(
        m1.alloc_index,
        m1.allocations,
        ss,
        j,
    ) by {
        assert(cell_ok(m0.alloc_index, m0.allocations, ss, j));
        if j == i {
            assert(m1.allocations[j] == c1);
        } else {
            let cj = m0.allocations[j];
            assert(m1.allocations[j] == cj);
            assert forall|k: u64| #[trigger] cj.owners@.contains(k) implies
                m1.alloc_index.contains_key(k) && m1.alloc_index[k] == j by {
                if k == sym {
                    assert(m0.alloc_index[k] == j);
                    assert(false);
                }
            }
        }
    }
    assert(crate::manager::allocs_wf(m1));
    assert forall|j1: int, j2: int| j1 != j2 implies opt_ranges_disjoint(
        #[trigger] cell_range(m1.allocations, j1),
        #[trigger] cell_range(m1.allocations, j2),
    ) by {
        assert(cell_range(m1.allocations, j1) == cell_range(m0.allocations, j1));
        assert(cell_range(m1.allocations, j2) == cell_range(m0.allocations, j2));
    }
    assert forall|k: u64, j: int|
        opt_ranges_disjoint(
            #[trigger] prim_range(m1.storage, k),
            #[trigger] cell_range(m1.allocations, j),
        ) by {
        assert(cell_range(m1.allocations, j) == cell_range(m0.allocations, j));
    }
    assert forall|j1: int, j2: int|
        opt_ranges_disjoint(
            #[trigger] cell_range(m1.allocations, j1),
            #[trigger] chunk_range(m1.chunks, j2),
        ) by {
        assert(cell_range(m1.allocations, j1) == cell_range(m0.allocations, j1));
    }
    assert(crate::manager::blocks_disjoint(m1));
    assert(crate::manager::prim_syms_ok(m1));
    assert(crate::manager::frame_conserved(m1));
}


/// Freeing a symbol that holds a general register: its storage entry and its
/// used-list entry leave together, and the register returns to the free list.
/// If the value also owned a primitive slot, that slot is ready to be freed.
#[verifier::rlimit(100)]
#[verifier::spinoff_prover]
pub proof fn lemma_drop_sym_entry_general<CC: CallConv>(m0: Model, m1: Model, i: int)
    requires
        model_inv::<CC>(m0),
        0 <= i < m0.general_used.len(),
        m0.storage[m0.general_used[i].1] is Reg || m0.storage[m0.general_used[i].1] is Primitive,
        m1 == (Model {
            storage: m0.storage.remove(m0.general_used[i].1),
            general_used: m0.general_used.remove(i),
            general_free: m0.general_free.push(m0.general_used[i].0),
            prim_syms: m0.prim_syms.remove(m0.general_used[i].1),
            ..m0
        }),
    ensures
        crate::manager::structural_inv::<CC>(m1),
        m1.stack_size as int == crate::manager::chunk_bytes(m1.chunks) + 8 * m1.prim_syms.len()
            + cell_bytes(m1.allocations) + (if local_prim(m0.storage, m0.general_used[i].1) {
            8int
        } else {
            0int
        }),
        m0.storage[m0.general_used[i].1] matches Storage::Primitive { base_offset, .. } ==>
            free_pre(m1, base_offset, 8),
{
    let (reg, ssym) = m0.general_used[i];
    assert(m0.storage.contains_key(ssym) && m0.storage[ssym].general_reg() == Some(reg));
    let ss = m1.stack_size as int;
    assert forall|j: int| 0 <= j < m1.general_used.len() implies #[trigger] m1.general_used[j]
        == (if j < i {
        m0.general_used[j]
    } else {
        m0.general_used[j + 1]
    }) by {}
    assert forall|j: int| 0 <= j < m1.general_free.len() implies #[trigger] m1.general_free[j]
        == (if j < m0.general_free.len() {
        m0.general_free[j]
    } else {
        reg
    }) by {}
    assert forall|a: int, b: int| 0 <= a < b < m1.general_free.len() implies m1.general_free[a]
        != m1.general_free[b] by {
        if b == m1.general_free.len() - 1 {
            assert(m1.general_free[a] == m0.general_free[a]);
            assert(m0.general_free[a] != m0.general_used[i].0);
        }
    }
    assert forall|a: int, b: int|
        0 <= a < m1.general_free.len() && 0 <= b < m1.general_used.len() implies
        #[trigger] m1.general_free[a] != (#[trigger] m1.general_used[b]).0 by {
        let b0 = if b < i {
            b
        } else {
            b + 1
        };
        assert(m1.general_used[b] == m0.general_used[b0]);
        if a == m1.general_free.len() - 1 {
            assert(m1.general_free[a] == reg);
        } else {
            assert(m1.general_free[a] == m0.general_free[a]);
        }
    }
    assert(crate::manager::pools_wf(m1));
    assert forall|j: int| 0 <= j < m1.general_used.len() implies {
        let (r, k) = #[trigger] m1.general_used[j];
        m1.storage.contains_key(k) && m1.storage[k].general_reg() == Some(r)
    } by {
        let (r, k) = m1.general_used[j];
        let j0 = if j < i {
            j
        } else {
            j + 1
        };
        assert(m0.general_used[j0] == (r, k));
        assert(k != ssym);
    }
    assert forall|j: int| 0 <= j < m1.float_used.len() implies {
        let (r, k) = #[trigger] m1.float_used[j];
        m1.storage.contains_key(k) && m1.storage[k].float_reg() == Some(r)
    } by {
        let (r, k) = m1.float_used[j];
        assert(m0.storage[ssym].float_reg() is None);
        assert(k != ssym);
    }
    assert forall|k: u64| #[trigger] m1.storage.contains_key(k) implies match m1.storage[
        k
    ].general_reg() {
        Some(r) => m1.general_used.contains((r, k)),
        None => true,
    } by {
        if m1.storage[k].general_reg() is Some {
            let r = m1.storage[k].general_reg().unwrap();
            assert(m0.general_used.contains((r, k)));
            lemma_remove_still_contains(m0.general_used, i, (r, k));
        }
    }
    assert forall|k: u64| #[trigger] m1.storage.contains_key(k) implies match m1.storage[
        k
    ].float_reg() {
        Some(r) => m1.float_used.contains((r, k)),
        None => true,
    } by {
        if m1.storage[k].float_reg() is Some {
            assert(m0.float_used.contains((m1.storage[k].float_reg().unwrap(), k)));
        }
    }
    assert(crate::manager::used_lists_match(m1));
    assert forall|j: int|
        0 <= j < m1.general_used.len() && CC::spec_general_callee_saved(
            (#[trigger] m1.general_used[j]).0,
        ) implies m1.general_callee_used.contains(m1.general_used[j].0) by {
        let j0 = if j < i {
            j
        } else {
            j + 1
        };
        assert(m1.general_used[j] == m0.general_used[j0]);
    }
    assert(crate::manager::callee_saved_tracked::<CC>(m1));
    assert forall|k: u64| #[trigger] m1.storage.contains_key(k) implies storage_entry_ok(
        m1.storage,
        m1.alloc_index,
        m1.allocations,
        ss,
        k,
    ) by {
        assert(m1.storage[k] == m0.storage[k]);
        assert(storage_entry_ok(m0.storage, m0.alloc_index, m0.allocations, ss, k));
    }
    assert forall|k: u64| #[trigger] m1.alloc_index.contains_key(k) implies m1.storage.contains_key(
        k,
    ) && (m1.storage[k] is ReferencedPrimitive || m1.storage[k] is Complex) by {
        assert(m0.storage.contains_key(k) && (m0.storage[k] is ReferencedPrimitive || m0.storage[k]
            is Complex));
        assert(k != ssym);
    }
    assert(crate::manager::storage_wf(m1));
    assert(crate::manager::allocs_wf(m1));
    assert(crate::manager::chunks_wf(m1));
    assert forall|k: u64|
        opt_ranges_disjoint(#[trigger] prim_range(m1.storage, k), prim_range(m0.storage, k))
            || prim_range(m1.storage, k) == prim_range(m0.storage, k) by {
        if k != ssym {
            assert(prim_range(m1.storage, k) == prim_range(m0.storage, k));
        }
    }
    assert forall|k1: u64, k2: u64| k1 != k2 implies opt_ranges_disjoint(
        #[trigger] prim_range(m1.storage, k1),
        #[trigger] prim_range(m1.storage, k2),
    ) by {
        if k1 != ssym && k2 != ssym {
            assert(prim_range(m1.storage, k1) == prim_range(m0.storage, k1));
            assert(prim_range(m1.storage, k2) == prim_range(m0.storage, k2));
        } else {
            assert(prim_range(m1.storage, ssym) is None);
        }
    }
    assert forall|k: u64, j: int|
        opt_ranges_disjoint(
            #[trigger] prim_range(m1.storage, k),
            #[trigger] cell_range(m1.allocations, j),
        ) by {
        if k != ssym {
            assert(prim_range(m1.storage, k) == prim_range(m0.storage, k));
        }
    }
    assert forall|k: u64, j: int|
        opt_ranges_disjoint(
            #[trigger] prim_range(m1.storage, k),
            #[trigger] chunk_range(m1.chunks, j),
        ) by {
        if k != ssym {
            assert(prim_range(m1.storage, k) == prim_range(m0.storage, k));
        }
    }
    assert(crate::manager::blocks_disjoint(m1));
    assert forall|k: u64|
        #![trigger m1.prim_syms.contains(k)]
        #![trigger m1.storage.contains_key(k)]
        m1.prim_syms.contains(k) <==> local_prim(m1.storage, k) by {
        if k != ssym {
            assert(m1.prim_syms.contains(k) == m0.prim_syms.contains(k));
            assert(local_prim(m1.storage, k) == local_prim(m0.storage, k));
        }
    }
    assert(crate::manager::prim_syms_ok(m1));
    if local_prim(m0.storage, ssym) {
        assert(m0.prim_syms.contains(ssym));
        assert(m1.prim_syms.len() == m0.prim_syms.len() - 1);
    } else {
        assert(!m0.prim_syms.contains(ssym));
        assert(m1.prim_syms =~= m0.prim_syms);
    }
    if m0.storage[ssym] is Primitive {
        let off = m0.storage[ssym]->Primitive_base_offset;
        assert(storage_entry_ok(m0.storage, m0.alloc_index, m0.allocations, ss, ssym));
        assert(prim_range(m0.storage, ssym) == Some((off as int, 8int)));
        assert forall|j: int|
            opt_ranges_disjoint(#[trigger] chunk_range(m1.chunks, j), Some((off as int, 8int)))
            by {
            assert(opt_ranges_disjoint(prim_range(m0.storage, ssym), chunk_range(m0.chunks, j)));
        }
        assert forall|k: u64|
            opt_ranges_disjoint(#[trigger] prim_range(m1.storage, k), Some((off as int, 8int)))
            by {
            if k != ssym {
                assert(prim_range(m1.storage, k) == prim_range(m0.storage, k));
                assert(opt_ranges_disjoint(
                    prim_range(m0.storage, k),
                    prim_range(m0.storage, ssym),
                ));
            }
        }
        assert forall|j: int|
            opt_ranges_disjoint(
                #[trigger] cell_range(m1.allocations, j),
                Some((off as int, 8int)),
            ) by {
            assert(opt_ranges_disjoint(prim_range(m0.storage, ssym), cell_range(m0.allocations, j)));
        }
        assert forall|j: int| match #[trigger] cell_range(m1.allocations, j) {
            Some(r) => r.1 > 0,
            None => true,
        } by {
            if cell_range(m1.allocations, j) is Some {
                assert(cell_ok(m0.alloc_index, m0.allocations, ss, j));
            }
        }
        assert(free_pre(m1, off, 8));
    }
}


/// Freeing a symbol that holds a float register: its storage entry and its
/// used-list entry leave together, and the register returns to the free list.
/// If the value also owned a primitive slot, that slot is ready to be freed.
#[verifier::rlimit(100)]
#[verifier::spinoff_prover]
pub proof fn lemma_drop_sym_entry_float<CC: CallConv>(m0: Model, m1: Model, i: int)
    requires
        model_inv::<CC>(m0),
        0 <= i < m0.float_used.len(),
        m0.storage[m0.float_used[i].1] is Reg || m0.storage[m0.float_used[i].1] is Primitive,
        m1 == (Model {
            storage: m0.storage.remove(m0.float_used[i].1),
            float_used: m0.float_used.remove(i),
            float_free: m0.float_free.push(m0.float_used[i].0),
            prim_syms: m0.prim_syms.remove(m0.float_used[i].1),
            ..m0
        }),
    ensures
        crate::manager::structural_inv::<CC>(m1),
        m1.stack_size as int == crate::manager::chunk_bytes(m1.chunks) + 8 * m1.prim_syms.len()
            + cell_bytes(m1.allocations) + (if local_prim(m0.storage, m0.float_used[i].1) {
            8int
        } else {
            0int
        }),
        m0.storage[m0.float_used[i].1] matches Storage::Primitive { base_offset, .. } ==>
            free_pre(m1, base_offset, 8),
{
    let (reg, ssym) = m0.float_used[i];
    assert(m0.storage.contains_key(ssym) && m0.storage[ssym].float_reg() == Some(reg));
    let ss = m1.stack_size as int;
    assert forall|j: int| 0 <= j < m1.float_used.len() implies #[trigger] m1.float_used[j]
        == (if j < i {
        m0.float_used[j]
    } else {
        m0.float_used[j + 1]
    }) by {}
    assert forall|j: int| 0 <= j < m1.float_free.len() implies #[trigger] m1.float_free[j]
        == (if j < m0.float_free.len() {
        m0.float_free[j]
    } else {
        reg
    }) by {}
    assert forall|a: int, b: int| 0 <= a < b < m1.float_free.len() implies m1.float_free[a]
        != m1.float_free[b] by {
        if b == m1.float_free.len() - 1 {
            assert(m1.float_free[a] == m0.float_free[a]);
            assert(m0.float_free[a] != m0.float_used[i].0);
        }
    }
    assert forall|a: int, b: int|
        0 <= a < m1.float_free.len() && 0 <= b < m1.float_used.len() implies
        #[trigger] m1.float_free[a] != (#[trigger] m1.float_used[b]).0 by {
        let b0 = if b < i {
            b
        } else {
            b + 1
        };
        assert(m1.float_used[b] == m0.float_used[b0]);
        if a == m1.float_free.len() - 1 {
            assert(m1.float_free[a] == reg);
        } else {
            assert(m1.float_free[a] == m0.float_free[a]);
        }
    }
    assert(crate::manager::pools_wf(m1));
    assert forall|j: int| 0 <= j < m1.float_used.len() implies {
        let (r, k) = #[trigger] m1.float_used[j];
        m1.storage.contains_key(k) && m1.storage[k].float_reg() == Some(r)
    } by {
        let (r, k) = m1.float_used[j];
        let j0 = if j < i {
            j
        } else {
            j + 1
        };
        assert(m0.float_used[j0] == (r, k));
        assert(k != ssym);
    }
    assert forall|j: int| 0 <= j < m1.general_used.len() implies {
        let (r, k) = #[trigger] m1.general_used[j];
        m1.storage.contains_key(k) && m1.storage[k].general_reg() == Some(r)
    } by {
        let (r, k) = m1.general_used[j];
        assert(m0.storage[ssym].general_reg() is None);
        assert(k != ssym);
    }
    assert forall|k: u64| #[trigger] m1.storage.contains_key(k) implies match m1.storage[
        k
    ].float_reg() {
        Some(r) => m1.float_used.contains((r, k)),
        None => true,
    } by {
        if m1.storage[k].float_reg() is Some {
            let r = m1.storage[k].float_reg().unwrap();
            assert(m0.float_used.contains((r, k)));
            lemma_remove_still_contains(m0.float_used, i, (r, k));
        }
    }
    assert forall|k: u64| #[trigger] m1.storage.contains_key(k) implies match m1.storage[
        k
    ].general_reg() {
        Some(r) => m1.general_used.contains((r, k)),
        None => true,
    } by {
        if m1.storage[k].general_reg() is Some {
            assert(m0.general_used.contains((m1.storage[k].general_reg().unwrap(), k)));
        }
    }
    assert(crate::manager::used_lists_match(m1));
    assert forall|j: int|
        0 <= j < m1.float_used.len() && CC::spec_float_callee_saved(
            (#[trigger] m1.float_used[j]).0,
        ) implies m1.float_callee_used.contains(m1.float_used[j].0) by {
        let j0 = if j < i {
            j
        } else {
            j + 1
        };
        assert(m1.float_used[j] == m0.float_used[j0]);
    }
    assert(crate::manager::callee_saved_tracked::<CC>(m1));
    assert forall|k: u64| #[trigger] m1.storage.contains_key(k) implies storage_entry_ok(
        m1.storage,
        m1.alloc_index,
        m1.allocations,
        ss,
        k,
    ) by {
        assert(m1.storage[k] == m0.storage[k]);
        assert(storage_entry_ok(m0.storage, m0.alloc_index, m0.allocations, ss, k));
    }
    assert forall|k: u64| #[trigger] m1.alloc_index.contains_key(k) implies m1.storage.contains_key(
        k,
    ) && (m1.storage[k] is ReferencedPrimitive || m1.storage[k] is Complex) by {
        assert(m0.storage.contains_key(k) && (m0.storage[k] is ReferencedPrimitive || m0.storage[k]
            is Complex));
        assert(k != ssym);
    }
    assert(crate::manager::storage_wf(m1));
    assert(crate::manager::allocs_wf(m1));
    assert(crate::manager::chunks_wf(m1));
    assert forall|k: u64|
        opt_ranges_disjoint(#[trigger] prim_range(m1.storage, k), prim_range(m0.storage, k))
            || prim_range(m1.storage, k) == prim_range(m0.storage, k) by {
        if k != ssym {
            assert(prim_range(m1.storage, k) == prim_range(m0.storage, k));
        }
    }
    assert forall|k1: u64, k2: u64| k1 != k2 implies opt_ranges_disjoint(
        #[trigger] prim_range(m1.storage, k1),
        #[trigger] prim_range(m1.storage, k2),
    ) by {
        if k1 != ssym && k2 != ssym {
            assert(prim_range(m1.storage, k1) == prim_range(m0.storage, k1));
            assert(prim_range(m1.storage, k2) == prim_range(m0.storage, k2));
        } else {
            assert(prim_range(m1.storage, ssym) is None);
        }
    }
    assert forall|k: u64, j: int|
        opt_ranges_disjoint(
            #[trigger] prim_range(m1.storage, k),
            #[trigger] cell_range(m1.allocations, j),
        ) by {
        if k != ssym {
            assert(prim_range(m1.storage, k) == prim_range(m0.storage, k));
        }
    }
    assert forall|k: u64, j: int|
        opt_ranges_disjoint(
            #[trigger] prim_range(m1.storage, k),
            #[trigger] chunk_range(m1.chunks, j),
        ) by {
        if k != ssym {
            assert(prim_range(m1.storage, k) == prim_range(m0.storage, k));
        }
    }
    assert(crate::manager::blocks_disjoint(m1));
    assert forall|k: u64|
        #![trigger m1.prim_syms.contains(k)]
        #![trigger m1.storage.contains_key(k)]
        m1.prim_syms.contains(k) <==> local_prim(m1.storage, k) by {
        if k != ssym {
            assert(m1.prim_syms.contains(k) == m0.prim_syms.contains(k));
            assert(local_prim(m1.storage, k) == local_prim(m0.storage, k));
        }
    }
    assert(crate::manager::prim_syms_ok(m1));
    if local_prim(m0.storage, ssym) {
        assert(m0.prim_syms.contains(ssym));
        assert(m1.prim_syms.len() == m0.prim_syms.len() - 1);
    } else {
        assert(!m0.prim_syms.contains(ssym));
        assert(m1.prim_syms =~= m0.prim_syms);
    }
    if m0.storage[ssym] is Primitive {
        let off = m0.storage[ssym]->Primitive_base_offset;
        assert(storage_entry_ok(m0.storage, m0.alloc_index, m0.allocations, ss, ssym));
        assert(prim_range(m0.storage, ssym) == Some((off as int, 8int)));
        assert forall|j: int|
            opt_ranges_disjoint(#[trigger] chunk_range(m1.chunks, j), Some((off as int, 8int)))
            by {
            assert(opt_ranges_disjoint(prim_range(m0.storage, ssym), chunk_range(m0.chunks, j)));
        }
        assert forall|k: u64|
            opt_ranges_disjoint(#[trigger] prim_range(m1.storage, k), Some((off as int, 8int)))
            by {
            if k != ssym {
                assert(prim_range(m1.storage, k) == prim_range(m0.storage, k));
                assert(opt_ranges_disjoint(
                    prim_range(m0.storage, k),
                    prim_range(m0.storage, ssym),
                ));
            }
        }
        assert forall|j: int|
            opt_ranges_disjoint(
                #[trigger] cell_range(m1.allocations, j),
                Some((off as int, 8int)),
            ) by {
            assert(opt_ranges_disjoint(prim_range(m0.storage, ssym), cell_range(m0.allocations, j)));
        }
        assert forall|j: int| match #[trigger] cell_range(m1.allocations, j) {
            Some(r) => r.1 > 0,
            None => true,
        } by {
            if cell_range(m1.allocations, j) is Some {
                assert(cell_ok(m0.alloc_index, m0.allocations, ss, j));
            }
        }
        assert(free_pre(m1, off, 8));
    }
}


/// Freeing a symbol that owns only a primitive slot (no register): its
/// storage entry leaves and the slot is ready to be freed.
#[verifier::rlimit(100)]
#[verifier::spinoff_prover]
pub proof fn lemma_drop_prim_noreg<CC: CallConv>(m0: Model, m1: Model, sym: u64)
    requires
        model_inv::<CC>(m0),
        m0.storage.contains_key(sym),
        m0.storage[sym] matches Storage::Primitive { reg: None, .. },
        m1 == (Model {
            storage: m0.storage.remove(sym),
            prim_syms: m0.prim_syms.remove(sym),
            ..m0
        }),
    ensures
        crate::manager::structural_inv::<CC>(m1),
        m1.stack_size as int == crate::manager::chunk_bytes(m1.chunks) + 8 * m1.prim_syms.len()
            + cell_bytes(m1.allocations) + (if local_prim(m0.storage, sym) {
            8int
        } else {
            0int
        }),
        free_pre(m1, m0.storage[sym]->Primitive_base_offset, 8),
{
    let ssym = sym;
    let ss = m1.stack_size as int;
    assert forall|j: int| 0 <= j < m1.general_used.len() implies {
        let (r, k) = #[trigger] m1.general_used[j];
        m1.storage.contains_key(k) && m1.storage[k].general_reg() == Some(r)
    } by {
        let (r, k) = m1.general_used[j];
        assert(m0.storage[ssym].general_reg() is None);
        assert(k != ssym);
    }
    assert forall|j: int| 0 <= j < m1.float_used.len() implies {
        let (r, k) = #[trigger] m1.float_used[j];
        m1.storage.contains_key(k) && m1.storage[k].float_reg() == Some(r)
    } by {
        let (r, k) = m1.float_used[j];
        assert(m0.storage[ssym].float_reg() is None);
        assert(k != ssym);
    }
    assert forall|k: u64| #[trigger] m1.storage.contains_key(k) implies match m1.storage[
        k
    ].general_reg() {
        Some(r) => m1.general_used.contains((r, k)),
        None => true,
    } by {
        if m1.storage[k].general_reg() is Some {
            assert(m0.general_used.contains((m1.storage[k].general_reg().unwrap(), k)));
        }
    }
    assert forall|k: u64| #[trigger] m1.storage.contains_key(k) implies match m1.storage[
        k
    ].float_reg() {
        Some(r) => m1.float_used.contains((r, k)),
        None => true,
    } by {
        if m1.storage[k].float_reg() is Some {
            assert(m0.float_used.contains((m1.storage[k].float_reg().unwrap(), k)));
        }
    }
    assert(crate::manager::used_lists_match(m1));
    assert forall|k: u64| #[trigger] m1.storage.contains_key(k) implies storage_entry_ok(
        m1.storage,
        m1.alloc_index,
        m1.allocations,
        ss,
        k,
    ) by {
        assert(m1.storage[k] == m0.storage[k]);
        assert(storage_entry_ok(m0.storage, m0.alloc_index, m0.allocations, ss, k));
    }
    assert forall|k: u64| #[trigger] m1.alloc_index.contains_key(k) implies m1.storage.contains_key(
        k,
    ) && (m1.storage[k] is ReferencedPrimitive || m1.storage[k] is Complex) by {
        assert(m0.storage.contains_key(k) && (m0.storage[k] is ReferencedPrimitive || m0.storage[k]
            is Complex));
        assert(k != ssym);
    }
    assert(crate::manager::storage_wf(m1));
    assert(crate::manager::allocs_wf(m1));
    assert(crate::manager::chunks_wf(m1));
    assert forall|k1: u64, k2: u64| k1 != k2 implies opt_ranges_disjoint(
        #[trigger] prim_range(m1.storage, k1),
        #[trigger] prim_range(m1.storage, k2),
    ) by {
        if k1 != ssym && k2 != ssym {
            assert(prim_range(m1.storage, k1) == prim_range(m0.storage, k1));
            assert(prim_range(m1.storage, k2) == prim_range(m0.storage, k2));
        } else {
            assert(prim_range(m1.storage, ssym) is None);
        }
    }
    assert forall|k: u64, j: int|
        opt_ranges_disjoint(
            #[trigger] prim_range(m1.storage, k),
            #[trigger] cell_range(m1.allocations, j),
        ) by {
        if k != ssym {
            assert(prim_range(m1.storage, k) == prim_range(m0.storage, k));
        }
    }
    assert forall|k: u64, j: int|
        opt_ranges_disjoint(
            #[trigger] prim_range(m1.storage, k),
            #[trigger] chunk_range(m1.chunks, j),
        ) by {
        if k != ssym {
            assert(prim_range(m1.storage, k) == prim_range(m0.storage, k));
        }
    }
    assert(crate::manager::blocks_disjoint(m1));
    assert forall|k: u64|
        #![trigger m1.prim_syms.contains(k)]
        #![trigger m1.storage.contains_key(k)]
        m1.prim_syms.contains(k) <==> local_prim(m1.storage, k) by {
        if k != ssym {
            assert(m1.prim_syms.contains(k) == m0.prim_syms.contains(k));
            assert(local_prim(m1.storage, k) == local_prim(m0.storage, k));
        }
    }
    assert(crate::manager::prim_syms_ok(m1));
    if local_prim(m0.storage, ssym) {
        assert(m0.prim_syms.contains(ssym));
        assert(m1.prim_syms.len() == m0.prim_syms.len() - 1);
    } else {
        assert(!m0.prim_syms.contains(ssym));
        assert(m1.prim_syms =~= m0.prim_syms);
    }
    let off = m0.storage[ssym]->Primitive_base_offset;
    assert(storage_entry_ok(m0.storage, m0.alloc_index, m0.allocations, ss, ssym));
    assert(prim_range(m0.storage, ssym) == Some((off as int, 8int)));
    assert forall|j: int|
        opt_ranges_disjoint(#[trigger] chunk_range(m1.chunks, j), Some((off as int, 8int))) by {
        assert(opt_ranges_disjoint(prim_range(m0.storage, ssym), chunk_range(m0.chunks, j)));
    }
    assert forall|k: u64|
        opt_ranges_disjoint(#[trigger] prim_range(m1.storage, k), Some((off as int, 8int))) by {
        if k != ssym {
            assert(prim_range(m1.storage, k) == prim_range(m0.storage, k));
            assert(opt_ranges_disjoint(prim_range(m0.storage, k), prim_range(m0.storage, ssym)));
        }
    }
    assert forall|j: int|
        opt_ranges_disjoint(#[trigger] cell_range(m1.allocations, j), Some((off as int, 8int)))
        by {
        assert(opt_ranges_disjoint(prim_range(m0.storage, ssym), cell_range(m0.allocations, j)));
    }
    assert forall|j: int| match #[trigger] cell_range(m1.allocations, j) {
        Some(r) => r.1 > 0,
        None => true,
    } by {
        if cell_range(m1.allocations, j) is Some {
            assert(cell_ok(m0.alloc_index, m0.allocations, ss, j));
        }
    }
    assert(free_pre(m1, off, 8));
}

/// Freeing a zero-sized symbol: only its storage entry leaves.
#[verifier::rlimit(100)]
#[verifier::spinoff_prover]
pub proof fn lemma_drop_plain<CC: CallConv>(m0: Model, m1: Model, sym: u64)
    requires
        model_inv::<CC>(m0),
        m0.storage.contains_key(sym),
        m0.storage[sym] is NoData,
        m1 == (Model { storage: m0.storage.remove(sym), ..m0 }),
    ensures
        model_inv::<CC>(m1),
{
    let ssym = sym;
    let ss = m1.stack_size as int;
    assert forall|j: int| 0 <= j < m1.general_used.len() implies {
        let (r, k) = #[trigger] m1.general_used[j];
        m1.storage.contains_key(k) && m1.storage[k].general_reg() == Some(r)
    } by {
        let (r, k) = m1.general_used[j];
        assert(m0.storage[ssym].general_reg() is None);
        assert(k != ssym);
    }
    assert forall|j: int| 0 <= j < m1.float_used.len() implies {
        let (r, k) = #[trigger] m1.float_used[j];
        m1.storage.contains_key(k) && m1.storage[k].float_reg() == Some(r)
    } by {
        let (r, k) = m1.float_used[j];
        assert(m0.storage[ssym].float_reg() is None);
        assert(k != ssym);
    }
    assert forall|k: u64| #[trigger] m1.storage.contains_key(k) implies match m1.storage[
        k
    ].general_reg() {
        Some(r) => m1.general_used.contains((r, k)),
        None => true,
    } by {
        if m1.storage[k].general_reg() is Some {
            assert(m0.general_used.contains((m1.storage[k].general_reg().unwrap(), k)));
        }
    }
    assert forall|k: u64| #[trigger] m1.storage.contains_key(k) implies match m1.storage[
        k
    ].float_reg() {
        Some(r) => m1.float_used.contains((r, k)),
        None => true,
    } by {
        if m1.storage[k].float_reg() is Some {
            assert(m0.float_used.contains((m1.storage[k].float_reg().unwrap(), k)));
        }
    }
    assert(crate::manager::used_lists_match(m1));
    assert forall|k: u64| #[trigger] m1.storage.contains_key(k) implies storage_entry_ok(
        m1.storage,
        m1.alloc_index,
        m1.allocations,
        ss,
        k,
    ) by {
        assert(m1.storage[k] == m0.storage[k]);
        assert(storage_entry_ok(m0.storage, m0.alloc_index, m0.allocations, ss, k));
    }
    assert forall|k: u64| #[trigger] m1.alloc_index.contains_key(k) implies m1.storage.contains_key(
        k,
    ) && (m1.storage[k] is ReferencedPrimitive || m1.storage[k] is Complex) by {
        assert(m0.storage.contains_key(k) && (m0.storage[k] is ReferencedPrimitive || m0.storage[k]
            is Complex));
        assert(k != ssym);
    }
    assert(crate::manager::storage_wf(m1));
    assert(crate::manager::allocs_wf(m1));
    assert(crate::manager::chunks_wf(m1));
    assert forall|k: u64| #[trigger] prim_range(m1.storage, k) == prim_range(m0.storage, k) by {
        if k == ssym {
            assert(prim_range(m0.storage, k) is None);
        }
    }
    assert(crate::manager::blocks_disjoint(m1));
    assert forall|k: u64|
        #![trigger m1.prim_syms.contains(k)]
        #![trigger m1.storage.contains_key(k)]
        m1.prim_syms.contains(k) <==> local_prim(m1.storage, k) by {
        assert(local_prim(m1.storage, k) == local_prim(m0.storage, k));
    }
    assert(crate::manager::prim_syms_ok(m1));
    assert(crate::manager::frame_conserved(m1));
}

/// Detaching a symbol that points into an allocation: its storage entry
/// leaves, and the allocation edge is ready to be released.
#[verifier::rlimit(100)]
#[verifier::spinoff_prover]
pub proof fn lemma_detach_ref<CC: CallConv>(m0: Model, m1: Model, sym: u64)
    requires
        model_inv::<CC>(m0),
        m0.storage.contains_key(sym),
        m0.storage[sym] is ReferencedPrimitive || m0.storage[sym] is Complex,
        m1 == (Model { storage: m0.storage.remove(sym), ..m0 }),
    ensures
        inv_except_ref::<CC>(m1, sym),
{
    let ssym = sym;
    let ss = m1.stack_size as int;
    assert(storage_entry_ok(m0.storage, m0.alloc_index, m0.allocations, ss, ssym));
    assert forall|j: int| 0 <= j < m1.general_used.len() implies {
        let (r, k) = #[trigger] m1.general_used[j];
        m1.storage.contains_key(k) && m1.storage[k].general_reg() == Some(r)
    } by {
        let (r, k) = m1.general_used[j];
        assert(m0.storage[ssym].general_reg() is None);
        assert(k != ssym);
    }
    assert forall|j: int| 0 <= j < m1.float_used.len() implies {
        let (r, k) = #[trigger] m1.float_used[j];
        m1.storage.contains_key(k) && m1.storage[k].float_reg() == Some(r)
    } by {
        let (r, k) = m1.float_used[j];
        assert(m0.storage[ssym].float_reg() is None);
        assert(k != ssym);
    }
    assert forall|k: u64| #[trigger] m1.storage.contains_key(k) implies match m1.storage[
        k
    ].general_reg() {
        Some(r) => m1.general_used.contains((r, k)),
        None => true,
    } by {
        if m1.storage[k].general_reg() is Some {
            assert(m0.general_used.contains((m1.storage[k].general_reg().unwrap(), k)));
        }
    }
    assert forall|k: u64| #[trigger] m1.storage.contains_key(k) implies match m1.storage[
        k
    ].float_reg() {
        Some(r) => m1.float_used.contains((r, k)),
        None => true,
    } by {
        if m1.storage[k].float_reg() is Some {
            assert(m0.float_used.contains((m1.storage[k].float_reg().unwrap(), k)));
        }
    }
    assert(crate::manager::used_lists_match(m1));
    assert forall|k: u64| #[trigger] m1.storage.contains_key(k) implies storage_entry_ok(
        m1.storage,
        m1.alloc_index,
        m1.allocations,
        ss,
        k,
    ) by {
        assert(m1.storage[k] == m0.storage[k]);
        assert(storage_entry_ok(m0.storage, m0.alloc_index, m0.allocations, ss, k));
    }
    assert forall|k: u64|
        #[trigger] m1.alloc_index.contains_key(k) && k != sym implies m1.storage.contains_key(k)
        && (m1.storage[k] is ReferencedPrimitive || m1.storage[k] is Complex) by {
        assert(m0.storage.contains_key(k) && (m0.storage[k] is ReferencedPrimitive || m0.storage[k]
            is Complex));
    }
    assert(crate::manager::allocs_wf(m1));
    assert(crate::manager::chunks_wf(m1));
    assert forall|k: u64| #[trigger] prim_range(m1.storage, k) == prim_range(m0.storage, k) by {
        if k == ssym {
            assert(prim_range(m0.storage, k) is None);
        }
    }
    assert(crate::manager::blocks_disjoint(m1));
    assert forall|k: u64|
        #![trigger m1.prim_syms.contains(k)]
        #![trigger m1.storage.contains_key(k)]
        m1.prim_syms.contains(k) <==> local_prim(m1.storage, k) by {
        assert(local_prim(m1.storage, k) == local_prim(m0.storage, k));
    }
    assert(crate::manager::prim_syms_ok(m1));
    assert(crate::manager::frame_conserved(m1));
}


impl<ASM: Assembler, CC: CallConv> StorageManager<ASM, CC> {
    /// The position of `sym`'s entry in the general used list.
    fn find_general_used(&self, reg: GeneralReg, sym: u64) -> (i: usize)
        requires
            self@.general_used.contains((reg, sym)),
            crate::manager::used_syms_distinct(self@.general_used),
        ensures
            i < self@.general_used.len(),
            self@.general_used[i as int] == (reg, sym),
            self@.general_used.index_of((reg, sym)) == i as int,
    {
        let ghost entry = (reg, sym);
        let mut i: usize = 0;
        while i < self.general_used_regs.len()
            invariant
                entry == (reg, sym),
                self@.general_used.contains(entry),
                crate::manager::used_syms_distinct(self@.general_used),
                0 <= i <= self@.general_used.len(),
                forall|j: int| 0 <= j < i ==> (#[trigger] self@.general_used[j]).1 != sym,
            decreases self@.general_used.len() - i,
        {
            if self.general_used_regs[i].1 == sym {
                proof {
                    let j = choose|j: int|
                        0 <= j < self@.general_used.len() && self@.general_used[j] == entry;
                    assert(j == i as int);
                    let idx = self@.general_used.index_of(entry);
                    assert(0 <= idx < self@.general_used.len() && self@.general_used[idx] == entry);
                    assert(idx == i as int);
                }
                return i;
            }
            i = i + 1;
        }
        proof {
            let j = choose|j: int|
                0 <= j < self@.general_used.len() && self@.general_used[j] == entry;
            assert(false);
        }
        0
    }

    /// The position of `sym`'s entry in the float used list.
    fn find_float_used(&self, reg: FloatReg, sym: u64) -> (i: usize)
        requires
            self@.float_used.contains((reg, sym)),
            crate::manager::used_syms_distinct(self@.float_used),
        ensures
            i < self@.float_used.len(),
            self@.float_used[i as int] == (reg, sym),
            self@.float_used.index_of((reg, sym)) == i as int,
    {
        let ghost entry = (reg, sym);
        let mut i: usize = 0;
        while i < self.float_used_regs.len()
            invariant
                entry == (reg, sym),
                self@.float_used.contains(entry),
                crate::manager::used_syms_distinct(self@.float_used),
                0 <= i <= self@.float_used.len(),
                forall|j: int| 0 <= j < i ==> (#[trigger] self@.float_used[j]).1 != sym,
            decreases self@.float_used.len() - i,
        {
            if self.float_used_regs[i].1 == sym {
                proof {
                    let j = choose|j: int|
                        0 <= j < self@.float_used.len() && self@.float_used[j] == entry;
                    assert(j == i as int);
                    let idx = self@.float_used.index_of(entry);
                    assert(0 <= idx < self@.float_used.len() && self@.float_used[idx] == entry);
                    assert(idx == i as int);
                }
                return i;
            }
            i = i + 1;
        }
        proof {
            let j = choose|j: int|
                0 <= j < self@.float_used.len() && self@.float_used[j] == entry;
            assert(false);
        }
        0
    }

    /// Release everything `sym` holds: its register (if any) returns to the
    /// free list, a primitive slot returns to the free-chunk list, and an
    /// allocation reference is dropped, reclaiming the backing chunk when it
    /// was the last.
    #[verifier::rlimit(100)]
    #[verifier::spinoff_prover]
    pub fn free_symbol(&mut self, sym: &Symbol)
        requires
            old(self).inv(),
            old(self)@.storage.contains_key(sym.0),
        ensures
            final(self).inv(),
            ({
                let m0 = old(self)@;
                let storage1 = m0.storage.remove(sym.0);
                match m0.storage[sym.0] {
                    Storage::NoData => final(self)@ == (Model { storage: storage1, ..m0 }),
                    Storage::Reg(RegStorage::General(r)) => final(self)@ == (Model {
                        storage: storage1,
                        general_used: m0.general_used.remove(
                            m0.general_used.index_of((r, sym.0)),
                        ),
                        general_free: m0.general_free.push(r),
                        prim_syms: m0.prim_syms.remove(sym.0),
                        ..m0
                    }),
                    Storage::Reg(RegStorage::Float(r)) => final(self)@ == (Model {
                        storage: storage1,
                        float_used: m0.float_used.remove(m0.float_used.index_of((r, sym.0))),
                        float_free: m0.float_free.push(r),
                        prim_syms: m0.prim_syms.remove(sym.0),
                        ..m0
                    }),
                    Storage::Primitive { base_offset, reg } => match reg {
                        Some(RegStorage::General(r)) => final(self)@ == (Model {
                            storage: storage1,
                            general_used: m0.general_used.remove(
                                m0.general_used.index_of((r, sym.0)),
                            ),
                            general_free: m0.general_free.push(r),
                            chunks: free_insert(m0.chunks, base_offset, 8),
                            prim_syms: m0.prim_syms.remove(sym.0),
                            ..m0
                        }),
                        Some(RegStorage::Float(r)) => final(self)@ == (Model {
                            storage: storage1,
                            float_used: m0.float_used.remove(m0.float_used.index_of((r, sym.0))),
                            float_free: m0.float_free.push(r),
                            chunks: free_insert(m0.chunks, base_offset, 8),
                            prim_syms: m0.prim_syms.remove(sym.0),
                            ..m0
                        }),
                        None => final(self)@ == (Model {
                            storage: storage1,
                            chunks: free_insert(m0.chunks, base_offset, 8),
                            prim_syms: m0.prim_syms.remove(sym.0),
                            ..m0
                        }),
                    },
                    _ => {
                        let i = m0.alloc_index[sym.0] as int;
                        let c = m0.allocations[i];
                        if c.refs == 1 {
                            final(self)@ == (Model {
                                storage: storage1,
                                alloc_index: m0.alloc_index.remove(sym.0),
                                allocations: m0.allocations.update(i, retire_cell(c)),
                                chunks: free_insert(m0.chunks, c.base_offset, c.size),
                                ..m0
                            })
                        } else {
                            final(self)@ == (Model {
                                storage: storage1,
                                alloc_index: m0.alloc_index.remove(sym.0),
                                allocations: m0.allocations.update(i, dec_cell(c, sym.0)),
                                ..m0
                            })
                        }
                    },
                }
            }),
    {
        let ghost m0 = self@;
        let s = match self.symbol_storage_map.get(&sym.0) {
            Some(s) => *s,
            None => {
                proof {
                    assert(false);
                }
                Storage::NoData
            },
        };
        match s {
            Storage::NoData => {
                self.symbol_storage_map.remove(&sym.0);
                proof {
                    assert(self@ =~= (Model { storage: m0.storage.remove(sym.0), ..m0 }));
                    lemma_drop_plain::<CC>(m0, self@, sym.0);
                }
            },
            Storage::Reg(RegStorage::General(r)) => {
                proof {
                    assert(m0.general_used.contains((r, sym.0)));
                }
                let i = self.find_general_used(r, sym.0);
                self.symbol_storage_map.remove(&sym.0);
                self.general_used_regs.remove(i);
                self.general_free_regs.push(r);
                proof {
                    self.prim_syms@ = m0.prim_syms.remove(sym.0);
                    assert(m0.prim_syms.remove(sym.0) =~= m0.prim_syms);
                    assert(self@ =~= (Model {
                        storage: m0.storage.remove(sym.0),
                        general_used: m0.general_used.remove(i as int),
                        general_free: m0.general_free.push(r),
                        prim_syms: m0.prim_syms.remove(sym.0),
                        ..m0
                    }));
                    lemma_drop_sym_entry_general::<CC>(m0, self@, i as int);
                }
            },
            Storage::Reg(RegStorage::Float(r)) => {
                proof {
                    assert(m0.float_used.contains((r, sym.0)));
                }
                let i = self.find_float_used(r, sym.0);
                self.symbol_storage_map.remove(&sym.0);
                self.float_used_regs.remove(i);
                self.float_free_regs.push(r);
                proof {
                    self.prim_syms@ = m0.prim_syms.remove(sym.0);
                    assert(m0.prim_syms.remove(sym.0) =~= m0.prim_syms);
                    assert(self@ =~= (Model {
                        storage: m0.storage.remove(sym.0),
                        float_used: m0.float_used.remove(i as int),
                        float_free: m0.float_free.push(r),
                        prim_syms: m0.prim_syms.remove(sym.0),
                        ..m0
                    }));
                    lemma_drop_sym_entry_float::<CC>(m0, self@, i as int);
                }
            },
            Storage::Primitive { base_offset, reg } => {
                match reg {
                    Some(RegStorage::General(r)) => {
                        proof {
                            assert(m0.general_used.contains((r, sym.0)));
                        }
                        let i = self.find_general_used(r, sym.0);
                        self.symbol_storage_map.remove(&sym.0);
                        self.general_used_regs.remove(i);
                        self.general_free_regs.push(r);
                        let ghost m1 = (Model {
                            storage: m0.storage.remove(sym.0),
                            general_used: m0.general_used.remove(i as int),
                            general_free: m0.general_free.push(r),
                            prim_syms: m0.prim_syms.remove(sym.0),
                            ..m0
                        });
                        proof {
                            self.prim_syms@ = m0.prim_syms.remove(sym.0);
                            assert(self@ =~= m1);
                            lemma_drop_sym_entry_general::<CC>(m0, self@, i as int);
                        }
                        self.free_stack_chunk(base_offset, 8);
                        proof {
                            lemma_after_chunk_freed::<CC>(m1, self@, sym.0, 0, base_offset, 8);
                        }
                    },
                    Some(RegStorage::Float(r)) => {
                        proof {
                            assert(m0.float_used.contains((r, sym.0)));
                        }
                        let i = self.find_float_used(r, sym.0);
                        self.symbol_storage_map.remove(&sym.0);
                        self.float_used_regs.remove(i);
                        self.float_free_regs.push(r);
                        let ghost m1 = (Model {
                            storage: m0.storage.remove(sym.0),
                            float_used: m0.float_used.remove(i as int),
                            float_free: m0.float_free.push(r),
                            prim_syms: m0.prim_syms.remove(sym.0),
                            ..m0
                        });
                        proof {
                            self.prim_syms@ = m0.prim_syms.remove(sym.0);
                            assert(self@ =~= m1);
                            lemma_drop_sym_entry_float::<CC>(m0, self@, i as int);
                        }
                        self.free_stack_chunk(base_offset, 8);
                        proof {
                            lemma_after_chunk_freed::<CC>(m1, self@, sym.0, 0, base_offset, 8);
                        }
                    },
                    None => {
                        self.symbol_storage_map.remove(&sym.0);
                        let ghost m1 = (Model {
                            storage: m0.storage.remove(sym.0),
                            prim_syms: m0.prim_syms.remove(sym.0),
                            ..m0
                        });
                        proof {
                            self.prim_syms@ = m0.prim_syms.remove(sym.0);
                            assert(self@ =~= m1);
                            lemma_drop_prim_noreg::<CC>(m0, self@, sym.0);
                        }
                        self.free_stack_chunk(base_offset, 8);
                        proof {
                            lemma_after_chunk_freed::<CC>(m1, self@, sym.0, 0, base_offset, 8);
                        }
                    },
                }
            },
            _ => {
                self.symbol_storage_map.remove(&sym.0);
                proof {
                    assert(self@ =~= (Model { storage: m0.storage.remove(sym.0), ..m0 }));
                    lemma_detach_ref::<CC>(m0, self@, sym.0);
                }
                self.free_reference(sym.0);
            },
        }
    }
}

} // verus!
