//! The storage manager proper: the joint register allocator, spill manager
//! and stack-frame builder for one function body.
//!
//! The manager's state is summarised by a ghost [`Model`]; the well-formedness
//! predicate [`model_inv`] collects the structural laws every public
//! operation preserves:
//!
//! - every register is in exactly one of the free or used lists of its family;
//! - a `(register, symbol)` pair is in a used list exactly when the symbol's
//!   storage names that register, and vice versa;
//! - every callee-saved register in a used list has been recorded for the
//!   epilogue;
//! - the free-chunk list is strictly increasing in offset and maximally
//!   coalesced: no two chunks touch;
//! - no live stack range overlaps another or a free chunk;
//! - each allocation's reference count equals the number of live symbols
//!   pointing into it;
//! - `stack_size` equals the bytes of the local frame covered by free chunks
//!   plus those covered by live allocations.
use vstd::prelude::*;

use core::marker::PhantomData;
use std::collections::HashMap;

use crate::target::{Assembler, CallConv};
use crate::machine::{FloatReg, GeneralReg, Storage};

verus! {

/// Incoming stack arguments live at or above this base-pointer displacement;
/// the bytes below it and above the frame hold the saved base pointer and the
/// return address.
pub const ARG_BASE: i32 = 16;

/// One stack allocation backing `Complex` and `ReferencedPrimitive` storage.
/// Several symbols may point into the same allocation; the chunk returns to
/// the free list when the last of them dies.
pub struct AllocCell {
    /// Base-pointer-relative offset of the chunk's first byte.
    pub base_offset: i32,
    /// Size of the chunk in bytes.
    pub size: u32,
    /// How many live symbols point into the chunk; 0 marks a retired cell.
    pub refs: u32,
    /// The symbols pointing into the chunk.
    pub owners: Ghost<Set<u64>>,
}

/// The manager's state as contracts speak of it: each component is the
/// mathematical view of the matching field.
#[verifier::ext_equal]
pub ghost struct Model {
    /// Where each live symbol's value lives, keyed by symbol identifier.
    pub storage: Map<u64, Storage>,
    /// The allocation (an index into `allocations`) that each symbol with
    /// `Complex` or `ReferencedPrimitive` storage points into.
    pub alloc_index: Map<u64, usize>,
    /// All allocations handed out so far; retired cells keep `refs == 0`.
    pub allocations: Seq<AllocCell>,
    /// General registers available for claiming; the last is handed out first.
    pub general_free: Seq<GeneralReg>,
    /// Float registers available for claiming.
    pub float_free: Seq<FloatReg>,
    /// Occupied general registers and the symbols they hold, oldest first.
    pub general_used: Seq<(GeneralReg, u64)>,
    /// Occupied float registers and the symbols they hold, oldest first.
    pub float_used: Seq<(FloatReg, u64)>,
    /// Callee-saved general registers consumed at least once since `reset`.
    pub general_callee_used: Seq<GeneralReg>,
    /// Callee-saved float registers consumed at least once since `reset`.
    pub float_callee_used: Seq<FloatReg>,
    /// Reclaimable stack chunks as `(offset, size)`, sorted by offset.
    pub chunks: Seq<(i32, u32)>,
    /// Bytes of local frame claimed so far; the frame is `[-stack_size, 0)`.
    pub stack_size: u32,
    /// Extra prologue bytes needed for outgoing call arguments.
    pub fn_call_stack_size: u32,
    /// The symbols stored as `Primitive` slots within the local frame.
    pub prim_syms: Set<u64>,
}

/// Decides where every symbol lives at every program point — general
/// register, float register, or stack slot — emitting the required moves
/// through `ASM` and honouring the register classification of `CC`. Bound to
/// one function body at a time; `reset` starts the next.
pub struct StorageManager<ASM: Assembler, CC: CallConv> {
    pub(crate) emitter: PhantomData<ASM>,
    pub(crate) conv: PhantomData<CC>,
    pub(crate) symbol_storage_map: HashMap<u64, Storage>,
    pub(crate) allocation_map: HashMap<u64, usize>,
    pub(crate) allocations: Vec<AllocCell>,
    pub(crate) general_free_regs: Vec<GeneralReg>,
    pub(crate) float_free_regs: Vec<FloatReg>,
    pub(crate) general_used_regs: Vec<(GeneralReg, u64)>,
    pub(crate) float_used_regs: Vec<(FloatReg, u64)>,
    pub(crate) general_used_callee_saved_regs: Vec<GeneralReg>,
    pub(crate) float_used_callee_saved_regs: Vec<FloatReg>,
    pub(crate) free_stack_chunks: Vec<(i32, u32)>,
    pub(crate) stack_size: u32,
    pub(crate) fn_call_stack_size: u32,
    pub(crate) prim_syms: Ghost<Set<u64>>,
}

impl<ASM: Assembler, CC: CallConv> View for StorageManager<ASM, CC> {
    type V = Model;

    open(crate) spec fn view(&self) -> Model {
        Model {
            storage: self.symbol_storage_map@,
            alloc_index: self.allocation_map@,
            allocations: self.allocations@,
            general_free: self.general_free_regs@,
            float_free: self.float_free_regs@,
            general_used: self.general_used_regs@,
            float_used: self.float_used_regs@,
            general_callee_used: self.general_used_callee_saved_regs@,
            float_callee_used: self.float_used_callee_saved_regs@,
            chunks: self.free_stack_chunks@,
            stack_size: self.stack_size,
            fn_call_stack_size: self.fn_call_stack_size,
            prim_syms: self.prim_syms@,
        }
    }
}

/// Two byte ranges do not intersect.
pub open spec fn ranges_disjoint(o1: int, s1: int, o2: int, s2: int) -> bool {
    o1 + s1 <= o2 || o2 + s2 <= o1
}

/// Two optional byte ranges do not intersect.
pub open spec fn opt_ranges_disjoint(a: Option<(int, int)>, b: Option<(int, int)>) -> bool {
    match (a, b) {
        (Some((o1, s1)), Some((o2, s2))) => ranges_disjoint(o1, s1, o2, s2),
        _ => true,
    }
}

/// A byte range the manager may own: inside the local frame
/// `[-stack_size, 0)`, or in the incoming-argument area at or above
/// `ARG_BASE`.
pub open spec fn in_frame(stack_size: int, off: int, size: int) -> bool {
    (off < 0 && -stack_size <= off && off + size <= 0) || (ARG_BASE <= off && off + size
        <= i32::MAX)
}

/// No register appears twice in a used list.
pub open spec fn used_regs_distinct<R>(used: Seq<(R, u64)>) -> bool {
    forall|i: int, j: int|
        0 <= i < j < used.len() ==> (#[trigger] used[i]).0 != (#[trigger] used[j]).0
}

/// No symbol appears twice in a used list.
pub open spec fn used_syms_distinct<R>(used: Seq<(R, u64)>) -> bool {
    forall|i: int, j: int|
        0 <= i < j < used.len() ==> (#[trigger] used[i]).1 != (#[trigger] used[j]).1
}

/// No register is both free and used.
pub open spec fn free_used_disjoint<R>(free: Seq<R>, used: Seq<(R, u64)>) -> bool {
    forall|i: int, j: int|
        0 <= i < free.len() && 0 <= j < used.len() ==> #[trigger] free[i] != (
        #[trigger] used[j]).0
}

/// Every register is in exactly one of the free or used lists of its family
/// (each list duplicate-free, the two disjoint), and no symbol holds two
/// registers of one family.
pub open spec fn pools_wf(m: Model) -> bool {
    &&& m.general_free.no_duplicates()
    &&& m.float_free.no_duplicates()
    &&& used_regs_distinct(m.general_used)
    &&& used_regs_distinct(m.float_used)
    &&& used_syms_distinct(m.general_used)
    &&& used_syms_distinct(m.float_used)
    &&& free_used_disjoint(m.general_free, m.general_used)
    &&& free_used_disjoint(m.float_free, m.float_used)
}

/// A used-list entry names a symbol whose storage holds that register, and
/// every register-holding symbol has its entry in the used list.
pub open spec fn used_lists_match(m: Model) -> bool {
    &&& forall|i: int|
        0 <= i < m.general_used.len() ==> {
            let (r, k) = #[trigger] m.general_used[i];
            m.storage.contains_key(k) && m.storage[k].general_reg() == Some(r)
        }
    &&& forall|i: int|
        0 <= i < m.float_used.len() ==> {
            let (r, k) = #[trigger] m.float_used[i];
            m.storage.contains_key(k) && m.storage[k].float_reg() == Some(r)
        }
    &&& forall|k: u64|
        #[trigger] m.storage.contains_key(k) ==> match m.storage[k].general_reg() {
            Some(r) => m.general_used.contains((r, k)),
            None => true,
        }
    &&& forall|k: u64|
        #[trigger] m.storage.contains_key(k) ==> match m.storage[k].float_reg() {
            Some(r) => m.float_used.contains((r, k)),
            None => true,
        }
}

/// Every callee-saved register now in a used list has been recorded for the
/// epilogue; the records are duplicate-free.
pub open spec fn callee_saved_tracked<CC: CallConv>(m: Model) -> bool {
    &&& m.general_callee_used.no_duplicates()
    &&& m.float_callee_used.no_duplicates()
    &&& forall|i: int|
        0 <= i < m.general_used.len() && CC::spec_general_callee_saved(
            (#[trigger] m.general_used[i]).0,
        ) ==> m.general_callee_used.contains(m.general_used[i].0)
    &&& forall|i: int|
        0 <= i < m.float_used.len() && CC::spec_float_callee_saved(
            (#[trigger] m.float_used[i]).0,
        ) ==> m.float_callee_used.contains(m.float_used[i].0)
}

/// The stack range a symbol's storage points into, if any.
pub open spec fn stack_range(s: Storage) -> Option<(int, int)> {
    match s {
        Storage::Primitive { base_offset, .. } => Some((base_offset as int, 8)),
        Storage::ReferencedPrimitive { base_offset, size } => Some(
            (base_offset as int, size as int),
        ),
        Storage::Complex { base_offset, size } => Some((base_offset as int, size as int)),
        _ => None,
    }
}

/// The stack slot a symbol owns directly (not through an allocation cell).
pub open spec fn prim_range(storage: Map<u64, Storage>, k: u64) -> Option<(int, int)> {
    if storage.contains_key(k) {
        match storage[k] {
            Storage::Primitive { base_offset, .. } => Some((base_offset as int, 8)),
            _ => None,
        }
    } else {
        None
    }
}

/// The stack range of a live allocation cell.
pub open spec fn cell_range(cells: Seq<AllocCell>, i: int) -> Option<(int, int)> {
    if 0 <= i < cells.len() && cells[i].refs > 0 {
        Some((cells[i].base_offset as int, cells[i].size as int))
    } else {
        None
    }
}

/// The range of a free chunk.
pub open spec fn chunk_range(chunks: Seq<(i32, u32)>, i: int) -> Option<(int, int)> {
    if 0 <= i < chunks.len() {
        Some((chunks[i].0 as int, chunks[i].1 as int))
    } else {
        None
    }
}

/// The symbol's storage points into its allocation cell, which is live.
pub open spec fn points_into_alloc(
    alloc_index: Map<u64, usize>,
    cells: Seq<AllocCell>,
    k: u64,
    off: int,
    size: int,
) -> bool {
    &&& alloc_index.contains_key(k)
    &&& alloc_index[k] < cells.len()
    &&& {
        let c = cells[alloc_index[k] as int];
        &&& c.refs > 0
        &&& c.base_offset <= off
        &&& off + size <= c.base_offset + c.size
    }
}

/// What each kind of storage guarantees about its stack range.
pub open spec fn storage_entry_ok(
    storage: Map<u64, Storage>,
    alloc_index: Map<u64, usize>,
    cells: Seq<AllocCell>,
    stack_size: int,
    k: u64,
) -> bool {
    match storage[k] {
        Storage::Reg(_) => true,
        Storage::Primitive { base_offset, .. } => base_offset % 8 == 0 && in_frame(
            stack_size,
            base_offset as int,
            8,
        ),
        Storage::ReferencedPrimitive { base_offset, size } => 1 <= size <= 8 && points_into_alloc(
            alloc_index,
            cells,
            k,
            base_offset as int,
            size as int,
        ),
        Storage::Complex { base_offset, size } => size >= 1 && points_into_alloc(
            alloc_index,
            cells,
            k,
            base_offset as int,
            size as int,
        ),
        Storage::NoData => true,
    }
}

/// Every live symbol's storage is well formed, and only symbols with
/// `Complex` or `ReferencedPrimitive` storage hold an allocation edge.
pub open spec fn storage_wf(m: Model) -> bool {
    &&& forall|k: u64|
        #[trigger] m.storage.contains_key(k) ==> storage_entry_ok(
            m.storage,
            m.alloc_index,
            m.allocations,
            m.stack_size as int,
            k,
        )
    &&& forall|k: u64|
        #[trigger] m.alloc_index.contains_key(k) ==> m.storage.contains_key(k)
            && (m.storage[k] is ReferencedPrimitive || m.storage[k] is Complex)
}

/// An allocation cell's reference count equals the number of live symbols
/// pointing into it (its owners), and a live cell's range is an aligned
/// region the manager may own.
pub open spec fn cell_ok(
    alloc_index: Map<u64, usize>,
    cells: Seq<AllocCell>,
    stack_size: int,
    i: int,
) -> bool {
    let c = cells[i];
    &&& c.owners@.finite()
    &&& c.refs == c.owners@.len()
    &&& forall|k: u64|
        #![trigger c.owners@.contains(k)]
        #![trigger alloc_index.contains_key(k)]
        c.owners@.contains(k) <==> (alloc_index.contains_key(k) && alloc_index[k] == i)
    &&& (c.refs > 0 ==> c.base_offset % 8 == 0 && c.size % 8 == 0 && c.size > 0 && in_frame(
        stack_size,
        c.base_offset as int,
        c.size as int,
    ))
}

/// All allocation cells are well formed.
pub open spec fn allocs_wf(m: Model) -> bool {
    forall|i: int|
        0 <= i < m.allocations.len() ==> #[trigger] cell_ok(
            m.alloc_index,
            m.allocations,
            m.stack_size as int,
            i,
        )
}

/// Every chunk is a non-empty, aligned range the manager may own.
pub open spec fn chunk_elems_ok(chunks: Seq<(i32, u32)>, stack_size: int) -> bool {
    forall|i: int|
        0 <= i < chunks.len() ==> {
            let (off, size) = #[trigger] chunks[i];
            size > 0 && off % 8 == 0 && size % 8 == 0 && in_frame(
                stack_size,
                off as int,
                size as int,
            )
        }
}

/// The chunk list is strictly increasing in offset and maximally coalesced:
/// each chunk ends strictly before the next begins.
pub open spec fn chunks_sorted(chunks: Seq<(i32, u32)>) -> bool {
    forall|i: int|
        0 <= i && i + 1 < chunks.len() ==> (#[trigger] chunks[i]).0 + chunks[i].1 < chunks[i + 1].0
}

/// The free-chunk list is strictly increasing in offset and maximally
/// coalesced, with aligned chunks the manager may own.
pub open spec fn chunks_wf(m: Model) -> bool {
    &&& chunk_elems_ok(m.chunks, m.stack_size as int)
    &&& chunks_sorted(m.chunks)
}

/// No two live stack ranges overlap, and none overlaps a free chunk.
pub open spec fn blocks_disjoint(m: Model) -> bool {
    &&& forall|k1: u64, k2: u64|
        k1 != k2 ==> opt_ranges_disjoint(
            #[trigger] prim_range(m.storage, k1),
            #[trigger] prim_range(m.storage, k2),
        )
    &&& forall|i: int, j: int|
        i != j ==> opt_ranges_disjoint(
            #[trigger] cell_range(m.allocations, i),
            #[trigger] cell_range(m.allocations, j),
        )
    &&& forall|k: u64, i: int|
        opt_ranges_disjoint(
            #[trigger] prim_range(m.storage, k),
            #[trigger] cell_range(m.allocations, i),
        )
    &&& forall|k: u64, i: int|
        opt_ranges_disjoint(
            #[trigger] prim_range(m.storage, k),
            #[trigger] chunk_range(m.chunks, i),
        )
    &&& forall|i: int, j: int|
        opt_ranges_disjoint(
            #[trigger] cell_range(m.allocations, i),
            #[trigger] chunk_range(m.chunks, j),
        )
}

/// Whether a symbol is stored as a `Primitive` slot inside the local frame.
pub open spec fn local_prim(storage: Map<u64, Storage>, k: u64) -> bool {
    storage.contains_key(k) && match storage[k] {
        Storage::Primitive { base_offset, .. } => base_offset < 0,
        _ => false,
    }
}

/// Bytes of local frame covered by free chunks.
pub open spec fn chunk_bytes(chunks: Seq<(i32, u32)>) -> int
    decreases chunks.len(),
{
    if chunks.len() == 0 {
        0
    } else {
        chunk_bytes(chunks.drop_last()) + if chunks.last().0 < 0 {
            chunks.last().1 as int
        } else {
            0
        }
    }
}

/// Bytes of local frame covered by live allocation cells.
pub open spec fn cell_bytes(cells: Seq<AllocCell>) -> int
    decreases cells.len(),
{
    if cells.len() == 0 {
        0
    } else {
        cell_bytes(cells.drop_last()) + if cells.last().refs > 0 && cells.last().base_offset < 0 {
            cells.last().size as int
        } else {
            0
        }
    }
}

/// The ghost set `prim_syms` names exactly the symbols stored as `Primitive`
/// slots inside the local frame.
pub open spec fn prim_syms_ok(m: Model) -> bool {
    &&& m.prim_syms.finite()
    &&& (forall|k: u64|
        #![trigger m.prim_syms.contains(k)]
        #![trigger m.storage.contains_key(k)]
        m.prim_syms.contains(k) <==> local_prim(m.storage, k))
}

/// Conservation of frame: `stack_size` equals the local-frame bytes covered
/// by free chunks, live primitive slots and live allocations together.
pub open spec fn frame_conserved(m: Model) -> bool {
    &&& m.stack_size % 8 == 0
    &&& m.stack_size <= i32::MAX
    &&& m.stack_size as int == chunk_bytes(m.chunks) + 8 * m.prim_syms.len() + cell_bytes(
        m.allocations,
    )
}

/// Everything the invariant asks apart from the frame-conservation equation:
/// the internal steps of an operation that trades a live block for a free
/// chunk preserve this part throughout.
pub open spec fn structural_inv<CC: CallConv>(m: Model) -> bool {
    &&& pools_wf(m)
    &&& used_lists_match(m)
    &&& callee_saved_tracked::<CC>(m)
    &&& storage_wf(m)
    &&& allocs_wf(m)
    &&& chunks_wf(m)
    &&& blocks_disjoint(m)
    &&& prim_syms_ok(m)
}

/// The well-formedness invariant every public operation preserves.
pub open spec fn model_inv<CC: CallConv>(m: Model) -> bool {
    &&& structural_inv::<CC>(m)
    &&& frame_conserved(m)
}

impl<ASM: Assembler, CC: CallConv> StorageManager<ASM, CC> {
    /// The well-formedness invariant every public operation preserves.
    pub open spec fn inv(self) -> bool {
        model_inv::<CC>(self@)
    }
}

/// A manager with no bound symbols, no registers and an empty frame; `reset`
/// seeds the free registers.
pub fn new_storage_manager<ASM: Assembler, CC: CallConv>() -> (m: StorageManager<ASM, CC>)
    ensures
        m.inv(),
        m@.storage == Map::<u64, Storage>::empty(),
        m@.alloc_index == Map::<u64, usize>::empty(),
        m@.allocations == Seq::<AllocCell>::empty(),
        m@.general_free == Seq::<GeneralReg>::empty(),
        m@.float_free == Seq::<FloatReg>::empty(),
        m@.general_used == Seq::<(GeneralReg, u64)>::empty(),
        m@.float_used == Seq::<(FloatReg, u64)>::empty(),
        m@.general_callee_used == Seq::<GeneralReg>::empty(),
        m@.float_callee_used == Seq::<FloatReg>::empty(),
        m@.chunks == Seq::<(i32, u32)>::empty(),
        m@.stack_size == 0,
        m@.fn_call_stack_size == 0,
{
    let m = StorageManager {
        emitter: PhantomData,
        conv: PhantomData,
        symbol_storage_map: HashMap::new(),
        allocation_map: HashMap::new(),
        allocations: Vec::new(),
        general_free_regs: Vec::new(),
        float_free_regs: Vec::new(),
        general_used_regs: Vec::new(),
        float_used_regs: Vec::new(),
        general_used_callee_saved_regs: Vec::new(),
        float_used_callee_saved_regs: Vec::new(),
        free_stack_chunks: Vec::new(),
        stack_size: 0,
        fn_call_stack_size: 0,
        prim_syms: Ghost(Set::empty()),
    };
    proof {
        assert(m@.prim_syms =~= Set::new(|k: u64| local_prim(m@.storage, k)));
    }
    m
}

impl<ASM: Assembler, CC: CallConv> StorageManager<ASM, CC> {
    /// Forget the previous function body: unbind every symbol, restore the
    /// calling convention's default free registers, and empty the frame.
    pub fn reset(&mut self)
        ensures
            final(self).inv(),
            final(self)@.storage == Map::<u64, Storage>::empty(),
            final(self)@.alloc_index == Map::<u64, usize>::empty(),
            final(self)@.allocations == Seq::<AllocCell>::empty(),
            final(self)@.general_free == CC::spec_general_default_free_regs(),
            final(self)@.float_free == CC::spec_float_default_free_regs(),
            final(self)@.general_used == Seq::<(GeneralReg, u64)>::empty(),
            final(self)@.float_used == Seq::<(FloatReg, u64)>::empty(),
            final(self)@.general_callee_used == Seq::<GeneralReg>::empty(),
            final(self)@.float_callee_used == Seq::<FloatReg>::empty(),
            final(self)@.chunks == Seq::<(i32, u32)>::empty(),
            final(self)@.stack_size == 0,
            final(self)@.fn_call_stack_size == 0,
    {
        self.symbol_storage_map.clear();
        self.allocation_map.clear();
        self.allocations = Vec::new();
        self.general_used_callee_saved_regs = Vec::new();
        self.general_free_regs = CC::general_default_free_regs();
        self.general_used_regs = Vec::new();
        self.float_used_callee_saved_regs = Vec::new();
        self.float_free_regs = CC::float_default_free_regs();
        self.float_used_regs = Vec::new();
        self.free_stack_chunks = Vec::new();
        self.stack_size = 0;
        self.fn_call_stack_size = 0;
        self.prim_syms = Ghost(Set::empty());
        proof {
            assert(self@.prim_syms =~= Set::new(|k: u64| local_prim(self@.storage, k)));
        }
    }

    /// Bytes of local frame claimed so far. A consumer reads this after body
    /// emission to size the prologue.
    pub fn stack_size(&self) -> (n: u32)
        ensures
            n == self@.stack_size,
    {
        self.stack_size
    }

    /// Extra prologue bytes needed to pass outgoing call arguments.
    pub fn fn_call_stack_size(&self) -> (n: u32)
        ensures
            n == self@.fn_call_stack_size,
    {
        self.fn_call_stack_size
    }

    /// The callee-saved general registers consumed since `reset`; the
    /// epilogue generator must restore exactly these.
    pub fn general_used_callee_saved_regs(&self) -> (v: &Vec<GeneralReg>)
        ensures
            v@ == self@.general_callee_used,
    {
        &self.general_used_callee_saved_regs
    }

    /// The callee-saved float registers consumed since `reset`.
    pub fn float_used_callee_saved_regs(&self) -> (v: &Vec<FloatReg>)
        ensures
            v@ == self@.float_callee_used,
    {
        &self.float_used_callee_saved_regs
    }

    /// The reclaimable stack chunks, sorted by offset.
    pub fn free_stack_chunks(&self) -> (v: &Vec<(i32, u32)>)
        ensures
            v@ == self@.chunks,
    {
        &self.free_stack_chunks
    }

    /// The occupied general registers and the symbols they hold, oldest
    /// first.
    pub fn general_used_regs(&self) -> (v: &Vec<(GeneralReg, u64)>)
        ensures
            v@ == self@.general_used,
    {
        &self.general_used_regs
    }

    /// The occupied float registers and the symbols they hold, oldest first.
    pub fn float_used_regs(&self) -> (v: &Vec<(FloatReg, u64)>)
        ensures
            v@ == self@.float_used,
    {
        &self.float_used_regs
    }

    /// The free general registers; the last is handed out first.
    pub fn general_free_regs(&self) -> (v: &Vec<GeneralReg>)
        ensures
            v@ == self@.general_free,
    {
        &self.general_free_regs
    }

    /// The free float registers; the last is handed out first.
    pub fn float_free_regs(&self) -> (v: &Vec<FloatReg>)
        ensures
            v@ == self@.float_free,
    {
        &self.float_free_regs
    }

    /// Where `sym` currently lives, or `None` if it is not bound.
    pub fn storage_for_sym(&self, sym: &crate::machine::Symbol) -> (r: Option<Storage>)
        ensures
            r == if self@.storage.contains_key(sym.0) {
                Some(self@.storage[sym.0])
            } else {
                None::<Storage>
            },
    {
        match self.symbol_storage_map.get(&sym.0) {
            Some(s) => Some(*s),
            None => None,
        }
    }

    /// Whether `sym`, which must be bound, holds a primitive value: one that
    /// fits in a single register.
    pub fn is_stored_primitive(&self, sym: &crate::machine::Symbol) -> (b: bool)
        requires
            self@.storage.contains_key(sym.0),
        ensures
            b == self@.storage[sym.0].is_primitive(),
    {
        match self.symbol_storage_map.get(&sym.0) {
            Some(s) => match s {
                Storage::Reg(_) => true,
                Storage::Primitive { .. } => true,
                Storage::ReferencedPrimitive { .. } => true,
                _ => false,
            },
            None => false,
        }
    }

    /// Record that an upcoming call needs `tmp_size` bytes of argument stack:
    /// the reservation only ever grows.
    pub fn update_fn_call_stack_size(&mut self, tmp_size: u32)
        requires
            old(self).inv(),
        ensures
            final(self).inv(),
            final(self)@ == (Model {
                fn_call_stack_size: if tmp_size > old(self)@.fn_call_stack_size {
                    tmp_size
                } else {
                    old(self)@.fn_call_stack_size
                },
                ..old(self)@
            }),
    {
        if tmp_size > self.fn_call_stack_size {
            self.fn_call_stack_size = tmp_size;
        }
        proof {
            assert(self@ =~= (Model {
                fn_call_stack_size: self@.fn_call_stack_size,
                ..old(self)@
            }));
            assert(self@.storage == old(self)@.storage);
            assert(self@.alloc_index == old(self)@.alloc_index);
            assert(self@.allocations == old(self)@.allocations);
            assert(self@.general_free == old(self)@.general_free);
            assert(self@.float_free == old(self)@.float_free);
            assert(self@.general_used == old(self)@.general_used);
            assert(self@.float_used == old(self)@.float_used);
            assert(self@.chunks == old(self)@.chunks);
            assert(self@.prim_syms == old(self)@.prim_syms);
            assert(self@.stack_size == old(self)@.stack_size);
            assert(self@.general_callee_used == old(self)@.general_callee_used);
            assert(self@.float_callee_used == old(self)@.float_callee_used);
            assert(pools_wf(self@));
            assert(used_lists_match(self@));
            assert(callee_saved_tracked::<CC>(self@));
            assert(storage_wf(self@));
            assert(allocs_wf(self@));
            assert(chunks_wf(self@));
            assert(blocks_disjoint(self@));
            assert(prim_syms_ok(self@));
            assert(frame_conserved(self@));
        }
    }

    /// The stack offset and size of `sym`, which must be stored on the stack:
    /// a primitive slot reports 8 bytes.
    pub fn stack_offset_and_size(&self, sym: &crate::machine::Symbol) -> (r: (i32, u32))
        requires
            self@.storage.contains_key(sym.0),
            stack_range(self@.storage[sym.0]) is Some,
        ensures
            (r.0 as int, r.1 as int) == stack_range(self@.storage[sym.0]).unwrap(),
    {
        match self.symbol_storage_map.get(&sym.0) {
            Some(Storage::Primitive { base_offset, .. }) => (*base_offset, 8),
            Some(Storage::ReferencedPrimitive { base_offset, size }) => (*base_offset, *size),
            Some(Storage::Complex { base_offset, size }) => (*base_offset, *size),
            _ => {
                proof {
                    assert(false);
                }
                (0, 0)
            },
        }
    }
}

} // verus!
