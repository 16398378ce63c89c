//! The free-list stack allocator: claiming bytes of the local frame (best-fit
//! from the free-chunk list, growing the frame when nothing fits) and
//! returning chunks to the sorted, maximally coalesced list.
use vstd::prelude::*;

use crate::manager::{
    blocks_disjoint, cell_ok, cell_range, chunk_bytes, chunk_elems_ok, chunk_range, chunks_sorted,
    in_frame, opt_ranges_disjoint, prim_range, ranges_disjoint, storage_entry_ok, structural_inv,
    Model, StorageManager,
};
use crate::target::{Assembler, CallConv};

verus! {

/// `n` rounded up to the next multiple of 8.
pub open spec fn round8(n: int) -> int {
    if n % 8 == 0 {
        n
    } else {
        n + 8 - (n % 8)
    }
}

/// The bytes a chunk contributes to the local frame.
pub open spec fn chunk_contrib(c: (i32, u32)) -> int {
    if c.0 < 0 {
        c.1 as int
    } else {
        0
    }
}

/// The position of the best-fitting free chunk for `amount` bytes: the
/// smallest chunk of size at least `amount`, ties broken by the earliest
/// position.
pub open spec fn best_fit(chunks: Seq<(i32, u32)>, amount: int) -> Option<int>
    decreases chunks.len(),
{
    if chunks.len() == 0 {
        None
    } else {
        let prev = best_fit(chunks.drop_last(), amount);
        let l = chunks.len() - 1;
        if chunks[l].1 >= amount {
            match prev {
                None => Some(l),
                Some(i) => if chunks[i].1 <= chunks[l].1 {
                    Some(i)
                } else {
                    Some(l)
                },
            }
        } else {
            prev
        }
    }
}

/// A best-fit position indexes a fitting chunk; absence means nothing fits.
pub proof fn lemma_best_fit(chunks: Seq<(i32, u32)>, amount: int)
    ensures
        match best_fit(chunks, amount) {
            Some(i) => 0 <= i < chunks.len() && chunks[i].1 >= amount,
            None => forall|j: int| 0 <= j < chunks.len() ==> (#[trigger] chunks[j]).1 < amount,
        },
    decreases chunks.len(),
{
    if chunks.len() > 0 {
        lemma_best_fit(chunks.drop_last(), amount);
        if best_fit(chunks, amount) is None {
            assert forall|j: int| 0 <= j < chunks.len() implies (#[trigger] chunks[j]).1
                < amount by {
                if j < chunks.len() - 1 {
                    assert(chunks.drop_last()[j] == chunks[j]);
                }
            }
        }
    }
}

/// Whether the free-chunk list can serve `amount` bytes, either from a
/// fitting chunk or by growing the frame within the 32-bit offset range.
pub open spec fn can_claim(chunks: Seq<(i32, u32)>, stack_size: int, amount: int) -> bool {
    best_fit(chunks, round8(amount)) is Some || stack_size + round8(amount) <= i32::MAX
}

/// How `claim_stack_size` transforms the state: the new model and the offset
/// it returns.
pub open spec fn spec_claim_stack(m: Model, amount: int) -> (Model, int) {
    let a = round8(amount);
    match best_fit(m.chunks, a) {
        Some(i) => {
            let (off, size) = m.chunks[i];
            if size == a {
                (Model { chunks: m.chunks.remove(i), ..m }, off as int)
            } else {
                (
                    Model { chunks: m.chunks.update(i, ((off + a) as i32, (size - a) as u32)), ..m },
                    off as int,
                )
            }
        },
        None => (Model { stack_size: (m.stack_size + a) as u32, ..m }, -(m.stack_size as int + a)),
    }
}

/// Removing a chunk takes away exactly its contribution.
pub proof fn lemma_chunk_bytes_remove(s: Seq<(i32, u32)>, i: int)
    requires
        0 <= i < s.len(),
    ensures
        chunk_bytes(s.remove(i)) == chunk_bytes(s) - chunk_contrib(s[i]),
    decreases s.len(),
{
    if i == s.len() - 1 {
        assert(s.remove(i) =~= s.drop_last());
    } else {
        assert(s.remove(i).drop_last() =~= s.drop_last().remove(i));
        assert(s.remove(i).last() == s.last());
        lemma_chunk_bytes_remove(s.drop_last(), i);
    }
}

/// Replacing a chunk swaps its contribution for the new one.
pub proof fn lemma_chunk_bytes_update(s: Seq<(i32, u32)>, i: int, c: (i32, u32))
    requires
        0 <= i < s.len(),
    ensures
        chunk_bytes(s.update(i, c)) == chunk_bytes(s) - chunk_contrib(s[i]) + chunk_contrib(c),
    decreases s.len(),
{
    if i == s.len() - 1 {
        assert(s.update(i, c).drop_last() =~= s.drop_last());
        assert(s.update(i, c).last() == c);
    } else {
        assert(s.update(i, c).drop_last() =~= s.drop_last().update(i, c));
        assert(s.update(i, c).last() == s.last());
        lemma_chunk_bytes_update(s.drop_last(), i, c);
    }
}

/// Inserting a chunk adds exactly its contribution.
pub proof fn lemma_chunk_bytes_insert(s: Seq<(i32, u32)>, i: int, c: (i32, u32))
    requires
        0 <= i <= s.len(),
    ensures
        chunk_bytes(s.insert(i, c)) == chunk_bytes(s) + chunk_contrib(c),
    decreases s.len(),
{
    if i == s.len() {
        assert(s.insert(i, c).drop_last() =~= s);
        assert(s.insert(i, c).last() == c);
    } else {
        assert(s.insert(i, c).drop_last() =~= s.drop_last().insert(i, c));
        assert(s.insert(i, c).last() == s.last());
        lemma_chunk_bytes_insert(s.drop_last(), i, c);
    }
}

/// In a sorted, non-touching chunk list, an earlier chunk ends strictly
/// before a later chunk begins.
pub proof fn lemma_chunks_increasing(chunks: Seq<(i32, u32)>, stack_size: int, i: int, j: int)
    requires
        chunks_sorted(chunks),
        chunk_elems_ok(chunks, stack_size),
        0 <= i < j < chunks.len(),
    ensures
        chunks[i].0 + chunks[i].1 < chunks[j].0,
    decreases j - i,
{
    if j > i + 1 {
        lemma_chunks_increasing(chunks, stack_size, i, j - 1);
    }
}

/// The chunks of a sorted, non-touching list are pairwise disjoint.
pub proof fn lemma_chunks_pairwise_disjoint(chunks: Seq<(i32, u32)>, stack_size: int)
    requires
        chunks_sorted(chunks),
        chunk_elems_ok(chunks, stack_size),
    ensures
        forall|i: int, j: int|
            0 <= i < chunks.len() && 0 <= j < chunks.len() && i != j ==> ranges_disjoint(
                (#[trigger] chunks[i]).0 as int,
                chunks[i].1 as int,
                (#[trigger] chunks[j]).0 as int,
                chunks[j].1 as int,
            ),
{
    assert forall|i: int, j: int|
        0 <= i < chunks.len() && 0 <= j < chunks.len() && i != j implies ranges_disjoint(
        (#[trigger] chunks[i]).0 as int,
        chunks[i].1 as int,
        (#[trigger] chunks[j]).0 as int,
        chunks[j].1 as int,
    ) by {
        if i < j {
            lemma_chunks_increasing(chunks, stack_size, i, j);
        } else {
            lemma_chunks_increasing(chunks, stack_size, j, i);
        }
    }
}

/// Growing the frame preserves every structural law: the frame bound only
/// widens.
pub proof fn lemma_frame_grown<CC: CallConv>(m0: Model, m1: Model)
    requires
        structural_inv::<CC>(m0),
        m1 == (Model { stack_size: m1.stack_size, ..m0 }),
        m0.stack_size <= m1.stack_size,
    ensures
        structural_inv::<CC>(m1),
{
    let ss0 = m0.stack_size as int;
    let ss1 = m1.stack_size as int;
    assert forall|k: u64| #[trigger] m1.storage.contains_key(k) implies storage_entry_ok(
        m1.storage,
        m1.alloc_index,
        m1.allocations,
        ss1,
        k,
    ) by {
        assert(storage_entry_ok(m0.storage, m0.alloc_index, m0.allocations, ss0, k));
    }
    assert forall|i: int| 0 <= i < m1.allocations.len() implies #[trigger] cell_ok(
        m1.alloc_index,
        m1.allocations,
        ss1,
        i,
    ) by {
        assert(cell_ok(m0.alloc_index, m0.allocations, ss0, i));
    }
    assert forall|i: int| 0 <= i < m1.chunks.len() implies {
        let (off, size) = #[trigger] m1.chunks[i];
        size > 0 && off % 8 == 0 && size % 8 == 0 && in_frame(ss1, off as int, size as int)
    } by {
        assert(m0.chunks[i] == m1.chunks[i]);
    }
}

/// Removing one free chunk preserves every structural law.
pub proof fn lemma_chunk_removed<CC: CallConv>(m0: Model, m1: Model, p: int)
    requires
        structural_inv::<CC>(m0),
        0 <= p < m0.chunks.len(),
        m1 == (Model { chunks: m0.chunks.remove(p), ..m0 }),
    ensures
        structural_inv::<CC>(m1),
{
    let ss = m0.stack_size as int;
    assert forall|i: int| 0 <= i < m1.chunks.len() implies #[trigger] m1.chunks[i] == (if i < p {
        m0.chunks[i]
    } else {
        m0.chunks[i + 1]
    }) by {}
    assert forall|i: int| 0 <= i && i + 1 < m1.chunks.len() implies (#[trigger] m1.chunks[i]).0
        + m1.chunks[i].1 < m1.chunks[i + 1].0 by {
        if i + 1 == p {
            lemma_chunks_increasing(m0.chunks, ss, i, i + 2);
        }
    }
    assert(chunks_sorted(m1.chunks));
    assert(chunk_elems_ok(m1.chunks, ss));
    assert forall|k: u64, i: int|
        opt_ranges_disjoint(
            #[trigger] prim_range(m1.storage, k),
            #[trigger] chunk_range(m1.chunks, i),
        ) by {
        if 0 <= i < m1.chunks.len() {
            if i < p {
                assert(opt_ranges_disjoint(prim_range(m0.storage, k), chunk_range(m0.chunks, i)));
            } else {
                assert(opt_ranges_disjoint(
                    prim_range(m0.storage, k),
                    chunk_range(m0.chunks, i + 1),
                ));
            }
        }
    }
    assert forall|i: int, j: int|
        opt_ranges_disjoint(
            #[trigger] cell_range(m1.allocations, i),
            #[trigger] chunk_range(m1.chunks, j),
        ) by {
        if 0 <= j < m1.chunks.len() {
            if j < p {
                assert(opt_ranges_disjoint(
                    cell_range(m0.allocations, i),
                    chunk_range(m0.chunks, j),
                ));
            } else {
                assert(opt_ranges_disjoint(
                    cell_range(m0.allocations, i),
                    chunk_range(m0.chunks, j + 1),
                ));
            }
        }
    }
}

/// Shrinking one free chunk at the front preserves every structural law.
pub proof fn lemma_chunk_shrunk<CC: CallConv>(m0: Model, m1: Model, p: int, a: int)
    requires
        structural_inv::<CC>(m0),
        0 <= p < m0.chunks.len(),
        0 < a < m0.chunks[p].1,
        a % 8 == 0,
        m1 == (Model {
            chunks: m0.chunks.update(
                p,
                (((m0.chunks[p].0 + a) as i32), ((m0.chunks[p].1 - a) as u32)),
            ),
            ..m0
        }),
    ensures
        structural_inv::<CC>(m1),
{
    let ss = m0.stack_size as int;
    let (off, size) = m0.chunks[p];
    assert(in_frame(ss, off as int, size as int));
    assert(off as int + a <= i32::MAX);
    assert(m1.chunks[p] == (((off + a) as i32), ((size - a) as u32)));
    assert(m1.chunks[p].0 as int == off + a && m1.chunks[p].1 as int == size - a);
    assert forall|i: int| 0 <= i < m1.chunks.len() && i != p implies #[trigger] m1.chunks[i]
        == m0.chunks[i] by {}
    assert(in_frame(ss, off + a, size - a));
    assert(chunks_sorted(m1.chunks));
    assert(chunk_elems_ok(m1.chunks, ss));
    assert forall|k: u64, i: int|
        opt_ranges_disjoint(
            #[trigger] prim_range(m1.storage, k),
            #[trigger] chunk_range(m1.chunks, i),
        ) by {
        if 0 <= i < m1.chunks.len() {
            assert(opt_ranges_disjoint(prim_range(m0.storage, k), chunk_range(m0.chunks, i)));
        }
    }
    assert forall|i: int, j: int|
        opt_ranges_disjoint(
            #[trigger] cell_range(m1.allocations, i),
            #[trigger] chunk_range(m1.chunks, j),
        ) by {
        if 0 <= j < m1.chunks.len() {
            assert(opt_ranges_disjoint(cell_range(m0.allocations, i), chunk_range(m0.chunks, j)));
        }
    }
}

/// Find the best-fitting chunk for `amount` bytes.
fn find_best_fit(chunks: &Vec<(i32, u32)>, amount: u32) -> (r: Option<usize>)
    ensures
        match r {
            Some(b) => best_fit(chunks@, amount as int) == Some(b as int),
            None => best_fit(chunks@, amount as int) is None,
        },
{
    let mut best: Option<usize> = None;
    let mut j: usize = 0;
    while j < chunks.len()
        invariant
            0 <= j <= chunks@.len(),
            match best {
                Some(b) => b < j && best_fit(chunks@.take(j as int), amount as int) == Some(
                    b as int,
                ),
                None => best_fit(chunks@.take(j as int), amount as int) is None,
            },
        decreases chunks@.len() - j,
    {
        proof {
            assert(chunks@.take(j + 1).drop_last() =~= chunks@.take(j as int));
            assert(chunks@.take(j + 1).last() == chunks@[j as int]);
        }
        if chunks[j].1 >= amount {
            match best {
                None => {
                    best = Some(j);
                },
                Some(b) => {
                    if chunks[j].1 < chunks[b].1 {
                        best = Some(j);
                    }
                },
            }
        }
        j = j + 1;
    }
    proof {
        assert(chunks@.take(chunks@.len() as int) =~= chunks@);
    }
    best
}

/// How many chunks begin strictly below `off`: in a sorted list, the
/// position at which a chunk at `off` belongs.
pub open spec fn chunk_pos(chunks: Seq<(i32, u32)>, off: int) -> int
    decreases chunks.len(),
{
    if chunks.len() == 0 {
        0
    } else {
        chunk_pos(chunks.drop_last(), off) + if chunks.last().0 < off {
            1int
        } else {
            0int
        }
    }
}

/// A position below which every chunk begins below `off`, and from which
/// every chunk begins above it, is the chunk position of `off`.
pub proof fn lemma_chunk_pos_is(chunks: Seq<(i32, u32)>, off: int, p: int)
    requires
        0 <= p <= chunks.len(),
        forall|j: int| 0 <= j < p ==> (#[trigger] chunks[j]).0 < off,
        forall|j: int| p <= j < chunks.len() ==> (#[trigger] chunks[j]).0 > off,
    ensures
        chunk_pos(chunks, off) == p,
    decreases chunks.len(),
{
    if chunks.len() > 0 {
        if p == chunks.len() {
            lemma_chunk_pos_is(chunks.drop_last(), off, p - 1);
        } else {
            lemma_chunk_pos_is(chunks.drop_last(), off, p);
        }
    }
}

/// How `free_stack_chunk` transforms the chunk list: the freed range is
/// placed at its sorted position, merged with each neighbour it touches.
pub open spec fn free_insert(chunks: Seq<(i32, u32)>, off: i32, size: u32) -> Seq<(i32, u32)> {
    let p = chunk_pos(chunks, off as int);
    let merge_prev = p > 0 && chunks[p - 1].0 + chunks[p - 1].1 == off as int;
    let merge_next = p < chunks.len() && off as int + size as int == chunks[p].0 as int;
    if merge_prev && merge_next {
        chunks.update(
            p - 1,
            (chunks[p - 1].0, (chunks[p - 1].1 + size + chunks[p].1) as u32),
        ).remove(p)
    } else if merge_prev {
        chunks.update(p - 1, (chunks[p - 1].0, (chunks[p - 1].1 + size) as u32))
    } else if merge_next {
        chunks.update(p, (off, (size + chunks[p].1) as u32))
    } else {
        chunks.insert(p, (off, size))
    }
}

/// What `free_stack_chunk` asks of the freed range: an aligned, non-empty
/// range of the frame that no live storage and no free chunk overlaps.
pub open spec fn free_pre(m0: Model, off: i32, size: u32) -> bool {
    &&& m0.stack_size <= i32::MAX
    &&& chunks_sorted(m0.chunks)
    &&& chunk_elems_ok(m0.chunks, m0.stack_size as int)
    &&& blocks_disjoint(m0)
    &&& size > 0
    &&& size % 8 == 0
    &&& off % 8 == 0
    &&& in_frame(m0.stack_size as int, off as int, size as int)
    &&& forall|i: int|
        opt_ranges_disjoint(#[trigger] chunk_range(m0.chunks, i), Some((off as int, size as int)))
    &&& forall|k: u64|
        opt_ranges_disjoint(#[trigger] prim_range(m0.storage, k), Some((off as int, size as int)))
    &&& forall|i: int|
        opt_ranges_disjoint(
            #[trigger] cell_range(m0.allocations, i),
            Some((off as int, size as int)),
        )
    &&& forall|i: int|
        match #[trigger] cell_range(m0.allocations, i) {
            Some(r) => r.1 > 0,
            None => true,
        }
}

/// What `free_stack_chunk` guarantees: only the chunk list changed, as
/// [`free_insert`] says; it is again sorted and coalesced, live storage still
/// overlaps no chunk, and the freed bytes are accounted for.
pub open spec fn free_post(m0: Model, m1: Model, off: i32, size: u32) -> bool {
    &&& m1 == (Model { chunks: free_insert(m0.chunks, off, size), ..m0 })
    &&& chunks_sorted(m1.chunks)
    &&& chunk_elems_ok(m1.chunks, m1.stack_size as int)
    &&& blocks_disjoint(m1)
    &&& chunk_bytes(m1.chunks) == chunk_bytes(m0.chunks) + chunk_contrib((off, size))
}

/// A positive range disjoint from three consecutive ranges is disjoint from
/// their union.
pub proof fn lemma_opt_disjoint_merged(
    x: Option<(int, int)>,
    o: int,
    s1: int,
    s2: int,
    s3: int,
)
    requires
        s1 >= 0,
        s2 >= 0,
        s3 >= 0,
        x matches Some(r) ==> r.1 > 0,
        opt_ranges_disjoint(x, Some((o, s1))),
        opt_ranges_disjoint(x, Some((o + s1, s2))),
        opt_ranges_disjoint(x, Some((o + s1 + s2, s3))),
    ensures
        opt_ranges_disjoint(x, Some((o, s1 + s2 + s3))),
{
    if x is Some {
        let (ox, sx) = x.unwrap();
        lemma_disjoint_join(o, s1, s2, ox, sx);
        lemma_disjoint_join(o, s1 + s2, s3, ox, sx);
    }
}

/// A range disjoint from two adjacent ranges is disjoint from their union.
pub proof fn lemma_disjoint_join(o: int, s1: int, s2: int, ox: int, sx: int)
    requires
        ranges_disjoint(o, s1, ox, sx),
        ranges_disjoint(o + s1, s2, ox, sx),
        s1 >= 0,
        s2 >= 0,
        sx > 0,
    ensures
        ranges_disjoint(o, s1 + s2, ox, sx),
{
}

/// What `claim_stack_size` guarantees: the state moved as
/// [`spec_claim_stack`] says, the structural laws still hold, and the claimed
/// range is an aligned region of the frame that nothing live and no free
/// chunk overlaps.
pub open spec fn claim_post<CC: CallConv>(m0: Model, m1: Model, amount: int, off: int) -> bool {
    let a = round8(amount);
    &&& m1 == spec_claim_stack(m0, amount).0
    &&& off == spec_claim_stack(m0, amount).1
    &&& structural_inv::<CC>(m1)
    &&& off % 8 == 0
    &&& in_frame(m1.stack_size as int, off, a)
    &&& m1.stack_size % 8 == 0
    &&& m1.stack_size <= i32::MAX
    &&& m0.stack_size <= m1.stack_size
    &&& forall|k: u64| opt_ranges_disjoint(#[trigger] prim_range(m1.storage, k), Some((off, a)))
    &&& forall|i: int|
        opt_ranges_disjoint(#[trigger] cell_range(m1.allocations, i), Some((off, a)))
    &&& forall|i: int| opt_ranges_disjoint(#[trigger] chunk_range(m1.chunks, i), Some((off, a)))
    &&& m1.stack_size as int - chunk_bytes(m1.chunks) == m0.stack_size as int - chunk_bytes(
        m0.chunks,
    ) + (if off < 0 {
        a
    } else {
        0
    })
}

impl<ASM: Assembler, CC: CallConv> StorageManager<ASM, CC> {
    /// Serve a claim from a free chunk that fits it exactly.
    fn claim_chunk_exact(&mut self, pos: usize, amount: u32) -> (off: i32)
        requires
            old(self).inv(),
            amount > 0,
            amount % 8 == 0,
            best_fit(old(self)@.chunks, amount as int) == Some(pos as int),
            pos < old(self)@.chunks.len(),
            old(self)@.chunks[pos as int].1 == amount,
        ensures
            claim_post::<CC>(old(self)@, final(self)@, amount as int, off as int),
    {
        let ghost m0 = self@;
        let ghost a = amount as int;
        let (off, size) = self.free_stack_chunks[pos];
        self.free_stack_chunks.remove(pos);
        proof {
            assert(in_frame(m0.stack_size as int, off as int, size as int));
            assert(self@ =~= (Model { chunks: m0.chunks.remove(pos as int), ..m0 }));
            lemma_chunk_removed::<CC>(m0, self@, pos as int);
            lemma_chunk_bytes_remove(m0.chunks, pos as int);
            lemma_chunks_pairwise_disjoint(m0.chunks, m0.stack_size as int);
            assert forall|k: u64|
                opt_ranges_disjoint(
                    #[trigger] prim_range(self@.storage, k),
                    Some((off as int, a)),
                ) by {
                assert(opt_ranges_disjoint(
                    prim_range(m0.storage, k),
                    chunk_range(m0.chunks, pos as int),
                ));
            }
            assert forall|i: int|
                opt_ranges_disjoint(
                    #[trigger] cell_range(self@.allocations, i),
                    Some((off as int, a)),
                ) by {
                assert(opt_ranges_disjoint(
                    cell_range(m0.allocations, i),
                    chunk_range(m0.chunks, pos as int),
                ));
            }
            assert forall|i: int|
                opt_ranges_disjoint(#[trigger] chunk_range(self@.chunks, i), Some((off as int, a)))
                by {
                if 0 <= i < self@.chunks.len() {
                    if i < pos {
                        assert(self@.chunks[i] == m0.chunks[i]);
                    } else {
                        assert(self@.chunks[i] == m0.chunks[i + 1]);
                    }
                }
            }
        }
        off
    }

    /// Serve a claim from the front of a larger free chunk, keeping the tail.
    fn claim_chunk_shrink(&mut self, pos: usize, amount: u32) -> (off: i32)
        requires
            old(self).inv(),
            amount > 0,
            amount % 8 == 0,
            best_fit(old(self)@.chunks, amount as int) == Some(pos as int),
            pos < old(self)@.chunks.len(),
            old(self)@.chunks[pos as int].1 > amount,
        ensures
            claim_post::<CC>(old(self)@, final(self)@, amount as int, off as int),
    {
        let ghost m0 = self@;
        let ghost a = amount as int;
        let (off, size) = self.free_stack_chunks[pos];
        proof {
            assert(in_frame(m0.stack_size as int, off as int, size as int));
        }
        let new_chunk = (off + amount as i32, size - amount);
        self.free_stack_chunks[pos] = new_chunk;
        proof {
            assert(self@ =~= (Model { chunks: m0.chunks.update(pos as int, new_chunk), ..m0 }));
            lemma_chunk_shrunk::<CC>(m0, self@, pos as int, a);
            lemma_chunk_bytes_update(m0.chunks, pos as int, new_chunk);
            lemma_chunks_pairwise_disjoint(m0.chunks, m0.stack_size as int);
            assert forall|k: u64|
                opt_ranges_disjoint(
                    #[trigger] prim_range(self@.storage, k),
                    Some((off as int, a)),
                ) by {
                assert(opt_ranges_disjoint(
                    prim_range(m0.storage, k),
                    chunk_range(m0.chunks, pos as int),
                ));
            }
            assert forall|i: int|
                opt_ranges_disjoint(
                    #[trigger] cell_range(self@.allocations, i),
                    Some((off as int, a)),
                ) by {
                assert(opt_ranges_disjoint(
                    cell_range(m0.allocations, i),
                    chunk_range(m0.chunks, pos as int),
                ));
            }
            assert forall|i: int|
                opt_ranges_disjoint(#[trigger] chunk_range(self@.chunks, i), Some((off as int, a)))
                by {
                if 0 <= i < self@.chunks.len() && i != pos {
                    assert(self@.chunks[i] == m0.chunks[i]);
                    assert(ranges_disjoint(
                        m0.chunks[i].0 as int,
                        m0.chunks[i].1 as int,
                        off as int,
                        size as int,
                    ));
                }
            }
        }
        off
    }

    /// Serve a claim by growing the frame.
    #[verifier::rlimit(100)]
    #[verifier::spinoff_prover]
    fn claim_grow_frame(&mut self, amount: u32) -> (off: i32)
        requires
            old(self).inv(),
            amount > 0,
            amount % 8 == 0,
            best_fit(old(self)@.chunks, amount as int) is None,
            old(self)@.stack_size + amount <= i32::MAX,
        ensures
            claim_post::<CC>(old(self)@, final(self)@, amount as int, off as int),
    {
        let ghost m0 = self@;
        let ghost a = amount as int;
        let new_size = self.stack_size + amount;
        self.stack_size = new_size;
        let off = -(new_size as i32);
        proof {
            assert(self@ =~= (Model { stack_size: new_size, ..m0 }));
            lemma_frame_grown::<CC>(m0, self@);
            assert forall|i: int|
                opt_ranges_disjoint(#[trigger] chunk_range(self@.chunks, i), Some((off as int, a)))
                by {
                if 0 <= i < self@.chunks.len() {
                    assert(in_frame(
                        m0.stack_size as int,
                        m0.chunks[i].0 as int,
                        m0.chunks[i].1 as int,
                    ));
                }
            }
            assert forall|k: u64|
                opt_ranges_disjoint(
                    #[trigger] prim_range(self@.storage, k),
                    Some((off as int, a)),
                ) by {
                if self@.storage.contains_key(k) {
                    assert(storage_entry_ok(
                        m0.storage,
                        m0.alloc_index,
                        m0.allocations,
                        m0.stack_size as int,
                        k,
                    ));
                }
            }
            assert forall|i: int|
                opt_ranges_disjoint(
                    #[trigger] cell_range(self@.allocations, i),
                    Some((off as int, a)),
                ) by {
                if 0 <= i < self@.allocations.len() {
                    assert(cell_ok(m0.alloc_index, m0.allocations, m0.stack_size as int, i));
                }
            }
        }
        off
    }

    /// Claim `amount` bytes of local frame, rounded up to a multiple of 8:
    /// best-fit from the free list (an exact fit removes the chunk, a larger
    /// one is shrunk at the front), or grow the frame. Returns the
    /// base-pointer-relative offset of the claimed bytes, which no live
    /// storage and no remaining free chunk overlaps.
    pub(crate) fn claim_stack_size(&mut self, amount: u32) -> (off: i32)
        requires
            old(self).inv(),
            amount > 0,
            round8(amount as int) <= i32::MAX,
            can_claim(old(self)@.chunks, old(self)@.stack_size as int, amount as int),
        ensures
            claim_post::<CC>(old(self)@, final(self)@, amount as int, off as int),
    {
        let ghost amount0 = amount as int;
        let amount = if amount % 8 != 0 {
            amount + 8 - (amount % 8)
        } else {
            amount
        };
        let ghost m0 = self@;
        proof {
            assert(amount as int == round8(amount0));
            assert(round8(amount as int) == round8(amount0));
            lemma_best_fit(m0.chunks, amount as int);
        }
        match find_best_fit(&self.free_stack_chunks, amount) {
            Some(pos) => {
                if self.free_stack_chunks[pos].1 == amount {
                    self.claim_chunk_exact(pos, amount)
                } else {
                    self.claim_chunk_shrink(pos, amount)
                }
            },
            None => self.claim_grow_frame(amount),
        }
    }
}

/// The chunk list after a two-sided merge is the coalesced insertion: it is
/// sorted, its elements are well formed, and the freed bytes are accounted
/// for.
#[verifier::rlimit(100)]
#[verifier::spinoff_prover]
pub proof fn lemma_merge_both_seq(m0: Model, base_offset: i32, size: u32, pos: int)
    requires
        free_pre(m0, base_offset, size),
        pos == chunk_pos(m0.chunks, base_offset as int),
        0 < pos < m0.chunks.len(),
        m0.chunks[pos - 1].0 + m0.chunks[pos - 1].1 == base_offset as int,
        base_offset as int + size as int == m0.chunks[pos].0 as int,
        forall|j: int| 0 <= j < pos ==> (#[trigger] m0.chunks[j]).0 < base_offset,
        forall|j: int|
            pos <= j < m0.chunks.len() ==> (#[trigger] m0.chunks[j]).0 > base_offset,
    ensures
        ({
            let merged = (
                m0.chunks[pos - 1].0,
                ((m0.chunks[pos - 1].1 + size + m0.chunks[pos].1) as u32),
            );
            let c1 = m0.chunks.update(pos - 1, merged).remove(pos);
            &&& c1 == free_insert(m0.chunks, base_offset, size)
            &&& chunks_sorted(c1)
            &&& chunk_elems_ok(c1, m0.stack_size as int)
            &&& chunk_bytes(c1) == chunk_bytes(m0.chunks) + chunk_contrib((base_offset, size))
        }),
{
    let off = base_offset as int;
    let sz = size as int;
    let (prev_off, prev_size) = m0.chunks[pos - 1];
    let (next_off, next_size) = m0.chunks[pos];
    assert(in_frame(m0.stack_size as int, prev_off as int, prev_size as int));
    assert(in_frame(m0.stack_size as int, next_off as int, next_size as int));
    assert(in_frame(m0.stack_size as int, off, sz));
    let merged = (prev_off, ((prev_size + size + next_size) as u32));
    let chunks1 = m0.chunks.update(pos - 1, merged);
    let c1 = chunks1.remove(pos);
    lemma_chunk_bytes_update(m0.chunks, pos - 1, merged);
    lemma_chunk_bytes_remove(chunks1, pos);
    assert forall|i: int| 0 <= i < c1.len() implies #[trigger] c1[i] == (if i < pos - 1 {
        m0.chunks[i]
    } else if i == pos - 1 {
        merged
    } else {
        m0.chunks[i + 1]
    }) by {}
    assert forall|i: int| 0 <= i && i + 1 < c1.len() implies (#[trigger] c1[i]).0 + c1[i].1 < c1[i
        + 1].0 by {
        if i + 1 < pos - 1 {
            assert(c1[i] == m0.chunks[i] && c1[i + 1] == m0.chunks[i + 1]);
        } else if i + 1 == pos - 1 {
            assert(c1[i] == m0.chunks[i] && c1[i + 1] == merged);
            assert(m0.chunks[i].0 + m0.chunks[i].1 < m0.chunks[i + 1].0);
        } else if i + 1 == pos {
            assert(c1[i] == merged && c1[i + 1] == m0.chunks[pos + 1]);
            assert(m0.chunks[pos].0 + m0.chunks[pos].1 < m0.chunks[pos + 1].0);
        } else {
            assert(c1[i] == m0.chunks[i + 1] && c1[i + 1] == m0.chunks[i + 2]);
            assert(m0.chunks[i + 1].0 + m0.chunks[i + 1].1 < m0.chunks[i + 2].0);
        }
    }
    assert(chunks_sorted(c1));
    assert forall|i: int| 0 <= i < c1.len() implies {
        let (o, s) = #[trigger] c1[i];
        s > 0 && o % 8 == 0 && s % 8 == 0 && in_frame(m0.stack_size as int, o as int, s as int)
    } by {
        if i == pos - 1 {
            assert(c1[i] == merged);
        } else if i < pos - 1 {
            assert(c1[i] == m0.chunks[i]);
        } else {
            assert(c1[i] == m0.chunks[i + 1]);
        }
    }
    assert(chunk_elems_ok(c1, m0.stack_size as int));
}

/// After a two-sided merge, live storage still overlaps no free chunk.
#[verifier::rlimit(100)]
#[verifier::spinoff_prover]
pub proof fn lemma_merge_both_disjoint(m0: Model, base_offset: i32, size: u32, pos: int)
    requires
        free_pre(m0, base_offset, size),
        0 < pos < m0.chunks.len(),
        m0.chunks[pos - 1].0 + m0.chunks[pos - 1].1 == base_offset as int,
        base_offset as int + size as int == m0.chunks[pos].0 as int,
    ensures
        ({
            let merged = (
                m0.chunks[pos - 1].0,
                ((m0.chunks[pos - 1].1 + size + m0.chunks[pos].1) as u32),
            );
            let c1 = m0.chunks.update(pos - 1, merged).remove(pos);
            &&& forall|k: u64, i: int|
                opt_ranges_disjoint(
                    #[trigger] prim_range(m0.storage, k),
                    #[trigger] chunk_range(c1, i),
                )
            &&& forall|i: int, j: int|
                opt_ranges_disjoint(
                    #[trigger] cell_range(m0.allocations, i),
                    #[trigger] chunk_range(c1, j),
                )
        }),
{
    let off = base_offset as int;
    let sz = size as int;
    let (prev_off, prev_size) = m0.chunks[pos - 1];
    let (next_off, next_size) = m0.chunks[pos];
    assert(in_frame(m0.stack_size as int, prev_off as int, prev_size as int));
    assert(in_frame(m0.stack_size as int, next_off as int, next_size as int));
    assert(in_frame(m0.stack_size as int, off, sz));
    let merged = (prev_off, ((prev_size + size + next_size) as u32));
    let c1 = m0.chunks.update(pos - 1, merged).remove(pos);
    assert forall|k: u64, i: int|
        opt_ranges_disjoint(
            #[trigger] prim_range(m0.storage, k),
            #[trigger] chunk_range(c1, i),
        ) by {
        if 0 <= i < c1.len() {
            if i < pos - 1 {
                assert(c1[i] == m0.chunks[i]);
                assert(opt_ranges_disjoint(prim_range(m0.storage, k), chunk_range(m0.chunks, i)));
            } else if i == pos - 1 {
                assert(c1[i] == merged);
                assert(opt_ranges_disjoint(
                    prim_range(m0.storage, k),
                    chunk_range(m0.chunks, pos - 1),
                ));
                assert(opt_ranges_disjoint(prim_range(m0.storage, k), Some((off, sz))));
                assert(opt_ranges_disjoint(prim_range(m0.storage, k), chunk_range(m0.chunks, pos)));
                lemma_opt_disjoint_merged(
                    prim_range(m0.storage, k),
                    prev_off as int,
                    prev_size as int,
                    sz,
                    next_size as int,
                );
            } else {
                assert(c1[i] == m0.chunks[i + 1]);
                assert(opt_ranges_disjoint(
                    prim_range(m0.storage, k),
                    chunk_range(m0.chunks, i + 1),
                ));
            }
        }
    }
    assert forall|i: int, j: int|
        opt_ranges_disjoint(
            #[trigger] cell_range(m0.allocations, i),
            #[trigger] chunk_range(c1, j),
        ) by {
        if 0 <= j < c1.len() {
            if j < pos - 1 {
                assert(c1[j] == m0.chunks[j]);
                assert(opt_ranges_disjoint(cell_range(m0.allocations, i), chunk_range(m0.chunks, j)));
            } else if j == pos - 1 {
                assert(c1[j] == merged);
                assert(opt_ranges_disjoint(
                    cell_range(m0.allocations, i),
                    chunk_range(m0.chunks, pos - 1),
                ));
                assert(opt_ranges_disjoint(cell_range(m0.allocations, i), Some((off, sz))));
                assert(opt_ranges_disjoint(
                    cell_range(m0.allocations, i),
                    chunk_range(m0.chunks, pos),
                ));
                lemma_opt_disjoint_merged(
                    cell_range(m0.allocations, i),
                    prev_off as int,
                    prev_size as int,
                    sz,
                    next_size as int,
                );
            } else {
                assert(c1[j] == m0.chunks[j + 1]);
                assert(opt_ranges_disjoint(
                    cell_range(m0.allocations, i),
                    chunk_range(m0.chunks, j + 1),
                ));
            }
        }
    }
}

impl<ASM: Assembler, CC: CallConv> StorageManager<ASM, CC> {
    /// Return a freed range to the chunk list when it touches no neighbour.
    #[verifier::rlimit(100)]
    #[verifier::spinoff_prover]
    fn free_chunk_isolated(&mut self, pos: usize, base_offset: i32, size: u32)
        requires
            free_pre(old(self)@, base_offset, size),
            pos as int == chunk_pos(old(self)@.chunks, base_offset as int),
            pos <= old(self)@.chunks.len(),
            pos > 0 ==> old(self)@.chunks[pos as int - 1].0 + old(self)@.chunks[pos as int - 1].1
                != base_offset as int,
            pos < old(self)@.chunks.len() ==> base_offset as int + size as int != old(
                self,
            )@.chunks[pos as int].0 as int,
            forall|j: int| 0 <= j < pos ==> (#[trigger] old(self)@.chunks[j]).0 < base_offset,
            forall|j: int|
                pos <= j < old(self)@.chunks.len() ==> (#[trigger] old(self)@.chunks[j]).0
                    > base_offset,
        ensures
            free_post(old(self)@, final(self)@, base_offset, size),
    {
        let ghost m0 = self@;
        let ghost off = base_offset as int;
        let ghost sz = size as int;
        proof {
            lemma_chunks_pairwise_disjoint(m0.chunks, m0.stack_size as int);
            if pos > 0 {
                assert(opt_ranges_disjoint(
                    chunk_range(m0.chunks, pos as int - 1),
                    Some((off, sz)),
                ));
            }
            if pos < m0.chunks.len() {
                assert(opt_ranges_disjoint(chunk_range(m0.chunks, pos as int), Some((off, sz))));
            }
        }
        self.free_stack_chunks.insert(pos, (base_offset, size));
        proof {
            assert(self@ =~= (Model {
                chunks: m0.chunks.insert(pos as int, (base_offset, size)),
                ..m0
            }));
            lemma_chunk_bytes_insert(m0.chunks, pos as int, (base_offset, size));
            assert forall|i: int| 0 <= i < self@.chunks.len() implies #[trigger] self@.chunks[i]
                == (if i < pos {
                m0.chunks[i]
            } else if i == pos {
                (base_offset, size)
            } else {
                m0.chunks[i - 1]
            }) by {}
            assert(chunks_sorted(self@.chunks));
            assert(chunk_elems_ok(self@.chunks, self@.stack_size as int));
            assert forall|k: u64, i: int|
                opt_ranges_disjoint(
                    #[trigger] prim_range(self@.storage, k),
                    #[trigger] chunk_range(self@.chunks, i),
                ) by {
                if 0 <= i < self@.chunks.len() {
                    if i < pos {
                        assert(opt_ranges_disjoint(
                            prim_range(m0.storage, k),
                            chunk_range(m0.chunks, i),
                        ));
                    } else if i == pos {
                        assert(opt_ranges_disjoint(prim_range(m0.storage, k), Some((off, sz))));
                    } else {
                        assert(opt_ranges_disjoint(
                            prim_range(m0.storage, k),
                            chunk_range(m0.chunks, i - 1),
                        ));
                    }
                }
            }
            assert forall|i: int, j: int|
                opt_ranges_disjoint(
                    #[trigger] cell_range(self@.allocations, i),
                    #[trigger] chunk_range(self@.chunks, j),
                ) by {
                if 0 <= j < self@.chunks.len() {
                    if j < pos {
                        assert(opt_ranges_disjoint(
                            cell_range(m0.allocations, i),
                            chunk_range(m0.chunks, j),
                        ));
                    } else if j == pos {
                        assert(opt_ranges_disjoint(cell_range(m0.allocations, i), Some((off, sz))));
                    } else {
                        assert(opt_ranges_disjoint(
                            cell_range(m0.allocations, i),
                            chunk_range(m0.chunks, j - 1),
                        ));
                    }
                }
            }
        }
    }

    /// Merge a freed range into the chunk that ends exactly where it begins.
    #[verifier::rlimit(100)]
    #[verifier::spinoff_prover]
    fn free_chunk_merge_prev(&mut self, pos: usize, base_offset: i32, size: u32)
        requires
            free_pre(old(self)@, base_offset, size),
            pos as int == chunk_pos(old(self)@.chunks, base_offset as int),
            0 < pos <= old(self)@.chunks.len(),
            old(self)@.chunks[pos as int - 1].0 + old(self)@.chunks[pos as int - 1].1
                == base_offset as int,
            pos < old(self)@.chunks.len() ==> base_offset as int + size as int != old(
                self,
            )@.chunks[pos as int].0 as int,
            forall|j: int| 0 <= j < pos ==> (#[trigger] old(self)@.chunks[j]).0 < base_offset,
            forall|j: int|
                pos <= j < old(self)@.chunks.len() ==> (#[trigger] old(self)@.chunks[j]).0
                    > base_offset,
        ensures
            free_post(old(self)@, final(self)@, base_offset, size),
    {
        let ghost m0 = self@;
        let ghost off = base_offset as int;
        let ghost sz = size as int;
        let (prev_off, prev_size) = self.free_stack_chunks[pos - 1];
        proof {
            lemma_chunks_pairwise_disjoint(m0.chunks, m0.stack_size as int);
            assert(in_frame(m0.stack_size as int, prev_off as int, prev_size as int));
            if pos < m0.chunks.len() {
                assert(opt_ranges_disjoint(chunk_range(m0.chunks, pos as int), Some((off, sz))));
            }
        }
        let merged = (prev_off, prev_size + size);
        self.free_stack_chunks[pos - 1] = merged;
        proof {
            assert(self@ =~= (Model {
                chunks: m0.chunks.update(pos as int - 1, merged),
                ..m0
            }));
            lemma_chunk_bytes_update(m0.chunks, pos as int - 1, merged);
            assert(chunks_sorted(self@.chunks));
            assert(chunk_elems_ok(self@.chunks, self@.stack_size as int));
            assert forall|k: u64, i: int|
                opt_ranges_disjoint(
                    #[trigger] prim_range(self@.storage, k),
                    #[trigger] chunk_range(self@.chunks, i),
                ) by {
                if 0 <= i < self@.chunks.len() {
                    assert(opt_ranges_disjoint(
                        prim_range(m0.storage, k),
                        chunk_range(m0.chunks, i),
                    ));
                    if i == pos - 1 {
                        assert(opt_ranges_disjoint(prim_range(m0.storage, k), Some((off, sz))));
                        lemma_opt_disjoint_merged(
                            prim_range(m0.storage, k),
                            prev_off as int,
                            prev_size as int,
                            sz,
                            0,
                        );
                    }
                }
            }
            assert forall|i: int, j: int|
                opt_ranges_disjoint(
                    #[trigger] cell_range(self@.allocations, i),
                    #[trigger] chunk_range(self@.chunks, j),
                ) by {
                if 0 <= j < self@.chunks.len() {
                    assert(opt_ranges_disjoint(
                        cell_range(m0.allocations, i),
                        chunk_range(m0.chunks, j),
                    ));
                    if j == pos - 1 {
                        assert(opt_ranges_disjoint(cell_range(m0.allocations, i), Some((off, sz))));
                        lemma_opt_disjoint_merged(
                            cell_range(m0.allocations, i),
                            prev_off as int,
                            prev_size as int,
                            sz,
                            0,
                        );
                    }
                }
            }
        }
    }

    /// Merge a freed range into the chunk that begins exactly where it ends.
    #[verifier::rlimit(100)]
    #[verifier::spinoff_prover]
    fn free_chunk_merge_next(&mut self, pos: usize, base_offset: i32, size: u32)
        requires
            free_pre(old(self)@, base_offset, size),
            pos as int == chunk_pos(old(self)@.chunks, base_offset as int),
            pos < old(self)@.chunks.len(),
            pos > 0 ==> old(self)@.chunks[pos as int - 1].0 + old(self)@.chunks[pos as int - 1].1
                != base_offset as int,
            base_offset as int + size as int == old(self)@.chunks[pos as int].0 as int,
            forall|j: int| 0 <= j < pos ==> (#[trigger] old(self)@.chunks[j]).0 < base_offset,
            forall|j: int|
                pos <= j < old(self)@.chunks.len() ==> (#[trigger] old(self)@.chunks[j]).0
                    > base_offset,
        ensures
            free_post(old(self)@, final(self)@, base_offset, size),
    {
        let ghost m0 = self@;
        let ghost off = base_offset as int;
        let ghost sz = size as int;
        let (next_off, next_size) = self.free_stack_chunks[pos];
        proof {
            lemma_chunks_pairwise_disjoint(m0.chunks, m0.stack_size as int);
            assert(in_frame(m0.stack_size as int, next_off as int, next_size as int));
            if pos > 0 {
                assert(opt_ranges_disjoint(
                    chunk_range(m0.chunks, pos as int - 1),
                    Some((off, sz)),
                ));
            }
        }
        let merged = (base_offset, size + next_size);
        self.free_stack_chunks[pos] = merged;
        proof {
            assert(self@ =~= (Model { chunks: m0.chunks.update(pos as int, merged), ..m0 }));
            lemma_chunk_bytes_update(m0.chunks, pos as int, merged);
            assert(chunks_sorted(self@.chunks));
            assert(chunk_elems_ok(self@.chunks, self@.stack_size as int));
            assert forall|k: u64, i: int|
                opt_ranges_disjoint(
                    #[trigger] prim_range(self@.storage, k),
                    #[trigger] chunk_range(self@.chunks, i),
                ) by {
                if 0 <= i < self@.chunks.len() {
                    assert(opt_ranges_disjoint(
                        prim_range(m0.storage, k),
                        chunk_range(m0.chunks, i),
                    ));
                    if i == pos {
                        assert(opt_ranges_disjoint(prim_range(m0.storage, k), Some((off, sz))));
                        lemma_opt_disjoint_merged(
                            prim_range(m0.storage, k),
                            off,
                            sz,
                            next_size as int,
                            0,
                        );
                    }
                }
            }
            assert forall|i: int, j: int|
                opt_ranges_disjoint(
                    #[trigger] cell_range(self@.allocations, i),
                    #[trigger] chunk_range(self@.chunks, j),
                ) by {
                if 0 <= j < self@.chunks.len() {
                    assert(opt_ranges_disjoint(
                        cell_range(m0.allocations, i),
                        chunk_range(m0.chunks, j),
                    ));
                    if j == pos {
                        assert(opt_ranges_disjoint(cell_range(m0.allocations, i), Some((off, sz))));
                        lemma_opt_disjoint_merged(
                            cell_range(m0.allocations, i),
                            off,
                            sz,
                            next_size as int,
                            0,
                        );
                    }
                }
            }
        }
    }

    /// The chunk list after a two-sided merge: still sorted and coalesced,
    /// with the freed bytes accounted for.
    /// Merge a freed range with the chunks touching it on both sides.
    #[verifier::rlimit(100)]
    #[verifier::spinoff_prover]
    fn free_chunk_merge_both(&mut self, pos: usize, base_offset: i32, size: u32)
        requires
            free_pre(old(self)@, base_offset, size),
            pos as int == chunk_pos(old(self)@.chunks, base_offset as int),
            0 < pos < old(self)@.chunks.len(),
            old(self)@.chunks[pos as int - 1].0 + old(self)@.chunks[pos as int - 1].1
                == base_offset as int,
            base_offset as int + size as int == old(self)@.chunks[pos as int].0 as int,
            forall|j: int| 0 <= j < pos ==> (#[trigger] old(self)@.chunks[j]).0 < base_offset,
            forall|j: int|
                pos <= j < old(self)@.chunks.len() ==> (#[trigger] old(self)@.chunks[j]).0
                    > base_offset,
        ensures
            free_post(old(self)@, final(self)@, base_offset, size),
    {
        let ghost m0 = self@;
        let ghost off = base_offset as int;
        let ghost sz = size as int;
        let (prev_off, prev_size) = self.free_stack_chunks[pos - 1];
        let (next_off, next_size) = self.free_stack_chunks[pos];
        proof {
            assert(in_frame(m0.stack_size as int, prev_off as int, prev_size as int));
            assert(in_frame(m0.stack_size as int, next_off as int, next_size as int));
            assert(in_frame(m0.stack_size as int, off, sz));
        }
        let merged = (prev_off, prev_size + size + next_size);
        self.free_stack_chunks[pos - 1] = merged;
        self.free_stack_chunks.remove(pos);
        proof {
            assert(self@ =~= (Model {
                chunks: m0.chunks.update(pos as int - 1, merged).remove(pos as int),
                ..m0
            }));
            lemma_merge_both_seq(m0, base_offset, size, pos as int);
            lemma_merge_both_disjoint(m0, base_offset, size, pos as int);
        }
    }

    /// Return the range `(base_offset, size)` to the free list, coalescing
    /// with each neighbouring chunk that shares a boundary.
    pub(crate) fn free_stack_chunk(&mut self, base_offset: i32, size: u32)
        requires
            free_pre(old(self)@, base_offset, size),
        ensures
            free_post(old(self)@, final(self)@, base_offset, size),
    {
        let ghost m0 = self@;
        let ghost off = base_offset as int;
        let ghost sz = size as int;
        let mut pos: usize = 0;
        while pos < self.free_stack_chunks.len() && self.free_stack_chunks[pos].0 < base_offset
            invariant
                self == old(self),
                0 <= pos <= self@.chunks.len(),
                forall|j: int| 0 <= j < pos ==> (#[trigger] self@.chunks[j]).0 < base_offset,
                free_pre(self@, base_offset, size),
            decreases self@.chunks.len() - pos,
        {
            pos = pos + 1;
        }
        proof {
            if (pos as int) < m0.chunks.len() {
                assert(opt_ranges_disjoint(chunk_range(m0.chunks, pos as int), Some((off, sz))));
                assert(m0.chunks[pos as int].0 > base_offset);
            }
            assert forall|j: int| pos <= j < m0.chunks.len() implies (#[trigger] m0.chunks[j]).0
                > base_offset by {
                if j > pos {
                    lemma_chunks_increasing(m0.chunks, m0.stack_size as int, pos as int, j);
                }
            }
            lemma_chunk_pos_is(m0.chunks, off, pos as int);
        }
        let merge_with_prev = if pos > 0 {
            let (prev_off, prev_size) = self.free_stack_chunks[pos - 1];
            proof {
                assert(in_frame(m0.stack_size as int, prev_off as int, prev_size as int));
            }
            prev_off + prev_size as i32 == base_offset
        } else {
            false
        };
        let merge_with_next = if pos < self.free_stack_chunks.len() {
            let (next_off, _) = self.free_stack_chunks[pos];
            proof {
                assert(in_frame(m0.stack_size as int, off, sz));
            }
            base_offset + size as i32 == next_off
        } else {
            false
        };
        if merge_with_prev && merge_with_next {
            self.free_chunk_merge_both(pos, base_offset, size);
        } else if merge_with_prev {
            self.free_chunk_merge_prev(pos, base_offset, size);
        } else if merge_with_next {
            self.free_chunk_merge_next(pos, base_offset, size);
        } else {
            self.free_chunk_isolated(pos, base_offset, size);
        }
    }
}

} // verus!
