//! Call-site machinery: spilling caller-saved registers around calls, and
//! scoped temporary registers.
use vstd::prelude::*;

use crate::machine::{FloatReg, GeneralReg, RegStorage, Storage, Symbol};
use crate::manager::{local_prim, model_inv, new_storage_manager, prim_range, Model, StorageManager};
use crate::loads::{
    acquire_float_bytes, acquire_general_bytes, acquired_float_reg, acquired_general_reg,
    spec_acquire_float, spec_acquire_general,
};
use crate::regops::{can_get_general, can_get_float};
use crate::stackalloc::can_claim;
use crate::target::{Assembler, CallConv};

verus! {

/// Returning a register that is in neither list to the free list preserves
/// the invariant.
#[verifier::rlimit(100)]
#[verifier::spinoff_prover]
pub proof fn lemma_return_free_general<CC: CallConv>(m0: Model, m1: Model, reg: GeneralReg)
    requires
        model_inv::<CC>(m0),
        !m0.general_free.contains(reg),
        forall|j: int| 0 <= j < m0.general_used.len() ==> (#[trigger] m0.general_used[j]).0 != reg,
        m1 == (Model { general_free: m0.general_free.push(reg), ..m0 }),
    ensures
        model_inv::<CC>(m1),
{
    assert forall|a: int, b: int| 0 <= a < b < m1.general_free.len() implies m1.general_free[a]
        != m1.general_free[b] by {
        if b == m1.general_free.len() - 1 {
            assert(m1.general_free[a] == m0.general_free[a]);
            assert(m0.general_free.contains(m0.general_free[a]));
        }
    }
    assert forall|a: int, b: int|
        0 <= a < m1.general_free.len() && 0 <= b < m1.general_used.len() implies
        #[trigger] m1.general_free[a] != (#[trigger] m1.general_used[b]).0 by {
        if a < m1.general_free.len() - 1 {
            assert(m1.general_free[a] == m0.general_free[a]);
        }
    }
    assert(crate::manager::pools_wf(m1));
}

/// The float counterpart of [`lemma_return_free_general`].
#[verifier::rlimit(100)]
#[verifier::spinoff_prover]
pub proof fn lemma_return_free_float<CC: CallConv>(m0: Model, m1: Model, reg: FloatReg)
    requires
        model_inv::<CC>(m0),
        !m0.float_free.contains(reg),
        forall|j: int| 0 <= j < m0.float_used.len() ==> (#[trigger] m0.float_used[j]).0 != reg,
        m1 == (Model { float_free: m0.float_free.push(reg), ..m0 }),
    ensures
        model_inv::<CC>(m1),
{
    assert forall|a: int, b: int| 0 <= a < b < m1.float_free.len() implies m1.float_free[a]
        != m1.float_free[b] by {
        if b == m1.float_free.len() - 1 {
            assert(m1.float_free[a] == m0.float_free[a]);
            assert(m0.float_free.contains(m0.float_free[a]));
        }
    }
    assert forall|a: int, b: int|
        0 <= a < m1.float_free.len() && 0 <= b < m1.float_used.len() implies
        #[trigger] m1.float_free[a] != (#[trigger] m1.float_used[b]).0 by {
        if a < m1.float_free.len() - 1 {
            assert(m1.float_free[a] == m0.float_free[a]);
        }
    }
    assert(crate::manager::pools_wf(m1));
}


/// The state and bytes of spilling every caller-saved entry of the general
/// used list from position `i` on: a caller-saved entry is spilled and its
/// register pushed onto the free list; other entries are kept in place.
pub open spec fn spec_spill_callers_general<ASM: Assembler, CC: CallConv>(m: Model, i: int) -> (
    Model,
    Seq<u8>,
)
    decreases m.general_used.len() - i,
{
    if i < 0 || i >= m.general_used.len() {
        (m, Seq::empty())
    } else {
        let (reg, ssym) = m.general_used[i];
        if CC::spec_general_caller_saved(reg) {
            let m1 = crate::loads::spec_spill_general(m, i);
            let m2 = Model { general_free: m1.general_free.push(reg), ..m1 };
            let bytes = if m.storage[ssym] is Reg {
                ASM::mov_base32_reg64_enc(crate::stackalloc::spec_claim_stack(m, 8).1 as i32, reg)
            } else {
                Seq::<u8>::empty()
            };
            let (m3, b3) = spec_spill_callers_general::<ASM, CC>(m2, i);
            (m3, bytes + b3)
        } else {
            spec_spill_callers_general::<ASM, CC>(m, i + 1)
        }
    }
}

/// The float counterpart of [`spec_spill_callers_general`].
pub open spec fn spec_spill_callers_float<ASM: Assembler, CC: CallConv>(m: Model, i: int) -> (
    Model,
    Seq<u8>,
)
    decreases m.float_used.len() - i,
{
    if i < 0 || i >= m.float_used.len() {
        (m, Seq::empty())
    } else {
        let (reg, ssym) = m.float_used[i];
        if CC::spec_float_caller_saved(reg) {
            let m1 = crate::loads::spec_spill_float(m, i);
            let m2 = Model { float_free: m1.float_free.push(reg), ..m1 };
            let bytes = if m.storage[ssym] is Reg {
                ASM::mov_base32_freg64_enc(crate::stackalloc::spec_claim_stack(m, 8).1 as i32, reg)
            } else {
                Seq::<u8>::empty()
            };
            let (m3, b3) = spec_spill_callers_float::<ASM, CC>(m2, i);
            (m3, bytes + b3)
        } else {
            spec_spill_callers_float::<ASM, CC>(m, i + 1)
        }
    }
}

impl<ASM: Assembler, CC: CallConv> StorageManager<ASM, CC> {
    /// Spill every symbol held in a caller-saved register to the stack and
    /// free those registers; callee-saved entries are retained. After this, a
    /// call instruction cannot corrupt any live symbol. Every symbol keeps
    /// storage throughout.
    #[verifier::rlimit(100)]
    #[verifier::spinoff_prover]
    pub fn push_used_caller_saved_regs_to_stack(&mut self, buf: &mut Vec<u8>)
        requires
            old(self).inv(),
            old(self)@.stack_size as int + 8 * (old(self)@.general_used.len()
                + old(self)@.float_used.len()) <= i32::MAX,
        ensures
            final(self).inv(),
            old(buf)@.is_prefix_of(final(buf)@),
            ({
                let (mg, bg) = spec_spill_callers_general::<ASM, CC>(old(self)@, 0);
                let (mf, bf) = spec_spill_callers_float::<ASM, CC>(mg, 0);
                &&& final(self)@ == mf
                &&& final(buf)@ == old(buf)@ + bg + bf
            }),
            forall|j: int|
                0 <= j < final(self)@.general_used.len() ==> !CC::spec_general_caller_saved(
                    (#[trigger] final(self)@.general_used[j]).0,
                ),
            forall|j: int|
                0 <= j < final(self)@.float_used.len() ==> !CC::spec_float_caller_saved(
                    (#[trigger] final(self)@.float_used[j]).0,
                ),
            forall|k: u64|
                #[trigger] old(self)@.storage.contains_key(k) <==> final(self)@.storage.contains_key(k),
            forall|k: u64|
                #[trigger] old(self)@.storage.contains_key(k) ==> ({
                    ||| final(self)@.storage[k] == old(self)@.storage[k]
                    ||| ((old(self)@.storage[k] is Reg || old(self)@.storage[k] is Primitive) && (
                    final(self)@.storage[k] matches Storage::Primitive { reg: None, .. }))
                }),
    {
        let ghost m0 = self@;
        let mut i: usize = 0;
        while i < self.general_used_regs.len()
            invariant
                self.inv(),
                0 <= i <= self@.general_used.len(),
                forall|j: int|
                    0 <= j < i ==> !CC::spec_general_caller_saved(
                        (#[trigger] self@.general_used[j]).0,
                    ),
                self@.float_used == m0.float_used,
                self@.stack_size as int + 8 * (self@.general_used.len() + self@.float_used.len())
                    <= m0.stack_size as int + 8 * (m0.general_used.len() + m0.float_used.len()),
                m0.stack_size as int + 8 * (m0.general_used.len() + m0.float_used.len())
                    <= i32::MAX,
                forall|k: u64|
                    #[trigger] m0.storage.contains_key(k) <==> self@.storage.contains_key(k),
                forall|k: u64|
                    #[trigger] m0.storage.contains_key(k) ==> ({
                        ||| self@.storage[k] == m0.storage[k]
                        ||| ((m0.storage[k] is Reg || m0.storage[k] is Primitive) && (
                        self@.storage[k] matches Storage::Primitive { reg: None, .. }))
                    }),
                spec_spill_callers_general::<ASM, CC>(m0, 0).0 == spec_spill_callers_general::<
                    ASM,
                    CC,
                >(self@, i as int).0,
                old(buf)@ + spec_spill_callers_general::<ASM, CC>(m0, 0).1 == buf@
                    + spec_spill_callers_general::<ASM, CC>(self@, i as int).1,
                old(buf)@.is_prefix_of(buf@),
            decreases self@.general_used.len() - i,
        {
            let (reg, _ssym) = self.general_used_regs[i];
            if CC::general_caller_saved(&reg) {
                let ghost ms = self@;
                let ghost pre_buf = buf@;
                proof {
                    assert(ms.storage.contains_key(ms.general_used[i as int].1));
                }
                let spilled = self.spill_general(buf, i);
                let ghost mid = self@;
                self.general_free_regs.push(spilled);
                proof {
                    assert(mid =~= crate::loads::spec_spill_general(ms, i as int));
                    assert(self@ =~= (Model {
                        general_free: mid.general_free.push(reg),
                        ..mid
                    }));
                    let bs = if ms.storage[ms.general_used[i as int].1] is Reg {
                        ASM::mov_base32_reg64_enc(
                            crate::stackalloc::spec_claim_stack(ms, 8).1 as i32,
                            reg,
                        )
                    } else {
                        Seq::<u8>::empty()
                    };
                    assert(buf@ =~= pre_buf + bs);
                    assert(spec_spill_callers_general::<ASM, CC>(ms, i as int).0
                        == spec_spill_callers_general::<ASM, CC>(self@, i as int).0);
                    assert(spec_spill_callers_general::<ASM, CC>(ms, i as int).1 =~= bs
                        + spec_spill_callers_general::<ASM, CC>(self@, i as int).1);
                    assert(old(buf)@ + spec_spill_callers_general::<ASM, CC>(m0, 0).1 =~= buf@
                        + spec_spill_callers_general::<ASM, CC>(self@, i as int).1);
                    assert(pre_buf.is_prefix_of(buf@));
                    assert(old(buf)@.is_prefix_of(buf@));
                }
            } else {
                proof {
                    assert(spec_spill_callers_general::<ASM, CC>(self@, i as int)
                        == spec_spill_callers_general::<ASM, CC>(self@, i as int + 1));
                }
                i = i + 1;
            }
        }
        let ghost mg = self@;
        proof {
            assert(spec_spill_callers_general::<ASM, CC>(mg, mg.general_used.len() as int) == (
                mg,
                Seq::<u8>::empty(),
            ));
            assert(spec_spill_callers_general::<ASM, CC>(m0, 0).0 == mg);
            assert(buf@ + Seq::<u8>::empty() =~= buf@);
            assert(old(buf)@ + spec_spill_callers_general::<ASM, CC>(m0, 0).1 == buf@);
        }
        let ghost buf_g = buf@;
        let mut i: usize = 0;
        while i < self.float_used_regs.len()
            invariant
                self.inv(),
                0 <= i <= self@.float_used.len(),
                forall|j: int|
                    0 <= j < i ==> !CC::spec_float_caller_saved(
                        (#[trigger] self@.float_used[j]).0,
                    ),
                self@.general_used == mg.general_used,
                forall|j: int|
                    0 <= j < mg.general_used.len() ==> !CC::spec_general_caller_saved(
                        (#[trigger] mg.general_used[j]).0,
                    ),
                self@.stack_size as int + 8 * self@.float_used.len() <= mg.stack_size as int + 8
                    * mg.float_used.len(),
                mg.stack_size as int + 8 * mg.float_used.len() <= i32::MAX,
                forall|k: u64|
                    #[trigger] mg.storage.contains_key(k) <==> self@.storage.contains_key(k),
                forall|k: u64|
                    #[trigger] mg.storage.contains_key(k) ==> ({
                        ||| self@.storage[k] == mg.storage[k]
                        ||| ((mg.storage[k] is Reg || mg.storage[k] is Primitive) && (
                        self@.storage[k] matches Storage::Primitive { reg: None, .. }))
                    }),
                spec_spill_callers_float::<ASM, CC>(mg, 0).0 == spec_spill_callers_float::<
                    ASM,
                    CC,
                >(self@, i as int).0,
                buf_g + spec_spill_callers_float::<ASM, CC>(mg, 0).1 == buf@
                    + spec_spill_callers_float::<ASM, CC>(self@, i as int).1,
                old(buf)@.is_prefix_of(buf@),
            decreases self@.float_used.len() - i,
        {
            let (reg, _ssym) = self.float_used_regs[i];
            if CC::float_caller_saved(&reg) {
                let ghost ms = self@;
                let ghost pre_buf = buf@;
                proof {
                    assert(ms.storage.contains_key(ms.float_used[i as int].1));
                }
                let spilled = self.spill_float(buf, i);
                let ghost mid = self@;
                self.float_free_regs.push(spilled);
                proof {
                    assert(mid =~= crate::loads::spec_spill_float(ms, i as int));
                    assert(self@ =~= (Model { float_free: mid.float_free.push(reg), ..mid }));
                    let bs = if ms.storage[ms.float_used[i as int].1] is Reg {
                        ASM::mov_base32_freg64_enc(
                            crate::stackalloc::spec_claim_stack(ms, 8).1 as i32,
                            reg,
                        )
                    } else {
                        Seq::<u8>::empty()
                    };
                    assert(buf@ =~= pre_buf + bs);
                    assert(spec_spill_callers_float::<ASM, CC>(ms, i as int).0
                        == spec_spill_callers_float::<ASM, CC>(self@, i as int).0);
                    assert(spec_spill_callers_float::<ASM, CC>(ms, i as int).1 =~= bs
                        + spec_spill_callers_float::<ASM, CC>(self@, i as int).1);
                    assert(buf_g + spec_spill_callers_float::<ASM, CC>(mg, 0).1 =~= buf@
                        + spec_spill_callers_float::<ASM, CC>(self@, i as int).1);
                    assert(pre_buf.is_prefix_of(buf@));
                    assert(old(buf)@.is_prefix_of(buf@));
                }
            } else {
                proof {
                    assert(spec_spill_callers_float::<ASM, CC>(self@, i as int)
                        == spec_spill_callers_float::<ASM, CC>(self@, i as int + 1));
                }
                i = i + 1;
            }
        }
        proof {
            assert(spec_spill_callers_float::<ASM, CC>(self@, self@.float_used.len() as int) == (
                self@,
                Seq::<u8>::empty(),
            ));
            assert(spec_spill_callers_float::<ASM, CC>(mg, 0).0 == self@);
            assert(buf@ + Seq::<u8>::empty() =~= buf@);
            assert(buf_g + spec_spill_callers_float::<ASM, CC>(mg, 0).1 == buf@);
            assert(buf@ =~= old(buf)@ + spec_spill_callers_general::<ASM, CC>(m0, 0).1
                + spec_spill_callers_float::<ASM, CC>(mg, 0).1);
            assert forall|k: u64| #[trigger] m0.storage.contains_key(k) implies ({
                ||| self@.storage[k] == m0.storage[k]
                ||| ((m0.storage[k] is Reg || m0.storage[k] is Primitive) && (
                self@.storage[k] matches Storage::Primitive { reg: None, .. }))
            }) by {
                assert(mg.storage.contains_key(k));
            }
        }
    }

    /// Run `callback` with a temporary general register that is bound to no
    /// symbol; the register returns to the free list afterwards. Temporaries
    /// are not safe across call instructions.
    #[verifier::rlimit(100)]
    #[verifier::spinoff_prover]
    pub fn with_tmp_general_reg<F: FnOnce(
        StorageManager<ASM, CC>,
        Vec<u8>,
        GeneralReg,
    ) -> (StorageManager<ASM, CC>, Vec<u8>)>(&mut self, buf: &mut Vec<u8>, callback: F)
        requires
            old(self).inv(),
            can_get_general(old(self)@),
            forall|s: StorageManager<ASM, CC>, b: Vec<u8>, r: GeneralReg|
                s.inv() && !s@.general_free.contains(r) && (forall|j: int|
                    0 <= j < s@.general_used.len() ==> (#[trigger] s@.general_used[j]).0 != r)
                    ==> #[trigger] call_requires(callback, (s, b, r)),
            forall|s: StorageManager<ASM, CC>, b: Vec<u8>, r: GeneralReg, out: (
                StorageManager<ASM, CC>,
                Vec<u8>,
            )|
                #[trigger] call_ensures(callback, (s, b, r), out) ==> out.0.inv()
                    && !out.0@.general_free.contains(r) && (forall|j: int|
                    0 <= j < out.0@.general_used.len() ==> (#[trigger] out.0@.general_used[j]).0
                        != r),
        ensures
            final(self).inv(),
            ({
                let m0 = old(self)@;
                let r = acquired_general_reg(m0);
                exists|s: StorageManager<ASM, CC>, b: Vec<u8>, out: (
                    StorageManager<ASM, CC>,
                    Vec<u8>,
                )|
                    {
                        &&& s@ == spec_acquire_general::<CC>(m0)
                        &&& b@ == old(buf)@ + acquire_general_bytes::<ASM>(m0)
                        &&& #[trigger] call_ensures(callback, (s, b, r), out)
                        &&& final(self)@ == (Model {
                            general_free: out.0@.general_free.push(r),
                            ..out.0@
                        })
                        &&& final(buf)@ == out.1@
                    }
            }),
    {
        let ghost m0 = self@;
        let reg = self.get_general_reg(buf);
        proof {
            assert(self@ =~= spec_acquire_general::<CC>(m0));
            assert(buf@ =~= old(buf)@ + acquire_general_bytes::<ASM>(m0));
        }
        let mut taken = new_storage_manager();
        core::mem::swap(self, &mut taken);
        let mut taken_buf = Vec::new();
        core::mem::swap(buf, &mut taken_buf);
        let ghost s_in = taken;
        let ghost b_in = taken_buf;
        let (mut s1, mut b1) = callback(taken, taken_buf, reg);
        let ghost out_pair = (s1, b1);
        let ghost m1 = s1@;
        s1.general_free_regs.push(reg);
        proof {
            assert(s1@ =~= (Model { general_free: m1.general_free.push(reg), ..m1 }));
            lemma_return_free_general::<CC>(m1, s1@, reg);
        }
        core::mem::swap(self, &mut s1);
        core::mem::swap(buf, &mut b1);
        proof {
            assert(call_ensures(callback, (s_in, b_in, reg), out_pair));
            assert(reg == acquired_general_reg(m0));
            assert(self@ == (Model {
                general_free: out_pair.0@.general_free.push(reg),
                ..out_pair.0@
            }));
            assert(buf@ == out_pair.1@);
        }
    }

    /// Run `callback` with a temporary float register, as
    /// [`Self::with_tmp_general_reg`].
    #[verifier::rlimit(100)]
    #[verifier::spinoff_prover]
    pub fn with_tmp_float_reg<F: FnOnce(
        StorageManager<ASM, CC>,
        Vec<u8>,
        FloatReg,
    ) -> (StorageManager<ASM, CC>, Vec<u8>)>(&mut self, buf: &mut Vec<u8>, callback: F)
        requires
            old(self).inv(),
            can_get_float(old(self)@),
            forall|s: StorageManager<ASM, CC>, b: Vec<u8>, r: FloatReg|
                s.inv() && !s@.float_free.contains(r) && (forall|j: int|
                    0 <= j < s@.float_used.len() ==> (#[trigger] s@.float_used[j]).0 != r)
                    ==> #[trigger] call_requires(callback, (s, b, r)),
            forall|s: StorageManager<ASM, CC>, b: Vec<u8>, r: FloatReg, out: (
                StorageManager<ASM, CC>,
                Vec<u8>,
            )|
                #[trigger] call_ensures(callback, (s, b, r), out) ==> out.0.inv()
                    && !out.0@.float_free.contains(r) && (forall|j: int|
                    0 <= j < out.0@.float_used.len() ==> (#[trigger] out.0@.float_used[j]).0
                        != r),
        ensures
            final(self).inv(),
            ({
                let m0 = old(self)@;
                let r = acquired_float_reg(m0);
                exists|s: StorageManager<ASM, CC>, b: Vec<u8>, out: (
                    StorageManager<ASM, CC>,
                    Vec<u8>,
                )|
                    {
                        &&& s@ == spec_acquire_float::<CC>(m0)
                        &&& b@ == old(buf)@ + acquire_float_bytes::<ASM>(m0)
                        &&& #[trigger] call_ensures(callback, (s, b, r), out)
                        &&& final(self)@ == (Model {
                            float_free: out.0@.float_free.push(r),
                            ..out.0@
                        })
                        &&& final(buf)@ == out.1@
                    }
            }),
    {
        let ghost m0 = self@;
        let reg = self.get_float_reg(buf);
        proof {
            assert(self@ =~= spec_acquire_float::<CC>(m0));
            assert(buf@ =~= old(buf)@ + acquire_float_bytes::<ASM>(m0));
        }
        let mut taken = new_storage_manager();
        core::mem::swap(self, &mut taken);
        let mut taken_buf = Vec::new();
        core::mem::swap(buf, &mut taken_buf);
        let ghost s_in = taken;
        let ghost b_in = taken_buf;
        let (mut s1, mut b1) = callback(taken, taken_buf, reg);
        let ghost out_pair = (s1, b1);
        let ghost m1 = s1@;
        s1.float_free_regs.push(reg);
        proof {
            assert(s1@ =~= (Model { float_free: m1.float_free.push(reg), ..m1 }));
            lemma_return_free_float::<CC>(m1, s1@, reg);
        }
        core::mem::swap(self, &mut s1);
        core::mem::swap(buf, &mut b1);
        proof {
            assert(call_ensures(callback, (s_in, b_in, reg), out_pair));
            assert(reg == acquired_float_reg(m0));
            assert(self@ == (Model {
                float_free: out_pair.0@.float_free.push(reg),
                ..out_pair.0@
            }));
            assert(buf@ == out_pair.1@);
        }
    }
}

} // verus!
