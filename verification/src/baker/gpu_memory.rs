//! The running total of GPU memory the baker has allocated, kept for its log
//! lines. The total wraps around like the atomic counter it stands for.
use vstd::prelude::*;

verus! {

/// 2^64: the modulus of the total.
pub open spec fn word_range() -> int {
    0x1_0000_0000_0000_0000
}

/// Bytes of GPU memory currently allocated, modulo 2^64.
#[derive(Clone, Copy, Debug, PartialEq, Eq, Structural)]
pub struct GpuMemoryTally {
    pub allocated: u64,
}

impl GpuMemoryTally {
    /// Nothing allocated.
    pub fn new() -> (t: Self)
        ensures
            t.allocated == 0,
    {
        GpuMemoryTally { allocated: 0 }
    }

    /// Counts an allocation of `bytes` and returns the new total.
    pub fn register_gpu_alloc(&mut self, bytes: u64) -> (total: u64)
        ensures
            final(self).allocated == (old(self).allocated + bytes) % word_range(),
            total == final(self).allocated,
    {
        self.allocated = self.allocated.wrapping_add(bytes);
        self.allocated
    }

    /// Counts the release of an allocation of `bytes`.
    pub fn unregister_gpu_alloc(&mut self, bytes: u64)
        ensures
            final(self).allocated == (old(self).allocated - bytes) % word_range(),
    {
        self.allocated = self.allocated.wrapping_sub(bytes);
    }
}

/// Releasing an allocation takes the total back to what it was before the
/// allocation was counted.
pub proof fn lemma_unregister_undoes_register(total: u64, bytes: u64)
    ensures
        ((((total + bytes) % word_range()) - bytes) % word_range()) == total,
{
    let m = word_range();
    let s = (total + bytes) % m;
    if total + bytes < m {
        vstd::arithmetic::div_mod::lemma_small_mod((total + bytes) as nat, m as nat);
        vstd::arithmetic::div_mod::lemma_small_mod(total as nat, m as nat);
    } else {
        vstd::arithmetic::div_mod::lemma_fundamental_div_mod_converse(total + bytes, m, 1, total + bytes - m);
        vstd::arithmetic::div_mod::lemma_fundamental_div_mod_converse(s - bytes, m, -1, total as int);
    }
}

} // verus!
