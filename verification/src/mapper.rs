//! Support for the file mapper: the mapped extent is the file length rounded
//! up to the next page-size multiple.
use vstd::prelude::*;

verus! {

/// Size in bytes of one page of the mapping.
pub const PAGE_SIZE: u64 = 4096;

/// Rounds `n` up to the next multiple of [`PAGE_SIZE`].
pub fn get_page_round_up(n: u64) -> (r: u64)
    requires
        n <= u64::MAX - (PAGE_SIZE - 1),
    ensures
        (r as int) % (PAGE_SIZE as int) == 0,
        n <= r < n + PAGE_SIZE,
{
    let m = n + (PAGE_SIZE - 1);
    proof {
        vstd::arithmetic::div_mod::lemma_fundamental_div_mod(m as int, PAGE_SIZE as int);
    }
    let q = m / PAGE_SIZE;
    let r = q * PAGE_SIZE;
    proof {
        vstd::arithmetic::div_mod::lemma_mod_multiples_basic(q as int, PAGE_SIZE as int);
    }
    r
}

} // verus!
