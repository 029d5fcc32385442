//! Page arithmetic shared by the region allocator and the instances.

use vstd::prelude::*;

verus! {

/// Size in bytes of one page, the granularity of every mapping.
pub const PAGE_SIZE: usize = 4096;

/// Size in bytes of the guard area that brackets a region on either side.
pub const GUARD_SIZE: usize = 4096;

/// Whether `n` is a whole number of pages.
pub open spec fn is_page_aligned(n: nat) -> bool {
    n % (PAGE_SIZE as nat) == 0
}

/// The least whole number of pages, in bytes, that holds `size` bytes.
pub open spec fn round_up_to_page(size: nat) -> nat {
    if size % (PAGE_SIZE as nat) == 0 {
        size
    } else {
        (size + PAGE_SIZE - size % (PAGE_SIZE as nat)) as nat
    }
}

/// Rounding up yields the least page-aligned size that is not below the request.
pub proof fn lemma_round_up_is_least_aligned(size: nat)
    ensures
        is_page_aligned(round_up_to_page(size)),
        size <= round_up_to_page(size) < size + PAGE_SIZE,
        forall|n: nat| is_page_aligned(n) && size <= n ==> round_up_to_page(size) <= n,
{
    let p = PAGE_SIZE as int;
    let r = round_up_to_page(size) as int;
    assert(r % p == 0 && size <= r < size + p) by {
        if size % (PAGE_SIZE as nat) != 0 {
            let q = (size as int) / p;
            assert(size as int == p * q + (size as int) % p) by {
                vstd::arithmetic::div_mod::lemma_fundamental_div_mod(size as int, p);
            }
            assert(r == p * (q + 1)) by (nonlinear_arith)
                requires
                    r == size + p - (size as int) % p,
                    size as int == p * q + (size as int) % p,
            ;
            vstd::arithmetic::div_mod::lemma_mod_multiples_basic(q + 1, p);
            assert(p * (q + 1) == (q + 1) * p) by (nonlinear_arith);
        }
    }
    assert forall|n: nat| is_page_aligned(n) && size <= n implies round_up_to_page(size) <= n by {
        if r > n {
            // Two distinct multiples of the page size differ by at least one page.
            let a = r / p;
            let b = (n as int) / p;
            vstd::arithmetic::div_mod::lemma_fundamental_div_mod(r, p);
            vstd::arithmetic::div_mod::lemma_fundamental_div_mod(n as int, p);
            assert(r == p * a && n as int == p * b);
            assert(a > b) by (nonlinear_arith)
                requires
                    p * a > p * b,
                    p > 0,
            ;
            assert(r - n >= p) by (nonlinear_arith)
                requires
                    r == p * a,
                    n as int == p * b,
                    a >= b + 1,
                    p > 0,
            ;
        }
    }
}

/// Rounds `size` up to a whole number of pages, or reports that the result does not fit.
pub fn page_round_up(size: usize) -> (rounded: Option<usize>)
    ensures
        match rounded {
            Some(r) => r == round_up_to_page(size as nat),
            None => round_up_to_page(size as nat) > usize::MAX,
        },
{
    let rest = size % PAGE_SIZE;
    if rest == 0 {
        Some(size)
    } else {
        size.checked_add(PAGE_SIZE - rest)
    }
}

} // verus!
