//! Page geometry shared by the storage layer and the mip generator.
use vstd::prelude::*;

verus! {

/// Total side of a page, in texels, borders included.
pub const PAGE_SIZE: usize = 128;

/// Width of the border duplicated from neighbouring pages on each edge, in texels.
pub const PAGE_BORDER_SIZE: usize = 4;

/// Useful (non-border) texels per page side.
pub const PAGE_STRIDE: usize = PAGE_SIZE - 2 * PAGE_BORDER_SIZE;

/// Two to the power `e`.
pub open spec fn exp2(e: nat) -> nat
    decreases e,
{
    if e == 0 {
        1
    } else {
        2 * exp2((e - 1) as nat)
    }
}

/// Width in texels of a row of `pages` pages: the pages overlap by their borders.
pub open spec fn row_texel_width(pages: nat) -> nat {
    pages * PAGE_STRIDE as nat + 2 * PAGE_BORDER_SIZE as nat
}

/// Byte length of a row of `pages` pages (`PAGE_SIZE` texel rows high).
pub open spec fn row_byte_len(pages: nat, bytes_per_texel: nat) -> nat {
    row_texel_width(pages) * PAGE_SIZE as nat * bytes_per_texel
}

/// Byte length of a row once re-sliced into whole pages.
pub open spec fn paged_row_len(pages: nat, bytes_per_texel: nat) -> nat {
    pages * (PAGE_SIZE as nat * PAGE_SIZE as nat * bytes_per_texel)
}

pub proof fn lemma_exp2_positive(e: nat)
    ensures
        exp2(e) >= 1,
    decreases e,
{
    if e > 0 {
        lemma_exp2_positive((e - 1) as nat);
    }
}

pub proof fn lemma_exp2_monotonic(a: nat, b: nat)
    requires
        a <= b,
    ensures
        exp2(a) <= exp2(b),
    decreases b,
{
    if a < b {
        lemma_exp2_monotonic(a, (b - 1) as nat);
        lemma_exp2_positive((b - 1) as nat);
    }
}

pub proof fn lemma_exp2_up_to_12()
    ensures
        exp2(0) == 1,
        exp2(1) == 2,
        exp2(2) == 4,
        exp2(3) == 8,
        exp2(4) == 16,
        exp2(5) == 32,
        exp2(6) == 64,
        exp2(7) == 128,
        exp2(8) == 256,
        exp2(9) == 512,
        exp2(10) == 1024,
        exp2(11) == 2048,
        exp2(12) == 4096,
{
    reveal_with_fuel(exp2, 13);
}

} // verus!
