//! Architecture paging constants and page-number arithmetic.
//!
//! The architecture supports three page sizes; the allocator tracks memory
//! at the smallest one. All functions here are pure arithmetic over page
//! addresses and the supported page sizes.

use vstd::prelude::*;

verus! {

pub const KIB: usize = 1024;
pub const MIB: usize = 1024 * 1024;
pub const GIB: usize = 1024 * 1024 * 1024;

/// The smallest supported page size; one bitmap bit covers this many bytes.
pub const PAGE_SIZE_MIN: usize = 4 * 1024;

/// The largest supported page size.
pub const PAGE_SIZE_MAX: usize = 1024 * 1024 * 1024;

/// The page sizes the architecture supports (1 GiB, 2 MiB, 4 KiB).
pub open spec fn valid_page_size(page_size: usize) -> bool {
    page_size == 4 * KIB || page_size == 2 * MIB || page_size == GIB
}

/// Mask selecting the offset bits within a page.
pub fn page_mask(page_size: usize) -> (r: usize)
    requires
        1 <= page_size,
    ensures
        r == page_size - 1,
{
    page_size - 1
}

/// Rounds `page` down to the nearest multiple of `page_size`.
pub fn page_round_down(page: usize, page_size: usize) -> (r: usize)
    requires
        valid_page_size(page_size),
    ensures
        r as int == (page as int / page_size as int) * (page_size as int),
{
    let r = page & !page_mask(page_size);
    proof {
        let ps = page_size;
        let k: nat = if ps == 4 * KIB {
            12
        } else if ps == 2 * MIB {
            21
        } else {
            30
        };
        vstd::arithmetic::power2::lemma2_to64();
        vstd::bits::lemma_low_bits_mask_values();
        vstd::bits::lemma_usize_low_bits_mask_is_mod(page, k);
        assert((page & !((ps - 1) as usize)) + (page & ((ps - 1) as usize)) == page) by (bit_vector);
        vstd::arithmetic::div_mod::lemma_fundamental_div_mod(page as int, ps as int);
    }
    r
}

/// Rounds `page` down to the nearest multiple of the smallest page size.
pub fn page_min_round_down(page: usize) -> (r: usize)
    ensures
        r as int == (page as int / PAGE_SIZE_MIN as int) * (PAGE_SIZE_MIN as int),
{
    page_round_down(page, PAGE_SIZE_MIN)
}

/// Rounds `page` up to the nearest multiple of `page_size`.
pub fn page_round_up(page: usize, page_size: usize) -> (r: usize)
    requires
        valid_page_size(page_size),
        page as int % page_size as int == 0 || (page as int / page_size as int) * (
        page_size as int) + page_size as int <= usize::MAX as int,
    ensures
        r as int == if page as int % page_size as int == 0 {
            page as int
        } else {
            (page as int / page_size as int) * (page_size as int) + page_size as int
        },
{
    let down = page_round_down(page, page_size);
    proof {
        vstd::arithmetic::div_mod::lemma_fundamental_div_mod(page as int, page_size as int);
    }
    if page == down {
        page
    } else {
        down + page_size
    }
}

/// Rounds `page` up to the nearest multiple of the smallest page size.
pub fn page_min_round_up(page: usize) -> (r: usize)
    requires
        page as int % PAGE_SIZE_MIN as int == 0 || (page as int / PAGE_SIZE_MIN as int) * (
        PAGE_SIZE_MIN as int) + PAGE_SIZE_MIN as int <= usize::MAX as int,
    ensures
        r as int == if page as int % PAGE_SIZE_MIN as int == 0 {
            page as int
        } else {
            (page as int / PAGE_SIZE_MIN as int) * (PAGE_SIZE_MIN as int) + PAGE_SIZE_MIN as int
        },
{
    page_round_up(page, PAGE_SIZE_MIN)
}

/// The number of the `page_size`-sized page that address `page` falls in.
pub fn page_no(page: usize, page_size: usize) -> (r: usize)
    requires
        valid_page_size(page_size),
    ensures
        r == page as int / page_size as int,
{
    page / page_size
}

/// The number of the smallest-size page that address `page` falls in.
pub fn page_min_no(page: usize) -> (r: usize)
    ensures
        r == page as int / PAGE_SIZE_MIN as int,
{
    page_no(page, PAGE_SIZE_MIN)
}

} // verus!
