//! The page pool: owns one bitmap, bootstraps it from the memory map, and
//! serves page-granularity allocate/free requests for the rest of the
//! kernel's lifetime.
//!
//! Bit `i` covers the physical page at address `i * PAGE_SIZE_MIN`; a set
//! bit means "not currently allocatable" (in use, outside every usable
//! region, or never freed), a clear bit means "free".

use vstd::prelude::*;

verus! {

use crate::addr::Addr;
use crate::bitmap::{
    flip_seq,
    has_window,
    window_matches,
    Bitmap,
    BitmapRange,
    WORD_SIZE,
    WORD_SIZE_BITS,
};
use crate::boot::{BootHhdm, BootMemType, Memmap, MemmapEntry};
use crate::memmap::{is_usable, largest_usable, map_max_end};
use crate::paging;
use crate::paging::PAGE_SIZE_MIN;
use vstd::arithmetic::div_mod::{
    lemma_div_by_multiple,
    lemma_div_is_ordered,
    lemma_fundamental_div_mod,
    lemma_mod_multiples_basic,
};
use vstd::arithmetic::mul::lemma_mul_inequality;

/// A fatal condition met while bootstrapping the page pool; the kernel
/// cannot proceed without a working page source.
#[derive(PartialEq, Eq, Structural, Clone, Copy, Debug)]
pub enum PallocError {
    /// The memory map holds no usable region.
    NoUsableRegion,
    /// The largest usable region is too small to host the bitmap's own
    /// storage, and there is nowhere else to bootstrap from.
    RegionTooSmall,
}

/// Whether page `p` lies inside some usable region of the map.
pub open spec fn page_is_usable(s: Seq<MemmapEntry>, p: int) -> bool {
    exists|j: int|
        0 <= j < s.len() && is_usable(#[trigger] s[j]) && s[j].base as int / PAGE_SIZE_MIN as int <= p
            < s[j].spec_end() / PAGE_SIZE_MIN as int
}

/// Words of storage needed for a bitmap of `pages` bits.
pub open spec fn bitmap_words(pages: int) -> int {
    pages / WORD_SIZE_BITS as int + if pages % WORD_SIZE_BITS as int > 0 {
        1int
    } else {
        0int
    }
}

proof fn lemma_page_usable_extend(s: Seq<MemmapEntry>, j: int, p: int)
    requires
        0 <= j < s.len(),
    ensures
        page_is_usable(s.take(j + 1), p) <==> (page_is_usable(s.take(j), p) || (is_usable(s[j])
            && s[j].base as int / PAGE_SIZE_MIN as int <= p < s[j].spec_end() / PAGE_SIZE_MIN as int)),
{
    let a = s.take(j + 1);
    let b = s.take(j);
    if page_is_usable(a, p) {
        let jj = choose|jj: int|
            0 <= jj < a.len() && is_usable(#[trigger] a[jj]) && a[jj].base as int / PAGE_SIZE_MIN as int
                <= p < a[jj].spec_end() / PAGE_SIZE_MIN as int;
        if jj < j {
            assert(b[jj] == a[jj]);
            assert(page_is_usable(b, p));
        } else {
            assert(a[jj] == s[j]);
        }
    }
    if page_is_usable(b, p) {
        let jj = choose|jj: int|
            0 <= jj < b.len() && is_usable(#[trigger] b[jj]) && b[jj].base as int / PAGE_SIZE_MIN as int
                <= p < b[jj].spec_end() / PAGE_SIZE_MIN as int;
        assert(a[jj] == b[jj]);
        assert(page_is_usable(a, p));
    }
    if is_usable(s[j]) && s[j].base as int / PAGE_SIZE_MIN as int <= p < s[j].spec_end()
        / PAGE_SIZE_MIN as int {
        assert(a[j] == s[j]);
        assert(page_is_usable(a, p));
    }
}

/// A word count fits strictly inside a region exactly when it stays at or
/// below the region's last whole word.
proof fn lemma_words_fit(words: int, len: int)
    requires
        0 <= words,
        1 <= len,
    ensures
        (words * WORD_SIZE < len) <==> (words <= (len - 1) / WORD_SIZE as int),
{
    if words <= (len - 1) / WORD_SIZE as int {
        lemma_mul_inequality(words, (len - 1) / WORD_SIZE as int, WORD_SIZE as int);
        lemma_fundamental_div_mod(len - 1, WORD_SIZE as int);
    }
    if words * WORD_SIZE < len {
        lemma_div_by_multiple(words, WORD_SIZE as int);
        lemma_div_is_ordered(words * WORD_SIZE as int, len - 1, WORD_SIZE as int);
    }
}

/// The page pool: exactly one bitmap plus the fixed minimum page size.
pub struct PagePool {
    bmap: Bitmap,
}

impl View for PagePool {
    type V = Seq<bool>;

    closed spec fn view(&self) -> Seq<bool> {
        self.bmap@
    }
}

impl PagePool {
    /// The bitmap is well formed and every tracked page's address fits in
    /// the address space.
    pub closed spec fn wf(&self) -> bool {
        &&& self.bmap.wf()
        &&& self@.len() <= usize::MAX as int / PAGE_SIZE_MIN as int
    }

    /// Builds the pool over `bmap`: marks every page allocated, then clears
    /// to free the page range of every usable region of the map (including
    /// the region hosting the bitmap storage itself, whose span is not
    /// withheld from reuse).
    pub fn new(bmap: Bitmap, memmap: &Memmap) -> (r: PagePool)
        requires
            bmap.wf(),
            memmap.wf(),
            bmap@.len() <= usize::MAX as int / PAGE_SIZE_MIN as int,
            forall|j: int|
                0 <= j < memmap.active().len() && is_usable(#[trigger] memmap.active()[j])
                    ==> memmap.active()[j].spec_end() / PAGE_SIZE_MIN as int <= bmap@.len(),
        ensures
            r.wf(),
            r@.len() == bmap@.len(),
            forall|p: int| 0 <= p < r@.len() ==> r@[p] == !page_is_usable(memmap.active(), p),
    {
        let mut bmap = bmap;
        bmap.fill(true);
        let mut pool = PagePool { bmap };
        let mut j: usize = 0;
        proof {
            assert(memmap.active().take(0) =~= Seq::<MemmapEntry>::empty());
        }
        while j < memmap.entry_count
            invariant
                pool.wf(),
                memmap.wf(),
                j <= memmap.entry_count,
                pool@.len() == bmap@.len(),
                forall|jj: int|
                    0 <= jj < memmap.active().len() && is_usable(#[trigger] memmap.active()[jj])
                        ==> memmap.active()[jj].spec_end() / PAGE_SIZE_MIN as int <= bmap@.len(),
                forall|p: int|
                    0 <= p < pool@.len() ==> pool@[p] == !page_is_usable(
                        memmap.active().take(j as int),
                        p,
                    ),
            decreases memmap.entry_count - j,
        {
            let entry = memmap.entries[j];
            proof {
                assert(memmap.active()[j as int] == entry);
            }
            if entry.typ == BootMemType::Usable {
                pool.mark_region(&entry);
            }
            proof {
                assert forall|p: int| 0 <= p < pool@.len() implies pool@[p] == !page_is_usable(
                    memmap.active().take(j as int + 1),
                    p,
                ) by {
                    lemma_page_usable_extend(memmap.active(), j as int, p);
                }
            }
            j += 1;
        }
        proof {
            assert(memmap.active().take(memmap.entry_count as int) =~= memmap.active());
        }
        pool
    }

    /// Clears to free every page index covered by `entry`.
    fn mark_region(&mut self, entry: &MemmapEntry)
        requires
            old(self).wf(),
            entry.wf(),
            entry.spec_end() / PAGE_SIZE_MIN as int <= old(self)@.len(),
        ensures
            final(self).wf(),
            final(self)@.len() == old(self)@.len(),
            forall|p: int|
                entry.base as int / PAGE_SIZE_MIN as int <= p < entry.spec_end() / PAGE_SIZE_MIN as int
                    ==> final(self)@[p] == false,
            forall|p: int|
                0 <= p < old(self)@.len() && !(entry.base as int / PAGE_SIZE_MIN as int <= p
                    < entry.spec_end() / PAGE_SIZE_MIN as int) ==> final(self)@[p] == old(
                    self,
                )@[p],
    {
        let page_start_no = paging::page_min_no(entry.base);
        let page_end_no = paging::page_min_no(entry.end());
        proof {
            lemma_div_is_ordered(entry.base as int, entry.spec_end(), PAGE_SIZE_MIN as int);
        }
        let mut p = page_start_no;
        while p < page_end_no
            invariant
                self.wf(),
                self@.len() == old(self)@.len(),
                page_start_no <= p <= page_end_no,
                page_end_no <= self@.len(),
                forall|q: int| page_start_no <= q < p ==> self@[q] == false,
                forall|q: int|
                    0 <= q < self@.len() && !(page_start_no <= q < p) ==> self@[q] == old(
                        self,
                    )@[q],
            decreases page_end_no - p,
        {
            self.bmap.clear(p);
            p += 1;
        }
    }

    /// Allocates one page; equivalent to a multi-page request of one.
    /// Page zero must be allocated beforehand: a run starting there would
    /// yield the null address, which an address handle cannot carry.
    pub fn get_one(&mut self) -> (r: Addr)
        requires
            old(self).wf(),
            old(self)@.len() > 0 ==> old(self)@[0] == true,
        ensures
            final(self).wf(),
            final(self)@.len() == old(self)@.len(),
            r.wf(),
            r@ matches Some(a) ==> a % PAGE_SIZE_MIN == 0 && a as int / PAGE_SIZE_MIN as int + 1
                <= old(self)@.len() && old(self)@[a as int / PAGE_SIZE_MIN as int] == false && (
            forall|s: int|
                0 <= s < a as int / PAGE_SIZE_MIN as int ==> !window_matches(
                    old(self)@,
                    s,
                    1,
                    false,
                )) && final(self)@ == flip_seq(
                old(self)@,
                a as int / PAGE_SIZE_MIN as int,
                a as int / PAGE_SIZE_MIN as int + 1,
            ),
            r@ is None ==> final(self)@ == old(self)@ && !has_window(old(self)@, 1, false),
    {
        let r = self.get_multiple(1);
        proof {
            if r@ is Some {
                let a = r@->Some_0;
                assert(window_matches(old(self)@, a as int / PAGE_SIZE_MIN as int, 1, false));
            }
        }
        r
    }

    /// Allocates `num_pages` contiguous pages: finds and flips the earliest
    /// run of free bits, returning the first page's physical address; the
    /// absent address when no such run exists anywhere — a normal,
    /// recoverable outcome, not a fault. Page zero must be allocated
    /// beforehand: a run starting there would yield the null address,
    /// which an address handle cannot carry.
    pub fn get_multiple(&mut self, num_pages: usize) -> (r: Addr)
        requires
            old(self).wf(),
            1 <= num_pages,
            old(self)@.len() > 0 ==> old(self)@[0] == true,
        ensures
            final(self).wf(),
            final(self)@.len() == old(self)@.len(),
            r.wf(),
            r@ matches Some(a) ==> a % PAGE_SIZE_MIN == 0 && a as int / PAGE_SIZE_MIN as int
                + num_pages <= old(self)@.len() && window_matches(
                old(self)@,
                a as int / PAGE_SIZE_MIN as int,
                num_pages as int,
                false,
            ) && (forall|s: int|
                0 <= s < a as int / PAGE_SIZE_MIN as int ==> !window_matches(
                    old(self)@,
                    s,
                    num_pages as int,
                    false,
                )) && final(self)@ == flip_seq(
                old(self)@,
                a as int / PAGE_SIZE_MIN as int,
                a as int / PAGE_SIZE_MIN as int + num_pages as int,
            ),
            r@ is None ==> final(self)@ == old(self)@ && !has_window(
                old(self)@,
                num_pages as int,
                false,
            ),
    {
        let found = self.bmap.find_and_flip(num_pages, false);
        match found {
            None => Addr::new(None),
            Some(idx) => {
                proof {
                    assert(old(self)@[idx as int] == false);
                    assert(idx != 0);
                    assert(idx + 1 <= usize::MAX as int / PAGE_SIZE_MIN as int);
                    lemma_mul_inequality(
                        idx as int + 1,
                        usize::MAX as int / PAGE_SIZE_MIN as int,
                        PAGE_SIZE_MIN as int,
                    );
                    lemma_fundamental_div_mod(usize::MAX as int, PAGE_SIZE_MIN as int);
                }
                let a = idx * PAGE_SIZE_MIN;
                proof {
                    lemma_div_by_multiple(idx as int, PAGE_SIZE_MIN as int);
                    lemma_mod_multiples_basic(idx as int, PAGE_SIZE_MIN as int);
                }
                Addr::new(Some(a))
            },
        }
    }

    /// Frees one page; equivalent to a multi-page free of one.
    pub fn free_one(&mut self, addr: Addr)
        requires
            old(self).wf(),
            addr.wf(),
            addr@ is Some,
            addr.spec_value() % PAGE_SIZE_MIN == 0,
            addr.spec_value() as int / PAGE_SIZE_MIN as int + 1 <= old(self)@.len(),
            old(self)@[addr.spec_value() as int / PAGE_SIZE_MIN as int] == true,
        ensures
            final(self).wf(),
            final(self)@ == flip_seq(
                old(self)@,
                addr.spec_value() as int / PAGE_SIZE_MIN as int,
                addr.spec_value() as int / PAGE_SIZE_MIN as int + 1,
            ),
            final(self)@[addr.spec_value() as int / PAGE_SIZE_MIN as int] == false,
    {
        proof {
            assert(window_matches(
                old(self)@,
                addr.spec_value() as int / PAGE_SIZE_MIN as int,
                1,
                true,
            ));
        }
        self.free_multiple(addr, 1);
    }

    /// Returns `num_pages` pages starting at `addr` to the free set. The
    /// caller must supply exactly the address and count returned by a prior
    /// allocation: every bit of the freed range must currently be
    /// allocated.
    pub fn free_multiple(&mut self, addr: Addr, num_pages: usize)
        requires
            old(self).wf(),
            addr.wf(),
            1 <= num_pages,
            addr@ is Some,
            addr.spec_value() % PAGE_SIZE_MIN == 0,
            addr.spec_value() as int / PAGE_SIZE_MIN as int + num_pages <= old(self)@.len(),
            window_matches(
                old(self)@,
                addr.spec_value() as int / PAGE_SIZE_MIN as int,
                num_pages as int,
                true,
            ),
        ensures
            final(self).wf(),
            final(self)@ == flip_seq(
                old(self)@,
                addr.spec_value() as int / PAGE_SIZE_MIN as int,
                addr.spec_value() as int / PAGE_SIZE_MIN as int + num_pages as int,
            ),
            forall|p: int|
                addr.spec_value() as int / PAGE_SIZE_MIN as int <= p < addr.spec_value() as int
                    / PAGE_SIZE_MIN as int + num_pages ==> final(self)@[p] == false,
    {
        let start = addr.as_usize() / PAGE_SIZE_MIN;
        let end = start + num_pages;
        self.bmap.flip_range(&BitmapRange::new(start, end));
    }
}

/// Bootstraps the one page pool from the boot-supplied memory map and
/// direct-map offset: sizes the bitmap by the highest reported end
/// address, checks its storage fits inside the largest usable region,
/// marks every page allocated, then frees every usable region's pages.
/// Both failures are fatal to kernel startup; the caller halts on them.
pub fn init(hhdm: &BootHhdm, memmap: &Memmap) -> (r: Result<PagePool, PallocError>)
    requires
        memmap.wf(),
    ensures
        r is Err && r->Err_0 == PallocError::NoUsableRegion <==> largest_usable(
            memmap.active(),
            hhdm.base,
        ) is None,
        largest_usable(memmap.active(), hhdm.base) matches Some(region) ==> ((r is Err
            && r->Err_0 == PallocError::RegionTooSmall) <==> bitmap_words(
            map_max_end(memmap.active()) / PAGE_SIZE_MIN as int,
        ) * WORD_SIZE >= region.len),
        r matches Ok(pool) ==> pool.wf() && pool@.len() == map_max_end(memmap.active())
            / PAGE_SIZE_MIN as int && (forall|p: int|
            0 <= p < pool@.len() ==> pool@[p] == !page_is_usable(memmap.active(), p)),
{
    let largest = crate::memmap::get_largest_memmap_entry(hhdm, memmap);
    match largest {
        None => Err(PallocError::NoUsableRegion),
        Some(region) => {
            proof {
                let w = choose|i: int|
                    0 <= i < memmap.active().len() && memmap.active()[i] == region;
                assert(memmap.entry_count >= 1);
                crate::memmap::lemma_map_max_end_bounds(memmap.active());
            }
            let memory_pages = crate::memmap::get_num_memory_pages(memmap);
            proof {
                lemma_div_is_ordered(
                    map_max_end(memmap.active()),
                    usize::MAX as int,
                    PAGE_SIZE_MIN as int,
                );
                lemma_div_is_ordered(memory_pages as int, usize::MAX as int, 64);
                vstd::arithmetic::div_mod::lemma_div_decreases(usize::MAX as int, 64);
            }
            let bitmap_buf_size = memory_pages / WORD_SIZE_BITS + if memory_pages % WORD_SIZE_BITS
                > 0 {
                1
            } else {
                0
            };
            let fits = region.len >= 1 && bitmap_buf_size <= (region.len - 1) / WORD_SIZE;
            proof {
                if region.len >= 1 {
                    lemma_words_fit(bitmap_buf_size as int, region.len as int);
                }
            }
            if !fits {
                return Err(PallocError::RegionTooSmall);
            }
            let mut storage: Vec<u64> = Vec::new();
            let mut w: usize = 0;
            while w < bitmap_buf_size
                invariant
                    storage@.len() == w,
                    w <= bitmap_buf_size,
                decreases bitmap_buf_size - w,
            {
                storage.push(0);
                w += 1;
            }
            proof {
                lemma_fundamental_div_mod(memory_pages as int, 64);
            }
            let bmap = Bitmap::new(storage, memory_pages);
            proof {
                assert forall|j: int|
                    0 <= j < memmap.active().len() && is_usable(
                        #[trigger] memmap.active()[j],
                    ) implies memmap.active()[j].spec_end() / PAGE_SIZE_MIN as int
                    <= bmap@.len() by {
                    lemma_div_is_ordered(
                        memmap.active()[j].spec_end(),
                        map_max_end(memmap.active()),
                        PAGE_SIZE_MIN as int,
                    );
                }
            }
            Ok(PagePool::new(bmap, memmap))
        },
    }
}

/// Allocating a run of pages and then immediately freeing the exact same
/// address and count restores the bitmap's bit pattern: the allocation
/// flips an all-free window to allocated, and the matching free flips the
/// same window back.
pub proof fn lemma_alloc_free_inverse(before: Seq<bool>, start: int, count: int)
    requires
        0 <= start,
        1 <= count,
        start + count <= before.len(),
        window_matches(before, start, count, false),
    ensures
        flip_seq(flip_seq(before, start, start + count), start, start + count) == before,
        window_matches(flip_seq(before, start, start + count), start, count, true),
{
    crate::bitmap::lemma_flip_involution(before, start, start + count);
}

/// Allocates a single page from the pool.
pub fn get_page(pool: &mut PagePool) -> (r: Addr)
    requires
        old(pool).wf(),
        old(pool)@.len() > 0 ==> old(pool)@[0] == true,
    ensures
        final(pool).wf(),
        final(pool)@.len() == old(pool)@.len(),
        r.wf(),
        r@ matches Some(a) ==> a % PAGE_SIZE_MIN == 0 && a as int / PAGE_SIZE_MIN as int + 1 <= old(
            pool,
        )@.len() && old(pool)@[a as int / PAGE_SIZE_MIN as int] == false && (forall|s: int|
            0 <= s < a as int / PAGE_SIZE_MIN as int ==> old(pool)@[s] == true) && final(pool)@
            == flip_seq(
            old(pool)@,
            a as int / PAGE_SIZE_MIN as int,
            a as int / PAGE_SIZE_MIN as int + 1,
        ),
        r@ is None ==> final(pool)@ == old(pool)@ && !has_window(old(pool)@, 1, false),
{
    let r = pool.get_one();
    proof {
        if r@ is Some {
            let idx = r@->Some_0 as int / PAGE_SIZE_MIN as int;
            assert forall|s: int| 0 <= s < idx implies old(pool)@[s] == true by {
                assert(!window_matches(old(pool)@, s, 1, false));
                if old(pool)@[s] == false {
                    assert(window_matches(old(pool)@, s, 1, false));
                }
            }
        }
    }
    r
}

/// Allocates `num_pages` contiguous pages from the pool.
pub fn get_pages(pool: &mut PagePool, num_pages: usize) -> (r: Addr)
    requires
        old(pool).wf(),
        1 <= num_pages,
        old(pool)@.len() > 0 ==> old(pool)@[0] == true,
    ensures
        final(pool).wf(),
        final(pool)@.len() == old(pool)@.len(),
        r.wf(),
        r@ matches Some(a) ==> a % PAGE_SIZE_MIN == 0 && a as int / PAGE_SIZE_MIN as int
            + num_pages <= old(pool)@.len() && window_matches(
            old(pool)@,
            a as int / PAGE_SIZE_MIN as int,
            num_pages as int,
            false,
        ) && (forall|s: int|
            0 <= s < a as int / PAGE_SIZE_MIN as int ==> !window_matches(
                old(pool)@,
                s,
                num_pages as int,
                false,
            )) && final(pool)@ == flip_seq(
            old(pool)@,
            a as int / PAGE_SIZE_MIN as int,
            a as int / PAGE_SIZE_MIN as int + num_pages as int,
        ),
        r@ is None ==> final(pool)@ == old(pool)@ && !has_window(
            old(pool)@,
            num_pages as int,
            false,
        ),
{
    pool.get_multiple(num_pages)
}

/// Frees the single page at `addr`, previously returned by an allocation.
pub fn free_page(pool: &mut PagePool, addr: Addr)
    requires
        old(pool).wf(),
        addr.wf(),
        addr@ is Some,
        addr.spec_value() % PAGE_SIZE_MIN == 0,
        addr.spec_value() as int / PAGE_SIZE_MIN as int + 1 <= old(pool)@.len(),
        old(pool)@[addr.spec_value() as int / PAGE_SIZE_MIN as int] == true,
    ensures
        final(pool).wf(),
        final(pool)@ == flip_seq(
            old(pool)@,
            addr.spec_value() as int / PAGE_SIZE_MIN as int,
            addr.spec_value() as int / PAGE_SIZE_MIN as int + 1,
        ),
{
    pool.free_one(addr);
}

/// Frees `num_pages` pages starting at `addr`; the pair must be exactly
/// what a prior allocation returned.
pub fn free_pages(pool: &mut PagePool, addr: Addr, num_pages: usize)
    requires
        old(pool).wf(),
        addr.wf(),
        1 <= num_pages,
        addr@ is Some,
        addr.spec_value() % PAGE_SIZE_MIN == 0,
        addr.spec_value() as int / PAGE_SIZE_MIN as int + num_pages <= old(pool)@.len(),
        window_matches(
            old(pool)@,
            addr.spec_value() as int / PAGE_SIZE_MIN as int,
            num_pages as int,
            true,
        ),
    ensures
        final(pool).wf(),
        final(pool)@ == flip_seq(
            old(pool)@,
            addr.spec_value() as int / PAGE_SIZE_MIN as int,
            addr.spec_value() as int / PAGE_SIZE_MIN as int + num_pages as int,
        ),
{
    pool.free_multiple(addr, num_pages);
}

} // verus!
