//! Pure queries over the boot-supplied memory map: the total addressable
//! page count, the largest usable region reachable through the direct map
//! (which hosts the bitmap's own storage), and the region containing a
//! given address.

use vstd::prelude::*;

verus! {

use crate::addr::Addr;
use crate::boot::{BootHhdm, BootMemType, Memmap, MemmapEntry};
use crate::paging;
use crate::paging::PAGE_SIZE_MIN;

/// The greatest end address over all entries; zero for an empty table.
pub open spec fn map_max_end(s: Seq<MemmapEntry>) -> int
    decreases s.len(),
{
    if s.len() == 0 {
        0
    } else {
        let prev = map_max_end(s.drop_last());
        if s.last().spec_end() > prev {
            s.last().spec_end()
        } else {
            prev
        }
    }
}

/// The greatest end address bounds every entry's end and stays within the
/// address space when every entry does.
pub proof fn lemma_map_max_end_bounds(s: Seq<MemmapEntry>)
    requires
        forall|i: int| 0 <= i < s.len() ==> (#[trigger] s[i]).wf(),
    ensures
        0 <= map_max_end(s) <= usize::MAX,
        forall|i: int| 0 <= i < s.len() ==> (#[trigger] s[i]).spec_end() <= map_max_end(s),
    decreases s.len(),
{
    if s.len() > 0 {
        lemma_map_max_end_bounds(s.drop_last());
        assert forall|i: int| 0 <= i < s.len() implies (#[trigger] s[i]).spec_end() <= map_max_end(
            s,
        ) by {
            if i < s.len() - 1 {
                assert(s.drop_last()[i] == s[i]);
            }
        }
    }
}

/// The size of `e` as reachable through the direct map: its length clipped
/// to the bytes the direct map can address.
pub open spec fn clipped_size(e: MemmapEntry, hhdm_base: usize) -> int {
    if e.len <= usize::MAX - hhdm_base {
        e.len as int
    } else {
        usize::MAX - hhdm_base
    }
}

/// Whether an entry is tagged usable.
pub open spec fn is_usable(e: MemmapEntry) -> bool {
    e.typ == BootMemType::Usable
}

/// The first usable entry whose clipped size no other usable entry
/// exceeds; absent when the table holds no usable entry.
pub open spec fn largest_usable(s: Seq<MemmapEntry>, hhdm_base: usize) -> Option<MemmapEntry>
    decreases s.len(),
{
    if s.len() == 0 {
        None
    } else {
        let prev = largest_usable(s.drop_last(), hhdm_base);
        let e = s.last();
        if is_usable(e) {
            match prev {
                None => Some(e),
                Some(p) => if clipped_size(e, hhdm_base) > clipped_size(p, hhdm_base) {
                    Some(e)
                } else {
                    Some(p)
                },
            }
        } else {
            prev
        }
    }
}

/// The selected entry is absent exactly when no entry is usable; when
/// present it is one of the table's usable entries and its clipped size is
/// maximal among them.
pub proof fn lemma_largest_usable_props(s: Seq<MemmapEntry>, hhdm_base: usize)
    ensures
        largest_usable(s, hhdm_base) is None <==> (forall|i: int|
            0 <= i < s.len() ==> !is_usable(#[trigger] s[i])),
        largest_usable(s, hhdm_base) matches Some(e) ==> (exists|i: int|
            0 <= i < s.len() && s[i] == e) && is_usable(e) && (forall|i: int|
            0 <= i < s.len() && is_usable(#[trigger] s[i]) ==> clipped_size(s[i], hhdm_base)
                <= clipped_size(e, hhdm_base)),
    decreases s.len(),
{
    if s.len() > 0 {
        lemma_largest_usable_props(s.drop_last(), hhdm_base);
        assert(forall|i: int| 0 <= i < s.len() - 1 ==> s.drop_last()[i] == #[trigger] s[i]);
        let r = largest_usable(s, hhdm_base);
        let rp = largest_usable(s.drop_last(), hhdm_base);
        if r is Some {
            let e = r->Some_0;
            if rp is Some && e == rp->Some_0 {
                let p = rp->Some_0;
                let w = choose|i: int| 0 <= i < s.len() - 1 && s.drop_last()[i] == p;
                assert(s[w] == e);
            } else {
                assert(s[s.len() - 1] == e);
            }
        }
    }
}

/// Counts the pages needed to represent every reported physical address:
/// finds the greatest end address across the entire map, usable or not,
/// rounds it down to the minimum page size, and converts to a page count.
pub fn get_num_memory_pages(memmap: &Memmap) -> (r: usize)
    requires
        memmap.wf(),
        memmap.entry_count >= 1,
    ensures
        r == map_max_end(memmap.active()) / PAGE_SIZE_MIN as int,
{
    let mut max_end: usize = 0;
    let mut i: usize = 0;
    proof {
        assert(memmap.active().take(0) =~= Seq::<MemmapEntry>::empty());
    }
    while i < memmap.entry_count
        invariant
            memmap.wf(),
            i <= memmap.entry_count,
            max_end == map_max_end(memmap.active().take(i as int)),
        decreases memmap.entry_count - i,
    {
        let entry = memmap.entries[i];
        let entry_end = entry.end();
        proof {
            let taken = memmap.active().take(i as int + 1);
            assert(taken.drop_last() =~= memmap.active().take(i as int));
            assert(taken.last() == entry);
        }
        if entry_end > max_end {
            max_end = entry_end;
        }
        i += 1;
    }
    proof {
        assert(memmap.active().take(memmap.entry_count as int) =~= memmap.active());
    }
    let down = paging::page_min_round_down(max_end);
    let r = paging::page_min_no(down);
    proof {
        let q = max_end as int / PAGE_SIZE_MIN as int;
        vstd::arithmetic::div_mod::lemma_div_by_multiple(q, PAGE_SIZE_MIN as int);
    }
    r
}

/// Picks the usable region hosting the bitmap: the first usable entry
/// whose direct-map-clipped size is greatest; never a non-usable region,
/// whatever its size. Absent when the map holds no usable region.
pub fn get_largest_memmap_entry(hhdm: &BootHhdm, memmap: &Memmap) -> (r: Option<MemmapEntry>)
    requires
        memmap.wf(),
    ensures
        r == largest_usable(memmap.active(), hhdm.base),
        r is None <==> (forall|i: int|
            0 <= i < memmap.active().len() ==> !is_usable(#[trigger] memmap.active()[i])),
        r matches Some(e) ==> is_usable(e) && (forall|i: int|
            0 <= i < memmap.active().len() && is_usable(#[trigger] memmap.active()[i])
                ==> clipped_size(memmap.active()[i], hhdm.base) <= clipped_size(e, hhdm.base)),
        r matches Some(e) ==> exists|i: int|
            0 <= i < memmap.active().len() && memmap.active()[i] == e,
{
    let hhdm_size = hhdm.max_len();
    let mut best: Option<MemmapEntry> = None;
    let mut i: usize = 0;
    proof {
        assert(memmap.active().take(0) =~= Seq::<MemmapEntry>::empty());
    }
    while i < memmap.entry_count
        invariant
            memmap.wf(),
            i <= memmap.entry_count,
            hhdm_size == usize::MAX - hhdm.base,
            best == largest_usable(memmap.active().take(i as int), hhdm.base),
        decreases memmap.entry_count - i,
    {
        let entry = memmap.entries[i];
        proof {
            let taken = memmap.active().take(i as int + 1);
            assert(taken.drop_last() =~= memmap.active().take(i as int));
            assert(taken.last() == entry);
        }
        if entry.typ == BootMemType::Usable {
            let entry_size = if entry.len <= hhdm_size {
                entry.len
            } else {
                hhdm_size
            };
            match best {
                None => {
                    best = Some(entry);
                },
                Some(b) => {
                    let best_size = if b.len <= hhdm_size {
                        b.len
                    } else {
                        hhdm_size
                    };
                    if entry_size > best_size {
                        best = Some(entry);
                    }
                },
            }
        }
        i += 1;
    }
    proof {
        assert(memmap.active().take(memmap.entry_count as int) =~= memmap.active());
        lemma_largest_usable_props(memmap.active(), hhdm.base);
    }
    best
}

/// Whether address `v` falls inside region `e`.
pub open spec fn entry_contains(e: MemmapEntry, v: usize) -> bool {
    e.base <= v < e.base + e.len
}

/// Returns the first region of the map that contains the given address.
pub fn get_addr_entry(memmap: &Memmap, addr: &Addr) -> (r: MemmapEntry)
    requires
        memmap.wf(),
        exists|i: int|
            0 <= i < memmap.active().len() && entry_contains(
                #[trigger] memmap.active()[i],
                addr.spec_value(),
            ),
    ensures
        exists|i: int|
            0 <= i < memmap.active().len() && r == #[trigger] memmap.active()[i] && entry_contains(
                r,
                addr.spec_value(),
            ) && (forall|j: int|
                0 <= j < i ==> !entry_contains(#[trigger] memmap.active()[j], addr.spec_value())),
{
    let offset = addr.as_usize();
    let mut i: usize = 0;
    while i < memmap.entry_count
        invariant
            memmap.wf(),
            i <= memmap.entry_count,
            offset == addr.spec_value(),
            forall|j: int|
                0 <= j < i ==> !entry_contains(#[trigger] memmap.active()[j], addr.spec_value()),
        decreases memmap.entry_count - i,
    {
        let entry = memmap.entries[i];
        if offset >= entry.base && offset < entry.end() {
            proof {
                assert(memmap.active()[i as int] == entry);
            }
            return entry;
        }
        i += 1;
    }
    proof {
        let w = choose|i: int|
            0 <= i < memmap.active().len() && entry_contains(
                #[trigger] memmap.active()[i],
                addr.spec_value(),
            );
        assert(false);
    }
    memmap.entries[0]
}

} // verus!
