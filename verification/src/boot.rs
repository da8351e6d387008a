//! The boot collaborator's interface: the memory map, the direct-map
//! offset, and the frame buffer description, all delivered once before
//! the allocator is initialized and never mutated afterwards.

use vstd::prelude::*;

verus! {

/// Capacity of the boot-supplied memory map table.
pub const MAX_MEM_REGIONS: usize = 256;

/// The type tag of a boot-reported physical memory region.
#[derive(PartialEq, Eq, Structural, Clone, Copy, Debug)]
pub enum BootMemType {
    Usable,
    Reserved,
    AcpiReclaimable,
    AcpiNvs,
    BootloaderReclaimable,
}

/// One physical memory region: base address, byte length, type tag.
/// Immutable once captured at boot.
#[derive(PartialEq, Eq, Structural, Clone, Copy, Debug)]
pub struct MemmapEntry {
    pub base: usize,
    pub len: usize,
    pub typ: BootMemType,
}

impl MemmapEntry {
    /// The region does not wrap past the top of the address space.
    pub open spec fn wf(&self) -> bool {
        self.base + self.len <= usize::MAX
    }

    /// The exclusive end address of the region.
    pub open spec fn spec_end(&self) -> int {
        self.base + self.len
    }

    /// Returns the region's exclusive end address.
    pub fn end(&self) -> (r: usize)
        requires
            self.wf(),
        ensures
            r == self.spec_end(),
    {
        self.base + self.len
    }
}

/// The boot-supplied table of physical memory regions: a fixed-capacity
/// ordered sequence plus a count. The order is whatever the boot
/// collaborator supplied; it is not guaranteed sorted or deduplicated.
pub struct Memmap {
    pub entries: Vec<MemmapEntry>,
    pub entry_count: usize,
}

impl Memmap {
    /// The count stays within the stored entries, the table within its
    /// fixed capacity, and no active region wraps the address space.
    pub open spec fn wf(&self) -> bool {
        &&& self.entry_count <= self.entries@.len()
        &&& self.entries@.len() <= MAX_MEM_REGIONS
        &&& forall|i: int| 0 <= i < self.entry_count ==> self.entries@[i].wf()
    }

    /// The active entries, in boot-supplied order.
    pub open spec fn active(&self) -> Seq<MemmapEntry> {
        self.entries@.take(self.entry_count as int)
    }

    /// Returns the active entries as a list.
    pub fn iter(&self) -> (r: Vec<MemmapEntry>)
        requires
            self.wf(),
        ensures
            r@ == self.active(),
    {
        let mut out: Vec<MemmapEntry> = Vec::new();
        let mut i: usize = 0;
        while i < self.entry_count
            invariant
                self.wf(),
                i <= self.entry_count,
                out@ == self.active().take(i as int),
            decreases self.entry_count - i,
        {
            out.push(self.entries[i]);
            proof {
                assert(out@ =~= self.active().take(i as int + 1));
            }
            i += 1;
        }
        proof {
            assert(out@ =~= self.active());
        }
        out
    }
}

/// The direct map: a fixed offset added to a physical address to obtain a
/// kernel-visible virtual address for the same byte.
pub struct BootHhdm {
    pub base: usize,
}

impl BootHhdm {
    /// Returns the number of physical-address bytes reachable through the
    /// direct map before the top of the address space.
    pub fn max_len(&self) -> (r: usize)
        ensures
            r == usize::MAX - self.base,
    {
        usize::MAX - self.base
    }
}

/// Boot-reported frame buffer description.
pub struct BootFrameBuf {
    pub phys_address: usize,
    pub width: u64,
    pub height: u64,
    pub pitch: u64,
    pub bpp: u16,
}

/// Everything the boot collaborator hands over, delivered once before the
/// allocator is initialized.
pub struct BootInfo {
    pub memmap: Memmap,
    pub frame_buffer: BootFrameBuf,
    pub hhdm: BootHhdm,
}

} // verus!
