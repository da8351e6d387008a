use palloc::addr::Addr;
use palloc::boot::{BootHhdm, BootMemType, Memmap, MemmapEntry};
use palloc::memmap::{get_addr_entry, get_largest_memmap_entry, get_num_memory_pages};

fn entry(base: usize, len: usize, typ: BootMemType) -> MemmapEntry {
    MemmapEntry { base, len, typ }
}

fn map_of(entries: Vec<MemmapEntry>) -> Memmap {
    let entry_count = entries.len();
    Memmap { entries, entry_count }
}

#[test]
fn entry_end_is_exclusive() {
    let e = entry(0x1000, 0x3000, BootMemType::Usable);
    assert_eq!(e.end(), 0x4000);
}

#[test]
fn iter_returns_active_prefix() {
    let mut entries = vec![
        entry(0, 0x1000, BootMemType::Reserved),
        entry(0x1000, 0x2000, BootMemType::Usable),
        entry(0x3000, 0x1000, BootMemType::AcpiNvs),
    ];
    entries.push(entry(0xdead, 0xbeef, BootMemType::Reserved));
    let map = Memmap { entries, entry_count: 3 };
    let active = map.iter();
    assert_eq!(active.len(), 3);
    assert_eq!(active[1], entry(0x1000, 0x2000, BootMemType::Usable));
}

#[test]
fn hhdm_max_len() {
    let hhdm = BootHhdm { base: 0xffff_8000 };
    assert_eq!(hhdm.max_len(), usize::MAX - 0xffff_8000);
}

#[test]
fn num_memory_pages_uses_highest_end_of_any_type() {
    // the highest end address belongs to a reserved region; it still counts
    let map = map_of(vec![
        entry(0x0000, 0x5000, BootMemType::Usable),
        entry(0x9000, 0x7800, BootMemType::Reserved),
        entry(0x5000, 0x2000, BootMemType::Usable),
    ]);
    // greatest end is 0x10800; rounded down to 0x10000; 16 pages
    assert_eq!(get_num_memory_pages(&map), 16);
}

#[test]
fn num_memory_pages_single_entry() {
    let map = map_of(vec![entry(0, 4096, BootMemType::Usable)]);
    assert_eq!(get_num_memory_pages(&map), 1);
}

#[test]
fn largest_entry_two_usable_interleaved_with_larger_reserved() {
    // two usable regions of different sizes interleaved with larger
    // reserved regions: the larger usable one wins, never a reserved one
    let big_usable = entry(0x100000, 0x40000, BootMemType::Usable);
    let map = map_of(vec![
        entry(0x000000, 0x80000, BootMemType::Reserved),
        entry(0x080000, 0x10000, BootMemType::Usable),
        entry(0x090000, 0x70000, BootMemType::Reserved),
        big_usable,
        entry(0x140000, 0x100000, BootMemType::Reserved),
    ]);
    let hhdm = BootHhdm { base: 0 };
    let picked = get_largest_memmap_entry(&hhdm, &map).unwrap();
    assert_eq!(picked, big_usable);
    assert_eq!(picked.typ, BootMemType::Usable);
}

#[test]
fn largest_entry_none_without_usable() {
    let map = map_of(vec![
        entry(0, 0x8000, BootMemType::Reserved),
        entry(0x8000, 0x8000, BootMemType::AcpiReclaimable),
    ]);
    let hhdm = BootHhdm { base: 0 };
    assert!(get_largest_memmap_entry(&hhdm, &map).is_none());
}

#[test]
fn largest_entry_first_of_equal_sizes() {
    let first = entry(0x1000, 0x3000, BootMemType::Usable);
    let map = map_of(vec![
        first,
        entry(0x8000, 0x3000, BootMemType::Usable),
    ]);
    let hhdm = BootHhdm { base: 0 };
    assert_eq!(get_largest_memmap_entry(&hhdm, &map).unwrap(), first);
}

#[test]
fn largest_entry_clipped_by_direct_map() {
    // the direct map can only reach a few bytes: both regions clip to the
    // same reachable size, so the first one wins
    let first = entry(0x0, 0x9000, BootMemType::Usable);
    let map = map_of(vec![
        first,
        entry(0x9000, 0xf000, BootMemType::Usable),
    ]);
    let hhdm = BootHhdm { base: usize::MAX - 0x4000 };
    assert_eq!(get_largest_memmap_entry(&hhdm, &map).unwrap(), first);
}

#[test]
fn full_capacity_table() {
    // a map at the table's fixed capacity of 256 entries
    let mut entries = Vec::new();
    for i in 0..256 {
        let typ = if i % 2 == 0 { BootMemType::Reserved } else { BootMemType::Usable };
        entries.push(entry(i * 0x1000, 0x1000, typ));
    }
    let map = map_of(entries);
    assert_eq!(get_num_memory_pages(&map), 256);
    let hhdm = BootHhdm { base: 0 };
    // all usable entries are the same size: the first one wins
    assert_eq!(
        get_largest_memmap_entry(&hhdm, &map).unwrap(),
        entry(0x1000, 0x1000, BootMemType::Usable)
    );
}

#[test]
fn addr_entry_finds_first_containing_region() {
    let map = map_of(vec![
        entry(0x0000, 0x1000, BootMemType::Reserved),
        entry(0x1000, 0x2000, BootMemType::Usable),
        entry(0x1000, 0x5000, BootMemType::Reserved),
    ]);
    let addr = Addr::new(Some(0x1800));
    let found = get_addr_entry(&map, &addr);
    assert_eq!(found, entry(0x1000, 0x2000, BootMemType::Usable));
}
