use palloc::paging::{
    page_mask, page_min_no, page_min_round_down, page_min_round_up, page_no, page_round_down,
    page_round_up, GIB, MIB, PAGE_SIZE_MIN,
};

#[test]
fn masks() {
    assert_eq!(page_mask(PAGE_SIZE_MIN), 0xfff);
    assert_eq!(page_mask(2 * MIB), 0x1f_ffff);
    assert_eq!(page_mask(GIB), 0x3fff_ffff);
}

#[test]
fn round_down() {
    assert_eq!(page_round_down(0x1fff, PAGE_SIZE_MIN), 0x1000);
    assert_eq!(page_round_down(0x1000, PAGE_SIZE_MIN), 0x1000);
    assert_eq!(page_round_down(0x123456, 2 * MIB), 0);
    assert_eq!(page_round_down(GIB + 5, GIB), GIB);
    assert_eq!(page_min_round_down(4095), 0);
}

#[test]
fn round_up() {
    assert_eq!(page_round_up(0x1001, PAGE_SIZE_MIN), 0x2000);
    assert_eq!(page_round_up(0x2000, PAGE_SIZE_MIN), 0x2000);
    assert_eq!(page_min_round_up(1), PAGE_SIZE_MIN);
    assert_eq!(page_min_round_up(0), 0);
}

#[test]
fn page_numbers() {
    assert_eq!(page_no(0x5000, PAGE_SIZE_MIN), 5);
    assert_eq!(page_no(2 * GIB, GIB), 2);
    assert_eq!(page_min_no(0x4fff), 4);
    assert_eq!(page_min_no(0), 0);
}
