use palloc::bitmap::{Bitmap, BitmapRange, WORD_SIZE_BITS};

fn fresh(words: usize) -> Bitmap {
    let buf = vec![0u64; words];
    Bitmap::new(buf, words * WORD_SIZE_BITS)
}

#[test]
fn new_zero_fills() {
    let buf = vec![0xdead_beef_dead_beefu64; 4];
    let bmap = Bitmap::new(buf, 4 * WORD_SIZE_BITS);
    assert_eq!(bmap.len(), 256);
    for i in 0..bmap.len() {
        assert_eq!(bmap.get(i), false);
    }
}

#[test]
fn new_partial_logical_length() {
    let buf = vec![0u64; 2];
    let bmap = Bitmap::new(buf, 100);
    assert_eq!(bmap.len(), 100);
}

#[test]
fn fill_sets_every_bit() {
    let mut bmap = fresh(3);
    bmap.fill(true);
    for i in 0..bmap.len() {
        assert_eq!(bmap.get(i), true);
    }
    bmap.fill(false);
    for i in 0..bmap.len() {
        assert_eq!(bmap.get(i), false);
    }
}

#[test]
fn set_get_clear_single_bits() {
    let mut bmap = fresh(2);
    bmap.set(5);
    bmap.set(64);
    assert_eq!(bmap.get(5), true);
    assert_eq!(bmap.get(64), true);
    assert_eq!(bmap.get(4), false);
    assert_eq!(bmap.get(63), false);
    bmap.clear(5);
    assert_eq!(bmap.get(5), false);
    assert_eq!(bmap.get(64), true);
}

#[test]
fn alloc_one() {
    let buf = vec![0u64; 10];
    let mut bmap = Bitmap::new(buf, 10 * WORD_SIZE_BITS);
    assert_eq!(bmap.find_and_flip(1, false), Some(0));
    assert_eq!(bmap.get(0), true);
}

#[test]
fn alloc_two() {
    let buf = vec![0u64; 10];
    let mut bmap = Bitmap::new(buf, 10 * WORD_SIZE_BITS);
    assert_eq!(bmap.find_and_flip(1, false), Some(0));
    assert_eq!(bmap.find_and_flip(1, false), Some(1));
    assert_eq!(bmap.get(0), true);
    assert_eq!(bmap.get(1), true);
}

#[test]
fn alloc_all() {
    let buf = vec![0u64; 10];
    let mut bmap = Bitmap::new(buf, 10 * WORD_SIZE_BITS);
    for i in 0..bmap.len() {
        assert_eq!(bmap.find_and_flip(1, false), Some(i));
    }
    for i in 0..bmap.len() {
        assert_eq!(bmap.get(i), true);
    }
}

#[test]
fn alloc_big() {
    let buf = vec![0u64; 10];
    let mut bmap = Bitmap::new(buf, 10 * WORD_SIZE_BITS);
    assert_eq!(bmap.find_and_flip(64 * 10, false), Some(0));
    assert_eq!(bmap.len(), 64 * 10);
    for i in 0..bmap.len() {
        assert_eq!(bmap.get(i), true);
    }
    bmap.find_and_flip(64, true);
    for i in 0..64 {
        assert_eq!(bmap.get(i), false);
    }
    for i in 64..bmap.len() {
        assert_eq!(bmap.get(i), true);
    }
    bmap.find_and_flip(12, false);
    for i in 0..12 {
        assert_eq!(bmap.get(i), true);
    }
    assert_eq!(bmap.find_and_flip(53, false), None);
}

#[test]
fn find_first_fit_skips_short_runs() {
    let mut bmap = fresh(1);
    // free runs: [2,4) of length 2, then [5,64) — a request of 3 must skip
    // the first run and anchor at 5
    bmap.set(0);
    bmap.set(1);
    bmap.set(4);
    let range = bmap.find_first_fit(3, false).unwrap();
    assert_eq!(range.start, 5);
    assert_eq!(range.end, 8);
}

#[test]
fn find_first_fit_for_set_bits() {
    let mut bmap = fresh(1);
    bmap.set(3);
    bmap.set(4);
    bmap.set(5);
    let range = bmap.find_first_fit(2, true).unwrap();
    assert_eq!(range.start, 3);
    assert_eq!(range.end, 5);
}

#[test]
fn find_first_fit_none_when_no_run() {
    let mut bmap = fresh(1);
    for i in 0..64 {
        if i % 2 == 0 {
            bmap.set(i);
        }
    }
    assert!(bmap.find_first_fit(2, false).is_none());
    assert!(bmap.find_first_fit(2, true).is_none());
    assert_eq!(bmap.find_first_fit(1, false).unwrap().start, 1);
}

#[test]
fn flip_range_across_word_boundary() {
    let mut bmap = fresh(10);
    bmap.flip_range(&BitmapRange::new(60, 70));
    for i in 0..bmap.len() {
        assert_eq!(bmap.get(i), (60..70).contains(&i));
    }
}

#[test]
fn flip_involution_restores_bits() {
    let mut bmap = fresh(10);
    bmap.set(3);
    bmap.set(200);
    bmap.flip_range(&BitmapRange::new(64, 192));
    bmap.flip_range(&BitmapRange::new(64, 192));
    for i in 0..bmap.len() {
        assert_eq!(bmap.get(i), i == 3 || i == 200);
    }
}

#[test]
fn flip_range_end_on_buffer_boundary() {
    // the range ends exactly at the last word's edge; no word beyond the
    // backing buffer may be touched
    let mut bmap = fresh(2);
    bmap.flip_range(&BitmapRange::new(0, 128));
    for i in 0..128 {
        assert_eq!(bmap.get(i), true);
    }
}

#[test]
fn flip_range_single_word_interior() {
    let mut bmap = fresh(1);
    bmap.flip_range(&BitmapRange::new(4, 9));
    for i in 0..64 {
        assert_eq!(bmap.get(i), (4..9).contains(&i));
    }
}

#[test]
fn all_same_detects_mixed_ranges() {
    let mut bmap = fresh(1);
    bmap.set(10);
    assert!(bmap.all_same(&BitmapRange::new(0, 10)));
    assert!(bmap.all_same(&BitmapRange::new(10, 11)));
    assert!(!bmap.all_same(&BitmapRange::new(9, 11)));
    assert!(bmap.all_same(&BitmapRange::new(7, 7)));
}

#[test]
fn exact_fit_succeeds_only_when_uniform() {
    let buf = vec![0u64; 2];
    let mut bmap = Bitmap::new(buf, 128);
    assert_eq!(bmap.find_and_flip(128, false), Some(0));
    for i in 0..128 {
        assert_eq!(bmap.get(i), true);
    }
    // now one bit differs: a full-length request fails in either state
    bmap.clear(77);
    assert!(bmap.find_first_fit(128, true).is_none());
    assert!(bmap.find_first_fit(128, false).is_none());
}

#[test]
fn oversized_request_always_fails() {
    let buf = vec![0u64; 2];
    let bmap = Bitmap::new(buf, 128);
    assert!(bmap.find_first_fit(129, false).is_none());
}

fn snapshot(bmap: &Bitmap) -> Vec<bool> {
    (0..bmap.len()).map(|i| bmap.get(i)).collect()
}

#[test]
fn find_and_flip_flips_exactly_the_window() {
    let mut bmap = fresh(2);
    bmap.set(0);
    bmap.set(1);
    bmap.set(100);
    let before = snapshot(&bmap);
    let start = bmap.find_and_flip(3, false).unwrap();
    assert_eq!(start, 2);
    for i in 0..bmap.len() {
        if (start..start + 3).contains(&i) {
            assert_eq!(before[i], false);
            assert_eq!(bmap.get(i), true);
        } else {
            assert_eq!(bmap.get(i), before[i]);
        }
    }
}

#[test]
fn alloc_free_pair_restores_the_pattern() {
    let mut bmap = fresh(3);
    bmap.set(1);
    bmap.set(70);
    bmap.set(140);
    let before = snapshot(&bmap);
    let start = bmap.find_and_flip(60, false).unwrap();
    bmap.flip_range(&BitmapRange::new(start, start + 60));
    assert_eq!(snapshot(&bmap), before);
}

#[test]
fn scenario_all_free_six_hundred_forty() {
    let buf = vec![0u64; 10];
    let mut bmap = Bitmap::new(buf, 640);
    assert_eq!(bmap.find_and_flip(1, false), Some(0));
    assert_eq!(bmap.get(0), true);
    assert_eq!(bmap.find_and_flip(1, false), Some(1));
}

#[test]
fn scenario_whole_map_then_exhausted() {
    let buf = vec![0u64; 10];
    let mut bmap = Bitmap::new(buf, 640);
    assert_eq!(bmap.find_and_flip(640, false), Some(0));
    for i in 0..640 {
        assert_eq!(bmap.get(i), true);
    }
    assert_eq!(bmap.find_and_flip(53, false), None);
}
