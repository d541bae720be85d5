use reconstruct::bins::{choose_bins, BinMask, BinRange};

#[test]
fn range_new_rejects_what_does_not_fit() {
    assert!(BinRange::new(0, 1, 0).is_none());
    assert!(BinRange::new(4, 1, 4).is_none());
    assert!(BinRange::new(0, 5, 4).is_none());
    assert!(BinRange::new(3, 4, 4).is_some());
}

#[test]
fn range_new_is_canonical() {
    let full = BinRange::new(3, 4, 4).unwrap();
    assert_eq!(full, BinRange { start: 0, len: 4, size: 4 });
    assert_eq!(full, BinRange::full(4));
    let empty = BinRange::new(2, 0, 4).unwrap();
    assert_eq!(empty, BinRange { start: 0, len: 0, size: 4 });
    let part = BinRange::new(2, 3, 4).unwrap();
    assert_eq!(part, BinRange { start: 2, len: 3, size: 4 });
    assert_eq!(part.width(), 3);
}

#[test]
fn range_wraps_around_the_edge() {
    let r = BinRange::new(6, 4, 8).unwrap();
    let held: Vec<u16> = (0..10).filter(|b| r.contains_bin(*b)).collect();
    assert_eq!(held, vec![0, 1, 6, 7]);
}

#[test]
fn equal_ranges_hold_equal_bins() {
    let a = BinRange::new(5, 8, 8).unwrap();
    let b = BinRange::new(1, 8, 8).unwrap();
    assert_eq!(a, b);
    let c = BinRange::new(1, 7, 8).unwrap();
    let d = BinRange::new(2, 7, 8).unwrap();
    assert_ne!(c, d);
    assert!(c.contains_bin(1) && !d.contains_bin(1));
}

#[test]
fn choose_bins_full_spectrum() {
    let r = choose_bins(2048, 0, 2048);
    assert_eq!(r, BinRange { start: 0, len: 2048, size: 2048 });
    assert!(r.contains_bin(0));
    assert!(r.contains_bin(2047));
    assert!(!r.contains_bin(2048));
}

#[test]
fn choose_bins_centred() {
    let r = choose_bins(1024, 0, 2048);
    assert_eq!(r, BinRange { start: 512, len: 1024, size: 2048 });
    assert!(r.contains_bin(1024));
    assert!(r.contains_bin(512));
    assert!(r.contains_bin(1535));
    assert!(!r.contains_bin(511));
    assert!(!r.contains_bin(1536));
}

#[test]
fn choose_bins_wraps_at_the_upper_edge() {
    let r = choose_bins(1024, 1000, 2048);
    assert_eq!(r, BinRange { start: 1512, len: 1024, size: 2048 });
    assert!(r.contains_bin(2024));
    assert!(r.contains_bin(2047));
    assert!(r.contains_bin(0));
    assert!(r.contains_bin(487));
    assert!(!r.contains_bin(488));
    assert!(!r.contains_bin(1511));
    let count = (0..2048).filter(|b| r.contains_bin(*b)).count();
    assert_eq!(count, 1024);
}

#[test]
fn choose_bins_wraps_at_the_lower_edge() {
    let r = choose_bins(16, -1030, 2048);
    assert_eq!(r, BinRange { start: 2034, len: 16, size: 2048 });
    assert!(r.contains_bin(2042));
    assert!(r.contains_bin(2047));
    assert!(r.contains_bin(1));
    assert!(!r.contains_bin(2));
}

#[test]
fn choose_bins_odd_width_and_empty() {
    let r = choose_bins(3, 0, 8);
    assert_eq!(r, BinRange { start: 3, len: 3, size: 8 });
    let none = choose_bins(0, 5, 8);
    assert_eq!(none, BinRange { start: 0, len: 0, size: 8 });
    assert!(!(0..8).any(|b| none.contains_bin(b)));
}

#[test]
fn choose_bins_far_offsets() {
    let r = choose_bins(2, i16::MAX, 7);
    // 3 + 32767 - 1 = 32769 = 7 * 4681 + 2
    assert_eq!(r, BinRange { start: 2, len: 2, size: 7 });
    let s = choose_bins(2, i16::MIN, 7);
    // 3 - 32768 - 1 = -32766 = 7 * (-4681) + 1
    assert_eq!(s, BinRange { start: 1, len: 2, size: 7 });
}

#[test]
fn mask_set_and_get() {
    let mut m = BinMask::new(130);
    assert_eq!(m.size(), 130);
    assert!(!(0..130).any(|b| m.get(b)));
    m.set(0);
    m.set(63);
    m.set(64);
    m.set(129);
    let held: Vec<u16> = (0..200).filter(|b| m.get(*b)).collect();
    assert_eq!(held, vec![0, 63, 64, 129]);
    let copy = m.duplicate();
    let held: Vec<u16> = (0..200).filter(|b| copy.get(*b)).collect();
    assert_eq!(held, vec![0, 63, 64, 129]);
}

#[test]
fn mask_overlaps_only_on_a_shared_bin() {
    let mut a = BinMask::new(2048);
    let mut b = BinMask::new(2048);
    assert!(!a.overlaps(&b));
    a.set(100);
    b.set(101);
    assert!(!a.overlaps(&b));
    assert!(!b.overlaps(&a));
    b.set(1999);
    a.set(1999);
    assert!(a.overlaps(&b));
    assert!(b.overlaps(&a));
}

#[test]
fn mask_overlaps_across_sizes() {
    let mut small = BinMask::new(10);
    let mut large = BinMask::new(500);
    large.set(400);
    small.set(9);
    assert!(!small.overlaps(&large));
    large.set(9);
    assert!(small.overlaps(&large));
    assert!(large.overlaps(&small));
}

#[test]
fn mask_of_a_range_holds_its_bins() {
    let r = BinRange::new(120, 20, 128).unwrap();
    let m = r.to_mask();
    assert_eq!(m.size(), 128);
    for b in 0..128 {
        assert_eq!(m.get(b), r.contains_bin(b), "bin {}", b);
    }
    assert!(m.get(127) && m.get(0) && m.get(11) && !m.get(12) && !m.get(119));
}

#[test]
fn disjoint_ranges_have_disjoint_masks() {
    let a = BinRange::new(0, 64, 256).unwrap().to_mask();
    let b = BinRange::new(64, 64, 256).unwrap().to_mask();
    let c = BinRange::new(63, 2, 256).unwrap().to_mask();
    assert!(!a.overlaps(&b));
    assert!(a.overlaps(&c));
    assert!(b.overlaps(&c));
}
