use hyperion_core::{BitSet, DirtyTracker};

#[test]
fn bitset_set_and_get() {
    let mut bs = BitSet::new(128);
    assert!(!bs.get(0));
    assert!(!bs.get(63));
    assert!(!bs.get(64));
    bs.set(0);
    bs.set(63);
    bs.set(64);
    assert!(bs.get(0));
    assert!(bs.get(63));
    assert!(bs.get(64));
    assert_eq!(bs.count(), 3);
}

#[test]
fn bitset_set_idempotent() {
    let mut bs = BitSet::new(64);
    bs.set(10);
    bs.set(10);
    bs.set(10);
    assert_eq!(bs.count(), 1);
}

#[test]
fn bitset_get_out_of_bounds() {
    let bs = BitSet::new(64);
    assert!(!bs.get(9999));
}

#[test]
fn bitset_clear() {
    let mut bs = BitSet::new(128);
    bs.set(0);
    bs.set(64);
    bs.set(127);
    assert_eq!(bs.count(), 3);
    bs.clear();
    assert_eq!(bs.count(), 0);
    assert!(!bs.get(0));
    assert!(!bs.get(64));
    assert!(!bs.get(127));
}

#[test]
fn bitset_ensure_capacity_grows() {
    let mut bs = BitSet::new(64);
    bs.set(200);
    assert!(bs.get(200));
    assert_eq!(bs.count(), 1);
}

#[test]
fn dirty_tracker_marks_transform_dirty() {
    let mut tracker = DirtyTracker::new(100);
    assert!(!tracker.is_transform_dirty(0));
    tracker.mark_transform_dirty(0);
    assert!(tracker.is_transform_dirty(0));
}

#[test]
fn dirty_tracker_clear_resets_all() {
    let mut tracker = DirtyTracker::new(100);
    tracker.mark_transform_dirty(0);
    tracker.mark_transform_dirty(50);
    tracker.mark_bounds_dirty(25);
    tracker.clear();
    assert!(!tracker.is_transform_dirty(0));
    assert!(!tracker.is_transform_dirty(50));
    assert!(!tracker.is_bounds_dirty(25));
}

#[test]
fn dirty_tracker_dirty_ratio() {
    let mut tracker = DirtyTracker::new(100);
    for i in 0..30 {
        tracker.mark_transform_dirty(i);
    }
    let ratio = tracker.transform_dirty_count() as f32 / 100.0;
    assert!((ratio - 0.3).abs() < 0.01);
}

#[test]
fn dirty_tracker_meta_dirty_ratio() {
    let mut tracker = DirtyTracker::new(100);
    for i in 0..50 {
        tracker.mark_meta_dirty(i);
    }
    assert_eq!(tracker.meta_dirty_count(), 50);
    assert_eq!(tracker.transform_dirty_count(), 0);
}

#[test]
fn dirty_tracker_ensure_capacity_pre_sizes_bitsets() {
    let mut tracker = DirtyTracker::new(0);
    tracker.ensure_capacity(256);
    tracker.mark_transform_dirty(200);
    tracker.mark_bounds_dirty(200);
    tracker.mark_meta_dirty(200);
    assert!(tracker.is_transform_dirty(200));
    assert!(tracker.is_bounds_dirty(200));
    assert!(tracker.is_meta_dirty(200));
}

#[test]
fn dirty_tracker_is_meta_dirty() {
    let mut tracker = DirtyTracker::new(100);
    assert!(!tracker.is_meta_dirty(5));
    tracker.mark_meta_dirty(5);
    assert!(tracker.is_meta_dirty(5));
    assert!(!tracker.is_meta_dirty(6));
}

#[test]
fn dirty_sets_are_independent() {
    let mut tracker = DirtyTracker::new(8);
    tracker.mark_bounds_dirty(3);
    assert!(!tracker.is_transform_dirty(3));
    assert!(tracker.is_bounds_dirty(3));
    assert!(!tracker.is_meta_dirty(3));
}
