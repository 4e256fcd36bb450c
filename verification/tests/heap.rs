//! The object heap.

use rjava::diff::EscapeState;
use rjava::heap::Heap;
use rjava::ids::{ClassId, RefIndex};
use rjava::value::Val128;

#[test]
fn alloc_fields_get_set() {
    let mut h = Heap::new();
    let r = h
        .allocate(ClassId(7), EscapeState::S1, vec![Val128::null(); 3])
        .unwrap();
    // Fields start as null.
    assert_eq!(h.get_field(r, 0).unwrap(), Val128::null());
    assert!(h.set_field(r, 1, Val128::from_i32(42)));
    assert_eq!(h.get_field(r, 1).unwrap().as_i32(), 42);
    assert_eq!(h.get(r).unwrap().class, ClassId(7));
    assert_eq!(h.get(r).unwrap().escape, EscapeState::S1);
    // Out-of-range field / reference are rejected, not panics.
    assert!(!h.set_field(r, 9, Val128::null()));
    assert!(h.get_field(RefIndex(999), 0).is_none());
}

#[test]
fn free_recycles_index_and_tracks_live() {
    let mut h = Heap::new();
    let a = h
        .allocate(ClassId(0), EscapeState::S1, vec![Val128::null(); 1])
        .unwrap();
    let _b = h
        .allocate(ClassId(0), EscapeState::S1, vec![Val128::null(); 1])
        .unwrap();
    assert_eq!(h.live(), 2);
    assert!(h.free(a));
    assert_eq!(h.live(), 1);
    assert!(h.get(a).is_none());
    // The freed index is reused by the next allocation.
    let c = h
        .allocate(ClassId(0), EscapeState::S1, vec![Val128::null(); 1])
        .unwrap();
    assert_eq!(c, a);
    assert_eq!(h.live(), 2);
}

#[test]
fn free_refuses_shared_objects_and_bad_references() {
    let mut h = Heap::new();
    let s2 = h.allocate(ClassId(0), EscapeState::S2, Vec::new()).unwrap();
    let s3 = h.allocate(ClassId(0), EscapeState::S3, Vec::new()).unwrap();
    assert!(!h.free(s2), "S2 must not be freed by the scope");
    assert!(!h.free(s3), "S3 must not be freed by the scope");
    assert!(h.get(s2).is_some());
    assert!(h.get(s3).is_some());
    assert_eq!(h.live(), 2);
    // A dangling or already-freed reference is a no-op, never a panic or a live-count underflow.
    assert!(!h.free(RefIndex(9999)));
    let s1 = h.allocate(ClassId(0), EscapeState::S1, Vec::new()).unwrap();
    assert!(h.free(s1));
    assert!(!h.free(s1), "double free is refused");
    assert_eq!(h.live(), 2);
}

#[test]
fn promotion_installs_a_count_and_is_monotonic() {
    let mut h = Heap::new();
    let r = h.allocate(ClassId(0), EscapeState::S1, Vec::new()).unwrap();
    assert_eq!(h.escape_of(r), Some(EscapeState::S1));
    // S1 carries no count: a delta against it is ignored.
    assert_eq!(h.add_rc(r, 1), Some(0));
    assert_eq!(h.rc(r), Some(0));

    assert!(h.promote(r, EscapeState::S2));
    assert_eq!(h.escape_of(r), Some(EscapeState::S2));
    // Monotonic: promoting "back" to S1 does nothing.
    assert!(h.promote(r, EscapeState::S1));
    assert_eq!(h.escape_of(r), Some(EscapeState::S2));
    assert!(h.promote(r, EscapeState::S3));
    assert_eq!(h.escape_of(r), Some(EscapeState::S3));
}

#[test]
fn refcount_reaching_zero_reclaims() {
    let mut h = Heap::new();
    let r = h.allocate(ClassId(0), EscapeState::S2, Vec::new()).unwrap();
    assert_eq!(h.live(), 1);
    assert_eq!(h.rc(r), Some(0));
    // Two references acquired, e.g. a local slot and an object field.
    assert_eq!(h.add_rc(r, 1), Some(1));
    assert_eq!(h.add_rc(r, 1), Some(2));
    assert_eq!(h.live(), 1);
    // Releasing one leaves it live...
    assert_eq!(h.add_rc(r, -1), Some(1));
    assert!(h.get(r).is_some());
    // ...releasing the last reclaims immediately.
    assert_eq!(h.add_rc(r, -1), Some(0));
    assert!(h.get(r).is_none());
    assert_eq!(h.live(), 0);
    // The index is recycled, and deltas against a dead reference are refused.
    assert_eq!(h.add_rc(r, 1), None);
    let again = h.allocate(ClassId(1), EscapeState::S2, Vec::new()).unwrap();
    assert_eq!(again, r);
    assert_eq!(h.rc(again), Some(0), "a recycled slot starts fresh");
}

#[test]
fn reclaiming_releases_field_references_transitively() {
    let mut h = Heap::new();
    let c = h
        .allocate(ClassId(0), EscapeState::S2, vec![Val128::null()])
        .unwrap();
    let b = h
        .allocate(ClassId(0), EscapeState::S2, vec![Val128::ptr(c)])
        .unwrap();
    let a = h
        .allocate(ClassId(0), EscapeState::S2, vec![Val128::ptr(b)])
        .unwrap();
    h.add_rc(a, 1); // a local names the head
    h.add_rc(b, 1); // a.next
    h.add_rc(c, 1); // b.next
    assert_eq!(h.live(), 3);
    // Releasing the only reference to the head cascades through b and c.
    assert_eq!(h.add_rc(a, -1), Some(0));
    assert_eq!(h.live(), 0);
    assert!(h.get(b).is_none() && h.get(c).is_none());
}

#[test]
fn a_reference_moving_between_slots_survives_its_batch() {
    let mut h = Heap::new();
    let r = h.allocate(ClassId(0), EscapeState::S2, Vec::new()).unwrap();
    h.add_rc(r, 1); // held by one slot
    h.apply_rc_deltas(&[(r, -1), (r, 1)]); // released, then re-acquired
    assert!(h.get(r).is_some(), "must survive the transient zero");
    assert_eq!(h.rc(r), Some(1));
    // Ending a batch at zero does reclaim.
    h.apply_rc_deltas(&[(r, -1)]);
    assert!(h.get(r).is_none());
    assert_eq!(h.live(), 0);
}

#[test]
fn allocation_fails_at_the_watermark() {
    let mut h = Heap::with_limit(2);
    assert!(h.allocate(ClassId(0), EscapeState::S1, Vec::new()).is_some());
    assert!(h.allocate(ClassId(0), EscapeState::S1, Vec::new()).is_some());
    assert!(h.allocate(ClassId(0), EscapeState::S1, Vec::new()).is_none());
}

#[test]
fn reclaimed_room_can_be_allocated_again() {
    let mut h = Heap::with_limit(1);
    let r = h.allocate(ClassId(0), EscapeState::S2, Vec::new()).unwrap();
    assert!(h.allocate(ClassId(0), EscapeState::S2, Vec::new()).is_none());
    h.add_rc(r, 1);
    h.add_rc(r, -1);
    assert!(h.allocate(ClassId(0), EscapeState::S2, Vec::new()).is_some());
}

#[test]
fn freeing_a_scope_object_releases_what_its_fields_named() {
    let mut h = Heap::new();
    let shared = h.allocate(ClassId(0), EscapeState::S2, Vec::new()).unwrap();
    h.add_rc(shared, 1);
    let own = h
        .allocate(ClassId(0), EscapeState::S1, vec![Val128::ptr(shared)])
        .unwrap();
    assert!(h.free(own));
    assert_eq!(h.live(), 0);
}

#[test]
fn text_belongs_to_its_object() {
    let mut h = Heap::new();
    let a = h.allocate(ClassId(0), EscapeState::S2, Vec::new()).unwrap();
    let b = h.allocate(ClassId(0), EscapeState::S2, Vec::new()).unwrap();
    h.set_text(a, "hello");
    assert_eq!(h.text(a), Some("hello"));
    assert_eq!(h.text(b), None);
    h.set_text(RefIndex(50), "nobody");
    assert_eq!(h.text(RefIndex(50)), None);
}

#[test]
fn an_object_named_from_outside_survives_a_cascade() {
    let mut h = Heap::new();
    let leaf = h.allocate(ClassId(0), EscapeState::S2, Vec::new()).unwrap();
    let node = h
        .allocate(ClassId(0), EscapeState::S2, vec![Val128::ptr(leaf), Val128::ptr(leaf)])
        .unwrap();
    // Two fields and one slot name the leaf; one slot names the node.
    h.apply_rc_deltas(&[(leaf, 1), (leaf, 1), (leaf, 1), (node, 1)]);
    assert_eq!(h.rc(leaf), Some(3));
    // The node goes, and gives back what its fields counted for.
    h.apply_rc_deltas(&[(node, -1)]);
    assert!(h.get(node).is_none());
    assert_eq!(h.rc(leaf), Some(1));
    // The last reference from outside goes.
    h.apply_rc_deltas(&[(leaf, -1)]);
    assert_eq!(h.live(), 0);
}

#[test]
fn a_new_object_counts_nothing() {
    let mut h = Heap::new();
    let r = h
        .allocate(ClassId(0), EscapeState::S2, vec![Val128::null(), Val128::from_i32(0)])
        .unwrap();
    assert_eq!(h.rc(r), Some(0));
    assert_eq!(h.add_rc(r, 1), Some(1));
    assert_eq!(h.add_rc(r, -1), Some(0));
    assert!(h.get(r).is_none());
}

#[test]
fn a_field_of_a_live_object_keeps_its_referent() {
    let mut h = Heap::new();
    let leaf = h.allocate(ClassId(0), EscapeState::S2, Vec::new()).unwrap();
    let keeper = h.allocate(ClassId(0), EscapeState::S2, vec![Val128::ptr(leaf)]).unwrap();
    let goner = h.allocate(ClassId(0), EscapeState::S2, vec![Val128::ptr(leaf)]).unwrap();
    // Two fields and a slot name the leaf; a slot each names the other two.
    h.apply_rc_deltas(&[(leaf, 3), (keeper, 1), (goner, 1)]);
    // The slots of the leaf and of one holder go, and with the holder its field.
    h.apply_rc_deltas(&[(leaf, -1), (goner, -1)]);
    assert!(h.get(goner).is_none());
    assert_eq!(h.rc(leaf), Some(1));
    let copy = h.get(leaf).unwrap().clone();
    assert_eq!((copy.class, copy.rc), (ClassId(0), 1));
    assert_eq!(format!("{:?}", copy), format!("{:?}", h.get(leaf).unwrap()));
    // Nothing names it when the other holder has gone, too.
    h.apply_rc_deltas(&[(keeper, -1)]);
    assert!(h.get(leaf).is_none());
    assert_eq!(h.live(), 0);
}
