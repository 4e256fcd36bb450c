//! Values, identifiers, chains, registries and locks.

use portable_atomic::{AtomicU128, Ordering};
use rjava::diff::{chains_conflict, DiffNode, EnvSnapshot, EscapeState, ForkRegistry};
use rjava::env::{Env, LogicalFrame};
use rjava::ids::{ClassId, RefIndex, RegistryKey, SlotId, ValId, VtId};
use rjava::inline::Operands;
use rjava::ir::{Effect, IntCond, L2Op, Node, Op, ACCEL_BLOB_BASE, ACCEL_INTERPRET};
use rjava::lock::{
    moved16, moved32, owner_of, Entered, Left, LockMove, Monitor, U16Lock, U32Lock, Writing,
};
use rjava::registry::{ControlBlock, Count, RefCounts, RegistryVec};
use rjava::value::{Tag, Val128};

#[test]
fn layout_is_16x16() {
    assert_eq!(core::mem::size_of::<Val128>(), 16);
    assert_eq!(core::mem::align_of::<Val128>(), 16);
}

#[test]
fn tag_byte_roundtrip() {
    for b in 0..8u8 {
        assert_eq!(Tag::from_u8(b).unwrap() as u8, b);
    }
    assert!(Tag::from_u8(8).is_none());
}

#[test]
fn i32_roundtrip() {
    for v in [0, 1, -1, i32::MIN, i32::MAX, 12345, -98765] {
        let x = Val128::from_i32(v);
        assert_eq!(x.tag(), Tag::I32);
        assert_eq!(x.as_i32(), v);
    }
}

#[test]
fn i64_roundtrip() {
    for v in [0i64, 1, -1, i64::MIN, i64::MAX] {
        let x = Val128::from_i64(v);
        assert_eq!(x.tag(), Tag::I64);
        assert_eq!(x.as_i64(), v);
    }
}

#[test]
fn f32_roundtrip_preserves_raw_bits() {
    for v in [
        0.0f32,
        -0.0,
        1.5,
        -3.25,
        f32::INFINITY,
        f32::NEG_INFINITY,
        f32::NAN,
    ] {
        let x = Val128::from_f32(v.to_bits());
        assert_eq!(x.tag(), Tag::F32);
        assert_eq!(x.as_f32(), v.to_bits());
    }
}

#[test]
fn f64_roundtrip_preserves_raw_bits() {
    for v in [
        0.0f64,
        -0.0,
        1.5,
        -3.25,
        f64::INFINITY,
        f64::NEG_INFINITY,
        f64::NAN,
    ] {
        let x = Val128::from_f64(v.to_bits());
        assert_eq!(x.tag(), Tag::F64);
        assert_eq!(x.as_f64(), v.to_bits());
    }
}

#[test]
fn refs_and_null() {
    let i = RefIndex(0xDEAD_BEEF);
    let p = Val128::ptr(i);
    assert_eq!(p.tag(), Tag::Ptr);
    assert_eq!(p.ref_index(), i);
    let h = Val128::handle(i);
    assert_eq!(h.tag(), Tag::Handle);
    assert_eq!(h.ref_index(), i);
    assert_eq!(Val128::null().tag(), Tag::Null);
}

#[test]
fn a_value_is_its_tag_and_its_payload() {
    let v = Val128::from_i32(-2);
    assert_eq!(v.to_bits() & 0xFF, Tag::I32 as u128);
    assert_eq!(Val128::from_bits(v.to_bits()), v);
    assert!(Tag::Ptr.is_ref() && Tag::Handle.is_ref());
    assert!(!Tag::Null.is_ref() && !Tag::I64.is_ref());
}

#[test]
fn promotion_is_monotonic() {
    let mut s = EscapeState::S1;
    s.promote(EscapeState::S2);
    assert_eq!(s, EscapeState::S2);
    s.promote(EscapeState::S1); // never demote
    assert_eq!(s, EscapeState::S2);
    s.promote(EscapeState::S3);
    assert_eq!(s, EscapeState::S3);
    s.promote(EscapeState::S1); // still S3
    assert_eq!(s, EscapeState::S3);
}

fn chain(po: u32) -> DiffNode {
    DiffNode::new(VtId(0), EnvSnapshot::default(), po)
}

#[test]
fn disjoint_field_chains_do_not_merge() {
    let mut a = chain(0);
    a.record_field_write(RefIndex(1), 0);
    let mut b = chain(1);
    b.record_field_write(RefIndex(1), 1); // same object, different field
    assert!(!chains_conflict(&a, &b));

    let mut c = chain(2);
    c.record_field_write(RefIndex(2), 0); // different object, same field index
    assert!(!chains_conflict(&a, &c));
}

#[test]
fn conflicting_field_chains_must_merge() {
    // write/write on the same (object, field)
    let mut a = chain(0);
    a.record_field_write(RefIndex(1), 0);
    let mut b = chain(1);
    b.record_field_write(RefIndex(1), 0);
    assert!(chains_conflict(&a, &b));

    // write/read on the same (object, field), in both directions
    let mut r = chain(2);
    r.record_field_read(RefIndex(1), 0);
    assert!(chains_conflict(&a, &r));
    assert!(chains_conflict(&r, &a));
}

#[test]
fn two_readers_do_not_conflict() {
    let mut a = chain(0);
    a.record_field_read(RefIndex(1), 0);
    let mut b = chain(1);
    b.record_field_read(RefIndex(1), 0);
    assert!(!chains_conflict(&a, &b));
}

#[test]
fn rc_deltas_are_metadata_and_never_merge_chains() {
    let mut a = chain(0);
    a.record_field_write(RefIndex(9), 0);
    a.record_rc_delta(RefIndex(42), 1);
    let mut b = chain(1);
    b.record_field_write(RefIndex(9), 1);
    b.record_rc_delta(RefIndex(42), -1);
    assert!(!chains_conflict(&a, &b));
    // The deltas are still recorded, to be applied in program order at landing.
    assert_eq!(a.rc_deltas, vec![(RefIndex(42), 1)]);
    assert_eq!(b.rc_deltas, vec![(RefIndex(42), -1)]);
}

#[test]
fn different_tid_chains_never_merge() {
    let mut a = DiffNode::new(VtId(0), EnvSnapshot::default(), 0);
    a.record_field_write(RefIndex(1), 0);
    let mut b = DiffNode::new(VtId(1), EnvSnapshot::default(), 0);
    b.record_field_write(RefIndex(1), 0); // identical field, other thread
    assert!(!chains_conflict(&a, &b));
}

#[test]
fn fork_snapshots_are_gc_roots() {
    let mut reg = ForkRegistry::new();
    let snap = EnvSnapshot {
        slots: vec![
            Val128::from_i32(1),       // not a reference
            Val128::ptr(RefIndex(77)), // shared pointer
            Val128::ptr(RefIndex(88)),
            Val128::null(),
        ],
    };
    let id = reg.register(snap);
    let roots: Vec<_> = reg.roots();
    assert_eq!(roots, vec![RefIndex(77), RefIndex(88)]);
    assert_eq!(reg.live_count(), 1);
    reg.release(id);
    assert_eq!(reg.roots().len(), 0);
    assert_eq!(reg.live_count(), 0);
}

#[test]
fn slots_default_null_then_roundtrip() {
    let mut e = Env::new(4, LogicalFrame(0));
    assert_eq!(e.len(), 4);
    assert_eq!(e.read_slot(SlotId(0)).tag(), Tag::Null);
    e.write_slot(SlotId(2), Val128::from_i32(42));
    assert_eq!(e.read_slot(SlotId(2)).as_i32(), 42);
    assert_eq!(e.read_slot(SlotId(0)).tag(), Tag::Null);
    assert_eq!(e.frame(), LogicalFrame(0));
}

#[test]
fn writes_are_pending_until_landed_and_reads_see_them() {
    let mut e = Env::new(2, LogicalFrame(0));
    e.write_slot(SlotId(0), Val128::from_i32(7));
    // Unlanded, but visible to this chain.
    assert_eq!(e.pending_len(), 1);
    assert_eq!(e.read_slot(SlotId(0)).as_i32(), 7);
    // A snapshot taken now sees only the landed state.
    assert_eq!(e.snapshot().slots[0].tag(), Tag::Null);
    e.land();
    assert_eq!(e.pending_len(), 0);
    assert_eq!(e.read_slot(SlotId(0)).as_i32(), 7);
    assert_eq!(e.snapshot().slots[0].as_i32(), 7);
}

#[test]
fn newest_pending_write_wins_and_lands_in_program_order() {
    let mut e = Env::new(1, LogicalFrame(0));
    e.write_slot(SlotId(0), Val128::from_i32(1));
    e.write_slot(SlotId(0), Val128::from_i32(2));
    e.write_slot(SlotId(0), Val128::from_i32(3));
    assert_eq!(e.read_slot(SlotId(0)).as_i32(), 3);
    e.land(); // applied in order, so the last write is the final value
    assert_eq!(e.read_slot(SlotId(0)).as_i32(), 3);
}

#[test]
fn discard_drops_only_unlanded_writes() {
    let mut e = Env::new(1, LogicalFrame(0));
    e.write_slot(SlotId(0), Val128::from_i32(5));
    e.land();
    e.write_slot(SlotId(0), Val128::from_i32(10));
    e.discard_pending();
    assert_eq!(e.read_slot(SlotId(0)).as_i32(), 5);
}

#[test]
fn slot_writes_record_reference_deltas_in_order() {
    let mut e = Env::new(1, LogicalFrame(3));
    let (a, b) = (RefIndex(1), RefIndex(2));
    e.write_slot(SlotId(0), Val128::ptr(a));
    e.write_slot(SlotId(0), Val128::ptr(b));
    e.write_slot(SlotId(0), Val128::handle(a)); // exclusive references are not counted
    e.record_ref_delta(a, -1);
    let mut out = vec![(RefIndex(9), 9)];
    e.drain_ref_deltas(&mut out);
    assert_eq!(out, vec![(a, 1), (b, 1), (a, -1), (b, -1), (a, -1)]);
    e.drain_ref_deltas(&mut out);
    assert!(out.is_empty());
}

#[test]
fn node_construction() {
    let n = Node {
        id: ValId {
            scope_level: 0,
            offset: 3,
        },
        op: Op::Add,
        ins: Operands::from_slice(&[
            ValId {
                scope_level: 0,
                offset: 1,
            },
            ValId {
                scope_level: 0,
                offset: 2,
            },
        ]),
        ty: Tag::I32,
        effect: Effect::Pure,
    };
    assert_eq!(n.ins.len(), 2);
    assert_eq!(n.ty, Tag::I32);
    assert!(matches!(n.op, Op::Add));
}

#[test]
fn operand_lists_keep_order_beyond_their_inline_room() {
    let ids: Vec<ValId> = (0..10).map(|i| ValId { scope_level: 0, offset: i }).collect();
    let ops = Operands::from_slice(&ids);
    assert_eq!(ops.len(), 10);
    for i in 0..10 {
        assert_eq!(ops.get(i), Some(ids[i]));
    }
    assert_eq!(ops.get(10), None);
}

#[test]
fn conditions_test_their_operands() {
    assert!(IntCond::Lt.test(-1, 0) && !IntCond::Lt.test(0, 0));
    assert!(IntCond::Ge.test(0, 0) && !IntCond::Ge.test(-1, 0));
    assert!(IntCond::Eq.test(3, 3) && IntCond::Ne.test(3, 4));
    assert!(IntCond::Gt.test(1, 0) && IntCond::Le.test(0, 0));
}

#[test]
fn accel_seam_defaults_to_interpret() {
    let op = L2Op::new(5, SlotId(0), [SlotId(1), SlotId(2)]);
    assert_eq!(op.accel.load(Ordering::Acquire), ACCEL_INTERPRET);
    // Fragment replacement is a single exchange from the interpret indicator to a blob id.
    assert!(op
        .accel
        .compare_exchange(
            ACCEL_INTERPRET,
            ACCEL_BLOB_BASE,
            Ordering::AcqRel,
            Ordering::Acquire
        )
        .is_ok());
    assert_eq!(op.accel.load(Ordering::Acquire), ACCEL_BLOB_BASE);
}

#[test]
fn registry_vec_push_get() {
    let mut r: RegistryVec<ClassId, u32> = RegistryVec::new();
    let a = r.push(10);
    let b = r.push(20);
    assert_eq!(a, ClassId(0));
    assert_eq!(b, ClassId(1));
    assert_eq!(r.get(a), Some(&10));
    assert_eq!(r.get(b), Some(&20));
    assert_eq!(r.len(), 2);
    assert!(r.get(ClassId(9)).is_none());
}

#[test]
fn registry_items_can_be_changed_in_place() {
    let mut r: RegistryVec<RefIndex, u32> = RegistryVec::with_capacity(4);
    assert!(r.is_empty());
    let k = r.push(1);
    *r.get_mut(k).unwrap() = 5;
    assert_eq!(r.get(k), Some(&5));
    assert!(r.get_mut(RefIndex(3)).is_none());
    assert_eq!(<RefIndex as RegistryKey>::from_index(7), RefIndex(7));
    assert_eq!(RefIndex(7).index(), 7);
}

#[test]
fn control_block_counts_and_validity() {
    let cb = ControlBlock::new(1);
    assert_eq!(cb.counts(), RefCounts { strong: 1, weak: 0 });
    assert_eq!(cb.add_strong(1), 2);
    assert_eq!(cb.add_weak(3), 3);
    assert_eq!(cb.add_strong(-1), 1);
    assert_eq!(cb.counts(), RefCounts { strong: 1, weak: 3 });
    assert!(cb.is_valid());
    assert!(cb.invalidate());
    assert!(!cb.is_valid());
}

#[test]
fn control_block_128bit_atomics_are_lock_free() {
    assert!(AtomicU128::is_lock_free());
}

#[test]
fn a_count_change_shows_both_counts_before_and_after() {
    let cb = ControlBlock::new(5);
    let r = cb.change(Count::Weak, 2);
    assert_eq!(
        (r.before, r.after),
        (
            RefCounts { strong: 5, weak: 0 },
            RefCounts { strong: 5, weak: 2 }
        )
    );
    let r = cb.change(Count::Strong, -5);
    assert_eq!(
        (r.before, r.after),
        (
            RefCounts { strong: 5, weak: 2 },
            RefCounts { strong: 0, weak: 2 }
        )
    );
    assert!(cb.invalidate());
    assert!(!cb.invalidate());
}

#[test]
fn counts_pack_into_one_word() {
    let c = RefCounts { strong: 1, weak: 2 };
    assert_eq!(c.pack(), (1u128 << 64) | 2);
    assert_eq!(RefCounts::unpack(c.pack()), c);
    assert_eq!(
        RefCounts::unpack(RefCounts::weak_moved(RefCounts { strong: 7, weak: 0 }.pack(), -1)),
        RefCounts { strong: 7, weak: u64::MAX }
    );
}

#[test]
fn monitor_is_reentrant() {
    let m = Monitor::new();
    assert_eq!(m.enter(7).how, Entered::First);
    assert_eq!(m.enter(7).how, Entered::Again); // reentry by owner
    assert_eq!(m.owner(), Some(7));
    m.exit(7);
    assert_eq!(m.owner(), Some(7)); // still held (count was 2)
    m.exit(7);
    assert_eq!(m.owner(), None);
}

#[test]
fn a_monitor_keeps_other_threads_out() {
    let m = Monitor::default();
    assert_eq!(m.exit(1).how, Left::NotOwner(u32::MAX));
    assert_eq!(m.enter(1).how, Entered::First);
    assert_eq!(m.enter(2).how, Entered::No(1));
    assert_eq!(m.exit(2).how, Left::NotOwner(1));
    assert_eq!(m.exit(1).how, Left::Outside(1));
    assert_eq!(m.enter(2).how, Entered::First);
    assert_eq!(m.enter(2).how, Entered::Again);
    assert_eq!(m.exit(2).how, Left::Inside(2));
    assert_eq!(owner_of(u32::MAX), None);
    assert_eq!(owner_of(2), Some(2));
}

fn lock_for_writing(l: &U16Lock) {
    let mut at = Writing::Wants;
    while at != Writing::Holds {
        at = l.write(at).to;
    }
}

#[test]
fn u16_read_then_write() {
    let l = U16Lock::new();
    assert!(l.read().found.is_ok());
    assert!(l.read().found.is_ok());
    assert!(l.read_unlock().found.is_ok());
    assert!(l.read_unlock().found.is_ok());
    lock_for_writing(&l);
    assert!(l.write_unlock().found.is_ok());
}

#[test]
fn a_waiting_writer_keeps_new_readers_out() {
    let l = U16Lock::new();
    assert_eq!(l.read().found, Ok(0));
    // A reader is inside, so the writer only announces itself.
    assert_eq!(l.write(Writing::Wants).to, Writing::Waits);
    assert_eq!(l.read().found, Err(0b110));
    assert_eq!(l.announce_write().found, Err(0b110));
    assert_eq!(l.claim_write().found, Err(0b110));
    assert_eq!(l.read_unlock().found, Ok(0b110));
    assert_eq!(l.write(Writing::Waits).to, Writing::Holds);
    assert_eq!(l.read().found, Err(0b01));
    assert_eq!(l.write_unlock().found, Ok(0b01));
    assert_eq!(l.read().found, Ok(0));
}

#[test]
fn the_wide_lock_works_alike() {
    let l = U32Lock::new();
    assert_eq!(l.read().found, Ok(0));
    assert_eq!(l.read().found, Ok(0b100));
    assert_eq!(l.write(Writing::Wants).to, Writing::Waits);
    assert_eq!(l.read().found, Err(0b1010));
    assert_eq!(l.read_unlock().found, Ok(0b1010));
    assert_eq!(l.claim_write().found, Err(0b110));
    assert_eq!(l.read_unlock().found, Ok(0b110));
    assert_eq!(l.claim_write().found, Ok(0b10));
    assert_eq!(l.announce_write().found, Ok(0b01));
    assert_eq!(l.write_unlock().found, Ok(0b11));
    // The second writer still waits, so no reader gets in before it.
    assert_eq!(l.read().found, Err(0b10));
    assert_eq!(l.write(Writing::Waits).to, Writing::Holds);
    assert_eq!(l.write_unlock().found, Ok(0b01));
    assert_eq!(l.read().found, Ok(0));
    assert_eq!(U32Lock::default().read().found, Ok(0));
}

#[test]
fn lock_words_follow_the_protocol() {
    assert_eq!(moved16(LockMove::Enter, 0xFFF8), Some(0xFFFC));
    assert_eq!(moved16(LockMove::Enter, 0xFFFC), None); // no room for one more reader
    assert_eq!(moved16(LockMove::Claim, 0b10), Some(0b01));
    assert_eq!(moved16(LockMove::Claim, 0b100), None);
    // Whoever waits goes on waiting.
    assert_eq!(moved16(LockMove::Release, 0b11), Some(0b10));
    assert_eq!(moved32(LockMove::Release, 0b11), Some(0b10));
    assert_eq!(moved16(LockMove::Release, 0b01), Some(0));
    assert_eq!(moved16(LockMove::Leave, 0b110), Some(0b10));
    assert_eq!(moved32(LockMove::Announce, 0b101), Some(0b111));
    assert_eq!(moved32(LockMove::Announce, 0b10), None);
}
