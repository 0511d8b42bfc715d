use riaps::memory::{DropVTable, EmergencySlot, GcContext};
use riaps::rcu::RcuHandle;
use riaps::spsc::{CachePadded, RingIndex, SpscError, SpscRing};
use std::sync::atomic::{AtomicU32, Ordering};
use std::sync::Arc;

#[test]
fn spsc_push_pop_roundtrip() {
    let mut ring = SpscRing::<u32, 8>::new();
    for i in 0..8u32 {
        assert!(ring.producer().push(i).is_ok());
    }
    assert_eq!(ring.producer().push(99), Err(99));
    for i in 0..8u32 {
        assert_eq!(ring.consumer().pop(), Some(i));
    }
    assert_eq!(ring.consumer().pop(), None);
}

#[test]
fn spsc_wraparound() {
    let mut ring = SpscRing::<u64, 4>::new();
    for round in 0..100u64 {
        assert!(ring.producer().push(round).is_ok());
        assert_eq!(ring.consumer().pop(), Some(round));
    }
    assert!(ring.is_empty());
}

#[test]
fn spsc_pop_slice_copy() {
    let mut ring = SpscRing::<f32, 32>::new();
    for i in 0..16 {
        ring.producer().push(i as f32).unwrap();
    }
    let mut dst = [f32::NAN; 16];
    ring.consumer().pop_slice_copy(&mut dst).unwrap();
    for (i, slot) in dst.iter().enumerate() {
        assert_eq!(*slot, i as f32);
    }
    let mut dst2 = [f32::NAN; 4];
    assert_eq!(ring.consumer().pop_slice_copy(&mut dst2), Err(SpscError::InsufficientData));
}

#[test]
fn spsc_capacity_left() {
    let mut ring = SpscRing::<u8, 16>::new();
    assert_eq!(ring.capacity_left(), 16);
    for i in 0..10 {
        ring.producer().push(i).unwrap();
    }
    assert_eq!(ring.capacity_left(), 6);
}

#[test]
fn ring_short_of_a_batch_is_left_alone() {
    let mut ring = SpscRing::<u8, 4>::new();
    ring.producer().push(1).unwrap();
    ring.producer().push(2).unwrap();
    let mut dst = [7u8; 3];
    assert_eq!(ring.consumer().pop_slice_copy(&mut dst), Err(SpscError::InsufficientData));
    assert_eq!(dst, [7, 7, 7]);
    assert_eq!(ring.len(), 2);
    assert_eq!(ring.consumer().pop(), Some(1));
}

#[test]
fn ring_drains_in_order_across_the_seam() {
    let mut ring = SpscRing::<u8, 3>::new();
    assert_eq!(ring.capacity(), 3);
    ring.producer().push(0).unwrap();
    ring.producer().push(1).unwrap();
    assert_eq!(ring.consumer().pop(), Some(0));
    ring.producer().push(2).unwrap();
    ring.producer().push(3).unwrap();
    assert_eq!(ring.capacity_left(), 0);
    assert_eq!(ring.consumer().drain(), vec![1, 2, 3]);
    assert!(ring.is_empty());
    assert_eq!(ring.capacity_left(), 3);
}

#[test]
fn ring_without_slots_takes_nothing() {
    let mut ring = SpscRing::<u8, 0>::default();
    assert_eq!(ring.producer().push(1), Err(1));
    assert_eq!(ring.consumer().pop(), None);
    assert_eq!(ring.capacity_left(), 0);
}

#[test]
fn ring_gives_its_items_back_when_dropped() {
    let item = Arc::new(());
    let mut ring = SpscRing::<Arc<()>, 2>::new();
    ring.producer().push(item.clone()).unwrap();
    assert_eq!(Arc::strong_count(&item), 2);
    drop(ring);
    assert_eq!(Arc::strong_count(&item), 1);
}

#[test]
fn ring_indices_count_steps() {
    let mut head = RingIndex::start();
    let mut tail = RingIndex::start();
    for step in 0..10usize {
        assert_eq!(head.distance(tail, 5), 0);
        for ahead in 1..=5usize {
            tail = tail.advance(5);
            assert_eq!(head.distance(tail, 5), ahead);
        }
        assert_ne!(head, tail);
        assert_eq!(head.slot, tail.slot);
        assert_eq!(head.slot, step % 5);
        head = head.advance(5);
        tail = head;
    }
}

#[test]
fn cache_padded_keeps_its_value() {
    assert_eq!(CachePadded::new(5u8).value, 5);
}

#[test]
fn rcu_swap_returns_old_and_bumps_version() {
    let a = Arc::new(1u32);
    let b = Arc::new(2u32);
    let mut handle = RcuHandle::new(a.clone());
    assert_eq!(handle.version(), 1);
    assert!(Arc::ptr_eq(handle.load().unwrap(), &a));

    let old = handle.swap(b.clone()).unwrap();
    assert!(Arc::ptr_eq(&old, &a));
    assert_eq!(handle.version(), 2);
    assert!(Arc::ptr_eq(handle.load().unwrap(), &b));

    drop(old);
    assert_eq!(Arc::strong_count(&a), 1);
    drop(handle);
    assert_eq!(Arc::strong_count(&b), 1);
}

#[test]
fn rcu_retires_each_version_once() {
    let mut handle = RcuHandle::empty();
    assert_eq!(handle.version(), 0);
    assert!(handle.load().is_none());
    let retired: Vec<Option<Box<u8>>> = (1..=4u8).map(|i| handle.swap(Box::new(i))).collect();
    assert_eq!(retired, vec![None, Some(Box::new(1)), Some(Box::new(2)), Some(Box::new(3))]);
    assert_eq!(handle.load(), Some(&Box::new(4)));
    assert_eq!(handle.version(), 4);
}

struct Counted(Arc<AtomicU32>);

impl Drop for Counted {
    fn drop(&mut self) {
        self.0.fetch_add(1, Ordering::SeqCst);
    }
}

#[test]
fn deferred_drop_roundtrip() {
    let dropped = Arc::new(AtomicU32::new(0));
    let before = dropped.load(Ordering::SeqCst);
    let (object, vtable) = GcContext::defer_box(Box::new(Counted(dropped.clone())));
    let mut gc = GcContext::new();
    assert_eq!(dropped.load(Ordering::SeqCst), before);
    gc.drop_and_dealloc(object, vtable);
    assert_eq!(dropped.load(Ordering::SeqCst), before + 1);
    assert_eq!(gc.reclaimed(), 1);
}

#[test]
fn emergency_slot_push_drain() {
    let mut slot = EmergencySlot::new();
    assert!(slot.is_vacant());

    let (object, vtable) = GcContext::defer_box(Box::new(42u64));
    let place = format!("{:p}", object);
    assert!(slot.push(object, vtable).is_ok());
    assert!(!slot.is_vacant());
    let (second, second_vtable) = GcContext::defer_box(Box::new(7u64));
    let refused = slot.push(second, second_vtable);
    assert!(refused.is_err());
    let mut gc = GcContext::new();
    gc.drop_and_dealloc(refused.unwrap_err(), second_vtable);

    let (drained, drained_vtable) = slot.drain().expect("the slot is taken");
    assert_eq!(format!("{:p}", drained), place);
    assert_eq!(*drained, 42);
    gc.drop_and_dealloc(drained, drained_vtable);
    assert!(slot.is_vacant());
    assert!(slot.drain().is_none());
    assert_eq!(gc.reclaimed(), 2);
}

#[test]
fn drop_table_describes_the_type() {
    let vtable = DropVTable::of::<u64>();
    assert_eq!(vtable, DropVTable { size: 8, align: std::mem::align_of::<u64>() });
    assert_eq!(DropVTable::of::<()>(), DropVTable { size: 0, align: 1 });
    assert_ne!(vtable, DropVTable::of::<[u64; 2]>());
}
