use gcmalloc::collector::{Collector, CollectorPhase, GC_ALLOCATION_THRESHOLD};
use gcmalloc::gcvec::GcVec;
use gcmalloc::layout::Layout;
use gcmalloc::memory::Memory;
use gcmalloc::platform::{get_data_segment_range, get_stack_start, StackQuery, StackStep};
use gcmalloc::DebugFlags;

#[test]
fn layouts() {
    assert_eq!(Layout::from_size_align(8, 8), Some(Layout { size: 8, align: 8 }));
    assert_eq!(Layout::from_size_align(8, 0), None);
    assert_eq!(Layout::from_size_align(8, 3), None);
    assert_eq!(Layout::from_size_align(8, 12), None);
    let max = 0x7fff_ffff_ffff_ffff;
    assert_eq!(Layout::from_size_align(max, 1), Some(Layout { size: max, align: 1 }));
    assert_eq!(Layout::from_size_align(max, 2), None);
    assert_eq!(Layout::from_size_align(max + 1, 1), None);
    assert_eq!(Layout::from_size_align(0, 1 << 63), Some(Layout { size: 0, align: 1 << 63 }));
    assert_eq!(Layout::new::<u32>(), Layout { size: 4, align: 4 });
    assert_eq!(Layout::new::<[u16; 3]>(), Layout { size: 6, align: 2 });
    let a = Layout { size: 9, align: 1 };
    let b = Layout { size: 4, align: 4 };
    assert_eq!(a.extend(b), Some((Layout { size: 16, align: 4 }, 12)));
    assert_eq!(b.extend(a), Some((Layout { size: 13, align: 4 }, 4)));
    assert_eq!(a.extend(Layout { size: max - 8, align: 1 }), None);
}

#[test]
fn gcvec_is_a_stack() {
    let mut v = GcVec::new();
    assert!(v.is_empty());
    assert_eq!(v.pop(), None);
    v.reserve(4);
    v.push(1);
    v.push(3);
    v.insert(1, 2);
    assert_eq!(v.as_slice(), &[1, 2, 3]);
    assert_eq!(v.len(), 3);
    assert_eq!(v.pop(), Some(3));
    assert_eq!(v.pop(), Some(2));
    assert_eq!(v.pop(), Some(1));
    assert_eq!(v.pop(), None);
}

#[test]
fn gcvec_reserves_room() {
    let mut v = GcVec::new();
    assert_eq!(v.capacity(), 0);
    v.push(1);
    assert_eq!(v.capacity(), 1);
    v.reserve(4);
    assert_eq!(v.capacity(), 5);
    // There is room already.
    v.reserve(2);
    assert_eq!(v.capacity(), 5);
    v.push(2);
    v.reserve(3);
    assert_eq!(v.capacity(), 5);
    v.reserve(4);
    assert_eq!(v.capacity(), 6);
    assert_eq!(v.as_slice(), &[1, 2]);
    // Room that is there stays.
    v.pop();
    v.pop();
    assert_eq!(v.capacity(), 6);
    for i in 0..7 {
        v.insert(0, i);
    }
    assert_eq!(v.capacity(), 7);
}

#[test]
fn memory_knows_what_was_written() {
    let mut m = Memory::new();
    assert!(m.is_covered(8, 8));
    assert!(m.is_covered(9, 8));
    assert!(!m.is_covered(8, 9));
    m.write(8, 5);
    m.write(16, 6);
    m.write(8, 7);
    assert_eq!(m.read(8), 7);
    assert_eq!(m.read(16), 6);
    assert!(m.is_covered(8, 24));
    assert!(m.is_covered(8, 20));
    assert!(!m.is_covered(8, 25));
    // A range up to the last address.
    m.write(u64::MAX - 3, 0);
    assert!(m.is_covered(u64::MAX - 3, u64::MAX));
}

#[test]
fn phases() {
    let mut phase = CollectorPhase::Ready;
    for next in [
        CollectorPhase::Preparation,
        CollectorPhase::Marking,
        CollectorPhase::Sweeping,
        CollectorPhase::Finalization,
        CollectorPhase::Ready,
    ] {
        phase.update(next);
        assert_eq!(phase, next);
    }
}

#[test]
fn flags() {
    let all = DebugFlags::new();
    assert!(all.prep_phase && all.mark_phase && all.sweep_phase && all.automatic_collection);
    assert_eq!(all.prep_phase(false), DebugFlags { prep_phase: false, ..all });
    assert_eq!(all.mark_phase(false), DebugFlags { mark_phase: false, ..all });
    assert_eq!(all.sweep_phase(false), DebugFlags { sweep_phase: false, ..all });
    assert_eq!(all.sweep_phase(false).sweep_phase(true), all);
    let c = Collector::new();
    assert_eq!(c.debug_flags, all);
    assert_eq!(c.allocation_threshold, GC_ALLOCATION_THRESHOLD);
    assert_eq!(GC_ALLOCATION_THRESHOLD, 100);
    assert_eq!(c.allocations, 0);
    assert!(c.drop_queue.is_empty());
    assert!(!c.collection_is_due());
    let mut c = Collector { allocation_threshold: 0, ..c };
    assert!(c.collection_is_due());
    c.debug_flags.automatic_collection = false;
    assert!(!c.collection_is_due());
}

#[test]
fn stack_start() {
    let step = get_stack_start(StackQuery::InitAttributes, 0, 0, 0);
    assert_eq!(step, StackStep::Query(StackQuery::GetAttributes));
    let step = get_stack_start(StackQuery::GetAttributes, 0, 0, 0);
    assert_eq!(step, StackStep::Query(StackQuery::GetStack));
    let step = get_stack_start(StackQuery::GetStack, 0, 0x7000, 0x800);
    assert_eq!(step, StackStep::Found(Some(0x7800)));
    // Without attributes there is no result.
    let step = get_stack_start(StackQuery::GetAttributes, 22, 0, 0);
    assert_eq!(step, StackStep::Query(StackQuery::DestroyAttributes));
    let step = get_stack_start(StackQuery::DestroyAttributes, 0, 0, 0);
    assert_eq!(step, StackStep::Found(None));
    // The other calls must not fail.
    for query in [
        StackQuery::InitAttributes,
        StackQuery::DestroyAttributes,
        StackQuery::GetStack,
    ] {
        assert_eq!(get_stack_start(query, 1, u64::MAX, u64::MAX), StackStep::Failed);
    }
}

#[test]
fn data_segment() {
    assert_eq!(get_data_segment_range(0x1000, 0x2001), (0x1000, 0x2001));
    assert_eq!(get_data_segment_range(0x1001, 0x2000), (0x1008, 0x2000));
    assert_eq!(get_data_segment_range(0x1007, 0x2000), (0x1008, 0x2000));
    assert_eq!(get_data_segment_range(0, 0), (0, 0));
}
