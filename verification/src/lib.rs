//! An allocator with support for conservative garbage collection.
//!
//! The state of the allocator is a [`gcalloc::GcAllocator`]. What only the
//! process can do is left to the caller: to get memory from the system
//! allocator and to give it back, to read the words of the stack, of the
//! statics and of the blocks while the world is stopped, and to run
//! destructors.
use crate::allocator::Block;
use crate::collector::{can_collect, CollectorPhase};
use crate::gc::Colour;
use crate::gcalloc::GcAllocator;
use crate::memory::World;
use crate::metadata::BlockMetadata;
use crate::model::{has_base, lemma_index_of, md_of, with_md, Region};
use vstd::prelude::*;

pub mod allocator;
pub mod cache;
pub mod collector;
pub mod garbage;
pub mod gc;
pub mod gcalloc;
pub mod gcvec;
pub mod harness;
pub mod laws;
pub mod layout;
pub mod marking;
pub mod memory;
pub mod metadata;
pub mod model;
pub mod platform;
pub mod text;
pub mod trace;
pub mod trace_derive;

pub use crate::collector::DebugFlags;
pub use crate::gc::Gc;

verus! {

/// Perform a stop-the-world garbage collection. It is not recommended to call
/// this manually and instead let the collector decide when a collection is
/// necessary.
///
/// The memory of the garbage without a destructor is returned. The destructors
/// of the rest are due: [`GcAllocator::next_destructor`] tells them one by one.
///
/// Calling `collect` when you believe that `Gc` managed values are no longer
/// used is not guaranteed to free those values and should not be relied upon.
pub fn collect(heap: &mut GcAllocator, world: &World) -> (freed: Vec<Region>)
    requires
        old(heap).ready(),
        can_collect(old(heap).collector.debug_flags, old(heap).heap@, world),
    ensures
        old(heap).has_started(final(heap), freed@, world),
        final(heap).polled == old(heap).polled,
        old(heap).settled() ==> final(heap).settled(),
{
    proof {
        if heap.settled() {
            crate::collector::lemma_swept_collectable(
                heap.collector.debug_flags,
                heap.heap@,
                heap.heap.top(),
                world,
                heap.dummy_vptr,
            );
        }
    }
    heap.collector.collect(&mut heap.heap, &mut heap.phase, heap.dummy_vptr, world)
}

/// Switches phases of a collection on or off.
pub fn debug_flags(heap: &mut GcAllocator, flags: DebugFlags)
    ensures
        final(heap).collector.debug_flags == flags,
        final(heap).collector.drop_queue == old(heap).collector.drop_queue,
        final(heap).collector.allocation_threshold == old(heap).collector.allocation_threshold,
        final(heap).collector.allocations == old(heap).collector.allocations,
        final(heap).heap == old(heap).heap,
        final(heap).phase == old(heap).phase,
        final(heap).dummy_vptr == old(heap).dummy_vptr,
        final(heap).polled == old(heap).polled,
{
    heap.collector.debug_flags = flags;
}

/// Sets the number of collected values allocated before a collection is
/// triggered.
pub fn set_threshold(heap: &mut GcAllocator, threshold: usize)
    ensures
        final(heap).collector.allocation_threshold == threshold,
        final(heap).collector.drop_queue == old(heap).collector.drop_queue,
        final(heap).collector.debug_flags == old(heap).collector.debug_flags,
        final(heap).collector.allocations == old(heap).collector.allocations,
        final(heap).heap == old(heap).heap,
        final(heap).phase == old(heap).phase,
        final(heap).dummy_vptr == old(heap).dummy_vptr,
        final(heap).polled == old(heap).polled,
{
    heap.collector.allocation_threshold = threshold;
}

/// Provides some useful functions for debugging and testing the collector.
pub struct Debug;

impl Debug {
    /// Returns true if the object was marked as reachable in the last
    /// collection.
    ///
    /// It can be misleading to check for the inverse of this function
    /// (`!is_black(..)`). It shouldn't be relied upon for testing, as
    /// conservative collectors tend to over-approximate.
    pub fn is_black(heap: &GcAllocator, gc: u64) -> (r: bool)
        requires
            heap.heap.wf(),
            heap.phase == CollectorPhase::Ready,
            has_base(heap.heap@, gc),
        ensures
            r == md_of(heap.heap@, gc).mark_bit,
    {
        let block = Block::new(gc);
        block.colour(&heap.heap) == Colour::Black
    }

    /// Marks the object as reachable.
    pub fn keep_alive<T>(heap: &mut GcAllocator, gc: Gc<T>)
        requires
            old(heap).heap.wf(),
            has_base(old(heap).heap@, gc.address()),
        ensures
            final(heap).heap.wf(),
            final(heap).heap@ == with_md(
                old(heap).heap@,
                gc.address(),
                BlockMetadata { mark_bit: true, ..md_of(old(heap).heap@, gc.address()) },
            ),
            final(heap).heap.top() == old(heap).heap.top(),
            final(heap).collector == old(heap).collector,
            final(heap).phase == old(heap).phase,
            final(heap).dummy_vptr == old(heap).dummy_vptr,
            final(heap).polled == old(heap).polled,
            old(heap).settled() ==> final(heap).settled(),
    {
        let block = Gc::inner(gc).block();
        block.set_colour(&mut heap.heap, Colour::Black);
        proof {
            let h = old(heap).heap@;
            let g = heap.heap@;
            lemma_index_of(h, gc.address());
            if old(heap).settled() {
                assert forall|k: int| 0 <= k < g.len() && (#[trigger] g[k]).md.is_gc implies g[k].md.drop_vptr
                    != 0 by {
                    assert(h[k].md.is_gc);
                }
            }
        }
    }
}

} // verus!
