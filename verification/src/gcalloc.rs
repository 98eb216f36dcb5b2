//! The allocator of collected values, which collects garbage as it goes.
use crate::allocator::{
    block_layout, has_block_layout, moved_region, value_offset, GlobalAllocator,
};
use crate::collector::{
    after_sweep, can_collect, freed_at_once, lemma_swept_collectable, to_drop, Collector,
    CollectorPhase, DebugFlags,
};
use crate::garbage::{collectable, droppable, finalizer, Finalizer};
use crate::layout::{max, Layout};
use crate::memory::{covers, World};
use crate::metadata::{BlockMetadata, SIZE_MASK, VPTR_MASK};
use crate::model::{
    chunk_end, chunk_wf, has_base, index_of, lemma_index_of, lemma_index_unique, md_of, vacant,
    Chunk, Region,
};
use vstd::prelude::*;

verus! {

/// The allocator of collected values.
pub struct GcAllocator {
    /// All blocks, collected or not.
    pub heap: GlobalAllocator,
    /// The collector of the garbage among them.
    pub collector: Collector,
    /// What the collector is up to.
    pub phase: CollectorPhase,
    /// The vtable of values that need no dropping.
    pub dummy_vptr: u64,
    /// Was the collector asked, since the last allocation, whether it needs to
    /// collect garbage?
    pub polled: bool,
}

/// A collected block that is not marked.
pub open spec fn fresh_chunk(base: u64, layout: Layout, drop_vptr: u64, raw: u64) -> Chunk {
    Chunk {
        base,
        md: BlockMetadata {
            size: layout.size & SIZE_MASK,
            is_gc: true,
            mark_bit: false,
            drop_vptr,
        },
        region: Region { raw, layout: block_layout(layout) },
    }
}

/// Is all known that a collection needs to know of a block?
spec fn block_is_known(c: Chunk, flags: DebugFlags, world: &World) -> bool {
    &&& flags.mark_phase ==> covers(world.memory@, c.base, chunk_end(c) as u64)
    &&& flags.sweep_phase && c.md.is_gc ==> c.md.drop_vptr != 0
}

/// Once a block is gone, every other collected block still has a vtable.
proof fn lemma_removal_settles(h: Seq<Chunk>, base: u64)
    requires
        has_base(h, base),
    ensures
        collectable(h) ==> collectable(h.remove(index_of(h, base))),
{
    let i = index_of(h, base);
    lemma_index_of(h, base);
    let g = h.remove(i);
    if collectable(h) {
        assert forall|k: int| 0 <= k < g.len() && (#[trigger] g[k]).md.is_gc implies g[k].md.drop_vptr
            != 0 by {
            let j = if k < i {
                k
            } else {
                k + 1
            };
            assert(g[k] == h[j]);
        }
    }
}

impl GcAllocator {
    /// The heap is well formed, and a header has room for the address of the
    /// vtable of values that need no dropping.
    pub open spec fn wf(&self) -> bool {
        &&& self.heap.wf()
        &&& 0 < self.dummy_vptr <= VPTR_MASK
    }

    /// No collection takes place.
    pub open spec fn ready(&self) -> bool {
        &&& self.wf()
        &&& self.collector.wf()
        &&& self.phase == CollectorPhase::Ready
    }

    /// The destructors of the blocks in the drop queue are due.
    pub open spec fn dropping(&self) -> bool {
        &&& self.wf()
        &&& self.phase == CollectorPhase::Finalization
        &&& droppable(self.heap@, self.collector.queue())
    }

    /// Every collected block has a vtable.
    pub open spec fn settled(&self) -> bool {
        collectable(self.heap@)
    }

    /// An allocator without blocks. Values that need no dropping have their
    /// vtable at `dummy_vptr`.
    pub fn new(dummy_vptr: u64) -> (r: Self)
        requires
            0 < dummy_vptr <= VPTR_MASK,
        ensures
            r.ready(),
            r.settled(),
            r.heap@ == Seq::<Chunk>::empty(),
            r.heap.top() == 0,
            r.collector.debug_flags == (DebugFlags {
                prep_phase: true,
                mark_phase: true,
                sweep_phase: true,
                automatic_collection: true,
            }),
            r.collector.allocation_threshold == crate::collector::GC_ALLOCATION_THRESHOLD,
            r.collector.allocations == 0,
            r.dummy_vptr == dummy_vptr,
            !r.polled,
    {
        GcAllocator {
            heap: GlobalAllocator::new(),
            collector: Collector::new(),
            phase: CollectorPhase::Ready,
            dummy_vptr,
            polled: false,
        }
    }

    /// Is all known that a collection of this world needs to know?
    pub fn is_collectable(&self, world: &World) -> (r: bool)
        requires
            self.wf(),
        ensures
            r == can_collect(self.collector.debug_flags, self.heap@, world),
    {
        let flags = self.collector.debug_flags;
        if flags.mark_phase && !(world.memory.is_covered(world.rsp, world.stack_start)
            && world.memory.is_covered(world.data_segment_start, world.data_segment_end)) {
            return false;
        }
        let mut it = self.heap.iter();
        loop
            invariant
                self.wf(),
                flags == self.collector.debug_flags,
                it.valid(self.heap@),
                0 <= it.pos(self.heap@) <= self.heap@.len(),
                flags.mark_phase ==> world.covers_roots(),
                forall|i: int|
                    it.pos(self.heap@) <= i < self.heap@.len() ==> block_is_known(
                        #[trigger] self.heap@[i],
                        flags,
                        world,
                    ),
            decreases it.pos(self.heap@),
        {
            let next = it.next(&self.heap);
            if next.is_none() {
                return true;
            }
            let block = next.unwrap();
            let ghost k = it.pos(self.heap@);
            proof {
                self.heap.lemma_heap_wf();
                lemma_index_unique(self.heap@, k);
                assert(chunk_wf(self.heap@[k]));
            }
            let range = block.range(&self.heap);
            if flags.mark_phase && !world.memory.is_covered(range.start, range.end) {
                assert(!block_is_known(self.heap@[k], flags, world));
                return false;
            }
            let md = block.header(&self.heap).metadata();
            if flags.sweep_phase && md.is_gc && md.drop_vptr == 0 {
                assert(self.heap@[k].md == md);
                return false;
            }
        }
    }

    /// Asks the collector if it needs to collect garbage before the next
    /// allocation. If it does, a collection takes place, and the memory of the
    /// garbage without a destructor is returned.
    pub fn poll(&mut self, world: &World) -> (freed: Option<Vec<Region>>)
        requires
            old(self).ready(),
            old(self).collector.is_due() ==> can_collect(
                old(self).collector.debug_flags,
                old(self).heap@,
                world,
            ),
        ensures
            final(self).polled,
            final(self).dummy_vptr == old(self).dummy_vptr,
            freed is Some <==> old(self).collector.is_due(),
            freed is None ==> *final(self) == (GcAllocator { polled: true, ..*old(self) }),
            freed matches Some(regions) ==> old(self).has_started(final(self), regions@, world),
            old(self).settled() ==> final(self).settled(),
    {
        proof {
            if self.settled() {
                lemma_swept_collectable(
                    self.collector.debug_flags,
                    self.heap@,
                    self.heap.top(),
                    world,
                    self.dummy_vptr,
                );
            }
        }
        self.polled = true;
        self.collector.poll(&mut self.heap, &mut self.phase, self.dummy_vptr, world)
    }

    /// A collection of this world has led from this state to the drop phase in
    /// another one, with the memory of the garbage without a destructor handed
    /// over.
    pub open spec fn has_started(&self, now: &GcAllocator, freed: Seq<Region>, world: &World) -> bool {
        let flags = self.collector.debug_flags;
        let top = self.heap.top();
        &&& now.dropping()
        &&& now.heap@ == after_sweep(flags, self.heap@, top, world, self.dummy_vptr)
        &&& now.heap.top() == top
        &&& now.collector.queue() == to_drop(flags, self.heap@, top, world, self.dummy_vptr)
        &&& now.collector.debug_flags == flags
        &&& now.collector.allocation_threshold == self.collector.allocation_threshold
        &&& now.collector.allocations == self.collector.allocations
        &&& now.dummy_vptr == self.dummy_vptr
        &&& freed == freed_at_once(flags, self.heap@, top, world, self.dummy_vptr)
    }

    /// The destructor that has to run next. Its block stays on the heap for as
    /// long. When none is left, the collection is over.
    pub fn next_destructor(&mut self) -> (r: Option<Finalizer>)
        requires
            old(self).dropping(),
        ensures
            r is None <==> old(self).collector.queue().len() == 0,
            r matches Some(f) ==> {
                &&& f == finalizer(
                    old(self).heap@[index_of(
                        old(self).heap@,
                        old(self).collector.queue().last().base,
                    )],
                )
                &&& has_base(final(self).heap@, f.base)
                &&& f.base == old(self).collector.drop_queue@.last().base
                &&& exists|i: int|
                    {
                        &&& 0 <= i < old(self).heap@.len()
                        &&& (#[trigger] old(self).heap@[i]).base == f.base
                        &&& f.vptr == old(self).heap@[i].md.drop_vptr
                        &&& f.runs == !old(self).heap@[i].md.mark_bit
                    }
                &&& *final(self) == *old(self)
            },
            r is None ==> {
                &&& final(self).ready()
                &&& final(self).heap == old(self).heap
                &&& final(self).collector.debug_flags == old(self).collector.debug_flags
                &&& final(self).collector.allocation_threshold
                    == old(self).collector.allocation_threshold
                &&& final(self).collector.allocations == 0
                &&& final(self).dummy_vptr == old(self).dummy_vptr
                &&& final(self).polled == old(self).polled
            },
    {
        proof {
            let h = self.heap@;
            let q = self.collector.queue();
            if q.len() > 0 {
                assert(has_base(h, q[q.len() - 1].base));
                lemma_index_of(h, q.last().base);
                assert(h[index_of(h, q.last().base)].base == q.last().base);
            }
        }
        self.collector.next_destructor(&self.heap, &mut self.phase)
    }

    /// The destructor that was handed out last has run: takes its block off the
    /// heap. What is returned goes back to the system allocator.
    pub fn destructor_ran(&mut self) -> (r: Region)
        requires
            old(self).dropping(),
            old(self).collector.queue().len() > 0,
        ensures
            final(self).dropping(),
            final(self).heap@ == old(self).heap@.remove(
                index_of(old(self).heap@, old(self).collector.queue().last().base),
            ),
            final(self).heap.top() == old(self).heap.top(),
            final(self).collector.queue() == old(self).collector.queue().drop_last(),
            final(self).collector.debug_flags == old(self).collector.debug_flags,
            final(self).collector.allocation_threshold
                == old(self).collector.allocation_threshold,
            final(self).collector.allocations == old(self).collector.allocations,
            final(self).dummy_vptr == old(self).dummy_vptr,
            final(self).polled == old(self).polled,
            r == old(self).heap@[index_of(
                old(self).heap@,
                old(self).collector.queue().last().base,
            )].region,
            exists|i: int|
                {
                    &&& 0 <= i < old(self).heap@.len()
                    &&& (#[trigger] old(self).heap@[i]).base
                        == old(self).collector.drop_queue@.last().base
                    &&& r == old(self).heap@[i].region
                    &&& final(self).heap@ == old(self).heap@.remove(i)
                },
            old(self).settled() ==> final(self).settled(),
    {
        proof {
            let h = self.heap@;
            let q = self.collector.queue();
            assert(has_base(h, q[q.len() - 1].base));
            lemma_removal_settles(h, q.last().base);
            lemma_index_of(h, q.last().base);
            assert(h[index_of(h, q.last().base)].base == q.last().base);
        }
        self.collector.destructor_ran(&mut self.heap)
    }

    /// Enters a new collected block and returns the address of the value in it.
    /// The collector was asked before whether it needs to collect garbage. The
    /// system allocator handed the memory of the block out at `raw`.
    pub fn alloc_block(&mut self, layout: Layout, raw: u64) -> (p: u64)
        requires
            old(self).ready(),
            old(self).polled,
            old(self).collector.allocations < usize::MAX,
            layout.wf(),
            has_block_layout(layout),
            raw != 0,
            raw + block_layout(layout).size <= u64::MAX,
            vacant(old(self).heap@, raw as int, raw + block_layout(layout).size),
        ensures
            final(self).ready(),
            !final(self).polled,
            p == raw + value_offset(layout),
            raw % layout.align == 0 ==> p % layout.align == 0,
            final(self).heap@ == old(self).heap@.push(fresh_chunk(p, layout, 0, raw)),
            final(self).heap@.last().base == p,
            final(self).heap@.last().md.is_gc,
            !final(self).heap@.last().md.mark_bit,
            final(self).heap@.last().md.drop_vptr == 0,
            layout.size < 0x4000_0000_0000_0000 ==> final(self).heap@.last().md.size
                == layout.size,
            final(self).heap@.last().region.raw == raw,
            final(self).heap.top() == max(old(self).heap.top() as int, p + layout.size),
            final(self).collector.debug_flags == old(self).collector.debug_flags,
            final(self).collector.allocation_threshold
                == old(self).collector.allocation_threshold,
            final(self).collector.allocations == old(self).collector.allocations + 1,
            final(self).dummy_vptr == old(self).dummy_vptr,
    {
        self.polled = false;
        self.collector.allocations = self.collector.allocations + 1;
        let p = self.heap.alloc_block(layout, true, raw);
        proof {
            crate::laws::law_new_block_is_collected(p, layout, 0, raw);
        }
        p
    }

    /// Takes the block whose value is at `ptr` off the heap. What is returned
    /// goes back to the system allocator.
    pub fn dealloc(&mut self, ptr: u64, layout: Layout) -> (r: Region)
        requires
            old(self).wf(),
            layout.wf(),
            has_block_layout(layout),
            has_base(old(self).heap@, ptr),
            value_offset(layout) <= ptr,
        ensures
            final(self).wf(),
            final(self).heap@ == old(self).heap@.remove(index_of(old(self).heap@, ptr)),
            final(self).heap.top() == old(self).heap.top(),
            final(self).collector == old(self).collector,
            final(self).phase == old(self).phase,
            final(self).dummy_vptr == old(self).dummy_vptr,
            final(self).polled == old(self).polled,
            r == (Region {
                raw: (ptr - value_offset(layout)) as u64,
                layout: block_layout(layout),
            }),
            old(self).settled() ==> final(self).settled(),
    {
        proof {
            lemma_removal_settles(self.heap@, ptr);
        }
        self.heap.dealloc(ptr, layout)
    }

    /// Gives the block whose value is at `ptr` a new size and returns the new
    /// address of the value. The system allocator moved the memory of the
    /// block to `raw`.
    pub fn realloc(&mut self, ptr: u64, layout: Layout, new_size: u64, raw: u64) -> (p: u64)
        requires
            old(self).wf(),
            layout.wf(),
            has_block_layout(layout),
            has_base(old(self).heap@, ptr),
            raw != 0,
            raw + value_offset(layout) + new_size <= u64::MAX,
            raw + value_offset(layout) + layout.size <= u64::MAX,
            vacant(
                old(self).heap@.remove(index_of(old(self).heap@, ptr)),
                raw as int,
                raw + value_offset(layout) + new_size,
            ),
        ensures
            final(self).wf(),
            p == raw + value_offset(layout),
            raw % layout.align == 0 ==> p % layout.align == 0,
            final(self).heap@ == old(self).heap@.update(
                index_of(old(self).heap@, ptr),
                Chunk {
                    base: p,
                    md: BlockMetadata {
                        size: new_size & SIZE_MASK,
                        ..md_of(old(self).heap@, ptr)
                    },
                    region: moved_region(layout, new_size, raw),
                },
            ),
            final(self).heap.top() == max(
                old(self).heap.top() as int,
                p + max(layout.size as int, new_size as int),
            ),
            final(self).collector == old(self).collector,
            final(self).phase == old(self).phase,
            final(self).dummy_vptr == old(self).dummy_vptr,
            final(self).polled == old(self).polled,
            old(self).settled() ==> final(self).settled(),
    {
        let p = self.heap.realloc(ptr, layout, new_size, raw);
        proof {
            let h = old(self).heap@;
            let g = self.heap@;
            lemma_index_of(h, ptr);
            if old(self).settled() {
                assert forall|k: int| 0 <= k < g.len() && (#[trigger] g[k]).md.is_gc implies g[k].md.drop_vptr
                    != 0 by {
                    assert(h[k].md.is_gc);
                }
            }
        }
        p
    }
}

} // verus!
