//! The collector: preparation, marking, sweeping and finalization.
use crate::allocator::{Block, GlobalAllocator};
use crate::garbage::{
    collectable, droppable, finalizable, finalizer, finalizers, is_dead, lemma_filter_has,
    lemma_filter_wf, lemma_sweep_start, lemma_sweep_step, lemma_sweep_then_drop, plain_garbage,
    regions, survivors, swept, to_blocks, whitened, Finalizer,
};
use crate::gc::Colour;
use crate::gcvec::GcVec;
use crate::marking::{
    covers_blocks, hits, lemma_same_shape, marked, same_shape, CollectionCtxt, Graph, MarkingCtxt,
};
use crate::memory::World;
use crate::metadata::BlockMetadata;
use crate::model::{
    has_base, heap_wf, index_of, lemma_index_of, lemma_index_unique, lemma_remove_wf, md_of, Chunk,
    Region,
};
use vstd::prelude::*;

verus! {

/// The default number of collected values allocated before a collection is
/// triggered.
pub const GC_ALLOCATION_THRESHOLD: usize = 100;

/// Used to denote which phase the collector is in at a given point in time.
#[derive(Clone, Copy, Debug, PartialEq, Eq, Structural)]
pub enum CollectorPhase {
    /// No collection takes place.
    Ready,
    /// The blocks are turned white.
    Preparation,
    /// The blocks that can be reached are turned black.
    Marking,
    /// The white blocks are gathered.
    Sweeping,
    /// The destructors run.
    Finalization,
}

impl CollectorPhase {
    /// Enters a new phase. A preparation phase can only start when no
    /// collection takes place.
    pub fn update(&mut self, new_phase: CollectorPhase)
        requires
            new_phase == CollectorPhase::Preparation ==> *old(self) == CollectorPhase::Ready,
        ensures
            *final(self) == new_phase,
    {
        *self = new_phase;
    }
}

/// Flags which affect the garbage collector's behaviour. They are useful for
/// isolating certain phases of a collection for testing or debugging purposes.
#[derive(Clone, Copy, Debug, PartialEq, Eq, Structural)]
pub struct DebugFlags {
    /// Run the preparation phase?
    pub prep_phase: bool,
    /// Run the mark phase?
    pub mark_phase: bool,
    /// Run the sweep phase?
    pub sweep_phase: bool,
    /// Collect when enough values were allocated?
    pub automatic_collection: bool,
}

impl DebugFlags {
    /// Everything is switched on.
    pub fn new() -> (r: Self)
        ensures
            r == (DebugFlags {
                prep_phase: true,
                mark_phase: true,
                sweep_phase: true,
                automatic_collection: true,
            }),
    {
        DebugFlags {
            prep_phase: true,
            mark_phase: true,
            sweep_phase: true,
            automatic_collection: true,
        }
    }

    /// Switches the preparation phase on or off.
    pub fn prep_phase(self, val: bool) -> (r: Self)
        ensures
            r == (DebugFlags { prep_phase: val, ..self }),
    {
        DebugFlags { prep_phase: val, ..self }
    }

    /// Switches the mark phase on or off.
    pub fn mark_phase(self, val: bool) -> (r: Self)
        ensures
            r == (DebugFlags { mark_phase: val, ..self }),
    {
        DebugFlags { mark_phase: val, ..self }
    }

    /// Switches the sweep phase on or off.
    pub fn sweep_phase(self, val: bool) -> (r: Self)
        ensures
            r == (DebugFlags { sweep_phase: val, ..self }),
    {
        DebugFlags { sweep_phase: val, ..self }
    }
}

/// A collector responsible for finding and freeing unreachable objects.
///
/// It is a stop-the-world, conservative, mark-sweep collector. A full
/// collection can be broken down into 4 distinct phases:
///
/// 1) Preparation phase: the mark-bit of each block is cleared, indicating that
///    it is potentially unreachable.
///
/// 2) Mark phase: a transitive closure over the object graph is performed to
///    determine which blocks are reachable. All potential pointers, regardless
///    of memory management strategy, are traced in search of further on-heap
///    pointers. Once reached, blocks are marked black.
///
/// 3) Sweep phase: the heap is scanned for all white collected blocks, which,
///    when found, are added to the drop queue to be finalized and deallocated.
///
/// 4) Finalization phase: each white block in the drop queue is finalized,
///    before having its memory deallocated.
pub struct Collector {
    /// Holds unreachable blocks awaiting destruction.
    pub drop_queue: GcVec<Block>,
    /// Flags used to turn on/off certain collection phases for debugging &
    /// testing purposes.
    pub debug_flags: DebugFlags,
    /// The number of collected values allocated before a collection is
    /// triggered.
    pub allocation_threshold: usize,
    /// The number of collected values allocated since the last collection.
    pub allocations: usize,
}

impl Collector {
    /// The blocks awaiting destruction.
    pub open spec fn queue(&self) -> Seq<Block> {
        self.drop_queue@
    }

    /// Between collections, no block awaits destruction.
    pub open spec fn wf(&self) -> bool {
        self.queue() == Seq::<Block>::empty()
    }

    /// Is a collection due?
    pub open spec fn is_due(&self) -> bool {
        self.debug_flags.automatic_collection && self.allocations >= self.allocation_threshold
    }

    /// A collector with everything switched on.
    pub fn new() -> (r: Self)
        ensures
            r.wf(),
            r.debug_flags == (DebugFlags {
                prep_phase: true,
                mark_phase: true,
                sweep_phase: true,
                automatic_collection: true,
            }),
            r.allocation_threshold == GC_ALLOCATION_THRESHOLD,
            r.allocation_threshold == 100,
            r.allocations == 0,
    {
        Collector {
            drop_queue: GcVec::new(),
            debug_flags: DebugFlags::new(),
            allocation_threshold: GC_ALLOCATION_THRESHOLD,
            allocations: 0,
        }
    }

    /// The entry-point to the preparation phase.
    ///
    /// This sets the mark-bits of all blocks to white.
    pub fn enter_preparation_phase(
        &mut self,
        col: &CollectionCtxt,
        heap: &mut GlobalAllocator,
        phase: &mut CollectorPhase,
    )
        requires
            old(heap).wf(),
            col.allocation_cache.snapshot_of(old(heap)@),
            *old(phase) == CollectorPhase::Ready,
        ensures
            final(heap).wf(),
            final(heap)@ == whitened(old(heap)@),
            final(heap).top() == old(heap).top(),
            *final(phase) == CollectorPhase::Preparation,
            *final(self) == *old(self),
    {
        phase.update(CollectorPhase::Preparation);
        let n = col.allocation_cache.len();
        let mut i: usize = 0;
        let ghost h0 = heap@;
        let ghost cached = col.allocation_cache@;
        proof {
            heap.lemma_heap_wf();
        }
        while i < n
            invariant
                i <= n,
                n == cached.len(),
                cached == col.allocation_cache@,
                heap.wf(),
                heap_wf(h0),
                heap.top() == old(heap).top(),
                *phase == CollectorPhase::Preparation,
                *self == *old(self),
                col.allocation_cache.snapshot_of(h0),
                same_shape(h0, heap@),
                forall|j: int|
                    0 <= j < i ==> !md_of(heap@, (#[trigger] cached[j]).base).mark_bit,
            decreases n - i,
        {
            let block = col.allocation_cache.get(i);
            let ghost h = heap@;
            proof {
                lemma_same_shape(h0, h);
                assert(cached.contains(block));
                assert(crate::cache::listed(cached, block.base));
                crate::model::lemma_with_md_wf(
                    h,
                    block.base,
                    BlockMetadata { mark_bit: false, ..md_of(h, block.base) },
                );
            }
            block.set_colour(heap, Colour::White);
            proof {
                lemma_index_of(h, block.base);
                assert forall|j: int| 0 <= j < i + 1 implies !md_of(
                    heap@,
                    (#[trigger] cached[j]).base,
                ).mark_bit by {
                    let b = cached[j].base;
                    assert(cached.contains(Block { base: b }));
                    assert(crate::cache::listed(cached, b));
                    assert(has_base(h, b));
                }
            }
            i = i + 1;
        }
        proof {
            let h = heap@;
            lemma_same_shape(h0, h);
            assert forall|k: int| 0 <= k < h.len() implies (#[trigger] h[k]) == whitened(h0)[k] by {
                lemma_index_unique(h, k);
                lemma_index_unique(h0, k);
                assert(crate::cache::listed(cached, h[k].base));
                let j = cached.index_of(Block { base: h[k].base });
                assert(cached[j].base == h[k].base);
            }
            assert(h =~= whitened(h0));
        }
    }

    /// The entry-point to the mark phase.
    ///
    /// It marks everything that can be reached from the stack and the statics,
    /// and traverses the contents of **all** blocks for further pointers.
    pub fn enter_mark_phase(
        &mut self,
        colcx: &CollectionCtxt,
        heap: &mut GlobalAllocator,
        phase: &mut CollectorPhase,
        world: &World,
    )
        requires
            old(heap).wf(),
            colcx.allocation_cache.snapshot_of(old(heap)@),
            colcx.data_segment_start == world.data_segment_start,
            colcx.data_segment_end == world.data_segment_end,
            world.covers_roots(),
            covers_blocks(world.memory@, old(heap)@),
        ensures
            final(heap).wf(),
            final(heap)@ == world_marked(old(heap)@, old(heap).top(), world),
            final(heap).top() == old(heap).top(),
            *final(phase) == CollectorPhase::Marking,
            *final(self) == *old(self),
    {
        phase.update(CollectorPhase::Marking);
        let mut ctxt = MarkingCtxt {
            worklist: GcVec::new(),
            stack_start: world.stack_start,
            collection_ctxt: colcx,
        };
        proof {
            let g = world_graph(heap@, heap.top(), world);
            let roots = hits(g, world.root_words());
            assert(ctxt.worklist@ + roots =~= roots);
        }
        ctxt.mark(world.rsp, heap, &world.memory);
    }

    /// The entry-point to the sweep phase.
    ///
    /// All white collected blocks are garbage. Those with a destructor join the
    /// drop queue, the others are taken off the heap and their memory is
    /// returned.
    ///
    /// If this method is called without the mark phase being called first, then
    /// all collected blocks are presumed dead.
    pub fn enter_sweep_phase(
        &mut self,
        heap: &mut GlobalAllocator,
        phase: &mut CollectorPhase,
        dummy_vptr: u64,
    ) -> (freed: Vec<Region>)
        requires
            old(heap).wf(),
        ensures
            final(heap).wf(),
            final(heap)@ == swept(old(heap)@, dummy_vptr),
            final(heap).top() == old(heap).top(),
            *final(phase) == CollectorPhase::Sweeping,
            final(self).queue() == old(self).queue() + to_blocks(
                finalizable(old(heap)@, dummy_vptr).reverse(),
            ),
            final(self).debug_flags == old(self).debug_flags,
            final(self).allocation_threshold == old(self).allocation_threshold,
            final(self).allocations == old(self).allocations,
            freed@ == regions(plain_garbage(old(heap)@, dummy_vptr).reverse()),
    {
        phase.update(CollectorPhase::Sweeping);
        let mut freed: Vec<Region> = Vec::new();
        let mut it = heap.iter();
        let ghost h0 = heap@;
        proof {
            heap.lemma_heap_wf();
            lemma_sweep_start(h0, dummy_vptr, self.queue());
        }
        loop
            invariant
                heap.wf(),
                heap_wf(h0),
                it.valid(heap@),
                heap.top() == old(heap).top(),
                h0 == old(heap)@,
                *phase == CollectorPhase::Sweeping,
                self.debug_flags == old(self).debug_flags,
                self.allocation_threshold == old(self).allocation_threshold,
                self.allocations == old(self).allocations,
                0 <= it.pos(heap@) <= h0.len(),
                heap@ == h0.take(it.pos(heap@)) + swept(h0.skip(it.pos(heap@)), dummy_vptr),
                self.queue() == old(self).queue() + to_blocks(
                    finalizable(h0.skip(it.pos(heap@)), dummy_vptr).reverse(),
                ),
                freed@ == regions(plain_garbage(h0.skip(it.pos(heap@)), dummy_vptr).reverse()),
            decreases it.pos(heap@),
        {
            let next = it.next(heap);
            if next.is_none() {
                proof {
                    assert(h0.skip(0) =~= h0);
                    assert(h0.take(0) + swept(h0, dummy_vptr) =~= swept(h0, dummy_vptr));
                }
                return freed;
            }
            let block = next.unwrap();
            let ghost k = it.pos(heap@);
            proof {
                heap.lemma_heap_wf();
                lemma_index_unique(heap@, k);
                assert(heap@[k] == h0[k]);
                lemma_sweep_step(h0, dummy_vptr, k, old(self).queue());
            }
            if block.header(heap).metadata().is_gc && block.colour(heap) == Colour::White {
                if block.drop_vptr(heap) != dummy_vptr {
                    self.drop_queue.push(block);
                } else {
                    // The value has no need for finalization, so the block can
                    // go in place.
                    proof {
                        it.lemma_after_removal(heap@);
                    }
                    freed.push(block.dealloc(heap));
                }
            }
        }
    }

    /// The entry-point to the drop phase.
    ///
    /// The destructors of the blocks in the drop queue are due. They run one
    /// after the other: [`Collector::next_destructor`] tells the next one, and
    /// once that has run, [`Collector::destructor_ran`] lets its block go.
    pub fn enter_drop_phase(&mut self, phase: &mut CollectorPhase)
        ensures
            *final(phase) == CollectorPhase::Finalization,
            *final(self) == *old(self),
    {
        phase.update(CollectorPhase::Finalization);
    }

    /// The destructor that has to run next: that of the block which was queued
    /// last. The block stays on the heap for as long. When none is left, the
    /// collection is over.
    pub fn next_destructor(
        &mut self,
        heap: &GlobalAllocator,
        phase: &mut CollectorPhase,
    ) -> (r: Option<Finalizer>)
        requires
            heap.wf(),
            *old(phase) == CollectorPhase::Finalization,
            droppable(heap@, old(self).queue()),
        ensures
            r is None <==> old(self).queue().len() == 0,
            r matches Some(f) ==> {
                &&& f == finalizer(heap@[index_of(heap@, old(self).queue().last().base)])
                &&& f.base == old(self).queue().last().base
                &&& has_base(heap@, f.base)
                &&& *final(self) == *old(self)
                &&& *final(phase) == *old(phase)
            },
            r is None ==> {
                &&& final(self).wf()
                &&& final(self).debug_flags == old(self).debug_flags
                &&& final(self).allocation_threshold == old(self).allocation_threshold
                &&& final(self).allocations == 0
                &&& *final(phase) == CollectorPhase::Ready
            },
    {
        let n = self.drop_queue.len();
        if n == 0 {
            self.allocations = 0;
            phase.update(CollectorPhase::Ready);
            assert(self.queue() =~= Seq::<Block>::empty());
            return None;
        }
        let block = self.drop_queue.as_slice()[n - 1];
        assert(block == self.queue().last());
        proof {
            assert(has_base(heap@, self.queue()[n - 1].base));
            lemma_index_of(heap@, block.base);
        }
        Some(block.destructor(heap))
    }

    /// The destructor that was handed out last has run: takes its block off the
    /// drop queue and off the heap. What is returned goes back to the system
    /// allocator.
    pub fn destructor_ran(&mut self, heap: &mut GlobalAllocator) -> (r: Region)
        requires
            old(heap).wf(),
            old(self).queue().len() > 0,
            droppable(old(heap)@, old(self).queue()),
        ensures
            final(heap).wf(),
            final(heap)@ == old(heap)@.remove(
                index_of(old(heap)@, old(self).queue().last().base),
            ),
            final(heap).top() == old(heap).top(),
            final(self).queue() == old(self).queue().drop_last(),
            droppable(final(heap)@, final(self).queue()),
            final(self).debug_flags == old(self).debug_flags,
            final(self).allocation_threshold == old(self).allocation_threshold,
            final(self).allocations == old(self).allocations,
            r == old(heap)@[index_of(old(heap)@, old(self).queue().last().base)].region,
    {
        let block = self.drop_queue.pop().unwrap();
        proof {
            let q = old(self).queue();
            assert(has_base(heap@, q[q.len() - 1].base));
            heap.lemma_heap_wf();
            lemma_next_droppable(heap@, q);
        }
        block.drop(heap)
    }

    /// The only entry-point to a collection. The preparation, mark and sweep
    /// phases take place, and the drop phase is entered. The memory of the
    /// garbage without a destructor is returned.
    pub fn collect(
        &mut self,
        heap: &mut GlobalAllocator,
        phase: &mut CollectorPhase,
        dummy_vptr: u64,
        world: &World,
    ) -> (freed: Vec<Region>)
        requires
            old(self).wf(),
            old(heap).wf(),
            *old(phase) == CollectorPhase::Ready,
            can_collect(old(self).debug_flags, old(heap)@, world),
        ensures
            final(self).debug_flags == old(self).debug_flags,
            final(self).allocation_threshold == old(self).allocation_threshold,
            final(self).allocations == old(self).allocations,
            final(self).queue() == to_drop(
                old(self).debug_flags,
                old(heap)@,
                old(heap).top(),
                world,
                dummy_vptr,
            ),
            final(heap).wf(),
            final(heap)@ == after_sweep(
                old(self).debug_flags,
                old(heap)@,
                old(heap).top(),
                world,
                dummy_vptr,
            ),
            final(heap).top() == old(heap).top(),
            droppable(final(heap)@, final(self).queue()),
            *final(phase) == CollectorPhase::Finalization,
            freed@ == freed_at_once(
                old(self).debug_flags,
                old(heap)@,
                old(heap).top(),
                world,
                dummy_vptr,
            ),
    {
        let allocation_cache = heap.sorted_cache();
        let colcx = CollectionCtxt {
            allocation_cache,
            data_segment_start: world.data_segment_start,
            data_segment_end: world.data_segment_end,
        };
        let ghost h0 = heap@;
        proof {
            heap.lemma_heap_wf();
        }
        if self.debug_flags.prep_phase {
            self.enter_preparation_phase(&colcx, heap, phase);
            proof {
                colcx.allocation_cache.lemma_same_bases(h0, heap@);
            }
        }
        phase.update(CollectorPhase::Marking);
        let ghost h1 = heap@;
        proof {
            assert(same_shape(h0, h1));
            lemma_covers_same_shape(world.memory@, h0, h1);
        }
        if self.debug_flags.mark_phase {
            self.enter_mark_phase(&colcx, heap, phase, world);
        }
        let ghost h2 = heap@;
        proof {
            assert(same_shape(h1, h2));
            heap.lemma_heap_wf();
        }
        let mut freed: Vec<Region> = Vec::new();
        if self.debug_flags.sweep_phase {
            freed = self.enter_sweep_phase(heap, phase, dummy_vptr);
            proof {
                assert(self.queue() =~= to_blocks(finalizable(h2, dummy_vptr).reverse()));
                assert forall|i: int| 0 <= i < h2.len() && (#[trigger] h2[i]).md.is_gc implies h2[i].md.drop_vptr
                    != 0 by {
                    assert(h1[i].base == h2[i].base);
                    assert(h0[i].base == h1[i].base);
                }
                lemma_sweep_then_drop(h2, dummy_vptr);
            }
        }
        self.enter_drop_phase(phase);
        freed
    }

    /// Is a collection due?
    pub fn collection_is_due(&self) -> (r: bool)
        ensures
            r == self.is_due(),
            r == (self.debug_flags.automatic_collection && self.allocations
                >= self.allocation_threshold),
    {
        self.debug_flags.automatic_collection && self.allocations >= self.allocation_threshold
    }

    /// Asks the collector if it needs to collect garbage. If it does, a
    /// collection takes place.
    pub fn poll(
        &mut self,
        heap: &mut GlobalAllocator,
        phase: &mut CollectorPhase,
        dummy_vptr: u64,
        world: &World,
    ) -> (freed: Option<Vec<Region>>)
        requires
            old(self).wf(),
            old(heap).wf(),
            *old(phase) == CollectorPhase::Ready,
            old(self).is_due() ==> can_collect(old(self).debug_flags, old(heap)@, world),
        ensures
            freed is Some <==> old(self).is_due(),
            freed is None ==> *final(self) == *old(self) && *final(heap) == *old(heap)
                && *final(phase) == *old(phase),
            freed matches Some(regions) ==> {
                &&& final(self).debug_flags == old(self).debug_flags
                &&& final(self).allocation_threshold == old(self).allocation_threshold
                &&& final(self).allocations == old(self).allocations
                &&& final(self).queue() == to_drop(
                    old(self).debug_flags,
                    old(heap)@,
                    old(heap).top(),
                    world,
                    dummy_vptr,
                )
                &&& final(heap).wf()
                &&& final(heap)@ == after_sweep(
                    old(self).debug_flags,
                    old(heap)@,
                    old(heap).top(),
                    world,
                    dummy_vptr,
                )
                &&& final(heap).top() == old(heap).top()
                &&& droppable(final(heap)@, final(self).queue())
                &&& *final(phase) == CollectorPhase::Finalization
                &&& regions@ == freed_at_once(
                    old(self).debug_flags,
                    old(heap)@,
                    old(heap).top(),
                    world,
                    dummy_vptr,
                )
            },
    {
        if self.collection_is_due() {
            Some(self.collect(heap, phase, dummy_vptr, world))
        } else {
            None
        }
    }
}

impl Block {
    /// The destructor of the value in a collected block. It is a guard: it does
    /// not run unless the value is really dead.
    pub fn destructor(&self, heap: &GlobalAllocator) -> (r: Finalizer)
        requires
            heap.wf(),
            has_base(heap@, self.base),
        ensures
            r == finalizer(heap@[index_of(heap@, self.base)]),
    {
        proof {
            lemma_index_of(heap@, self.base);
        }
        let vptr = self.drop_vptr(heap);
        let runs = self.colour(heap) != Colour::Black;
        Finalizer { base: self.base, vptr, runs }
    }

    /// Takes a collected block, whose destructor has run, off the heap. What is
    /// returned goes back to the system allocator.
    pub fn drop(self, heap: &mut GlobalAllocator) -> (r: Region)
        requires
            old(heap).wf(),
            has_base(old(heap)@, self.base),
            md_of(old(heap)@, self.base).is_gc,
        ensures
            final(heap).wf(),
            final(heap)@ == old(heap)@.remove(index_of(old(heap)@, self.base)),
            final(heap).top() == old(heap).top(),
            r == old(heap)@[index_of(old(heap)@, self.base)].region,
    {
        self.dealloc(heap)
    }
}

/// Every word that marking may read is known.
pub open spec fn world_covers(world: &World, h: Seq<Chunk>) -> bool {
    world.covers_roots() && covers_blocks(world.memory@, h)
}

/// What the phases that are switched on need is there: marking needs the words
/// that it reads, and sweeping the vtables of the collected blocks.
pub open spec fn can_collect(flags: DebugFlags, h: Seq<Chunk>, world: &World) -> bool {
    &&& flags.mark_phase ==> world_covers(world, h)
    &&& flags.sweep_phase ==> collectable(h)
}

/// The colours of the blocks do not decide which words are read.
pub(crate) proof fn lemma_covers_same_shape(mem: Map<u64, u64>, h: Seq<Chunk>, g: Seq<Chunk>)
    requires
        same_shape(h, g),
    ensures
        covers_blocks(mem, h) ==> covers_blocks(mem, g),
{
    if covers_blocks(mem, h) {
        assert forall|i: int| 0 <= i < g.len() implies crate::memory::covers(
            mem,
            (#[trigger] g[i]).base,
            crate::model::chunk_end(g[i]) as u64,
        ) by {
            assert(h[i].base == g[i].base);
        }
    }
}

/// The heap as the sweep phase finds it.
pub open spec fn coloured(
    flags: DebugFlags,
    h: Seq<Chunk>,
    top: u64,
    world: &World,
) -> Seq<Chunk> {
    let prepared = if flags.prep_phase {
        whitened(h)
    } else {
        h
    };
    if flags.mark_phase {
        world_marked(prepared, top, world)
    } else {
        prepared
    }
}

/// The heap after a collection, its drop phase included, as far as the
/// destructors leave the heap alone.
pub open spec fn collected(
    flags: DebugFlags,
    h: Seq<Chunk>,
    top: u64,
    world: &World,
) -> Seq<Chunk> {
    if flags.sweep_phase {
        survivors(coloured(flags, h, top, world))
    } else {
        coloured(flags, h, top, world)
    }
}

/// The heap when the drop phase starts. The garbage that has a destructor is
/// still there.
pub open spec fn after_sweep(
    flags: DebugFlags,
    h: Seq<Chunk>,
    top: u64,
    world: &World,
    dummy: u64,
) -> Seq<Chunk> {
    if flags.sweep_phase {
        swept(coloured(flags, h, top, world), dummy)
    } else {
        coloured(flags, h, top, world)
    }
}

/// The drop queue when the drop phase starts: the garbage that has a destructor,
/// from the newest block to the oldest.
pub open spec fn to_drop(
    flags: DebugFlags,
    h: Seq<Chunk>,
    top: u64,
    world: &World,
    dummy: u64,
) -> Seq<Block> {
    if flags.sweep_phase {
        to_blocks(finalizable(coloured(flags, h, top, world), dummy).reverse())
    } else {
        Seq::empty()
    }
}

/// The memory of the garbage without a destructor, from the newest block to the
/// oldest.
pub open spec fn freed_at_once(
    flags: DebugFlags,
    h: Seq<Chunk>,
    top: u64,
    world: &World,
    dummy: u64,
) -> Seq<Region> {
    if flags.sweep_phase {
        regions(plain_garbage(coloured(flags, h, top, world), dummy).reverse())
    } else {
        Seq::empty()
    }
}

/// The destructors that a collection runs, in the order in which they run: from
/// that of the oldest block to that of the newest.
pub open spec fn destructors(
    flags: DebugFlags,
    h: Seq<Chunk>,
    top: u64,
    world: &World,
    dummy: u64,
) -> Seq<Finalizer> {
    if flags.sweep_phase {
        finalizers(finalizable(coloured(flags, h, top, world), dummy))
    } else {
        Seq::empty()
    }
}

/// The heap as pointers are looked up in it while the world is stopped.
pub open spec fn world_graph(h: Seq<Chunk>, top: u64, world: &World) -> Graph {
    Graph { blocks: h, lo: world.data_segment_end, top, mem: world.memory@ }
}

/// The heap once everything that can be reached from the stack and the statics
/// is marked.
pub open spec fn world_marked(h: Seq<Chunk>, top: u64, world: &World) -> Seq<Chunk> {
    marked(world_graph(h, top, world), hits(world_graph(h, top, world), world.root_words()))
}

/// A block that differs from another in its colour only.
pub open spec fn same_but_colour(a: Chunk, b: Chunk) -> bool {
    a.base == b.base && a.md == (BlockMetadata { mark_bit: a.md.mark_bit, ..b.md }) && a.region
        == b.region
}

/// Before the sweep phase, nothing but the colours of the blocks changes.
pub proof fn lemma_coloured_shape(flags: DebugFlags, h: Seq<Chunk>, top: u64, world: &World)
    ensures
        same_shape(h, coloured(flags, h, top, world)),
        heap_wf(h) ==> heap_wf(coloured(flags, h, top, world)),
{
    if heap_wf(h) {
        lemma_same_shape(h, coloured(flags, h, top, world));
    }
}

/// Before the sweep phase, no block loses its vtable.
pub(crate) proof fn lemma_coloured_collectable(
    flags: DebugFlags,
    h: Seq<Chunk>,
    top: u64,
    world: &World,
)
    requires
        collectable(h),
    ensures
        collectable(coloured(flags, h, top, world)),
{
    let c = coloured(flags, h, top, world);
    lemma_coloured_shape(flags, h, top, world);
    assert forall|i: int| 0 <= i < c.len() && (#[trigger] c[i]).md.is_gc implies c[i].md.drop_vptr
        != 0 by {
        assert(h[i].base == c[i].base);
    }
}

/// When the drop phase starts, every collected block still has a vtable.
pub(crate) proof fn lemma_swept_collectable(
    flags: DebugFlags,
    h: Seq<Chunk>,
    top: u64,
    world: &World,
    dummy: u64,
)
    requires
        collectable(h),
    ensures
        collectable(after_sweep(flags, h, top, world, dummy)),
{
    let c = coloured(flags, h, top, world);
    let s = after_sweep(flags, h, top, world, dummy);
    lemma_coloured_collectable(flags, h, top, world);
    assert forall|i: int| 0 <= i < s.len() && (#[trigger] s[i]).md.is_gc implies s[i].md.drop_vptr
        != 0 by {
        if flags.sweep_phase {
            assert(s.contains(s[i]));
            lemma_filter_has(c, |x: Chunk| !(is_dead(x) && x.md.drop_vptr == dummy), s[i]);
            assert(c[c.index_of(s[i])] == s[i]);
        }
    }
}

/// A collection makes no block, moves none and changes nothing in one but its
/// colour.
pub proof fn lemma_collected_blocks(flags: DebugFlags, h: Seq<Chunk>, top: u64, world: &World)
    requires
        heap_wf(h),
    ensures
        heap_wf(collected(flags, h, top, world)),
        forall|c: Chunk| #[trigger]
            collected(flags, h, top, world).contains(c) ==> exists|i: int|
                0 <= i < h.len() && same_but_colour(c, #[trigger] h[i]),
{
    let m = coloured(flags, h, top, world);
    let p = |c: Chunk| !is_dead(c);
    lemma_coloured_shape(flags, h, top, world);
    lemma_filter_wf(m, p);
    assert forall|c: Chunk| #[trigger] collected(flags, h, top, world).contains(c) implies exists|
        i: int,
    |
        0 <= i < h.len() && same_but_colour(c, #[trigger] h[i]) by {
        lemma_filter_has(m, p, c);
        let i = m.index_of(c);
        assert(same_but_colour(c, h[i]));
    }
}

/// Once the block that was queued last is gone, the others can go.
pub(crate) proof fn lemma_next_droppable(h: Seq<Chunk>, q: Seq<Block>)
    requires
        heap_wf(h),
        q.len() > 0,
        droppable(h, q),
    ensures
        droppable(h.remove(index_of(h, q.last().base)), q.drop_last()),
{
    assert(has_base(h, q[q.len() - 1].base));
    assert forall|i: int| 0 <= i < q.drop_last().len() implies (#[trigger] q.drop_last()[i]).base
        != q.last().base by {
        assert(q[i] != q[q.len() - 1]);
    }
    lemma_others_droppable(h, q.drop_last(), q.last().base);
}

/// Blocks that are not queued can go without harm.
pub(crate) proof fn lemma_others_droppable(h: Seq<Chunk>, q: Seq<Block>, base: u64)
    requires
        heap_wf(h),
        has_base(h, base),
        forall|i: int|
            0 <= i < q.len() ==> {
                &&& has_base(h, (#[trigger] q[i]).base)
                &&& md_of(h, q[i].base).is_gc
                &&& md_of(h, q[i].base).drop_vptr != 0
                &&& q[i].base != base
            },
        q.no_duplicates(),
    ensures
        droppable(h.remove(index_of(h, base)), q),
{
    let k = index_of(h, base);
    lemma_index_of(h, base);
    let r = h.remove(k);
    lemma_remove_wf(h, k);
    assert forall|i: int| 0 <= i < q.len() implies {
        &&& has_base(r, (#[trigger] q[i]).base)
        &&& md_of(r, q[i].base).is_gc
        &&& md_of(r, q[i].base).drop_vptr != 0
    } by {
        let j = index_of(h, q[i].base);
        lemma_index_of(h, q[i].base);
        let j1 = if j < k { j } else { j - 1 };
        assert(r[j1] == h[j]);
        lemma_index_unique(r, j1);
    }
}

} // verus!
