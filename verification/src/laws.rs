//! What holds of the collector as a whole.
use crate::allocator::{block_layout, found, value_offset, Block, GlobalAllocator};
use crate::collector::{
    after_sweep, collected, coloured, destructors, freed_at_once, lemma_collected_blocks,
    lemma_coloured_shape, lemma_others_droppable, same_but_colour, to_drop, world_graph,
    DebugFlags,
};
use crate::garbage::{
    collectable, drop_order, droppable, dropped, finalizable, finalizer, is_dead,
    lemma_filter_all, lemma_filter_congruent, lemma_filter_has, lemma_filter_wf,
    lemma_sweep_then_drop, plain_garbage, survivors, whitened, Finalizer,
};
use crate::gcalloc::GcAllocator;
use crate::layout::Layout;
use crate::marking::{
    contents, hits, lemma_hits_are_blocks, lemma_hits_contain, lemma_hits_same, lemma_hits_word,
    lemma_same_shape, reached, refers, same_shape, white_path, Graph,
};
use crate::memory::{words, World};
use crate::metadata::BlockMetadata;
use crate::model::{
    chunk_end, chunk_wf, has_base, heap_wf, holds, index_of, lemma_block_at, lemma_index_of,
    lemma_index_unique, md_of, points_at, with_md, Chunk, Region,
};
use vstd::prelude::*;

verus! {

/// A path from a word of the stack or of the statics through the heap.
pub open spec fn heap_path(h: Seq<Chunk>, top: u64, world: &World, p: Seq<u64>) -> bool {
    let g = world_graph(h, top, world);
    &&& p.len() > 0
    &&& hits(g, world.root_words()).contains(Block { base: p[0] })
    &&& forall|i: int| 0 <= i < p.len() - 1 ==> refers(g, #[trigger] p[i], p[i + 1])
}

/// Can a block be reached from the stack or the statics? All potential pointers
/// count, in blocks of either kind.
pub open spec fn reachable(h: Seq<Chunk>, top: u64, world: &World, base: u64) -> bool {
    exists|p: Seq<u64>| #[trigger] heap_path(h, top, world, p) && p.last() == base
}

/// A block holds the same potential pointers, whatever the colours.
proof fn lemma_refers_same(g: Graph, h: Seq<Chunk>, a: u64, b: u64)
    requires
        heap_wf(g.blocks),
        same_shape(g.blocks, h),
        has_base(g.blocks, a),
    ensures
        refers(Graph { blocks: h, ..g }, a, b) == refers(g, a, b),
{
    let k = Graph { blocks: h, ..g };
    lemma_same_shape(g.blocks, h);
    assert(md_of(h, a).size == md_of(g.blocks, a).size);
    assert(contents(k, a) == contents(g, a));
    lemma_hits_same(g, h, contents(g, a));
}

/// The blocks on a path are blocks of the heap.
proof fn lemma_path_blocks(h: Seq<Chunk>, top: u64, world: &World, p: Seq<u64>, i: int)
    requires
        heap_wf(h),
        heap_path(h, top, world, p),
        0 <= i < p.len(),
    ensures
        has_base(h, p[i]),
{
    let g = world_graph(h, top, world);
    if i == 0 {
        lemma_hits_are_blocks(g, world.root_words());
        assert(has_base(h, (Block { base: p[0] }).base));
    } else {
        assert(refers(g, p[i - 1], p[i - 1 + 1]));
        lemma_hits_are_blocks(g, contents(g, p[i - 1]));
        assert(has_base(h, (Block { base: p[i] }).base));
    }
}

/// Once all blocks are white, marking reaches what can be reached.
proof fn lemma_reached_is_reachable(h: Seq<Chunk>, top: u64, world: &World, base: u64)
    requires
        heap_wf(h),
    ensures
        ({
            let g = world_graph(whitened(h), top, world);
            reached(g, hits(g, world.root_words()), base) <==> reachable(h, top, world, base)
        }),
{
    let w = whitened(h);
    let g0 = world_graph(h, top, world);
    let g = world_graph(w, top, world);
    let roots = hits(g, world.root_words());
    assert(g == (Graph { blocks: w, ..g0 }));
    assert(same_shape(h, w));
    lemma_same_shape(h, w);
    lemma_hits_same(g0, w, world.root_words());
    if reachable(h, top, world, base) {
        let p = choose|p: Seq<u64>| #[trigger] heap_path(h, top, world, p) && p.last() == base;
        assert forall|i: int| 0 <= i < p.len() implies crate::marking::is_white(
            g,
            #[trigger] p[i],
        ) by {
            lemma_path_blocks(h, top, world, p, i);
            lemma_index_of(h, p[i]);
            assert(has_base(w, p[i]));
        }
        assert forall|i: int| 0 <= i < p.len() - 1 implies refers(g, #[trigger] p[i], p[i + 1]) by {
            lemma_path_blocks(h, top, world, p, i);
            lemma_refers_same(g0, w, p[i], p[i + 1]);
        }
        assert(white_path(g, roots, p));
    }
    if reached(g, roots, base) {
        let p = choose|p: Seq<u64>| #[trigger] white_path(g, roots, p) && p.last() == base;
        assert forall|i: int| 0 <= i < p.len() - 1 implies refers(g0, #[trigger] p[i], p[i + 1]) by {
            assert(crate::marking::is_white(g, p[i]));
            assert(has_base(h, p[i]));
            assert(refers(g, p[i], p[i + 1]));
            lemma_refers_same(g0, w, p[i], p[i + 1]);
        }
        assert(heap_path(h, top, world, p));
    }
}

/// After preparation and marking, exactly the blocks that can be reached are
/// black, and nothing but the colours of the blocks has changed.
pub proof fn law_black_is_reachable(
    flags: DebugFlags,
    h: Seq<Chunk>,
    top: u64,
    world: &World,
    i: int,
)
    requires
        heap_wf(h),
        flags.prep_phase,
        flags.mark_phase,
        0 <= i < h.len(),
    ensures
        coloured(flags, h, top, world)[i] == (Chunk {
            md: BlockMetadata {
                mark_bit: reachable(h, top, world, h[i].base),
                ..h[i].md
            },
            ..h[i]
        }),
{
    lemma_reached_is_reachable(h, top, world, h[i].base);
}

/// A collection keeps every block that can be reached, collected or not. It is
/// black afterwards, and otherwise as it was.
pub proof fn law_reachable_survives(
    flags: DebugFlags,
    h: Seq<Chunk>,
    top: u64,
    world: &World,
    i: int,
)
    requires
        heap_wf(h),
        flags.prep_phase,
        flags.mark_phase,
        0 <= i < h.len(),
        reachable(h, top, world, h[i].base),
    ensures
        collected(flags, h, top, world).contains(
            Chunk { md: BlockMetadata { mark_bit: true, ..h[i].md }, ..h[i] },
        ),
{
    law_black_is_reachable(flags, h, top, world, i);
    let c = coloured(flags, h, top, world);
    assert(c.contains(c[i]));
    lemma_filter_has(c, |x: Chunk| !is_dead(x), c[i]);
}

/// A block that a word of the stack or of the statics points into, or one past
/// its end, can be reached.
pub proof fn law_roots_are_reachable(heap: &GlobalAllocator, world: &World, i: int, k: int)
    requires
        heap.wf(),
        0 <= i < heap@.len(),
        world.data_segment_end <= heap@[i].base,
        0 <= k < world.root_words().len(),
        heap@[i].base <= world.root_words()[k] <= chunk_end(heap@[i]),
    ensures
        reachable(heap@, heap.top(), world, heap@[i].base),
{
    let h = heap@;
    let top = heap.top();
    let g = world_graph(h, top, world);
    let ws = world.root_words();
    law_pointers_are_found(heap, world.data_segment_end, i, ws[k]);
    lemma_hits_contain(g, ws, k, Block { base: h[i].base });
    let p = seq![h[i].base];
    assert(heap_path(h, top, world, p));
    assert(p.last() == h[i].base);
}

/// A block that a word of a reachable block points into, or one past its end,
/// can be reached. It does not matter whether the blocks are collected.
pub proof fn law_reachability_is_transitive(
    heap: &GlobalAllocator,
    world: &World,
    i: int,
    j: int,
    k: int,
)
    requires
        heap.wf(),
        0 <= i < heap@.len(),
        reachable(heap@, heap.top(), world, heap@[i].base),
        0 <= j < heap@.len(),
        world.data_segment_end <= heap@[j].base,
        0 <= k < words(world.memory@, heap@[i].base, chunk_end(heap@[i]) as u64).len(),
        heap@[j].base <= words(world.memory@, heap@[i].base, chunk_end(heap@[i]) as u64)[k]
            <= chunk_end(heap@[j]),
    ensures
        reachable(heap@, heap.top(), world, heap@[j].base),
{
    let h = heap@;
    let top = heap.top();
    let g = world_graph(h, top, world);
    let a = h[i].base;
    let b = h[j].base;
    heap.lemma_heap_wf();
    lemma_index_unique(h, i);
    let ws = contents(g, a);
    assert(ws == words(world.memory@, a, chunk_end(h[i]) as u64));
    law_pointers_are_found(heap, world.data_segment_end, j, ws[k]);
    lemma_hits_contain(g, ws, k, Block { base: b });
    let p = choose|p: Seq<u64>| #[trigger] heap_path(h, top, world, p) && p.last() == a;
    let q = p.push(b);
    assert forall|n: int| 0 <= n < q.len() - 1 implies refers(g, #[trigger] q[n], q[n + 1]) by {
        if n < p.len() - 1 {
            assert(q[n] == p[n] && q[n + 1] == p[n + 1]);
        } else {
            assert(q[n] == a && q[n + 1] == b);
        }
    }
    assert(q[0] == p[0]);
    assert(heap_path(h, top, world, q));
    assert(q.last() == b);
}

/// A full collection takes every collected block away that cannot be reached,
/// cycles of such blocks included.
pub proof fn law_unreachable_goes(
    flags: DebugFlags,
    h: Seq<Chunk>,
    top: u64,
    world: &World,
    i: int,
)
    requires
        heap_wf(h),
        flags.prep_phase,
        flags.mark_phase,
        flags.sweep_phase,
        0 <= i < h.len(),
        h[i].md.is_gc,
        !reachable(h, top, world, h[i].base),
    ensures
        !has_base(collected(flags, h, top, world), h[i].base),
{
    law_black_is_reachable(flags, h, top, world, i);
    lemma_coloured_shape(flags, h, top, world);
    lemma_dead_goes(coloured(flags, h, top, world), i);
}

/// No block is left where a dead one was.
proof fn lemma_dead_goes(c: Seq<Chunk>, i: int)
    requires
        heap_wf(c),
        0 <= i < c.len(),
        is_dead(c[i]),
    ensures
        !has_base(survivors(c), c[i].base),
{
    let s = survivors(c);
    if has_base(s, c[i].base) {
        let k = index_of(s, c[i].base);
        assert(s.contains(s[k]));
        lemma_filter_has(c, |x: Chunk| !is_dead(x), s[k]);
        let j = c.index_of(s[k]);
        lemma_index_unique(c, i);
        lemma_index_unique(c, j);
    }
}

/// No collection, whatever its flags, takes a block away that is not
/// collected.
pub proof fn law_uncollected_survives(
    flags: DebugFlags,
    h: Seq<Chunk>,
    top: u64,
    world: &World,
    i: int,
)
    requires
        0 <= i < h.len(),
        !h[i].md.is_gc,
    ensures
        exists|c: Chunk|
            same_but_colour(c, h[i]) && #[trigger] collected(flags, h, top, world).contains(c),
{
    let c = coloured(flags, h, top, world);
    lemma_coloured_shape(flags, h, top, world);
    assert(c[i].md == (BlockMetadata { mark_bit: c[i].md.mark_bit, ..h[i].md }));
    assert(c.contains(c[i]));
    lemma_filter_has(c, |x: Chunk| !is_dead(x), c[i]);
    assert(same_but_colour(c[i], h[i]));
    assert(collected(flags, h, top, world).contains(c[i]));
}

/// A block that is black when a collection without a preparation phase starts
/// survives it: this is what keeps a value alive.
pub proof fn law_kept_alive_survives(
    flags: DebugFlags,
    h: Seq<Chunk>,
    top: u64,
    world: &World,
    i: int,
)
    requires
        !flags.prep_phase,
        0 <= i < h.len(),
        h[i].md.mark_bit,
    ensures
        collected(flags, h, top, world).contains(h[i]),
{
    let c = coloured(flags, h, top, world);
    assert(c[i] == h[i]);
    assert(c.contains(c[i]));
    lemma_filter_has(c, |x: Chunk| !is_dead(x), c[i]);
}

/// Without a mark phase, all collected blocks are presumed dead.
pub proof fn law_without_marking_all_are_dead(
    flags: DebugFlags,
    h: Seq<Chunk>,
    top: u64,
    world: &World,
    i: int,
)
    requires
        heap_wf(h),
        flags.prep_phase,
        !flags.mark_phase,
        flags.sweep_phase,
        0 <= i < h.len(),
        h[i].md.is_gc,
    ensures
        !has_base(collected(flags, h, top, world), h[i].base),
{
    lemma_coloured_shape(flags, h, top, world);
    lemma_dead_goes(coloured(flags, h, top, world), i);
}

/// Without a sweep phase, a collection takes no block away, hands no memory
/// over and runs no destructor.
pub proof fn law_without_sweeping_nothing_goes(
    flags: DebugFlags,
    h: Seq<Chunk>,
    top: u64,
    world: &World,
    dummy: u64,
)
    requires
        !flags.sweep_phase,
    ensures
        same_shape(h, collected(flags, h, top, world)),
        freed_at_once(flags, h, top, world, dummy).len() == 0,
        destructors(flags, h, top, world, dummy).len() == 0,
{
    lemma_coloured_shape(flags, h, top, world);
}

/// Once the destructors that are due when the drop phase starts have run, one
/// after the other, and their blocks are gone, nothing is left to do. Nothing is
/// left of the garbage, and the destructors have run from that of the oldest
/// block to that of the newest.
pub proof fn law_drop_phase_ends_the_collection(
    flags: DebugFlags,
    h: Seq<Chunk>,
    top: u64,
    world: &World,
    dummy: u64,
)
    requires
        heap_wf(h),
        flags.sweep_phase ==> collectable(h),
    ensures
        ({
            let start = after_sweep(flags, h, top, world, dummy);
            let queue = to_drop(flags, h, top, world, dummy);
            &&& droppable(start, queue)
            &&& dropped(start, queue) == collected(flags, h, top, world)
            &&& drop_order(start, queue) == destructors(flags, h, top, world, dummy)
        }),
{
    let c = coloured(flags, h, top, world);
    lemma_coloured_shape(flags, h, top, world);
    if flags.sweep_phase {
        crate::collector::lemma_coloured_collectable(flags, h, top, world);
        lemma_sweep_then_drop(c, dummy);
    }
}

/// A destructor may allocate: the blocks that wait for theirs are still there,
/// and still as they were.
pub proof fn law_destructors_may_allocate(h: Seq<Chunk>, queue: Seq<Block>, c: Chunk)
    requires
        heap_wf(h),
        heap_wf(h.push(c)),
        droppable(h, queue),
    ensures
        droppable(h.push(c), queue),
{
    let g = h.push(c);
    assert forall|i: int| 0 <= i < queue.len() implies {
        &&& has_base(g, (#[trigger] queue[i]).base)
        &&& md_of(g, queue[i].base).is_gc
        &&& md_of(g, queue[i].base).drop_vptr != 0
    } by {
        let j = index_of(h, queue[i].base);
        lemma_index_of(h, queue[i].base);
        assert(g[j] == h[j]);
        lemma_index_unique(g, j);
    }
}

/// A destructor may free any block that does not itself wait for a destructor.
pub proof fn law_destructors_may_free(h: Seq<Chunk>, queue: Seq<Block>, base: u64)
    requires
        heap_wf(h),
        droppable(h, queue),
        has_base(h, base),
        !queue.contains(Block { base }),
    ensures
        droppable(h.remove(index_of(h, base)), queue),
{
    assert forall|i: int| 0 <= i < queue.len() implies (#[trigger] queue[i]).base != base by {
        assert(queue.contains(queue[i]));
    }
    lemma_others_droppable(h, queue, base);
}

/// A destructor may give a block that does not itself wait for a destructor a
/// new size.
pub proof fn law_destructors_may_reallocate(
    h: Seq<Chunk>,
    queue: Seq<Block>,
    base: u64,
    c: Chunk,
)
    requires
        heap_wf(h),
        droppable(h, queue),
        has_base(h, base),
        !queue.contains(Block { base }),
        heap_wf(h.update(index_of(h, base), c)),
    ensures
        droppable(h.update(index_of(h, base), c), queue),
{
    let k = index_of(h, base);
    lemma_index_of(h, base);
    let g = h.update(k, c);
    assert forall|i: int| 0 <= i < queue.len() implies {
        &&& has_base(g, (#[trigger] queue[i]).base)
        &&& md_of(g, queue[i].base).is_gc
        &&& md_of(g, queue[i].base).drop_vptr != 0
    } by {
        assert(queue.contains(queue[i]));
        let j = index_of(h, queue[i].base);
        lemma_index_of(h, queue[i].base);
        assert(g[j] == h[j]);
        lemma_index_unique(g, j);
    }
}

/// Each block is a survivor, garbage with a destructor or garbage without one.
proof fn lemma_partition(c: Seq<Chunk>, dummy: u64)
    ensures
        survivors(c).len() + finalizable(c, dummy).len() + plain_garbage(c, dummy).len()
            == c.len(),
    decreases c.len(),
{
    reveal(Seq::filter);
    if c.len() > 0 {
        lemma_partition(c.drop_last(), dummy);
    }
}

/// A collection loses no block: each one is still there, or its memory is
/// handed over, or its destructor is.
pub proof fn law_every_block_is_accounted_for(
    flags: DebugFlags,
    h: Seq<Chunk>,
    top: u64,
    world: &World,
    dummy: u64,
)
    ensures
        collected(flags, h, top, world).len() + freed_at_once(flags, h, top, world, dummy).len()
            + destructors(flags, h, top, world, dummy).len() == h.len(),
{
    let c = coloured(flags, h, top, world);
    lemma_coloured_shape(flags, h, top, world);
    lemma_partition(c, dummy);
}

/// What becomes of a dead block. If its value has a destructor, that really
/// runs, and until it has run the block is on the heap, with the memory that it
/// was given. Otherwise just that memory is handed over. In the end nothing is
/// left of the block.
pub proof fn law_dead_block_is_handed_over(
    flags: DebugFlags,
    h: Seq<Chunk>,
    top: u64,
    world: &World,
    dummy: u64,
    i: int,
)
    requires
        heap_wf(h),
        flags.sweep_phase,
        0 <= i < h.len(),
        is_dead(coloured(flags, h, top, world)[i]),
    ensures
        !has_base(collected(flags, h, top, world), h[i].base),
        h[i].md.drop_vptr != dummy ==> {
            &&& destructors(flags, h, top, world, dummy).contains(
                Finalizer { base: h[i].base, vptr: h[i].md.drop_vptr, runs: true },
            )
            &&& has_base(after_sweep(flags, h, top, world, dummy), h[i].base)
            &&& after_sweep(flags, h, top, world, dummy)[index_of(
                after_sweep(flags, h, top, world, dummy),
                h[i].base,
            )].region == h[i].region
        },
        h[i].md.drop_vptr == dummy ==> freed_at_once(flags, h, top, world, dummy).contains(
            h[i].region,
        ),
{
    let c = coloured(flags, h, top, world);
    lemma_coloured_shape(flags, h, top, world);
    lemma_dead_goes(c, i);
    assert(c.contains(c[i]));
    assert(c[i].md.drop_vptr == h[i].md.drop_vptr);
    if h[i].md.drop_vptr != dummy {
        let f = finalizable(c, dummy);
        let stays = |x: Chunk| !(is_dead(x) && x.md.drop_vptr == dummy);
        let s = c.filter(stays);
        lemma_filter_has(c, |x: Chunk| is_dead(x) && x.md.drop_vptr != dummy, c[i]);
        let k = f.index_of(c[i]);
        assert(destructors(flags, h, top, world, dummy)[k] == finalizer(c[i]));
        lemma_filter_has(c, stays, c[i]);
        lemma_filter_wf(c, stays);
        lemma_index_unique(s, s.index_of(c[i]));
    } else {
        let f = plain_garbage(c, dummy);
        lemma_filter_has(c, |x: Chunk| is_dead(x) && x.md.drop_vptr == dummy, c[i]);
        let k = f.index_of(c[i]);
        assert(f.reverse()[f.len() - 1 - k] == c[i]);
        assert(freed_at_once(flags, h, top, world, dummy)[f.len() - 1 - k] == c[i].region);
    }
}

/// No destructor runs twice, and none for a block that is still there in the
/// end.
pub proof fn law_destructors_run_once(
    flags: DebugFlags,
    h: Seq<Chunk>,
    top: u64,
    world: &World,
    dummy: u64,
)
    requires
        heap_wf(h),
    ensures
        ({
            let d = destructors(flags, h, top, world, dummy);
            &&& forall|k: int, l: int|
                0 <= k < d.len() && 0 <= l < d.len() && k != l ==> (#[trigger] d[k]).base != (
                #[trigger] d[l]).base
            &&& forall|k: int|
                0 <= k < d.len() ==> (#[trigger] d[k]).runs && has_base(h, d[k].base) && !has_base(
                    collected(flags, h, top, world),
                    d[k].base,
                )
        }),
{
    if flags.sweep_phase {
        let d = destructors(flags, h, top, world, dummy);
        let c = coloured(flags, h, top, world);
        let p = |x: Chunk| is_dead(x) && x.md.drop_vptr != dummy;
        let f = finalizable(c, dummy);
        lemma_coloured_shape(flags, h, top, world);
        lemma_same_shape(h, c);
        lemma_filter_wf(c, p);
        assert forall|k: int, l: int| 0 <= k < d.len() && 0 <= l < d.len() && k != l implies (
        #[trigger] d[k]).base != (#[trigger] d[l]).base by {
            lemma_index_unique(f, k);
            lemma_index_unique(f, l);
        }
        assert forall|k: int| 0 <= k < d.len() implies (#[trigger] d[k]).runs && has_base(
            h,
            d[k].base,
        ) && !has_base(collected(flags, h, top, world), d[k].base) by {
            assert(f.contains(f[k]));
            lemma_filter_has(c, p, f[k]);
            let j = c.index_of(f[k]);
            lemma_dead_goes(c, j);
            assert(h[j].base == c[j].base);
        }
    }
}

/// All blocks of one heap are blocks of another, but for their colours.
pub open spec fn part_of(s: Seq<Chunk>, h: Seq<Chunk>) -> bool {
    forall|k: int|
        0 <= k < s.len() ==> exists|i: int|
            0 <= i < h.len() && same_but_colour(#[trigger] s[k], #[trigger] h[i])
}

/// A block that is left over is where it was, and as large.
proof fn lemma_part_block(s: Seq<Chunk>, h: Seq<Chunk>, b: u64)
    requires
        heap_wf(h),
        heap_wf(s),
        part_of(s, h),
        has_base(s, b),
    ensures
        has_base(h, b),
        md_of(h, b).size == md_of(s, b).size,
{
    let k = index_of(s, b);
    lemma_index_of(s, b);
    let i = choose|i: int| 0 <= i < h.len() && same_but_colour(s[k], #[trigger] h[i]);
    lemma_index_unique(h, i);
    lemma_index_unique(s, k);
}

/// A word finds a block that is left over exactly when it found it before.
proof fn lemma_part_found(s: Seq<Chunk>, h: Seq<Chunk>, lo: u64, top: u64, w: u64, b: u64)
    requires
        heap_wf(h),
        heap_wf(s),
        part_of(s, h),
        has_base(s, b),
    ensures
        found(s, lo, top, w) == Some(Block { base: b }) <==> found(h, lo, top, w) == Some(
            Block { base: b },
        ),
{
    lemma_part_block(s, h, b);
    let k = index_of(s, b);
    let i = index_of(h, b);
    lemma_index_of(s, b);
    lemma_index_of(h, b);
    assert(holds(s[k], w) == holds(h[i], w));
    if found(s, lo, top, w) == Some(Block { base: b }) {
        assert(points_at(s, w, b));
        let j = choose|j: int| 0 <= j < s.len() && (#[trigger] s[j]).base == b && holds(s[j], w);
        lemma_index_unique(s, j);
        assert(points_at(h, w, b));
        lemma_block_at(h, w, b);
    }
    if found(h, lo, top, w) == Some(Block { base: b }) {
        assert(points_at(h, w, b));
        let j = choose|j: int| 0 <= j < h.len() && (#[trigger] h[j]).base == b && holds(h[j], w);
        lemma_index_unique(h, j);
        assert(points_at(s, w, b));
        lemma_block_at(s, w, b);
    }
}

/// Words find a block that is left over exactly when they found it before.
proof fn lemma_part_hits(s: Seq<Chunk>, g: Graph, ws: Seq<u64>, b: u64)
    requires
        heap_wf(g.blocks),
        heap_wf(s),
        part_of(s, g.blocks),
        has_base(s, b),
    ensures
        hits(Graph { blocks: s, ..g }, ws).contains(Block { base: b }) <==> hits(g, ws).contains(
            Block { base: b },
        ),
{
    let g1 = Graph { blocks: s, ..g };
    let block = Block { base: b };
    if hits(g1, ws).contains(block) {
        let k = lemma_hits_word(g1, ws, block);
        lemma_part_found(s, g.blocks, g.lo, g.top, ws[k], b);
        lemma_hits_contain(g, ws, k, block);
    }
    if hits(g, ws).contains(block) {
        let k = lemma_hits_word(g, ws, block);
        lemma_part_found(s, g.blocks, g.lo, g.top, ws[k], b);
        lemma_hits_contain(g1, ws, k, block);
    }
}

/// Taking blocks away that cannot be reached does not change what can be.
proof fn lemma_part_reachable(s: Seq<Chunk>, h: Seq<Chunk>, top: u64, world: &World, base: u64)
    requires
        heap_wf(h),
        heap_wf(s),
        part_of(s, h),
        has_base(s, base),
        forall|b: u64| #[trigger] has_base(h, b) && reachable(h, top, world, b) ==> has_base(s, b),
    ensures
        reachable(s, top, world, base) <==> reachable(h, top, world, base),
{
    let g = world_graph(h, top, world);
    let g1 = world_graph(s, top, world);
    assert(g1 == (Graph { blocks: s, ..g }));
    if reachable(s, top, world, base) {
        let p = choose|p: Seq<u64>| #[trigger] heap_path(s, top, world, p) && p.last() == base;
        lemma_path_blocks(s, top, world, p, 0);
        lemma_part_hits(s, g, world.root_words(), p[0]);
        assert forall|i: int| 0 <= i < p.len() - 1 implies refers(g, #[trigger] p[i], p[i + 1]) by {
            lemma_path_blocks(s, top, world, p, i);
            lemma_path_blocks(s, top, world, p, i + 1);
            lemma_part_block(s, h, p[i]);
            assert(contents(g1, p[i]) == contents(g, p[i]));
            assert(refers(g1, p[i], p[i + 1]));
            lemma_part_hits(s, g, contents(g, p[i]), p[i + 1]);
        }
        assert(heap_path(h, top, world, p));
    }
    if reachable(h, top, world, base) {
        let p = choose|p: Seq<u64>| #[trigger] heap_path(h, top, world, p) && p.last() == base;
        assert forall|i: int| 0 <= i < p.len() implies has_base(s, #[trigger] p[i]) by {
            lemma_path_blocks(h, top, world, p, i);
            let q = p.take(i + 1);
            assert(heap_path(h, top, world, q)) by {
                assert(q[0] == p[0]);
                assert forall|j: int| 0 <= j < q.len() - 1 implies refers(
                    g,
                    #[trigger] q[j],
                    q[j + 1],
                ) by {
                    assert(refers(g, p[j], p[j + 1]));
                }
            }
            assert(q.last() == p[i]);
        }
        lemma_part_hits(s, g, world.root_words(), p[0]);
        assert forall|i: int| 0 <= i < p.len() - 1 implies refers(g1, #[trigger] p[i], p[i + 1]) by {
            lemma_part_block(s, h, p[i]);
            assert(contents(g1, p[i]) == contents(g, p[i]));
            assert(refers(g, p[i], p[i + 1]));
            assert(has_base(s, p[i + 1]));
            lemma_part_hits(s, g, contents(g, p[i]), p[i + 1]);
        }
        assert(heap_path(s, top, world, p));
    }
}

/// A second full collection of the same world finds nothing more to do.
pub proof fn law_collecting_again_changes_nothing(
    flags: DebugFlags,
    h: Seq<Chunk>,
    top: u64,
    world: &World,
    dummy: u64,
)
    requires
        heap_wf(h),
        flags.prep_phase,
        flags.mark_phase,
        flags.sweep_phase,
    ensures
        collected(flags, collected(flags, h, top, world), top, world) == collected(
            flags,
            h,
            top,
            world,
        ),
        freed_at_once(flags, collected(flags, h, top, world), top, world, dummy).len() == 0,
        destructors(flags, collected(flags, h, top, world), top, world, dummy).len() == 0,
{
    let c = coloured(flags, h, top, world);
    let s = collected(flags, h, top, world);
    let alive = |x: Chunk| !is_dead(x);
    lemma_coloured_shape(flags, h, top, world);
    lemma_same_shape(h, c);
    lemma_collected_blocks(flags, h, top, world);
    assert forall|k: int| 0 <= k < s.len() implies exists|i: int|
        0 <= i < h.len() && same_but_colour(#[trigger] s[k], #[trigger] h[i]) by {
        assert(s.contains(s[k]));
    }
    assert forall|b: u64| #[trigger] has_base(h, b) && reachable(h, top, world, b) implies has_base(
        s,
        b,
    ) by {
        let i = index_of(h, b);
        lemma_index_of(h, b);
        law_reachable_survives(flags, h, top, world, i);
        let x = Chunk { md: BlockMetadata { mark_bit: true, ..h[i].md }, ..h[i] };
        assert(s[s.index_of(x)].base == b);
    }
    let again = coloured(flags, s, top, world);
    lemma_coloured_shape(flags, s, top, world);
    assert forall|k: int| 0 <= k < s.len() implies again[k] == #[trigger] s[k] && alive(s[k]) by {
        assert(s.contains(s[k]));
        lemma_filter_has(c, alive, s[k]);
        let i = c.index_of(s[k]);
        law_black_is_reachable(flags, h, top, world, i);
        law_black_is_reachable(flags, s, top, world, k);
        assert(has_base(s, s[k].base));
        lemma_part_reachable(s, h, top, world, s[k].base);
    }
    assert(again =~= s);
    lemma_filter_all(s, alive);
    lemma_partition(s, dummy);
}

/// A new block that goes at once leaves the heap as it was, and its memory goes
/// back where it came from.
pub proof fn law_dealloc_undoes_alloc(h: Seq<Chunk>, c: Chunk, layout: Layout, raw: u64)
    requires
        heap_wf(h.push(c)),
        c.base == raw + value_offset(layout),
        c.region == (Region { raw, layout: block_layout(layout) }),
    ensures
        h.push(c).remove(index_of(h.push(c), c.base)) == h,
        c.region == (Region {
            raw: (c.base - value_offset(layout)) as u64,
            layout: block_layout(layout),
        }),
{
    let g = h.push(c);
    lemma_index_unique(g, h.len() as int);
    assert(g.remove(h.len() as int) =~= h);
}

/// Every word that points into a block above the data segment, or one past its
/// end, finds that block.
pub proof fn law_pointers_are_found(heap: &GlobalAllocator, lo: u64, i: int, word: u64)
    requires
        heap.wf(),
        0 <= i < heap@.len(),
        lo <= heap@[i].base,
        heap@[i].base <= word <= chunk_end(heap@[i]),
    ensures
        found(heap@, lo, heap.top(), word) == Some(Block { base: heap@[i].base }),
{
    let h = heap@;
    heap.lemma_heap_wf();
    assert(chunk_end(h[i]) <= heap.top());
    assert(holds(h[i], word));
    assert(points_at(h, word, h[i].base));
    lemma_block_at(h, word, h[i].base);
}

/// Nothing else finds a block: what is found starts no higher than the word
/// and ends no lower.
pub proof fn law_what_is_found_is_pointed_at(h: Seq<Chunk>, lo: u64, top: u64, word: u64)
    requires
        heap_wf(h),
    ensures
        found(h, lo, top, word) matches Some(b) ==> {
            &&& has_base(h, b.base)
            &&& b.base <= word <= b.base + md_of(h, b.base).size
            &&& lo <= word <= top
        },
{
    if exists|b: u64| points_at(h, word, b) {
        let b = choose|b: u64| points_at(h, word, b);
        let i = choose|i: int| 0 <= i < h.len() && (#[trigger] h[i]).base == b && holds(h[i], word);
        lemma_index_unique(h, i);
    }
}

/// Initializing a value several times is the same as doing so once: its block
/// has one destructor.
pub proof fn law_initializing_again_changes_nothing(h: Seq<Chunk>, base: u64, vptr: u64)
    requires
        heap_wf(h),
        has_base(h, base),
        vptr <= crate::metadata::VPTR_MASK,
    ensures
        ({
            let once = with_md(h, base, BlockMetadata { drop_vptr: vptr, ..md_of(h, base) });
            with_md(once, base, BlockMetadata { drop_vptr: vptr, ..md_of(once, base) }) == once
        }),
{
    let md = BlockMetadata { drop_vptr: vptr, ..md_of(h, base) };
    let once = with_md(h, base, md);
    let i = index_of(h, base);
    lemma_index_of(h, base);
    assert(chunk_wf(h[i]));
    crate::model::lemma_with_md_wf(h, base, md);
    lemma_index_unique(once, i);
    assert(with_md(once, base, md) =~= once);
}

/// A value that was never initialized is not dropped: as long as its block has
/// the vtable of values that need no dropping, no destructor runs for it.
pub proof fn law_uninitialized_is_not_dropped(
    flags: DebugFlags,
    h: Seq<Chunk>,
    top: u64,
    world: &World,
    dummy: u64,
    i: int,
    k: int,
)
    requires
        heap_wf(h),
        0 <= i < h.len(),
        h[i].md.drop_vptr == dummy,
        0 <= k < destructors(flags, h, top, world, dummy).len(),
    ensures
        destructors(flags, h, top, world, dummy)[k].base != h[i].base,
{
    let c = coloured(flags, h, top, world);
    let p = |x: Chunk| is_dead(x) && x.md.drop_vptr != dummy;
    let f = finalizable(c, dummy);
    lemma_coloured_shape(flags, h, top, world);
    assert(f.contains(f[k]));
    lemma_filter_has(c, p, f[k]);
    let j = c.index_of(f[k]);
    lemma_index_unique(c, i);
    lemma_index_unique(c, j);
    assert(c[i].md.drop_vptr == h[i].md.drop_vptr);
}

/// The number of allocations since the last collection, once there is one
/// more, when collections are automatic.
pub open spec fn next_count(threshold: int, count: int) -> int {
    if count >= threshold {
        1
    } else {
        count + 1
    }
}

/// The number of allocations since the last collection after `n` allocations,
/// when collections are automatic.
pub open spec fn count_after(threshold: int, n: int) -> int
    decreases n,
{
    if n <= 0 {
        0
    } else {
        next_count(threshold, count_after(threshold, n - 1))
    }
}

/// The allocator counts so: a collection that is due before an allocation sets
/// the count back, and the allocation raises it by one.
pub proof fn law_allocator_counts(heap: &GcAllocator)
    requires
        heap.collector.debug_flags.automatic_collection,
    ensures
        (if heap.collector.is_due() {
            0
        } else {
            heap.collector.allocations as int
        }) + 1 == next_count(
            heap.collector.allocation_threshold as int,
            heap.collector.allocations as int,
        ),
        heap.collector.is_due() <==> heap.collector.allocations
            >= heap.collector.allocation_threshold,
{
}

/// A collection is triggered each time as many values were allocated as the
/// threshold says: the allocation after the first `n` finds a collection due
/// exactly when the threshold divides `n`.
pub proof fn law_collections_are_periodic(threshold: int, n: int)
    requires
        threshold > 0,
        n >= 0,
    ensures
        count_after(threshold, n) >= threshold <==> n > 0 && n % threshold == 0,
{
    lemma_count_after(threshold, n);
}

/// What the count is after `n` allocations.
proof fn lemma_count_after(threshold: int, n: int)
    requires
        threshold > 0,
        n >= 0,
    ensures
        count_after(threshold, n) == (if n == 0 {
            0
        } else if n % threshold == 0 {
            threshold
        } else {
            n % threshold
        }),
    decreases n,
{
    if n > 0 {
        lemma_count_after(threshold, n - 1);
        vstd::arithmetic::div_mod::lemma_fundamental_div_mod(n - 1, threshold);
        let q = (n - 1) / threshold;
        let r = (n - 1) % threshold;
        if r + 1 < threshold {
            assert(n == q * threshold + (r + 1)) by (nonlinear_arith)
                requires
                    n - 1 == threshold * q + r,
            ;
            vstd::arithmetic::div_mod::lemma_fundamental_div_mod_converse(
                n,
                threshold,
                q,
                r + 1,
            );
        } else {
            assert(n == (q + 1) * threshold + 0) by (nonlinear_arith)
                requires
                    n - 1 == threshold * q + r,
                    r + 1 == threshold,
            ;
            vstd::arithmetic::div_mod::lemma_fundamental_div_mod_converse(
                n,
                threshold,
                q + 1,
                0,
            );
        }
        if n - 1 == 0 {
            vstd::arithmetic::div_mod::lemma_small_mod(0, threshold as nat);
        }
    }
}

/// Every word of the stack and of the statics keeps alive what it points into: a
/// block is reachable when the word at some eighth address of the stack or of the
/// data segment is an address of the block, or one past its end.
pub proof fn law_stack_and_statics_keep_alive(
    heap: &GlobalAllocator,
    world: &World,
    i: int,
    a: u64,
)
    requires
        heap.wf(),
        0 <= i < heap@.len(),
        world.rsp <= a < world.stack_start && (a - world.rsp) % 8 == 0 || world.data_segment_start
            <= a < world.data_segment_end && (a - world.data_segment_start) % 8 == 0,
        world.data_segment_end <= world.memory@[a],
        heap@[i].base <= world.memory@[a] <= heap@[i].base + heap@[i].md.size,
    ensures
        reachable(heap@, heap.top(), world, heap@[i].base),
{
    heap.lemma_heap_wf();
    assert(chunk_end(heap@[i]) <= heap.top());
    lemma_root_is_reachable(heap@, heap.top(), world, i, a);
}

/// Where a root stands, its block can be reached.
proof fn lemma_root_is_reachable(h: Seq<Chunk>, top: u64, world: &World, i: int, a: u64)
    requires
        heap_wf(h),
        0 <= i < h.len(),
        world.rsp <= a < world.stack_start && (a - world.rsp) % 8 == 0 || world.data_segment_start
            <= a < world.data_segment_end && (a - world.data_segment_start) % 8 == 0,
        world.data_segment_end <= world.memory@[a] <= top,
        h[i].base <= world.memory@[a] <= h[i].base + h[i].md.size,
    ensures
        hits(world_graph(h, top, world), world.root_words()).contains(Block { base: h[i].base }),
        reachable(h, top, world, h[i].base),
{
    let g = world_graph(h, top, world);
    let ws = world.root_words();
    crate::memory::law_roots_are_the_stack_and_the_statics(world);
    assert(ws.contains(world.memory@[a]));
    let k = ws.index_of(world.memory@[a]);
    crate::allocator::law_word_finds_what_it_points_at(h, g.lo, top, ws[k], i);
    lemma_hits_contain(g, ws, k, Block { base: h[i].base });
    let p = seq![h[i].base];
    assert(heap_path(h, top, world, p));
    assert(p.last() == h[i].base);
}

/// Every word of a reachable block keeps alive what it points into, whether the
/// blocks are collected or not: the word at the start of the block, and at every
/// eighth address behind it up to its end.
pub proof fn law_reachable_blocks_keep_alive(
    heap: &GlobalAllocator,
    world: &World,
    i: int,
    j: int,
    a: u64,
)
    requires
        heap.wf(),
        0 <= i < heap@.len(),
        0 <= j < heap@.len(),
        reachable(heap@, heap.top(), world, heap@[i].base),
        heap@[i].base <= a < heap@[i].base + heap@[i].md.size,
        (a - heap@[i].base) % 8 == 0,
        world.data_segment_end <= world.memory@[a],
        heap@[j].base <= world.memory@[a] <= heap@[j].base + heap@[j].md.size,
    ensures
        reachable(heap@, heap.top(), world, heap@[j].base),
{
    let h = heap@;
    let top = heap.top();
    let g = world_graph(h, top, world);
    heap.lemma_heap_wf();
    assert(chunk_end(h[j]) <= top);
    assert(g.lo <= g.mem[a] <= g.top);
    crate::marking::law_block_refers(g, i, j);
    let p = choose|p: Seq<u64>| #[trigger] heap_path(h, top, world, p) && p.last() == h[i].base;
    let q = p.push(h[j].base);
    assert forall|n: int| 0 <= n < q.len() - 1 implies refers(g, #[trigger] q[n], q[n + 1]) by {
        if n < p.len() - 1 {
            assert(q[n] == p[n] && q[n + 1] == p[n + 1]);
        } else {
            assert(q[n] == h[i].base && q[n + 1] == h[j].base);
        }
    }
    assert(q[0] == p[0]);
    assert(heap_path(h, top, world, q));
    assert(q.last() == h[j].base);
}

/// Nothing else is reachable: what is reachable is in every set of addresses that
/// holds the blocks that the stack and the statics point into, and with a block
/// all that its words point into.
pub proof fn law_reachable_is_least(
    h: Seq<Chunk>,
    top: u64,
    world: &World,
    s: Set<u64>,
    base: u64,
)
    requires
        heap_wf(h),
        reachable(h, top, world, base),
        forall|k: int, a: u64|
            0 <= k < h.len() && (world.rsp <= a < world.stack_start && (a - world.rsp) % 8 == 0
                || world.data_segment_start <= a < world.data_segment_end && (a
                - world.data_segment_start) % 8 == 0) && world.data_segment_end
                <= #[trigger] world.memory@[a] <= top && h[k].base <= world.memory@[a]
                <= h[k].base + h[k].md.size ==> s.contains((#[trigger] h[k]).base),
        forall|k: int, l: int, a: u64|
            0 <= k < h.len() && 0 <= l < h.len() && s.contains((#[trigger] h[k]).base)
                && h[k].base <= a < h[k].base + h[k].md.size && (a - h[k].base) % 8 == 0
                && world.data_segment_end <= #[trigger] world.memory@[a] <= top && h[l].base
                <= world.memory@[a] <= h[l].base + h[l].md.size ==> s.contains(
                (#[trigger] h[l]).base,
            ),
    ensures
        s.contains(base),
{
    let p = choose|p: Seq<u64>| #[trigger] heap_path(h, top, world, p) && p.last() == base;
    lemma_path_is_in(h, top, world, s, p, p.len() - 1);
}

/// Every block on a path is in such a set.
proof fn lemma_path_is_in(
    h: Seq<Chunk>,
    top: u64,
    world: &World,
    s: Set<u64>,
    p: Seq<u64>,
    n: int,
)
    requires
        heap_wf(h),
        heap_path(h, top, world, p),
        0 <= n < p.len(),
        forall|k: int, a: u64|
            0 <= k < h.len() && (world.rsp <= a < world.stack_start && (a - world.rsp) % 8 == 0
                || world.data_segment_start <= a < world.data_segment_end && (a
                - world.data_segment_start) % 8 == 0) && world.data_segment_end
                <= #[trigger] world.memory@[a] <= top && h[k].base <= world.memory@[a]
                <= h[k].base + h[k].md.size ==> s.contains((#[trigger] h[k]).base),
        forall|k: int, l: int, a: u64|
            0 <= k < h.len() && 0 <= l < h.len() && s.contains((#[trigger] h[k]).base)
                && h[k].base <= a < h[k].base + h[k].md.size && (a - h[k].base) % 8 == 0
                && world.data_segment_end <= #[trigger] world.memory@[a] <= top && h[l].base
                <= world.memory@[a] <= h[l].base + h[l].md.size ==> s.contains(
                (#[trigger] h[l]).base,
            ),
    ensures
        s.contains(p[n]),
    decreases n,
{
    let g = world_graph(h, top, world);
    lemma_path_blocks(h, top, world, p, n);
    let l = index_of(h, p[n]);
    lemma_index_of(h, p[n]);
    if n == 0 {
        let a = lemma_root_address(h, top, world, l);
        assert(world.data_segment_end <= world.memory@[a] <= top);
    } else {
        lemma_path_is_in(h, top, world, s, p, n - 1);
        lemma_path_blocks(h, top, world, p, n - 1);
        let k = index_of(h, p[n - 1]);
        lemma_index_of(h, p[n - 1]);
        assert(refers(g, p[n - 1], p[n - 1 + 1]));
        crate::marking::law_block_refers(g, k, l);
        let a = choose|a: u64|
            g.blocks[k].base <= a < g.blocks[k].base + g.blocks[k].md.size && (a
                - g.blocks[k].base) % 8 == 0 && g.lo <= #[trigger] g.mem[a] <= g.top
                && g.blocks[l].base <= g.mem[a] <= g.blocks[l].base + g.blocks[l].md.size;
        assert(world.data_segment_end <= world.memory@[a] <= top);
        assert(s.contains(h[k].base));
    }
}

/// Where the root stands that points into a block.
proof fn lemma_root_address(h: Seq<Chunk>, top: u64, world: &World, i: int) -> (a: u64)
    requires
        heap_wf(h),
        0 <= i < h.len(),
        hits(world_graph(h, top, world), world.root_words()).contains(Block { base: h[i].base }),
    ensures
        (world.rsp <= a < world.stack_start && (a - world.rsp) % 8 == 0 || world.data_segment_start
            <= a < world.data_segment_end && (a - world.data_segment_start) % 8 == 0),
        world.data_segment_end <= world.memory@[a] <= top,
        h[i].base <= world.memory@[a] <= h[i].base + h[i].md.size,
{
    let g = world_graph(h, top, world);
    let k = lemma_hits_word(g, world.root_words(), Block { base: h[i].base });
    crate::allocator::law_word_finds_what_it_points_at(h, g.lo, top, world.root_words()[k], i);
    crate::memory::law_nothing_else_is_a_root(world, k)
}

/// Up to the sweep phase, a collection changes nothing but colours. Without a
/// mark phase, all blocks are white if there was a preparation phase, and as they
/// were if there was none. With one, no block turns white that was black when
/// marking started.
pub proof fn law_colours(flags: DebugFlags, h: Seq<Chunk>, top: u64, world: &World, i: int)
    requires
        0 <= i < h.len(),
    ensures
        coloured(flags, h, top, world).len() == h.len(),
        ({
            let (c, d) = (h[i], coloured(flags, h, top, world)[i]);
            &&& d.base == c.base
            &&& d.region == c.region
            &&& d.md.size == c.md.size
            &&& d.md.is_gc == c.md.is_gc
            &&& d.md.drop_vptr == c.md.drop_vptr
            &&& !flags.mark_phase ==> d.md.mark_bit == (!flags.prep_phase && c.md.mark_bit)
            &&& !flags.prep_phase && c.md.mark_bit ==> d.md.mark_bit
        }),
{
}

/// Marking blackens every block that a word of the stack or of the statics points
/// into, or one past the end of.
pub proof fn law_roots_turn_black(
    flags: DebugFlags,
    h: Seq<Chunk>,
    top: u64,
    world: &World,
    i: int,
    a: u64,
)
    requires
        heap_wf(h),
        flags.mark_phase,
        0 <= i < h.len(),
        (world.rsp <= a < world.stack_start && (a - world.rsp) % 8 == 0 || world.data_segment_start
            <= a < world.data_segment_end && (a - world.data_segment_start) % 8 == 0),
        world.data_segment_end <= world.memory@[a] <= top,
        h[i].base <= world.memory@[a] <= h[i].base + h[i].md.size,
    ensures
        coloured(flags, h, top, world)[i].md.mark_bit,
{
    let m = if flags.prep_phase {
        whitened(h)
    } else {
        h
    };
    lemma_same_shape(h, m);
    let g = world_graph(m, top, world);
    lemma_root_is_reachable(m, top, world, i, a);
    crate::marking::law_marking_is_closed(g, hits(g, world.root_words()), i, i, a);
}

/// Marking blackens every block that a word of a block points into, or one past
/// the end of, if it has blackened that block itself.
pub proof fn law_black_spreads(
    flags: DebugFlags,
    h: Seq<Chunk>,
    top: u64,
    world: &World,
    i: int,
    j: int,
    a: u64,
)
    requires
        heap_wf(h),
        flags.mark_phase,
        0 <= i < h.len(),
        0 <= j < h.len(),
        coloured(flags, h, top, world)[i].md.mark_bit,
        flags.prep_phase || !h[i].md.mark_bit,
        h[i].base <= a < h[i].base + h[i].md.size,
        (a - h[i].base) % 8 == 0,
        world.data_segment_end <= world.memory@[a] <= top,
        h[j].base <= world.memory@[a] <= h[j].base + h[j].md.size,
    ensures
        coloured(flags, h, top, world)[j].md.mark_bit,
{
    let m = if flags.prep_phase {
        whitened(h)
    } else {
        h
    };
    lemma_same_shape(h, m);
    let g = world_graph(m, top, world);
    crate::marking::law_marking_is_closed(g, hits(g, world.root_words()), i, j, a);
}

/// Marking blackens nothing that it does not have to: what it blackens is in every
/// set of addresses that holds the blocks that the stack and the statics point
/// into, and with a block that was white when marking started all that its words
/// point into.
pub proof fn law_nothing_else_turns_black(
    flags: DebugFlags,
    h: Seq<Chunk>,
    top: u64,
    world: &World,
    s: Set<u64>,
    i: int,
)
    requires
        heap_wf(h),
        flags.mark_phase,
        0 <= i < h.len(),
        coloured(flags, h, top, world)[i].md.mark_bit,
        flags.prep_phase || !h[i].md.mark_bit,
        forall|k: int, a: u64|
            0 <= k < h.len() && (world.rsp <= a < world.stack_start && (a - world.rsp) % 8 == 0
                || world.data_segment_start <= a < world.data_segment_end && (a
                - world.data_segment_start) % 8 == 0) && world.data_segment_end
                <= #[trigger] world.memory@[a] <= top && h[k].base <= world.memory@[a]
                <= h[k].base + h[k].md.size ==> s.contains((#[trigger] h[k]).base),
        forall|k: int, l: int, a: u64|
            0 <= k < h.len() && 0 <= l < h.len() && s.contains((#[trigger] h[k]).base) && (
            flags.prep_phase || !h[k].md.mark_bit) && h[k].base <= a < h[k].base + h[k].md.size
                && (a - h[k].base) % 8 == 0 && world.data_segment_end
                <= #[trigger] world.memory@[a] <= top && h[l].base <= world.memory@[a]
                <= h[l].base + h[l].md.size ==> s.contains((#[trigger] h[l]).base),
    ensures
        s.contains(h[i].base),
{
    let m = if flags.prep_phase {
        whitened(h)
    } else {
        h
    };
    lemma_same_shape(h, m);
    let g = world_graph(m, top, world);
    let roots = hits(g, world.root_words());
    assert forall|k: int|
        0 <= k < g.blocks.len() && roots.contains(
            Block { base: (#[trigger] g.blocks[k]).base },
        ) implies s.contains(g.blocks[k].base) by {
        let a = lemma_root_address(m, top, world, k);
        assert(world.data_segment_end <= world.memory@[a] <= top);
        assert(h[k].base == m[k].base);
    }
    assert forall|k: int, l: int, a: u64|
        0 <= k < g.blocks.len() && 0 <= l < g.blocks.len() && s.contains(
            (#[trigger] g.blocks[k]).base,
        ) && !g.blocks[k].md.mark_bit && g.blocks[k].base <= a < g.blocks[k].base
            + g.blocks[k].md.size && (a - g.blocks[k].base) % 8 == 0 && g.lo
            <= #[trigger] g.mem[a] <= g.top && g.blocks[l].base <= g.mem[a] <= g.blocks[l].base
            + g.blocks[l].md.size implies s.contains((#[trigger] g.blocks[l]).base) by {
        assert(h[k].base == m[k].base && h[l].base == m[l].base);
        assert(world.data_segment_end <= world.memory@[a] <= top);
    }
    crate::marking::law_marking_is_least(g, roots, s, i);
}

/// What the sweep and drop phases make of a heap whose blocks are coloured: the
/// white collected blocks go, the others stay in their order. Those of the white
/// ones whose vtable is `dummy` go at once, newest first; the others wait in the
/// drop queue, newest first, so that the last of the queue is the oldest. Without
/// a sweep phase nothing goes.
pub proof fn law_white_collected_blocks_go(
    flags: DebugFlags,
    h: Seq<Chunk>,
    top: u64,
    world: &World,
    dummy: u64,
)
    ensures
        ({
            let c = coloured(flags, h, top, world);
            let plain = c.filter(
                |x: Chunk| x.md.is_gc && !x.md.mark_bit && x.md.drop_vptr == dummy,
            );
            let doomed = c.filter(
                |x: Chunk| x.md.is_gc && !x.md.mark_bit && x.md.drop_vptr != dummy,
            );
            let queue = to_drop(flags, h, top, world, dummy);
            let freed = freed_at_once(flags, h, top, world, dummy);
            let ran = destructors(flags, h, top, world, dummy);
            &&& !flags.sweep_phase ==> {
                &&& collected(flags, h, top, world) == c
                &&& after_sweep(flags, h, top, world, dummy) == c
                &&& queue.len() == 0
                &&& freed.len() == 0
                &&& ran.len() == 0
            }
            &&& flags.sweep_phase ==> {
                &&& collected(flags, h, top, world) == c.filter(
                    |x: Chunk| x.md.is_gc ==> x.md.mark_bit,
                )
                &&& after_sweep(flags, h, top, world, dummy) == c.filter(
                    |x: Chunk| x.md.is_gc && x.md.drop_vptr == dummy ==> x.md.mark_bit,
                )
                &&& queue.len() == doomed.len()
                &&& freed.len() == plain.len()
                &&& ran.len() == doomed.len()
                &&& forall|k: int|
                    0 <= k < doomed.len() ==> (#[trigger] doomed[k]).base == queue[doomed.len() - 1
                        - k].base
                &&& forall|k: int|
                    0 <= k < plain.len() ==> (#[trigger] plain[k]).region == freed[plain.len() - 1
                        - k]
                &&& forall|k: int|
                    0 <= k < doomed.len() ==> {
                        &&& ran[k].base == (#[trigger] doomed[k]).base
                        &&& ran[k].vptr == doomed[k].md.drop_vptr
                        &&& ran[k].runs == !doomed[k].md.mark_bit
                    }
            }
        }),
{
    let c = coloured(flags, h, top, world);
    if flags.sweep_phase {
        lemma_filter_congruent(
            c,
            |x: Chunk| !is_dead(x),
            |x: Chunk| x.md.is_gc ==> x.md.mark_bit,
        );
        lemma_filter_congruent(
            c,
            |x: Chunk| !(is_dead(x) && x.md.drop_vptr == dummy),
            |x: Chunk| x.md.is_gc && x.md.drop_vptr == dummy ==> x.md.mark_bit,
        );
        lemma_filter_congruent(
            c,
            |x: Chunk| is_dead(x) && x.md.drop_vptr == dummy,
            |x: Chunk| x.md.is_gc && !x.md.mark_bit && x.md.drop_vptr == dummy,
        );
        lemma_filter_congruent(
            c,
            |x: Chunk| is_dead(x) && x.md.drop_vptr != dummy,
            |x: Chunk| x.md.is_gc && !x.md.mark_bit && x.md.drop_vptr != dummy,
        );
    }
}

/// The blocks in a drop queue can be dropped when each of them is on the heap, is
/// collected and has a vtable, and none is queued twice. Dropping them, the last
/// in the queue first, takes exactly them away, in any order, and runs the
/// destructor of each once: that of the last in the queue first.
pub proof fn law_dropping_takes_the_queue_away(h: Seq<Chunk>, queue: Seq<Block>, i: int, k: int)
    requires
        heap_wf(h),
        droppable(h, queue),
        0 <= i < h.len(),
        0 <= k < queue.len(),
        h[i].base == queue[k].base,
    ensures
        h[i].md.is_gc,
        h[i].md.drop_vptr != 0,
        forall|l: int| 0 <= l < queue.len() && l != k ==> (#[trigger] queue[l]).base != h[i].base,
        dropped(h, queue) == h.filter(|c: Chunk| !queue.contains(Block { base: c.base })),
        drop_order(h, queue).len() == queue.len(),
        ({
            let f = drop_order(h, queue)[queue.len() - 1 - k];
            &&& f.base == h[i].base
            &&& f.vptr == h[i].md.drop_vptr
            &&& f.runs == !h[i].md.mark_bit
        }),
{
    let n = queue.len() as int;
    lemma_index_unique(h, i);
    assert(has_base(h, queue[k].base));
    assert forall|l: int| 0 <= l < queue.len() && l != k implies (#[trigger] queue[l]).base
        != h[i].base by {
        assert(queue[l] != queue[k]);
    }
    assert(queue.skip(n) =~= Seq::<Block>::empty());
    assert(queue.take(n) =~= queue);
    crate::garbage::lemma_without_none(h);
    crate::garbage::lemma_dropped(h, queue, n);
    assert(queue[n - 1 - (n - 1 - k)] == queue[k]);
}

/// Every block in a drop queue that can be dropped is on the heap.
pub proof fn law_queued_blocks_are_there(h: Seq<Chunk>, queue: Seq<Block>, k: int)
    requires
        droppable(h, queue),
        0 <= k < queue.len(),
    ensures
        exists|i: int| 0 <= i < h.len() && (#[trigger] h[i]).base == queue[k].base,
{
    assert(has_base(h, queue[k].base));
    lemma_index_of(h, queue[k].base);
}

/// A full collection of a heap, its drop phase included, leaves exactly the blocks
/// that are not collected or can be reached, in their order. Those that can be
/// reached are black, the others white, and nothing else of them has changed.
pub proof fn law_full_collection(flags: DebugFlags, h: Seq<Chunk>, top: u64, world: &World)
    requires
        heap_wf(h),
        flags.prep_phase,
        flags.mark_phase,
        flags.sweep_phase,
    ensures
        collected(flags, h, top, world) == Seq::new(
            h.len(),
            |i: int|
                Chunk {
                    base: h[i].base,
                    md: BlockMetadata {
                        size: h[i].md.size,
                        is_gc: h[i].md.is_gc,
                        mark_bit: reachable(h, top, world, h[i].base),
                        drop_vptr: h[i].md.drop_vptr,
                    },
                    region: h[i].region,
                },
        ).filter(|c: Chunk| !c.md.is_gc || c.md.mark_bit),
{
    let c = coloured(flags, h, top, world);
    let want = Seq::new(
        h.len(),
        |i: int|
            Chunk {
                base: h[i].base,
                md: BlockMetadata {
                    size: h[i].md.size,
                    is_gc: h[i].md.is_gc,
                    mark_bit: reachable(h, top, world, h[i].base),
                    drop_vptr: h[i].md.drop_vptr,
                },
                region: h[i].region,
            },
    );
    assert forall|i: int| 0 <= i < h.len() implies c[i] == #[trigger] want[i] by {
        law_black_is_reachable(flags, h, top, world, i);
    }
    assert(c =~= want);
    lemma_filter_congruent(c, |x: Chunk| !is_dead(x), |x: Chunk| !x.md.is_gc || x.md.mark_bit);
}

/// A collection is due exactly when it may start by itself and at least as many
/// values were allocated since the last one as the threshold says.
pub proof fn law_when_a_collection_is_due(collector: &crate::collector::Collector)
    ensures
        collector.is_due() <==> collector.debug_flags.automatic_collection
            && collector.allocations >= collector.allocation_threshold,
        collector.queue() == collector.drop_queue@,
        collector.wf() <==> collector.drop_queue@.len() == 0,
{
    if collector.drop_queue@.len() == 0 {
        assert(collector.queue() =~= Seq::<Block>::empty());
    }
}

/// A collection can take place when marking, if it does, finds the words of the
/// stack, of the statics and of every block, and sweeping, if it does, a vtable in
/// every collected block.
pub proof fn law_what_a_collection_needs(flags: DebugFlags, h: Seq<Chunk>, world: &World)
    requires
        heap_wf(h),
    ensures
        crate::collector::can_collect(flags, h, world) <==> {
            &&& flags.mark_phase ==> {
                &&& forall|a: u64| (world.rsp <= a < world.stack_start && (a - world.rsp) % 8 == 0
                    || world.data_segment_start <= a < world.data_segment_end && (a
                    - world.data_segment_start) % 8 == 0) ==> #[trigger] world.memory@.contains_key(a)
                &&& forall|i: int, a: u64|
                    0 <= i < h.len() && h[i].base <= a < h[i].base + h[i].md.size && (a
                        - (#[trigger] h[i]).base) % 8 == 0 ==> #[trigger] world.memory@.contains_key(
                        a,
                    )
            }
            &&& flags.sweep_phase ==> forall|i: int|
                0 <= i < h.len() && (#[trigger] h[i]).md.is_gc ==> h[i].md.drop_vptr != 0
        },
{
    let mem = world.memory@;
    crate::memory::law_roots_are_the_stack_and_the_statics(world);
    if crate::collector::can_collect(flags, h, world) && flags.mark_phase {
        assert forall|i: int, a: u64|
            0 <= i < h.len() && h[i].base <= a < h[i].base + h[i].md.size && (a
                - (#[trigger] h[i]).base) % 8 == 0 implies #[trigger] mem.contains_key(a) by {
            crate::marking::law_blocks_are_covered(mem, h, i, a);
        }
    }
    if forall|i: int, a: u64|
        0 <= i < h.len() && h[i].base <= a < h[i].base + h[i].md.size && (a - (
        #[trigger] h[i]).base) % 8 == 0 ==> #[trigger] mem.contains_key(a) {
        assert forall|i: int| 0 <= i < h.len() implies crate::memory::covers(
            mem,
            (#[trigger] h[i]).base,
            chunk_end(h[i]) as u64,
        ) by {
            assert(chunk_wf(h[i]));
            crate::memory::law_covered_means_known(mem, h[i].base, chunk_end(h[i]) as u64);
        }
    }
}

/// When a collection has started, the marking and the sweep phase are over. Nothing
/// but the heap and the drop queue has changed.
pub proof fn law_started_collection(
    was: &GcAllocator,
    now: &GcAllocator,
    freed: Seq<Region>,
    world: &World,
)
    requires
        was.has_started(now, freed, world),
    ensures
        ({
            let flags = was.collector.debug_flags;
            let (h, top, dummy) = (was.heap@, was.heap.top(), was.dummy_vptr);
            &&& now.heap@ == after_sweep(flags, h, top, world, dummy)
            &&& now.collector.drop_queue@ == to_drop(flags, h, top, world, dummy)
            &&& freed == freed_at_once(flags, h, top, world, dummy)
        }),
        now.heap.wf(),
        droppable(now.heap@, now.collector.drop_queue@),
        now.phase == crate::collector::CollectorPhase::Finalization,
        now.heap.top() == was.heap.top(),
        now.collector.debug_flags == was.collector.debug_flags,
        now.collector.allocation_threshold == was.collector.allocation_threshold,
        now.collector.allocations == was.collector.allocations,
        now.dummy_vptr == was.dummy_vptr,
{
}

/// The allocator is ready when its heap is well formed, no block awaits
/// destruction and no collection takes place, and settled when every collected
/// block has a vtable.
pub proof fn law_ready_and_settled(heap: &GcAllocator)
    ensures
        heap.wf() <==> heap.heap.wf() && 0 < heap.dummy_vptr < 0x8000_0000_0000_0000,
        heap.ready() <==> heap.wf() && heap.collector.drop_queue@.len() == 0 && heap.phase
            == crate::collector::CollectorPhase::Ready,
        heap.dropping() <==> heap.wf() && heap.phase
            == crate::collector::CollectorPhase::Finalization && droppable(
            heap.heap@,
            heap.collector.drop_queue@,
        ),
        heap.settled() <==> forall|i: int|
            0 <= i < heap.heap@.len() && (#[trigger] heap.heap@[i]).md.is_gc
                ==> heap.heap@[i].md.drop_vptr != 0,
{
    law_when_a_collection_is_due(&heap.collector);
}

/// Whatever its layout, the block that is entered for a collected value is
/// collected and white, is as large as the layout says, has the vtable that it was
/// given, and is in the memory that it was given.
pub proof fn law_new_block_is_collected(base: u64, layout: Layout, drop_vptr: u64, raw: u64)
    ensures
        ({
            let c = crate::gcalloc::fresh_chunk(base, layout, drop_vptr, raw);
            &&& c.base == base
            &&& c.md.is_gc
            &&& !c.md.mark_bit
            &&& c.md.drop_vptr == drop_vptr
            &&& layout.size < 0x4000_0000_0000_0000 ==> c.md.size == layout.size
            &&& c.region.raw == raw
            &&& c.region.layout == block_layout(layout)
        }),
{
    let size = layout.size;
    assert(size < 0x4000_0000_0000_0000u64 ==> size & 0x3fff_ffff_ffff_ffffu64 == size)
        by (bit_vector);
}

/// A collected value that was just allocated, and to whose block no word of the
/// stack, of the statics or of a block points, does not survive a full
/// collection, whatever its layout.
pub proof fn law_new_garbage_goes(
    flags: DebugFlags,
    h: Seq<Chunk>,
    top: u64,
    world: &World,
    base: u64,
    layout: Layout,
    drop_vptr: u64,
    raw: u64,
    dummy: u64,
)
    requires
        flags.prep_phase,
        flags.mark_phase,
        flags.sweep_phase,
        heap_wf(h.push(crate::gcalloc::fresh_chunk(base, layout, drop_vptr, raw))),
        !reachable(
            h.push(crate::gcalloc::fresh_chunk(base, layout, drop_vptr, raw)),
            top,
            world,
            base,
        ),
    ensures
        ({
            let all = h.push(crate::gcalloc::fresh_chunk(base, layout, drop_vptr, raw));
            &&& forall|k: int|
                0 <= k < collected(flags, all, top, world).len() ==> (#[trigger] collected(
                    flags,
                    all,
                    top,
                    world,
                )[k]).base != base
            &&& drop_vptr != dummy ==> destructors(flags, all, top, world, dummy).contains(
                Finalizer { base, vptr: drop_vptr, runs: true },
            )
            &&& drop_vptr == dummy ==> freed_at_once(flags, all, top, world, dummy).contains(
                Region { raw, layout: block_layout(layout) },
            )
        }),
{
    let all = h.push(crate::gcalloc::fresh_chunk(base, layout, drop_vptr, raw));
    let i = h.len() as int;
    law_new_block_is_collected(base, layout, drop_vptr, raw);
    assert(all[i] == crate::gcalloc::fresh_chunk(base, layout, drop_vptr, raw));
    law_black_is_reachable(flags, all, top, world, i);
    law_unreachable_goes(flags, all, top, world, i);
    law_dead_block_is_handed_over(flags, all, top, world, dummy, i);
    let s = collected(flags, all, top, world);
    assert forall|k: int| 0 <= k < s.len() implies (#[trigger] s[k]).base != base by {
        assert(!has_base(s, base));
    }
}

/// A drop queue can be dropped as soon as its blocks are on the heap, collected
/// and with a vtable each, and no two are the same, however many they are.
pub proof fn law_what_can_be_dropped(h: Seq<Chunk>, queue: Seq<Block>, at: Seq<int>)
    requires
        heap_wf(h),
        at.len() == queue.len(),
        forall|k: int|
            0 <= k < at.len() ==> {
                &&& 0 <= #[trigger] at[k] < h.len()
                &&& h[at[k]].base == queue[k].base
                &&& h[at[k]].md.is_gc
                &&& h[at[k]].md.drop_vptr != 0
            },
        forall|k: int, l: int|
            0 <= k < at.len() && 0 <= l < at.len() && k != l ==> #[trigger] at[k]
                != #[trigger] at[l],
    ensures
        droppable(h, queue),
{
    assert forall|k: int| 0 <= k < queue.len() implies {
        &&& has_base(h, (#[trigger] queue[k]).base)
        &&& md_of(h, queue[k].base).is_gc
        &&& md_of(h, queue[k].base).drop_vptr != 0
    } by {
        assert(0 <= at[k] < h.len());
        lemma_index_unique(h, at[k]);
    }
    assert forall|k: int, l: int|
        0 <= k < queue.len() && 0 <= l < queue.len() && k != l implies queue[k] != queue[l] by {
        assert(at[k] != at[l]);
        lemma_index_unique(h, at[k]);
        lemma_index_unique(h, at[l]);
    }
}

} // verus!
