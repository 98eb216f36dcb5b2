//! The mark phase: a transitive closure over the object graph.
use crate::allocator::{found, Block, GlobalAllocator};
use crate::cache::{identified, AllocCache};
use crate::gc::Colour;
use crate::gcvec::GcVec;
use crate::memory::{covers, word_address, word_count, words, Memory};
use crate::metadata::BlockMetadata;
use crate::model::{
    chunk_end, chunk_wf, has_base, heap_wf, holds, index_of, lemma_block_at, lemma_index_of,
    lemma_index_unique, md_of, points_at, with_md, Chunk, WORD_SIZE,
};
use vstd::prelude::*;

verus! {

/// Contains data expected to last for the duration of a single collection
/// cycle.
pub struct CollectionCtxt {
    /// The allocation cache is a freeze-frame of all block pointers in use.
    pub allocation_cache: AllocCache,
    /// Where the data segment, which holds the statics, starts.
    pub data_segment_start: u64,
    /// Where the data segment ends and the heap starts.
    pub data_segment_end: u64,
}

impl CollectionCtxt {
    /// The block that `word` is a potential pointer to.
    pub fn find(&self, word: u64, heap: &GlobalAllocator) -> (r: Option<Block>)
        requires
            heap.wf(),
            self.allocation_cache.snapshot_of(heap@),
        ensures
            r == found(heap@, self.data_segment_end, heap.top(), word),
    {
        if !(word >= self.data_segment_end && word <= heap.heap_top()) {
            return None;
        }
        self.allocation_cache.find(word, heap)
    }
}

/// The heap as pointers are looked up in it.
pub struct Graph {
    /// The blocks.
    pub blocks: Seq<Chunk>,
    /// The lowest address of the heap.
    pub lo: u64,
    /// The highest address of the heap.
    pub top: u64,
    /// The words in memory.
    pub mem: Map<u64, u64>,
}

/// The blocks that a sequence of words points at, in the order of the words.
pub open spec fn hits(g: Graph, ws: Seq<u64>) -> Seq<Block>
    decreases ws.len(),
{
    if ws.len() == 0 {
        Seq::empty()
    } else {
        match found(g.blocks, g.lo, g.top, ws.last()) {
            Some(block) => hits(g, ws.drop_last()).push(block),
            None => hits(g, ws.drop_last()),
        }
    }
}

/// The words of a block.
pub open spec fn contents(g: Graph, base: u64) -> Seq<u64> {
    words(g.mem, base, (base + md_of(g.blocks, base).size) as u64)
}

/// Does the block at `a` hold a potential pointer to the block at `b`?
pub open spec fn refers(g: Graph, a: u64, b: u64) -> bool {
    hits(g, contents(g, a)).contains(Block { base: b })
}

/// Is there a block at this address, and is it white?
pub open spec fn is_white(g: Graph, base: u64) -> bool {
    has_base(g.blocks, base) && !md_of(g.blocks, base).mark_bit
}

/// A path from one of the roots through white blocks only.
pub open spec fn white_path(g: Graph, roots: Seq<Block>, p: Seq<u64>) -> bool {
    &&& p.len() > 0
    &&& roots.contains(Block { base: p[0] })
    &&& forall|i: int| 0 <= i < p.len() ==> is_white(g, #[trigger] p[i])
    &&& forall|i: int| 0 <= i < p.len() - 1 ==> refers(g, #[trigger] p[i], p[i + 1])
}

/// Can a block be reached from one of the roots through white blocks?
pub open spec fn reached(g: Graph, roots: Seq<Block>, base: u64) -> bool {
    exists|p: Seq<u64>| #[trigger] white_path(g, roots, p) && p.last() == base
}

/// The heap once every block that can be reached from one of the roots through
/// white blocks is black.
pub open spec fn marked(g: Graph, roots: Seq<Block>) -> Seq<Chunk> {
    Seq::new(
        g.blocks.len(),
        |i: int|
            Chunk {
                md: BlockMetadata {
                    mark_bit: g.blocks[i].md.mark_bit || reached(g, roots, g.blocks[i].base),
                    ..g.blocks[i].md
                },
                ..g.blocks[i]
            },
    )
}

/// Two heaps that differ in the colours of their blocks only.
pub open spec fn same_shape(h: Seq<Chunk>, g: Seq<Chunk>) -> bool {
    &&& h.len() == g.len()
    &&& forall|i: int|
        0 <= i < h.len() ==> (#[trigger] h[i]).base == g[i].base && g[i].md == (BlockMetadata {
            mark_bit: g[i].md.mark_bit,
            ..h[i].md
        }) && g[i].region == h[i].region
}

/// The number of white blocks.
spec fn white_count(h: Seq<Chunk>) -> nat
    decreases h.len(),
{
    if h.len() == 0 {
        0
    } else {
        white_count(h.drop_last()) + (if h.last().md.mark_bit {
            0nat
        } else {
            1nat
        })
    }
}

/// Blackening a white block leaves one white block less.
proof fn lemma_white_count(h: Seq<Chunk>, i: int, c: Chunk)
    requires
        0 <= i < h.len(),
        !h[i].md.mark_bit,
        c.md.mark_bit,
    ensures
        white_count(h.update(i, c)) == white_count(h) - 1,
    decreases h.len(),
{
    let r = h.update(i, c);
    if i == h.len() - 1 {
        assert(r.drop_last() =~= h.drop_last());
    } else {
        lemma_white_count(h.drop_last(), i, c);
        assert(r.drop_last() =~= h.drop_last().update(i, c));
    }
}

/// Heaps of the same shape have their blocks at the same positions.
pub proof fn lemma_same_shape(h: Seq<Chunk>, g: Seq<Chunk>)
    requires
        same_shape(h, g),
        heap_wf(h),
    ensures
        heap_wf(g),
        forall|b: u64| has_base(h, b) == has_base(g, b),
        forall|b: u64|
            has_base(h, b) ==> index_of(h, b) == index_of(g, b) && md_of(g, b).size == md_of(
                h,
                b,
            ).size,
        forall|w: u64, b: u64| points_at(h, w, b) == points_at(g, w, b),
        forall|lo: u64, top: u64, w: u64| found(h, lo, top, w) == found(g, lo, top, w),
{
    assert forall|i: int| 0 <= i < g.len() implies chunk_wf(#[trigger] g[i]) by {
        assert(chunk_wf(h[i]));
    }
    assert forall|i: int, j: int| 0 <= i < g.len() && 0 <= j < g.len() && i != j implies
        crate::model::apart(#[trigger] g[i], #[trigger] g[j]) by {
        assert(crate::model::apart(h[i], h[j]));
    }
    assert forall|b: u64| has_base(h, b) == has_base(g, b) by {
        if has_base(h, b) {
            assert(g[index_of(h, b)].base == b);
        }
        if has_base(g, b) {
            assert(h[index_of(g, b)].base == b);
        }
    }
    assert forall|b: u64| has_base(h, b) implies index_of(h, b) == index_of(g, b) && md_of(
        g,
        b,
    ).size == md_of(h, b).size by {
        let i = index_of(h, b);
        assert(g[i].base == b);
        lemma_index_unique(g, i);
    }
    assert forall|w: u64, b: u64| points_at(h, w, b) == points_at(g, w, b) by {
        if points_at(h, w, b) {
            let i = choose|i: int|
                0 <= i < h.len() && (#[trigger] h[i]).base == b && holds(h[i], w);
            assert(g[i].base == b && holds(g[i], w));
        }
        if points_at(g, w, b) {
            let i = choose|i: int|
                0 <= i < g.len() && (#[trigger] g[i]).base == b && holds(g[i], w);
            assert(h[i].base == b && holds(h[i], w));
        }
    }
    assert forall|lo: u64, top: u64, w: u64| found(h, lo, top, w) == found(g, lo, top, w) by {
        if exists|b: u64| points_at(h, w, b) {
            let b = choose|b: u64| points_at(h, w, b);
            lemma_block_at(h, w, b);
            lemma_block_at(g, w, b);
        } else {
            assert(forall|b: u64| !points_at(g, w, b));
        }
    }
}

/// The words of a sequence find the same blocks in heaps of the same shape.
pub(crate) proof fn lemma_hits_same(g: Graph, h: Seq<Chunk>, ws: Seq<u64>)
    requires
        same_shape(g.blocks, h),
        heap_wf(g.blocks),
    ensures
        hits(Graph { blocks: h, ..g }, ws) == hits(g, ws),
    decreases ws.len(),
{
    lemma_same_shape(g.blocks, h);
    if ws.len() > 0 {
        lemma_hits_same(g, h, ws.drop_last());
    }
}

/// What words find are blocks of the heap.
pub proof fn lemma_hits_are_blocks(g: Graph, ws: Seq<u64>)
    requires
        heap_wf(g.blocks),
    ensures
        forall|b: Block| #[trigger] hits(g, ws).contains(b) ==> has_base(g.blocks, b.base),
    decreases ws.len(),
{
    if ws.len() > 0 {
        lemma_hits_are_blocks(g, ws.drop_last());
        let rest = hits(g, ws.drop_last());
        assert forall|b: Block| #[trigger] hits(g, ws).contains(b) implies has_base(
            g.blocks,
            b.base,
        ) by {
            match found(g.blocks, g.lo, g.top, ws.last()) {
                Some(block) => {
                    let i = hits(g, ws).index_of(b);
                    if i < rest.len() {
                        assert(rest[i] == b);
                        assert(rest.contains(b));
                    } else {
                        let x = choose|x: u64| points_at(g.blocks, ws.last(), x);
                        lemma_block_at(g.blocks, ws.last(), x);
                    }
                },
                None => {},
            }
        }
    }
}

/// The words of two sequences find the blocks of the first, then those of the
/// second.
pub proof fn lemma_hits_concat(g: Graph, a: Seq<u64>, b: Seq<u64>)
    ensures
        hits(g, a + b) == hits(g, a) + hits(g, b),
    decreases b.len(),
{
    if b.len() == 0 {
        assert(a + b =~= a);
        assert(hits(g, a) + hits(g, b) =~= hits(g, a));
    } else {
        lemma_hits_concat(g, a, b.drop_last());
        assert((a + b).drop_last() =~= a + b.drop_last());
        assert((a + b).last() == b.last());
        assert(hits(g, a + b) =~= hits(g, a) + hits(g, b));
    }
}

/// A word of the sequence that points at a block finds it.
pub proof fn lemma_hits_contain(g: Graph, ws: Seq<u64>, k: int, b: Block)
    requires
        0 <= k < ws.len(),
        found(g.blocks, g.lo, g.top, ws[k]) == Some(b),
    ensures
        hits(g, ws).contains(b),
    decreases ws.len(),
{
    let rest = hits(g, ws.drop_last());
    if k == ws.len() - 1 {
        assert(hits(g, ws)[rest.len() as int] == b);
    } else {
        lemma_hits_contain(g, ws.drop_last(), k, b);
        let i = rest.index_of(b);
        assert(hits(g, ws)[i] == b);
    }
}

/// A white block that a reached block refers to is reached.
proof fn lemma_reached_extend(g: Graph, roots: Seq<Block>, a: u64, b: u64)
    requires
        reached(g, roots, a),
        refers(g, a, b),
        is_white(g, b),
    ensures
        reached(g, roots, b),
{
    let p = choose|p: Seq<u64>| #[trigger] white_path(g, roots, p) && p.last() == a;
    let q = p.push(b);
    assert forall|i: int| 0 <= i < q.len() implies is_white(g, #[trigger] q[i]) by {
        if i < p.len() {
            assert(q[i] == p[i]);
        }
    }
    assert forall|i: int| 0 <= i < q.len() - 1 implies refers(g, #[trigger] q[i], q[i + 1]) by {
        if i < p.len() - 1 {
            assert(q[i] == p[i] && q[i + 1] == p[i + 1]);
        } else {
            assert(q[i] == a && q[i + 1] == b);
        }
    }
    assert(q[0] == p[0]);
    assert(white_path(g, roots, q));
    assert(q.last() == b);
}

/// A white root is reached.
pub proof fn lemma_root_reached(g: Graph, roots: Seq<Block>, b: u64)
    requires
        roots.contains(Block { base: b }),
        is_white(g, b),
    ensures
        reached(g, roots, b),
{
    let p = seq![b];
    assert(white_path(g, roots, p));
    assert(p.last() == b);
}

/// Every block on a path from the roots through white blocks is in a set that
/// holds the white roots and is closed under references.
proof fn lemma_closed_set_holds_path(
    g: Graph,
    roots: Seq<Block>,
    black: Set<u64>,
    p: Seq<u64>,
    i: int,
)
    requires
        white_path(g, roots, p),
        0 <= i < p.len(),
        forall|b: u64| #[trigger] roots.contains(Block { base: b }) ==> black.contains(b),
        forall|a: u64, b: u64|
            is_white(g, a) && black.contains(a) && #[trigger] refers(g, a, b) ==> black.contains(b),
    ensures
        black.contains(p[i]),
    decreases i,
{
    if i > 0 {
        lemma_closed_set_holds_path(g, roots, black, p, i - 1);
        assert(is_white(g, p[i - 1]));
        assert(refers(g, p[i - 1], p[i - 1 + 1]));
    }
}

/// Holds information needed for the mark phase.
pub struct MarkingCtxt<'a> {
    /// The worklist holds references to heap blocks which were identified by
    /// potential pointers somewhere in the object graph. During marking, the
    /// entire worklist is traversed in order for a full transitive closure over
    /// the object graph to be performed.
    pub worklist: GcVec<Block>,
    /// The top (or start) of the current thread's stack.
    pub stack_start: u64,
    /// What lasts for the whole collection.
    pub collection_ctxt: &'a CollectionCtxt,
}

/// Every word of every block is known.
pub open spec fn covers_blocks(mem: Map<u64, u64>, h: Seq<Chunk>) -> bool {
    forall|i: int|
        0 <= i < h.len() ==> covers(mem, (#[trigger] h[i]).base, chunk_end(h[i]) as u64)
}

/// Every entry of a worklist is a block of the heap.
pub open spec fn all_blocks(h: Seq<Chunk>, list: Seq<Block>) -> bool {
    forall|i: int| 0 <= i < list.len() ==> has_base(h, (#[trigger] list[i]).base)
}

impl<'a> MarkingCtxt<'a> {
    /// The heap as this context looks pointers up in it.
    pub open spec fn graph(&self, heap: &GlobalAllocator, memory: &Memory) -> Graph {
        Graph {
            blocks: heap@,
            lo: self.collection_ctxt.data_segment_end,
            top: heap.top(),
            mem: memory@,
        }
    }

    /// Checks each word in a range of addresses for pointers, and puts the
    /// blocks they point at on the worklist.
    fn scan(&mut self, start: u64, end: u64, heap: &GlobalAllocator, memory: &Memory)
        requires
            heap.wf(),
            old(self).collection_ctxt.allocation_cache.snapshot_of(heap@),
            covers(memory@, start, end),
        ensures
            final(self).collection_ctxt == old(self).collection_ctxt,
            final(self).stack_start == old(self).stack_start,
            final(self).worklist@ == old(self).worklist@ + hits(
                old(self).graph(heap, memory),
                words(memory@, start, end),
            ),
    {
        let ghost ws = words(memory@, start, end);
        let ghost g = self.graph(heap, memory);
        if start >= end {
            assert(self.worklist@ + hits(g, ws) =~= self.worklist@);
            return;
        }
        let mut addr = start;
        let ghost mut k: int = 0;
        assert(self.worklist@ + hits(g, ws.take(0)) =~= self.worklist@);
        loop
            invariant
                heap.wf(),
                self.collection_ctxt == old(self).collection_ctxt,
                self.stack_start == old(self).stack_start,
                self.collection_ctxt.allocation_cache.snapshot_of(heap@),
                covers(memory@, start, end),
                start <= addr < end,
                0 <= k < word_count(start, end),
                addr == start + k * WORD_SIZE,
                ws == words(memory@, start, end),
                g == old(self).graph(heap, memory),
                self.worklist@ == old(self).worklist@ + hits(g, ws.take(k)),
            decreases end - addr,
        {
            assert(memory@.contains_key(word_address(start, k)));
            let word = memory.read(addr);
            proof {
                assert(ws.take(k + 1).drop_last() =~= ws.take(k));
                assert(ws.take(k + 1).last() == word);
            }
            if let Some(block) = self.collection_ctxt.find(word, heap) {
                self.worklist.push(block);
            }
            assert(self.worklist@ =~= old(self).worklist@ + hits(g, ws.take(k + 1)));
            if end - addr <= WORD_SIZE {
                assert(ws.take(k + 1) =~= ws);
                return;
            }
            addr = addr + WORD_SIZE;
            proof {
                k = k + 1;
            }
        }
    }

    /// Scans the stack from bottom to top, starting from the position of the
    /// stack pointer. The registers which may contain roots are expected to be
    /// on the stack.
    pub fn scan_stack(&mut self, rsp: u64, heap: &GlobalAllocator, memory: &Memory)
        requires
            heap.wf(),
            old(self).collection_ctxt.allocation_cache.snapshot_of(heap@),
            covers(memory@, rsp, old(self).stack_start),
        ensures
            final(self).collection_ctxt == old(self).collection_ctxt,
            final(self).stack_start == old(self).stack_start,
            final(self).worklist@ == old(self).worklist@ + hits(
                old(self).graph(heap, memory),
                words(memory@, rsp, old(self).stack_start),
            ),
    {
        self.scan(rsp, self.stack_start, heap, memory);
    }

    /// Roots can hide inside static variables, so these need scanning for
    /// potential pointers too.
    pub fn scan_statics(&mut self, heap: &GlobalAllocator, memory: &Memory)
        requires
            heap.wf(),
            old(self).collection_ctxt.allocation_cache.snapshot_of(heap@),
            covers(
                memory@,
                old(self).collection_ctxt.data_segment_start,
                old(self).collection_ctxt.data_segment_end,
            ),
        ensures
            final(self).collection_ctxt == old(self).collection_ctxt,
            final(self).stack_start == old(self).stack_start,
            final(self).worklist@ == old(self).worklist@ + hits(
                old(self).graph(heap, memory),
                words(
                    memory@,
                    old(self).collection_ctxt.data_segment_start,
                    old(self).collection_ctxt.data_segment_end,
                ),
            ),
    {
        self.scan(
            self.collection_ctxt.data_segment_start,
            self.collection_ctxt.data_segment_end,
            heap,
            memory,
        );
    }

    /// Marks everything that can be reached from the stack and the statics. The
    /// registers are on the stack, whose pointer is `rsp`.
    pub fn mark(&mut self, rsp: u64, heap: &mut GlobalAllocator, memory: &Memory)
        requires
            old(heap).wf(),
            old(self).collection_ctxt.allocation_cache.snapshot_of(old(heap)@),
            covers(memory@, rsp, old(self).stack_start),
            covers(
                memory@,
                old(self).collection_ctxt.data_segment_start,
                old(self).collection_ctxt.data_segment_end,
            ),
            covers_blocks(memory@, old(heap)@),
            all_blocks(old(heap)@, old(self).worklist@),
        ensures
            final(heap).wf(),
            final(heap)@ == marked(
                old(self).graph(old(heap), memory),
                old(self).worklist@ + hits(
                    old(self).graph(old(heap), memory),
                    words(memory@, rsp, old(self).stack_start) + words(
                        memory@,
                        old(self).collection_ctxt.data_segment_start,
                        old(self).collection_ctxt.data_segment_end,
                    ),
                ),
            ),
            final(heap).top() == old(heap).top(),
            final(self).worklist@ == Seq::<Block>::empty(),
            final(self).collection_ctxt == old(self).collection_ctxt,
            final(self).stack_start == old(self).stack_start,
    {
        let ghost g = self.graph(heap, memory);
        let ghost stack = words(memory@, rsp, self.stack_start);
        let ghost statics = words(
            memory@,
            self.collection_ctxt.data_segment_start,
            self.collection_ctxt.data_segment_end,
        );
        let ghost list = self.worklist@;
        self.scan_stack(rsp, heap, memory);
        self.scan_statics(heap, memory);
        proof {
            heap.lemma_heap_wf();
            lemma_hits_concat(g, stack, statics);
            let roots = hits(g, stack + statics);
            assert(self.worklist@ =~= list + roots);
            lemma_hits_are_blocks(g, stack + statics);
            assert forall|i: int| 0 <= i < (list + roots).len() implies has_base(
                heap@,
                (#[trigger] (list + roots)[i]).base,
            ) by {
                if i >= list.len() {
                    assert(roots.contains(roots[i - list.len()]));
                }
            }
        }
        self.process_worklist(heap, memory);
    }

    /// Blackens every block that can be reached from the worklist through white
    /// blocks.
    pub fn process_worklist(&mut self, heap: &mut GlobalAllocator, memory: &Memory)
        requires
            old(heap).wf(),
            old(self).collection_ctxt.allocation_cache.snapshot_of(old(heap)@),
            covers_blocks(memory@, old(heap)@),
            all_blocks(old(heap)@, old(self).worklist@),
        ensures
            final(heap).wf(),
            final(heap)@ == marked(old(self).graph(old(heap), memory), old(self).worklist@),
            final(heap).top() == old(heap).top(),
            final(self).worklist@ == Seq::<Block>::empty(),
            final(self).collection_ctxt == old(self).collection_ctxt,
            final(self).stack_start == old(self).stack_start,
    {
        let ghost g = self.graph(heap, memory);
        let ghost roots = self.worklist@;
        let ghost h0 = heap@;
        proof {
            heap.lemma_heap_wf();
            lemma_initial_progress(g, roots);
        }
        loop
            invariant
                heap.wf(),
                heap_wf(h0),
                g == (Graph {
                    blocks: h0,
                    lo: self.collection_ctxt.data_segment_end,
                    top: heap.top(),
                    mem: memory@,
                }),
                g == old(self).graph(old(heap), memory),
                roots == old(self).worklist@,
                heap.top() == old(heap).top(),
                self.collection_ctxt == old(self).collection_ctxt,
                self.stack_start == old(self).stack_start,
                self.collection_ctxt.allocation_cache.snapshot_of(heap@),
                covers_blocks(memory@, h0),
                progress(g, roots, heap@, self.worklist@),
            decreases white_count(heap@), self.worklist@.len(),
        {
            let ghost h = heap@;
            let ghost list = self.worklist@;
            let popped = self.worklist.pop();
            if popped.is_none() {
                proof {
                    lemma_final_progress(g, roots, h);
                    assert(self.worklist@ =~= Seq::<Block>::empty());
                }
                return;
            }
            let block = popped.unwrap();
            proof {
                assert(list.last() == block);
                lemma_same_shape(h0, h);
                assert(has_base(h0, block.base));
            }
            if block.colour(heap) == Colour::Black {
                proof {
                    lemma_skip_progress(g, roots, h, list);
                }
                continue ;
            }
            block.set_colour(heap, Colour::Black);
            proof {
                heap.lemma_heap_wf();
                let i = index_of(h, block.base);
                lemma_index_of(h, block.base);
                lemma_white_count(h, i, heap@[i]);
                lemma_blacken_shape(h0, h, block.base);
                self.collection_ctxt.allocation_cache.lemma_same_bases(h, heap@);
                lemma_same_shape(h0, heap@);
                assert(h0[i].base == block.base);
                assert(covers(memory@, h0[i].base, chunk_end(h0[i]) as u64));
                lemma_index_unique(h0, i);
            }
            let range = block.range(heap);
            self.scan(range.start, range.end, heap, memory);
            proof {
                lemma_hits_same(g, heap@, contents(g, block.base));
                lemma_step_progress(g, roots, h, list, heap@);
            }
        }
    }
}

/// How far marking has come: `h` is the heap now, `list` the worklist.
spec fn progress(g: Graph, roots: Seq<Block>, h: Seq<Chunk>, list: Seq<Block>) -> bool {
    &&& same_shape(g.blocks, h)
    &&& all_blocks(g.blocks, list)
    &&& all_blocks(g.blocks, roots)
    // No block turns white.
    &&& forall|i: int|
        0 <= i < h.len() ==> (#[trigger] g.blocks[i]).md.mark_bit ==> h[i].md.mark_bit
    // Only what can be reached turns black.
    &&& forall|i: int|
        0 <= i < h.len() ==> (#[trigger] h[i]).md.mark_bit && !g.blocks[i].md.mark_bit ==> reached(
            g,
            roots,
            h[i].base,
        )
    // Only what can be reached is on the worklist, if it was white.
    &&& forall|i: int|
        0 <= i < list.len() ==> is_white(g, (#[trigger] list[i]).base) ==> reached(
            g,
            roots,
            list[i].base,
        )
    // The roots are black or will be.
    &&& forall|b: u64| #[trigger]
        roots.contains(Block { base: b }) ==> black_or_listed(h, list, b)
    // What a blackened block refers to is black or will be.
    &&& forall|a: u64, b: u64|
        is_white(g, a) && md_of(h, a).mark_bit && #[trigger] refers(g, a, b) ==> black_or_listed(
            h,
            list,
            b,
        )
}

/// A block is black or on the worklist.
spec fn black_or_listed(h: Seq<Chunk>, list: Seq<Block>, b: u64) -> bool {
    md_of(h, b).mark_bit || list.contains(Block { base: b })
}

/// At the start, nothing is blackened and the worklist holds the roots.
proof fn lemma_initial_progress(g: Graph, roots: Seq<Block>)
    requires
        heap_wf(g.blocks),
        all_blocks(g.blocks, roots),
    ensures
        progress(g, roots, g.blocks, roots),
{
    assert forall|i: int| 0 <= i < roots.len() && is_white(g, (#[trigger] roots[i]).base) implies reached(
        g,
        roots,
        roots[i].base,
    ) by {
        assert(roots.contains(Block { base: roots[i].base }));
        lemma_root_reached(g, roots, roots[i].base);
    }
}

/// A black block can be taken off the worklist.
proof fn lemma_skip_progress(g: Graph, roots: Seq<Block>, h: Seq<Chunk>, list: Seq<Block>)
    requires
        progress(g, roots, h, list),
        list.len() > 0,
        md_of(h, list.last().base).mark_bit,
    ensures
        progress(g, roots, h, list.drop_last()),
{
    let rest = list.drop_last();
    assert forall|b: u64| black_or_listed(h, list, b) implies #[trigger] black_or_listed(
        h,
        rest,
        b,
    ) by {
        if !md_of(h, b).mark_bit {
            let i = list.index_of(Block { base: b });
            assert(i < list.len() - 1);
            assert(rest[i] == Block { base: b });
        }
    }
    assert forall|b: u64| #[trigger] roots.contains(Block { base: b }) implies black_or_listed(
        h,
        rest,
        b,
    ) by {
        assert(black_or_listed(h, list, b));
    }
    assert forall|a: u64, b: u64|
        is_white(g, a) && md_of(h, a).mark_bit && #[trigger] refers(g, a, b) implies black_or_listed(
        h,
        rest,
        b,
    ) by {
        assert(black_or_listed(h, list, b));
    }
}

/// Blackening a block keeps the shape of the heap.
proof fn lemma_blacken_shape(h0: Seq<Chunk>, h: Seq<Chunk>, base: u64)
    requires
        same_shape(h0, h),
        has_base(h, base),
    ensures
        same_shape(
            h0,
            with_md(h, base, BlockMetadata { mark_bit: true, ..md_of(h, base) }),
        ),
        with_md(h, base, BlockMetadata { mark_bit: true, ..md_of(h, base) }).len() == h.len(),
        forall|i: int|
            0 <= i < h.len() ==> (#[trigger] h[i]).base == with_md(
                h,
                base,
                BlockMetadata { mark_bit: true, ..md_of(h, base) },
            )[i].base,
{
    lemma_index_of(h, base);
}

/// A white block is taken off the worklist, blackened and scanned.
proof fn lemma_step_progress(
    g: Graph,
    roots: Seq<Block>,
    h: Seq<Chunk>,
    list: Seq<Block>,
    next: Seq<Chunk>,
)
    requires
        heap_wf(g.blocks),
        progress(g, roots, h, list),
        list.len() > 0,
        !md_of(h, list.last().base).mark_bit,
        next == with_md(
            h,
            list.last().base,
            BlockMetadata { mark_bit: true, ..md_of(h, list.last().base) },
        ),
    ensures
        progress(g, roots, next, list.drop_last() + hits(g, contents(g, list.last().base))),
{
    let base = list.last().base;
    let new = hits(g, contents(g, base));
    let rest = list.drop_last();
    let longer = rest + new;
    lemma_same_shape(g.blocks, h);
    assert(has_base(g.blocks, list[list.len() - 1].base));
    let i = index_of(h, base);
    lemma_index_of(h, base);
    lemma_index_of(g.blocks, base);
    lemma_blacken_shape(g.blocks, h, base);
    lemma_same_shape(g.blocks, next);
    assert(g.blocks[i].md.mark_bit ==> h[i].md.mark_bit);
    assert(is_white(g, base));
    assert(is_white(g, list[list.len() - 1].base));
    assert(reached(g, roots, base));
    lemma_hits_are_blocks(g, contents(g, base));
    assert forall|k: int| 0 <= k < longer.len() implies has_base(
        g.blocks,
        (#[trigger] longer[k]).base,
    ) && (is_white(g, longer[k].base) ==> reached(g, roots, longer[k].base)) by {
        if k < rest.len() {
            assert(longer[k] == list[k]);
        } else {
            let b = new[k - rest.len()];
            assert(new.contains(b));
            assert(longer[k] == b);
            assert(Block { base: b.base } == b);
            assert(refers(g, base, b.base));
            if is_white(g, b.base) {
                lemma_reached_extend(g, roots, base, b.base);
            }
        }
    }
    assert forall|k: int| 0 <= k < next.len() && (#[trigger] next[k]).md.mark_bit
        && !g.blocks[k].md.mark_bit implies reached(g, roots, next[k].base) by {
        if k != i {
            assert(next[k] == h[k]);
        }
    }
    assert forall|k: int| 0 <= k < next.len() && (#[trigger] g.blocks[k]).md.mark_bit implies next[k].md.mark_bit by {
        if k != i {
            assert(next[k] == h[k]);
        }
    }
    assert forall|b: u64| black_or_listed(h, list, b) && has_base(g.blocks, b) implies #[trigger] black_or_listed(
        next,
        longer,
        b,
    ) by {
        if b == base {
            assert(next[i].md.mark_bit);
        } else if md_of(h, b).mark_bit {
            let k = index_of(h, b);
            lemma_index_of(h, b);
            assert(next[k] == h[k]);
        } else {
            let k = list.index_of(Block { base: b });
            assert(k < list.len() - 1);
            assert(longer[k] == Block { base: b });
        }
    }
    assert forall|b: u64| #[trigger] roots.contains(Block { base: b }) implies black_or_listed(
        next,
        longer,
        b,
    ) by {
        assert(black_or_listed(h, list, b));
        let k = roots.index_of(Block { base: b });
        assert(has_base(g.blocks, roots[k].base));
    }
    assert forall|a: u64, b: u64|
        is_white(g, a) && md_of(next, a).mark_bit && #[trigger] refers(g, a, b) implies black_or_listed(
        next,
        longer,
        b,
    ) by {
        if a == base {
            let k = new.index_of(Block { base: b });
            assert(longer[rest.len() + k] == Block { base: b });
        } else {
            let k = index_of(h, a);
            lemma_index_of(h, a);
            assert(next[k] == h[k]);
            assert(black_or_listed(h, list, b));
            lemma_hits_are_blocks(g, contents(g, a));
            assert(hits(g, contents(g, a)).contains(Block { base: b }));
        }
    }
}

/// Once the worklist is empty, exactly what can be reached is blackened.
proof fn lemma_final_progress(g: Graph, roots: Seq<Block>, h: Seq<Chunk>)
    requires
        heap_wf(g.blocks),
        progress(g, roots, h, Seq::<Block>::empty()),
    ensures
        h == marked(g, roots),
{
    lemma_same_shape(g.blocks, h);
    let none = Seq::<Block>::empty();
    let black = Set::new(|b: u64| md_of(h, b).mark_bit);
    assert forall|b: u64| #[trigger] roots.contains(Block { base: b }) implies black.contains(b) by {
        assert(black_or_listed(h, none, b));
    }
    assert forall|a: u64, b: u64|
        is_white(g, a) && black.contains(a) && #[trigger] refers(g, a, b) implies black.contains(b) by {
        assert(black_or_listed(h, none, b));
    }
    assert forall|i: int| 0 <= i < h.len() implies (#[trigger] h[i]) == marked(g, roots)[i] by {
        let b = h[i].base;
        lemma_index_unique(h, i);
        if reached(g, roots, b) {
            let p = choose|p: Seq<u64>| #[trigger] white_path(g, roots, p) && p.last() == b;
            lemma_closed_set_holds_path(g, roots, black, p, p.len() - 1);
        }
    }
    assert(h =~= marked(g, roots));
}

/// A block that words find is found by one of them.
pub(crate) proof fn lemma_hits_word(g: Graph, ws: Seq<u64>, b: Block) -> (k: int)
    requires
        hits(g, ws).contains(b),
    ensures
        0 <= k < ws.len(),
        found(g.blocks, g.lo, g.top, ws[k]) == Some(b),
    decreases ws.len(),
{
    let rest = hits(g, ws.drop_last());
    if found(g.blocks, g.lo, g.top, ws.last()) == Some(b) {
        ws.len() - 1
    } else {
        let i = hits(g, ws).index_of(b);
        assert(rest[i] == b);
        lemma_hits_word(g, ws.drop_last(), b)
    }
}

/// The words of a sequence find exactly the blocks that one of them points into,
/// or one past the end of.
pub proof fn law_words_find_blocks(g: Graph, ws: Seq<u64>, i: int)
    requires
        heap_wf(g.blocks),
        0 <= i < g.blocks.len(),
    ensures
        hits(g, ws).contains(Block { base: g.blocks[i].base }) <==> exists|k: int|
            0 <= k < ws.len() && g.lo <= (#[trigger] ws[k]) <= g.top && g.blocks[i].base <= ws[k]
                <= g.blocks[i].base + g.blocks[i].md.size,
{
    let b = Block { base: g.blocks[i].base };
    if hits(g, ws).contains(b) {
        let k = lemma_hits_word(g, ws, b);
        crate::allocator::law_word_finds_what_it_points_at(g.blocks, g.lo, g.top, ws[k], i);
        assert(g.lo <= ws[k] <= g.top);
    }
    if exists|k: int|
        0 <= k < ws.len() && g.lo <= (#[trigger] ws[k]) <= g.top && g.blocks[i].base <= ws[k]
            <= g.blocks[i].base + g.blocks[i].md.size {
        let k = choose|k: int|
            0 <= k < ws.len() && g.lo <= (#[trigger] ws[k]) <= g.top && g.blocks[i].base <= ws[k]
                <= g.blocks[i].base + g.blocks[i].md.size;
        crate::allocator::law_word_finds_what_it_points_at(g.blocks, g.lo, g.top, ws[k], i);
        lemma_hits_contain(g, ws, k, b);
    }
}

/// The words of a sequence find blocks in their order, each word at most one: the
/// words of a sequence with one more in the end find what those before it do, and
/// then what it does.
pub proof fn law_words_find_in_order(g: Graph, ws: Seq<u64>, word: u64, i: int)
    requires
        heap_wf(g.blocks),
        0 <= i < g.blocks.len(),
    ensures
        hits(g, Seq::<u64>::empty()) == Seq::<Block>::empty(),
        g.lo <= word <= g.top && g.blocks[i].base <= word <= g.blocks[i].base
            + g.blocks[i].md.size ==> hits(g, ws.push(word)) == hits(g, ws).push(
            Block { base: g.blocks[i].base },
        ),
        (forall|j: int|
            0 <= j < g.blocks.len() ==> {
                let c = #[trigger] g.blocks[j];
                !(g.lo <= word <= g.top && c.base <= word <= c.base + c.md.size)
            }) ==> hits(g, ws.push(word)) == hits(g, ws),
{
    assert(ws.push(word).drop_last() =~= ws);
    assert(ws.push(word).last() == word);
    crate::allocator::law_word_finds_what_it_points_at(g.blocks, g.lo, g.top, word, i);
    if found(g.blocks, g.lo, g.top, word) is Some {
        crate::allocator::law_only_blocks_are_found(g.blocks, g.lo, g.top, word);
        let b = found(g.blocks, g.lo, g.top, word)->Some_0;
        let j = choose|j: int| 0 <= j < g.blocks.len() && (#[trigger] g.blocks[j]).base == b.base;
        crate::allocator::law_word_finds_what_it_points_at(g.blocks, g.lo, g.top, word, j);
        let c = g.blocks[j];
        assert(g.lo <= word <= g.top && c.base <= word <= c.base + c.md.size);
    }
}

/// A block refers to another exactly when the word at its start, or at some eighth
/// address behind it up to its end, points into the other block, or one past its
/// end.
pub proof fn law_block_refers(g: Graph, i: int, j: int)
    requires
        heap_wf(g.blocks),
        0 <= i < g.blocks.len(),
        0 <= j < g.blocks.len(),
    ensures
        refers(g, g.blocks[i].base, g.blocks[j].base) <==> exists|a: u64|
            g.blocks[i].base <= a < g.blocks[i].base + g.blocks[i].md.size && (a
                - g.blocks[i].base) % 8 == 0 && g.lo <= #[trigger] g.mem[a] <= g.top
                && g.blocks[j].base <= g.mem[a] <= g.blocks[j].base + g.blocks[j].md.size,
{
    let (b, c) = (g.blocks[i], g.blocks[j]);
    let end = (b.base + b.md.size) as u64;
    lemma_index_unique(g.blocks, i);
    assert(chunk_wf(b));
    let ws = contents(g, b.base);
    assert(ws == words(g.mem, b.base, end));
    law_words_find_blocks(g, ws, j);
    if refers(g, b.base, c.base) {
        let k = choose|k: int|
            0 <= k < ws.len() && g.lo <= (#[trigger] ws[k]) <= g.top && c.base <= ws[k] <= c.base
                + c.md.size;
        let a = crate::memory::lemma_word_address(g.mem, b.base, end, k);
        assert(g.lo <= g.mem[a] <= g.top);
    }
    if exists|a: u64|
        b.base <= a < b.base + b.md.size && (a - b.base) % 8 == 0 && g.lo <= #[trigger] g.mem[a]
            <= g.top && c.base <= g.mem[a] <= c.base + c.md.size {
        let a = choose|a: u64|
            b.base <= a < b.base + b.md.size && (a - b.base) % 8 == 0 && g.lo
                <= #[trigger] g.mem[a] <= g.top && c.base <= g.mem[a] <= c.base + c.md.size;
        crate::memory::lemma_word_at(g.mem, b.base, end, a);
        assert(ws[(a - b.base) / 8] == g.mem[a]);
    }
}

/// Every word of every block is known when the words at the start of each block,
/// and at every eighth address behind it up to its end, are.
pub proof fn law_blocks_are_covered(mem: Map<u64, u64>, h: Seq<Chunk>, i: int, a: u64)
    requires
        heap_wf(h),
        covers_blocks(mem, h),
        0 <= i < h.len(),
        h[i].base <= a < h[i].base + h[i].md.size,
        (a - h[i].base) % 8 == 0,
    ensures
        mem.contains_key(a),
{
    assert(chunk_wf(h[i]));
    assert(covers(mem, h[i].base, chunk_end(h[i]) as u64));
    crate::memory::law_covered_means_known(mem, h[i].base, chunk_end(h[i]) as u64);
}

/// Marking changes nothing but colours, and turns no block white.
pub proof fn law_marking_only_blackens(g: Graph, roots: Seq<Block>, i: int)
    requires
        0 <= i < g.blocks.len(),
    ensures
        marked(g, roots).len() == g.blocks.len(),
        ({
            let (c, d) = (g.blocks[i], marked(g, roots)[i]);
            &&& d.base == c.base
            &&& d.region == c.region
            &&& d.md.size == c.md.size
            &&& d.md.is_gc == c.md.is_gc
            &&& d.md.drop_vptr == c.md.drop_vptr
            &&& c.md.mark_bit ==> d.md.mark_bit
        }),
{
}

/// Marking blackens the roots, and what a block that it blackens refers to.
pub proof fn law_marking_is_closed(g: Graph, roots: Seq<Block>, i: int, j: int, a: u64)
    requires
        heap_wf(g.blocks),
        0 <= i < g.blocks.len(),
        0 <= j < g.blocks.len(),
    ensures
        roots.contains(Block { base: g.blocks[i].base }) ==> marked(g, roots)[i].md.mark_bit,
        marked(g, roots)[i].md.mark_bit && !g.blocks[i].md.mark_bit && g.blocks[i].base <= a
            < g.blocks[i].base + g.blocks[i].md.size && (a - g.blocks[i].base) % 8 == 0 && g.lo
            <= g.mem[a] <= g.top && g.blocks[j].base <= g.mem[a] <= g.blocks[j].base
            + g.blocks[j].md.size ==> marked(g, roots)[j].md.mark_bit,
{
    let (b, c) = (g.blocks[i].base, g.blocks[j].base);
    lemma_index_unique(g.blocks, i);
    lemma_index_unique(g.blocks, j);
    if roots.contains(Block { base: b }) && !g.blocks[i].md.mark_bit {
        lemma_root_reached(g, roots, b);
    }
    if marked(g, roots)[i].md.mark_bit && !g.blocks[i].md.mark_bit && g.blocks[i].base <= a
        < g.blocks[i].base + g.blocks[i].md.size && (a - g.blocks[i].base) % 8 == 0 && g.lo
        <= g.mem[a] <= g.top && g.blocks[j].base <= g.mem[a] <= g.blocks[j].base
        + g.blocks[j].md.size && !g.blocks[j].md.mark_bit {
        assert(g.lo <= g.mem[a] <= g.top);
        law_block_refers(g, i, j);
        assert(refers(g, b, c));
        lemma_reached_extend(g, roots, b, c);
    }
}

/// Marking blackens nothing that it does not have to: what it blackens is in
/// every set of addresses that holds the roots, and with a block that was white
/// all that the block refers to.
pub proof fn law_marking_is_least(g: Graph, roots: Seq<Block>, s: Set<u64>, i: int)
    requires
        heap_wf(g.blocks),
        0 <= i < g.blocks.len(),
        marked(g, roots)[i].md.mark_bit,
        !g.blocks[i].md.mark_bit,
        forall|k: int|
            0 <= k < g.blocks.len() && roots.contains(Block { base: (#[trigger] g.blocks[k]).base })
                ==> s.contains(g.blocks[k].base),
        forall|k: int, l: int, a: u64|
            0 <= k < g.blocks.len() && 0 <= l < g.blocks.len() && s.contains(
                (#[trigger] g.blocks[k]).base,
            ) && !g.blocks[k].md.mark_bit && g.blocks[k].base <= a < g.blocks[k].base
                + g.blocks[k].md.size && (a - g.blocks[k].base) % 8 == 0 && g.lo
                <= #[trigger] g.mem[a] <= g.top && g.blocks[l].base <= g.mem[a]
                <= g.blocks[l].base + g.blocks[l].md.size ==> s.contains(
                (#[trigger] g.blocks[l]).base,
            ),
    ensures
        s.contains(g.blocks[i].base),
{
    let p = choose|p: Seq<u64>| #[trigger]
        white_path(g, roots, p) && p.last() == g.blocks[i].base;
    lemma_least_path(g, roots, s, p, p.len() - 1);
}

/// Every block on a path from the roots through white blocks is in such a set.
proof fn lemma_least_path(g: Graph, roots: Seq<Block>, s: Set<u64>, p: Seq<u64>, n: int)
    requires
        heap_wf(g.blocks),
        white_path(g, roots, p),
        0 <= n < p.len(),
        forall|k: int|
            0 <= k < g.blocks.len() && roots.contains(Block { base: (#[trigger] g.blocks[k]).base })
                ==> s.contains(g.blocks[k].base),
        forall|k: int, l: int, a: u64|
            0 <= k < g.blocks.len() && 0 <= l < g.blocks.len() && s.contains(
                (#[trigger] g.blocks[k]).base,
            ) && !g.blocks[k].md.mark_bit && g.blocks[k].base <= a < g.blocks[k].base
                + g.blocks[k].md.size && (a - g.blocks[k].base) % 8 == 0 && g.lo
                <= #[trigger] g.mem[a] <= g.top && g.blocks[l].base <= g.mem[a]
                <= g.blocks[l].base + g.blocks[l].md.size ==> s.contains(
                (#[trigger] g.blocks[l]).base,
            ),
    ensures
        s.contains(p[n]),
    decreases n,
{
    assert(is_white(g, p[n]));
    let l = index_of(g.blocks, p[n]);
    lemma_index_of(g.blocks, p[n]);
    if n == 0 {
        assert(roots.contains(Block { base: g.blocks[l].base }));
    } else {
        lemma_least_path(g, roots, s, p, n - 1);
        assert(is_white(g, p[n - 1]));
        let k = index_of(g.blocks, p[n - 1]);
        lemma_index_of(g.blocks, p[n - 1]);
        assert(refers(g, p[n - 1], p[n - 1 + 1]));
        law_block_refers(g, k, l);
        let a = choose|a: u64|
            g.blocks[k].base <= a < g.blocks[k].base + g.blocks[k].md.size && (a
                - g.blocks[k].base) % 8 == 0 && g.lo <= #[trigger] g.mem[a] <= g.top
                && g.blocks[l].base <= g.mem[a] <= g.blocks[l].base + g.blocks[l].md.size;
        assert(g.blocks[k].base == p[n - 1]);
    }
}

/// Two heaps have the same shape when their blocks agree in all but their
/// colours.
pub proof fn law_same_shape(h: Seq<Chunk>, g: Seq<Chunk>, i: int)
    requires
        same_shape(h, g),
        0 <= i < h.len(),
    ensures
        h.len() == g.len(),
        h[i].base == g[i].base,
        h[i].region == g[i].region,
        h[i].md.size == g[i].md.size,
        h[i].md.is_gc == g[i].md.is_gc,
        h[i].md.drop_vptr == g[i].md.drop_vptr,
{
    assert(h[i].base == g[i].base);
}

/// Pointers are looked up in the blocks of the heap, from the end of the data
/// segment up to the highest address, by the words of the memory.
pub proof fn law_where_pointers_are_looked_up(
    ctxt: &MarkingCtxt,
    heap: &GlobalAllocator,
    memory: &Memory,
)
    ensures
        ctxt.graph(heap, memory).blocks == heap@,
        ctxt.graph(heap, memory).lo == ctxt.collection_ctxt.data_segment_end,
        ctxt.graph(heap, memory).top == heap.top(),
        ctxt.graph(heap, memory).mem == memory@,
{
}

/// Every entry of a worklist of blocks is the address of one.
pub proof fn law_worklists_hold_blocks(h: Seq<Chunk>, list: Seq<Block>, k: int)
    requires
        all_blocks(h, list),
        0 <= k < list.len(),
    ensures
        exists|i: int| 0 <= i < h.len() && (#[trigger] h[i]).base == list[k].base,
{
    assert(has_base(h, list[k].base));
    lemma_index_of(h, list[k].base);
}

} // verus!
