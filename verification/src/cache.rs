//! Pointer identification by binary search.
use crate::allocator::{Block, GlobalAllocator};
use crate::gcvec::GcVec;
use crate::model::{
    apart, block_at, has_base, holds, index_of, lemma_block_at, lemma_index_of, lemma_index_unique,
    points_at, Chunk,
};
use vstd::prelude::*;

verus! {

/// A freeze-frame of all blocks in use, sorted by their addresses.
pub struct AllocCache {
    blocks: GcVec<Block>,
}

/// The addresses of the blocks strictly increase.
pub open spec fn increasing(s: Seq<Block>) -> bool {
    forall|i: int, j: int| 0 <= i < j < s.len() ==> (#[trigger] s[i]).base < (#[trigger] s[j]).base
}

/// Does a block with this address occur?
pub open spec fn listed(s: Seq<Block>, base: u64) -> bool {
    s.contains(Block { base })
}

/// The block that a word is a potential pointer to.
pub open spec fn identified(h: Seq<Chunk>, word: u64) -> Option<Block> {
    match block_at(h, word) {
        Some(base) => Some(Block { base }),
        None => None,
    }
}

impl View for AllocCache {
    type V = Seq<Block>;

    closed spec fn view(&self) -> Seq<Block> {
        self.blocks@
    }
}

impl AllocCache {
    /// The cache holds exactly the blocks of the heap, sorted.
    pub open spec fn snapshot_of(&self, h: Seq<Chunk>) -> bool {
        &&& increasing(self@)
        &&& forall|base: u64| #[trigger] listed(self@, base) <==> has_base(h, base)
    }

    /// The number of blocks that start no higher than `word`.
    fn count_up_to(&self, word: u64) -> (r: usize)
        requires
            increasing(self@),
        ensures
            r <= self@.len(),
            forall|i: int| 0 <= i < r ==> (#[trigger] self@[i]).base <= word,
            forall|i: int| r <= i < self@.len() ==> (#[trigger] self@[i]).base > word,
    {
        let mut lo: usize = 0;
        let mut hi: usize = self.blocks.len();
        while lo < hi
            invariant
                lo <= hi <= self@.len(),
                increasing(self@),
                forall|i: int| 0 <= i < lo ==> (#[trigger] self@[i]).base <= word,
                forall|i: int| hi <= i < self@.len() ==> (#[trigger] self@[i]).base > word,
            decreases hi - lo,
        {
            let mid = lo + (hi - lo) / 2;
            let base = self.blocks.as_slice()[mid].base;
            if base <= word {
                assert forall|i: int| 0 <= i < mid + 1 implies (#[trigger] self@[i]).base <= word by {
                    if i < mid {
                        assert(self@[i].base < self@[mid as int].base);
                    }
                }
                lo = mid + 1;
            } else {
                assert forall|i: int| mid <= i < self@.len() implies (#[trigger] self@[i]).base
                    > word by {
                    if i > mid {
                        assert(self@[mid as int].base < self@[i].base);
                    }
                }
                hi = mid;
            }
        }
        lo
    }

    /// Puts a block in its place.
    fn insert(&mut self, block: Block)
        requires
            increasing(old(self)@),
            !listed(old(self)@, block.base),
        ensures
            increasing(final(self)@),
            forall|base: u64| #[trigger]
                listed(final(self)@, base) <==> base == block.base || listed(old(self)@, base),
            final(self)@.len() == old(self)@.len() + 1,
    {
        let at = self.count_up_to(block.base);
        let ghost was = self@;
        self.blocks.insert(at, block);
        proof {
            let now = self@;
            assert forall|i: int| 0 <= i < at implies (#[trigger] was[i]).base < block.base by {
                if was[i].base == block.base {
                    assert(was.contains(Block { base: block.base }));
                }
            }
            assert forall|i: int, j: int| 0 <= i < j < now.len() implies (#[trigger] now[i]).base < (
            #[trigger] now[j]).base by {
                assert(now[i] == (if i < at { was[i] } else if i == at { block } else { was[i - 1] }));
                assert(now[j] == (if j < at { was[j] } else if j == at { block } else { was[j - 1] }));
            }
            assert forall|base: u64| #[trigger]
                listed(now, base) <==> base == block.base || listed(was, base) by {
                let b = Block { base };
                assert(now[at as int] == block);
                if listed(now, base) {
                    let i = now.index_of(b);
                    assert(now[i] == (if i < at { was[i] } else if i == at { block } else { was[i - 1] }));
                }
                if listed(was, base) {
                    let i = was.index_of(b);
                    assert(now[if i < at { i } else { i + 1 }] == b);
                }
            }
        }
    }

    /// The block that `word` is a potential pointer to.
    pub fn find(&self, word: u64, heap: &GlobalAllocator) -> (r: Option<Block>)
        requires
            heap.wf(),
            self.snapshot_of(heap@),
        ensures
            r == identified(heap@, word),
    {
        let n = self.count_up_to(word);
        proof {
            heap.lemma_heap_wf();
        }
        if n == 0 {
            proof {
                assert forall|b: u64| !points_at(heap@, word, b) by {
                    if points_at(heap@, word, b) {
                        assert(listed(self@, b));
                        let i = self@.index_of(Block { base: b });
                        assert(self@[i].base > word);
                    }
                }
            }
            return None;
        }
        let block = self.blocks.as_slice()[n - 1];
        proof {
            assert(self@.contains(block));
            assert(listed(self@, block.base));
        }
        let end = block.range(heap).end;
        let ghost k = index_of(heap@, block.base);
        if word <= end {
            proof {
                lemma_index_of(heap@, block.base);
                assert(holds(heap@[k], word));
                lemma_block_at(heap@, word, block.base);
            }
            Some(block)
        } else {
            proof {
                assert forall|b: u64| !points_at(heap@, word, b) by {
                    if points_at(heap@, word, b) {
                        assert(listed(self@, b));
                        let i = self@.index_of(Block { base: b });
                        assert(i < n);
                        let j = choose|j: int|
                            0 <= j < heap@.len() && (#[trigger] heap@[j]).base == b && holds(
                                heap@[j],
                                word,
                            );
                        lemma_index_of(heap@, block.base);
                        if i < n - 1 {
                            assert(self@[i].base < self@[n - 1].base);
                            assert(j != k);
                            assert(apart(heap@[j], heap@[k]));
                        } else {
                            lemma_index_unique(heap@, j);
                        }
                    }
                }
            }
            None
        }
    }

    /// Where the blocks are decides what a cache is a snapshot of.
    pub proof fn lemma_same_bases(&self, h: Seq<Chunk>, g: Seq<Chunk>)
        requires
            self.snapshot_of(h),
            h.len() == g.len(),
            forall|i: int| 0 <= i < h.len() ==> (#[trigger] h[i]).base == g[i].base,
        ensures
            self.snapshot_of(g),
    {
        assert forall|base: u64| #[trigger] listed(self@, base) <==> has_base(g, base) by {
            if has_base(h, base) {
                let i = index_of(h, base);
                assert(g[i].base == base);
            }
            if has_base(g, base) {
                let i = index_of(g, base);
                assert(h[i].base == base);
            }
        }
    }

    /// The number of blocks in the cache.
    pub fn len(&self) -> (r: usize)
        ensures
            r == self@.len(),
    {
        self.blocks.len()
    }

    /// A block of the cache.
    pub fn get(&self, i: usize) -> (r: Block)
        requires
            i < self@.len(),
        ensures
            r == self@[i as int],
    {
        self.blocks.as_slice()[i]
    }
}

impl GlobalAllocator {
    /// All blocks in use, sorted by their addresses.
    pub fn sorted_cache(&self) -> (r: AllocCache)
        requires
            self.wf(),
        ensures
            r.snapshot_of(self@),
            r@.len() == self@.len(),
    {
        let mut cache = AllocCache { blocks: GcVec::new() };
        let mut it = self.iter();
        loop
            invariant
                self.wf(),
                it.valid(self@),
                0 <= it.pos(self@) <= self@.len(),
                increasing(cache@),
                forall|base: u64| #[trigger]
                    listed(cache@, base) <==> exists|i: int|
                        it.pos(self@) <= i < self@.len() && (#[trigger] self@[i]).base == base,
                cache@.len() == self@.len() - it.pos(self@),
            decreases it.pos(self@),
        {
            let ghost before = it.pos(self@);
            match it.next(self) {
                None => {
                    return cache;
                },
                Some(block) => {
                    let ghost k = it.pos(self@);
                    let ghost was = cache@;
                    proof {
                        self.lemma_heap_wf();
                        if listed(cache@, block.base) {
                            let i = choose|i: int|
                                before <= i < self@.len() && (#[trigger] self@[i]).base
                                    == block.base;
                            lemma_index_unique(self@, i);
                            lemma_index_unique(self@, k);
                        }
                    }
                    cache.insert(block);
                    assert forall|base: u64| #[trigger]
                        listed(cache@, base) <==> exists|i: int|
                            k <= i < self@.len() && (#[trigger] self@[i]).base == base by {
                        if listed(cache@, base) {
                            if base == block.base {
                                assert(self@[k].base == base);
                            } else {
                                assert(listed(was, base));
                            }
                        }
                    }
                },
            }
        }
    }
}

/// The cache of a heap holds the address of every block of it and no others, each
/// once, from the lowest to the highest.
pub proof fn law_cache_is_the_sorted_heap(
    cache: &AllocCache,
    h: Seq<Chunk>,
    i: int,
    k: int,
    l: int,
)
    requires
        cache.snapshot_of(h),
        0 <= i < h.len(),
        0 <= k < l < cache@.len(),
    ensures
        exists|j: int| 0 <= j < cache@.len() && (#[trigger] cache@[j]).base == h[i].base,
        exists|j: int| 0 <= j < h.len() && (#[trigger] h[j]).base == cache@[k].base,
        exists|j: int| 0 <= j < h.len() && (#[trigger] h[j]).base == cache@[l].base,
        cache@[k].base < cache@[l].base,
{
    let s = cache@;
    assert(has_base(h, h[i].base));
    assert(listed(s, h[i].base));
    assert(s[s.index_of(Block { base: h[i].base })].base == h[i].base);
    assert(s.contains(s[k]) && s.contains(s[l]));
    assert(listed(s, s[k].base) && listed(s, s[l].base));
    lemma_index_of(h, s[k].base);
    lemma_index_of(h, s[l].base);
}

/// A word identifies a block exactly when it is no lower than the first byte of
/// the block nor higher than one past its last.
pub proof fn law_word_identifies_what_it_points_at(h: Seq<Chunk>, word: u64, i: int)
    requires
        crate::model::heap_wf(h),
        0 <= i < h.len(),
    ensures
        identified(h, word) == Some(Block { base: h[i].base }) <==> h[i].base <= word <= h[i].base
            + h[i].md.size,
        identified(h, word) matches Some(b) ==> exists|j: int|
            0 <= j < h.len() && (#[trigger] h[j]).base == b.base,
{
    crate::allocator::law_word_finds_what_it_points_at(h, 0, u64::MAX, word, i);
    crate::allocator::law_only_blocks_are_found(h, 0, u64::MAX, word);
}

} // verus!
