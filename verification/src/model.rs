//! The mathematical model of the heap: the sequence of its blocks, from the
//! oldest to the newest.
use crate::layout::Layout;
use crate::metadata::BlockMetadata;
use vstd::prelude::*;

verus! {

/// The size of a block header in bytes.
pub const HEADER_SIZE: u64 = 32;

/// The size of a machine word in bytes.
pub const WORD_SIZE: u64 = 8;

/// Memory of the system allocator.
#[derive(Clone, Copy, Debug, PartialEq, Eq, Structural)]
pub struct Region {
    /// Where it starts.
    pub raw: u64,
    /// The layout it was handed out with.
    pub layout: Layout,
}

/// One block of the heap.
pub struct Chunk {
    /// The address of the first byte behind the header.
    pub base: u64,
    /// The metadata in the header.
    pub md: BlockMetadata,
    /// The memory that the header and the value are in.
    pub region: Region,
}

/// The address of the first byte behind a block.
pub open spec fn chunk_end(c: Chunk) -> int {
    c.base + c.md.size
}

/// A block lies in the address space, header and all, and in its memory. Its
/// header is not at the null address.
pub open spec fn chunk_wf(c: Chunk) -> bool {
    &&& c.base > HEADER_SIZE
    &&& chunk_end(c) <= u64::MAX
    &&& c.md.wf()
    &&& c.region.raw + HEADER_SIZE <= c.base
    &&& chunk_end(c) <= c.region.raw + c.region.layout.size
}

/// No block ends above an address.
pub open spec fn below_top(h: Seq<Chunk>, top: u64) -> bool {
    forall|i: int| 0 <= i < h.len() ==> chunk_end(#[trigger] h[i]) <= top
}

/// Two blocks, headers included, do not overlap.
pub open spec fn apart(a: Chunk, b: Chunk) -> bool {
    chunk_end(a) <= b.base - HEADER_SIZE || chunk_end(b) <= a.base - HEADER_SIZE
}

/// A heap is well formed when its blocks are and no two of them overlap.
pub open spec fn heap_wf(h: Seq<Chunk>) -> bool {
    &&& forall|i: int| 0 <= i < h.len() ==> chunk_wf(#[trigger] h[i])
    &&& forall|i: int, j: int|
        0 <= i < h.len() && 0 <= j < h.len() && i != j ==> apart(#[trigger] h[i], #[trigger] h[j])
}

/// Does a block of the heap start at this address?
pub open spec fn has_base(h: Seq<Chunk>, base: u64) -> bool {
    exists|i: int| 0 <= i < h.len() && (#[trigger] h[i]).base == base
}

/// The position of the block that starts at this address.
pub open spec fn index_of(h: Seq<Chunk>, base: u64) -> int {
    choose|i: int| 0 <= i < h.len() && (#[trigger] h[i]).base == base
}

/// The metadata of the block that starts at this address.
pub open spec fn md_of(h: Seq<Chunk>, base: u64) -> BlockMetadata {
    h[index_of(h, base)].md
}

/// The heap with the metadata of one of its blocks replaced.
pub open spec fn with_md(h: Seq<Chunk>, base: u64, md: BlockMetadata) -> Seq<Chunk> {
    h.update(index_of(h, base), Chunk { md, ..h[index_of(h, base)] })
}

/// Is a word a potential pointer to this block? Pointers into the block count,
/// and so does the pointer one past its end.
pub open spec fn holds(c: Chunk, word: u64) -> bool {
    c.base <= word <= chunk_end(c)
}

/// Is a word a potential pointer to the block that starts at this address?
pub open spec fn points_at(h: Seq<Chunk>, word: u64, base: u64) -> bool {
    exists|i: int| 0 <= i < h.len() && (#[trigger] h[i]).base == base && holds(h[i], word)
}

/// The block that a word is a potential pointer to.
pub open spec fn block_at(h: Seq<Chunk>, word: u64) -> Option<u64> {
    if exists|base: u64| points_at(h, word, base) {
        Some(choose|base: u64| points_at(h, word, base))
    } else {
        None
    }
}

/// Is the memory from `lo` up to `hi` clear of all blocks and headers?
pub open spec fn vacant(h: Seq<Chunk>, lo: int, hi: int) -> bool {
    forall|i: int|
        0 <= i < h.len() ==> chunk_end(#[trigger] h[i]) <= lo || hi <= h[i].base - HEADER_SIZE
}

/// At most one block starts at an address.
pub proof fn lemma_index_unique(h: Seq<Chunk>, i: int)
    requires
        heap_wf(h),
        0 <= i < h.len(),
    ensures
        has_base(h, h[i].base),
        index_of(h, h[i].base) == i,
        md_of(h, h[i].base) == h[i].md,
{
    let j = index_of(h, h[i].base);
    assert(h[i].base == h[i].base);
    assert(0 <= j < h.len() && h[j].base == h[i].base);
    if i != j {
        assert(apart(h[i], h[j]));
    }
}

/// The block that starts at an address is at that address's position.
pub proof fn lemma_index_of(h: Seq<Chunk>, base: u64)
    requires
        has_base(h, base),
    ensures
        0 <= index_of(h, base) < h.len(),
        h[index_of(h, base)].base == base,
{
}

/// A word is a potential pointer to at most one block: the headers keep the
/// blocks so far apart that even the pointer one past the end of a block
/// reaches no other block.
pub proof fn lemma_one_block_per_word(h: Seq<Chunk>, word: u64, a: u64, b: u64)
    requires
        heap_wf(h),
        points_at(h, word, a),
        points_at(h, word, b),
    ensures
        a == b,
{
    let i = choose|i: int| 0 <= i < h.len() && (#[trigger] h[i]).base == a && holds(h[i], word);
    let j = choose|j: int| 0 <= j < h.len() && (#[trigger] h[j]).base == b && holds(h[j], word);
    if i != j {
        assert(apart(h[i], h[j]));
    }
}

/// The block that a word is found to point at is the one it points at.
pub proof fn lemma_block_at(h: Seq<Chunk>, word: u64, base: u64)
    requires
        heap_wf(h),
        points_at(h, word, base),
    ensures
        block_at(h, word) == Some(base),
        has_base(h, base),
{
    let found = choose|b: u64| points_at(h, word, b);
    lemma_one_block_per_word(h, word, found, base);
}

/// A well-formed heap with a block taken out is well formed.
pub proof fn lemma_remove_wf(h: Seq<Chunk>, i: int)
    requires
        heap_wf(h),
        0 <= i < h.len(),
    ensures
        heap_wf(h.remove(i)),
        !has_base(h.remove(i), h[i].base),
        forall|b: u64| b != h[i].base ==> has_base(h.remove(i), b) == has_base(h, b),
{
    let r = h.remove(i);
    assert forall|k: int| 0 <= k < r.len() implies chunk_wf(#[trigger] r[k]) by {
        assert(r[k] == (if k < i { h[k] } else { h[k + 1] }));
    }
    assert forall|k: int, l: int| 0 <= k < r.len() && 0 <= l < r.len() && k != l implies apart(
        #[trigger] r[k],
        #[trigger] r[l],
    ) by {
        assert(r[k] == (if k < i { h[k] } else { h[k + 1] }));
        assert(r[l] == (if l < i { h[l] } else { h[l + 1] }));
    }
    if has_base(r, h[i].base) {
        let k = index_of(r, h[i].base);
        let k0 = if k < i { k } else { k + 1 };
        assert(r[k] == h[k0]);
        lemma_index_unique(h, i);
        lemma_index_unique(h, k0);
    }
    assert forall|b: u64| b != h[i].base implies has_base(r, b) == has_base(h, b) by {
        if has_base(r, b) {
            let k = index_of(r, b);
            let k0 = if k < i { k } else { k + 1 };
            assert(r[k] == h[k0]);
            assert(h[k0].base == b);
        }
        if has_base(h, b) {
            let k = index_of(h, b);
            let k1 = if k < i { k } else { k - 1 };
            assert(r[k1] == h[k]);
            assert(r[k1].base == b);
        }
    }
}

/// A well-formed heap with a new block in vacant memory is well formed.
pub proof fn lemma_push_wf(h: Seq<Chunk>, c: Chunk)
    requires
        heap_wf(h),
        chunk_wf(c),
        vacant(h, c.base - HEADER_SIZE, chunk_end(c)),
    ensures
        heap_wf(h.push(c)),
        has_base(h.push(c), c.base),
        !has_base(h, c.base),
        forall|b: u64| b != c.base ==> has_base(h.push(c), b) == has_base(h, b),
{
    let r = h.push(c);
    assert forall|k: int, l: int| 0 <= k < r.len() && 0 <= l < r.len() && k != l implies apart(
        #[trigger] r[k],
        #[trigger] r[l],
    ) by {
        if k < h.len() && l < h.len() {
            assert(r[k] == h[k] && r[l] == h[l]);
        } else if k < h.len() {
            assert(r[k] == h[k]);
        } else {
            assert(r[l] == h[l]);
        }
    }
    assert(r[h.len() as int].base == c.base);
    assert forall|b: u64| b != c.base implies has_base(r, b) == has_base(h, b) by {
        if has_base(r, b) {
            let k = index_of(r, b);
            assert(h[k].base == b);
        }
        if has_base(h, b) {
            let k = index_of(h, b);
            assert(r[k].base == b);
        }
    }
}

/// A well-formed heap with a block replaced by one in memory that is clear of
/// the other blocks is well formed.
pub proof fn lemma_update_wf(h: Seq<Chunk>, i: int, c: Chunk)
    requires
        heap_wf(h),
        0 <= i < h.len(),
        chunk_wf(c),
        vacant(h.remove(i), c.base - HEADER_SIZE, chunk_end(c)),
    ensures
        heap_wf(h.update(i, c)),
        has_base(h.update(i, c), c.base),
        forall|b: u64|
            b != c.base && b != h[i].base ==> has_base(h.update(i, c), b) == has_base(h, b),
        c.base != h[i].base ==> !has_base(h, c.base) && !has_base(h.update(i, c), h[i].base),
{
    let r = h.update(i, c);
    let m = h.remove(i);
    assert forall|k: int| 0 <= k < h.len() && k != i implies apart(#[trigger] h[k], c) by {
        let k1 = if k < i { k } else { k - 1 };
        assert(m[k1] == h[k]);
    }
    assert forall|k: int, l: int| 0 <= k < r.len() && 0 <= l < r.len() && k != l implies apart(
        #[trigger] r[k],
        #[trigger] r[l],
    ) by {
        if k == i {
            assert(apart(h[l], c));
        } else if l == i {
            assert(apart(h[k], c));
        } else {
            assert(apart(h[k], h[l]));
        }
    }
    assert(r[i].base == c.base);
    assert forall|b: u64| b != c.base && b != h[i].base implies has_base(r, b) == has_base(h, b) by {
        if has_base(r, b) {
            let k = index_of(r, b);
            assert(h[k].base == b);
        }
        if has_base(h, b) {
            let k = index_of(h, b);
            assert(r[k].base == b);
        }
    }
    if c.base != h[i].base {
        if has_base(h, c.base) {
            let k = index_of(h, c.base);
            assert(apart(h[k], c));
        }
        if has_base(r, h[i].base) {
            let k = index_of(r, h[i].base);
            assert(apart(h[k], h[i]));
        }
    }
}

/// Replacing the metadata of a block by metadata with the same size keeps the
/// heap well formed and moves no block.
pub proof fn lemma_with_md_wf(h: Seq<Chunk>, base: u64, md: BlockMetadata)
    requires
        heap_wf(h),
        has_base(h, base),
        md.wf(),
        md.size == md_of(h, base).size,
    ensures
        heap_wf(with_md(h, base, md)),
        forall|b: u64| has_base(with_md(h, base, md), b) == has_base(h, b),
        md_of(with_md(h, base, md), base) == md,
        forall|b: u64|
            b != base && has_base(h, b) ==> md_of(with_md(h, base, md), b) == md_of(h, b),
{
    let i = index_of(h, base);
    lemma_index_of(h, base);
    let c = Chunk { md, ..h[i] };
    let r = with_md(h, base, md);
    let m = h.remove(i);
    assert forall|k: int| 0 <= k < m.len() implies chunk_end(#[trigger] m[k]) <= c.base - HEADER_SIZE
        || chunk_end(c) <= m[k].base - HEADER_SIZE by {
        let k0 = if k < i { k } else { k + 1 };
        assert(m[k] == h[k0]);
        assert(apart(h[k0], h[i]));
    }
    lemma_update_wf(h, i, c);
    lemma_index_unique(r, i);
    assert(has_base(r, base) && has_base(h, base));
    assert forall|b: u64| has_base(r, b) == has_base(h, b) by {}
    assert forall|b: u64| b != base && has_base(h, b) implies md_of(r, b) == md_of(h, b) by {
        let k = index_of(h, b);
        lemma_index_of(h, b);
        assert(r[k] == h[k]);
        lemma_index_unique(r, k);
        lemma_index_unique(h, k);
    }
}

/// What a heap is: its blocks, with the thirty-two bytes of a header in front of
/// each, lie in the address space and in the memory that they were given, sizes
/// have 62 bits and vtable pointers 63, and no two blocks overlap.
pub proof fn law_heap_is_well_formed(h: Seq<Chunk>)
    ensures
        heap_wf(h) <==> {
            &&& forall|i: int|
                0 <= i < h.len() ==> {
                    let c = #[trigger] h[i];
                    &&& c.base > 32
                    &&& c.base + c.md.size <= u64::MAX
                    &&& c.md.size < 0x4000_0000_0000_0000
                    &&& c.md.drop_vptr < 0x8000_0000_0000_0000
                    &&& c.region.raw + 32 <= c.base
                    &&& c.base + c.md.size <= c.region.raw + c.region.layout.size
                }
            &&& forall|i: int, j: int|
                0 <= i < h.len() && 0 <= j < h.len() && i != j ==> {
                    let (a, b) = (#[trigger] h[i], #[trigger] h[j]);
                    a.base + a.md.size <= b.base - 32 || b.base + b.md.size <= a.base - 32
                }
        },
{
    if heap_wf(h) {
        assert forall|i: int| 0 <= i < h.len() implies {
            let c = #[trigger] h[i];
            &&& c.base > 32
            &&& c.base + c.md.size <= u64::MAX
            &&& c.md.size < 0x4000_0000_0000_0000
            &&& c.md.drop_vptr < 0x8000_0000_0000_0000
            &&& c.region.raw + 32 <= c.base
            &&& c.base + c.md.size <= c.region.raw + c.region.layout.size
        } by {
            assert(chunk_wf(h[i]));
        }
        assert forall|i: int, j: int|
            0 <= i < h.len() && 0 <= j < h.len() && i != j implies {
            let (a, b) = (#[trigger] h[i], #[trigger] h[j]);
            a.base + a.md.size <= b.base - 32 || b.base + b.md.size <= a.base - 32
        } by {
            assert(apart(h[i], h[j]));
        }
    }
    if {
        &&& forall|i: int|
            0 <= i < h.len() ==> {
                let c = #[trigger] h[i];
                &&& c.base > 32
                &&& c.base + c.md.size <= u64::MAX
                &&& c.md.size < 0x4000_0000_0000_0000
                &&& c.md.drop_vptr < 0x8000_0000_0000_0000
                &&& c.region.raw + 32 <= c.base
                &&& c.base + c.md.size <= c.region.raw + c.region.layout.size
            }
        &&& forall|i: int, j: int|
            0 <= i < h.len() && 0 <= j < h.len() && i != j ==> {
                let (a, b) = (#[trigger] h[i], #[trigger] h[j]);
                a.base + a.md.size <= b.base - 32 || b.base + b.md.size <= a.base - 32
            }
    } {
        assert forall|i: int| 0 <= i < h.len() implies chunk_wf(#[trigger] h[i]) by {}
        assert forall|i: int, j: int|
            0 <= i < h.len() && 0 <= j < h.len() && i != j implies apart(
            #[trigger] h[i],
            #[trigger] h[j],
        ) by {}
    }
}

/// Looking a block up by its address gives the one block that starts there, and
/// there is one exactly when some block does.
pub proof fn law_blocks_are_known_by_their_addresses(h: Seq<Chunk>, base: u64, i: int)
    requires
        heap_wf(h),
        0 <= i < h.len(),
    ensures
        has_base(h, h[i].base),
        has_base(h, base) ==> exists|j: int| 0 <= j < h.len() && (#[trigger] h[j]).base == base,
        h[i].base == base ==> index_of(h, base) == i && md_of(h, base) == h[i].md,
{
    lemma_index_unique(h, i);
    if has_base(h, base) {
        lemma_index_of(h, base);
    }
}

/// Replacing the metadata of a block changes that of no other block, and nothing
/// else.
pub proof fn law_metadata_is_replaced(h: Seq<Chunk>, i: int, md: BlockMetadata, k: int)
    requires
        heap_wf(h),
        0 <= i < h.len(),
        0 <= k < h.len(),
    ensures
        with_md(h, h[i].base, md).len() == h.len(),
        with_md(h, h[i].base, md)[i].md == md,
        with_md(h, h[i].base, md)[i].base == h[i].base,
        with_md(h, h[i].base, md)[i].region == h[i].region,
        k != i ==> with_md(h, h[i].base, md)[k] == h[k],
{
    lemma_index_unique(h, i);
}

/// Memory is vacant when it has no byte in common with any block or with the
/// thirty-two bytes in front of it. No block ends above an address when the last
/// byte of each is below it.
pub proof fn law_vacant_means_clear(h: Seq<Chunk>, lo: int, hi: int, top: u64)
    ensures
        vacant(h, lo, hi) <==> forall|i: int|
            0 <= i < h.len() ==> {
                let c = #[trigger] h[i];
                c.base + c.md.size <= lo || hi <= c.base - 32
            },
        below_top(h, top) <==> forall|i: int|
            0 <= i < h.len() ==> {
                let c = #[trigger] h[i];
                c.base + c.md.size <= top
            },
{
    if vacant(h, lo, hi) {
        assert forall|i: int| 0 <= i < h.len() implies {
            let c = #[trigger] h[i];
            c.base + c.md.size <= lo || hi <= c.base - 32
        } by {
            assert(chunk_end(h[i]) <= lo || hi <= h[i].base - HEADER_SIZE);
        }
    }
    if forall|i: int|
        0 <= i < h.len() ==> {
            let c = #[trigger] h[i];
            c.base + c.md.size <= lo || hi <= c.base - 32
        } {
        assert forall|i: int| 0 <= i < h.len() implies chunk_end(#[trigger] h[i]) <= lo || hi
            <= h[i].base - HEADER_SIZE by {}
    }
    if below_top(h, top) {
        assert forall|i: int| 0 <= i < h.len() implies {
            let c = #[trigger] h[i];
            c.base + c.md.size <= top
        } by {
            assert(chunk_end(h[i]) <= top);
        }
    }
    if forall|i: int|
        0 <= i < h.len() ==> {
            let c = #[trigger] h[i];
            c.base + c.md.size <= top
        } {
        assert forall|i: int| 0 <= i < h.len() implies chunk_end(#[trigger] h[i]) <= top by {}
    }
}

} // verus!
